//! Questions about a tree: what can be reached from a node, which nodes can
//! still be solved, and in how many ways.

use super::{GameTree, GameTreeNode, NodeView};
use crate::board::{Board, Position};
use std::collections::VecDeque;
use crate::adapters::children_slice;
use vstd::prelude::*;

verus! {

/// The views of the nodes in a list.
pub open spec fn node_views<const SIZE: u8>(nodes: Seq<&GameTreeNode<SIZE>>) -> Seq<
    NodeView<SIZE>,
> {
    Seq::new(nodes.len(), |i: int| nodes[i]@)
}

impl<const SIZE: u8> GameTree<SIZE> {
    /// The nodes of `tree` that `children` names, in order; an index that
    /// names no node is passed over.
    pub open spec fn nodes_of(tree: Seq<NodeView<SIZE>>, children: Seq<usize>) -> Seq<
        NodeView<SIZE>,
    >
        decreases children.len(),
    {
        if children.len() == 0 {
            Seq::empty()
        } else {
            let rest = Self::nodes_of(tree, children.drop_last());
            if children.last() < tree.len() {
                rest.push(tree[children.last() as int])
            } else {
                rest
            }
        }
    }

    /// Whether child `k` of `node` is a node of `tree` with fewer pegs than
    /// `node` has, as every child is in a tree in which every step down
    /// takes pegs off the board.
    pub open spec fn descends(tree: Seq<NodeView<SIZE>>, node: NodeView<SIZE>, k: int) -> bool {
        node.children[k] < tree.len() && tree[node.children[k] as int].board@.len()
            < node.board@.len()
    }

    /// The number of ways from `node` down to a board with a single peg: 1
    /// where `node` holds such a board, and else the sum of the numbers of
    /// its children. Only steps that take pegs off the board count, which
    /// makes the definition well founded; in a tree grown by jumps every
    /// step is one.
    pub open spec fn solution_count(tree: Seq<NodeView<SIZE>>, node: NodeView<SIZE>) -> nat
        decreases node.board@.len(), 1nat, 0nat,
    {
        if node.board@.len() == 1 {
            1
        } else {
            Self::solution_count_among(tree, node, node.children.len())
        }
    }

    /// The sum of the numbers of ways down from the first `n` children of
    /// `node`.
    pub open spec fn solution_count_among(
        tree: Seq<NodeView<SIZE>>,
        node: NodeView<SIZE>,
        n: nat,
    ) -> nat
        decreases node.board@.len(), 0nat, n,
    {
        if n == 0 {
            0
        } else {
            Self::solution_count_among(tree, node, (n - 1) as nat) + (if Self::descends(
                tree,
                node,
                n - 1,
            ) {
                Self::solution_count(tree, tree[node.children[n - 1] as int])
            } else {
                0
            })
        }
    }

    /// The children of `node` from which a board with a single peg can be
    /// reached, in order, and behind them `usize::MAX` where `node` itself
    /// holds such a board.
    pub open spec fn solvable_list(tree: Seq<NodeView<SIZE>>, node: NodeView<SIZE>) -> Seq<usize>
        decreases node.board@.len(), 1nat, 0nat,
    {
        let kept = Self::solvable_among(tree, node, node.children.len());
        if node.board@.len() == 1 {
            kept.push(usize::MAX)
        } else {
            kept
        }
    }

    /// Those of the first `n` children of `node` whose own list is not
    /// empty.
    pub open spec fn solvable_among(tree: Seq<NodeView<SIZE>>, node: NodeView<SIZE>, n: nat) -> Seq<
        usize,
    >
        decreases node.board@.len(), 0nat, n,
    {
        if n == 0 {
            Seq::empty()
        } else {
            let rest = Self::solvable_among(tree, node, (n - 1) as nat);
            if Self::descends(tree, node, n - 1) && Self::solvable_list(
                tree,
                tree[node.children[n - 1] as int],
            ).len() > 0 {
                rest.push(node.children[n - 1])
            } else {
                rest
            }
        }
    }

    /// The sum over more children is no smaller.
    pub proof fn lemma_solution_count_grows(
        tree: Seq<NodeView<SIZE>>,
        node: NodeView<SIZE>,
        a: nat,
        b: nat,
    )
        requires
            a <= b,
        ensures
            Self::solution_count_among(tree, node, a) <= Self::solution_count_among(tree, node, b),
        decreases b,
    {
        if a < b {
            Self::lemma_solution_count_grows(tree, node, a, (b - 1) as nat);
        }
    }

    /// In a tree in which every step down takes pegs off the board, the
    /// list of what can be solved from a node is empty exactly when no way
    /// leads from the node down to a single peg.
    pub proof fn lemma_solvable_iff_counted(tree: Seq<NodeView<SIZE>>, node: NodeView<SIZE>)
        requires
            Self::descending(tree),
            Self::fits(tree, node),
        ensures
            Self::solvable_list(tree, node).len() > 0 <==> Self::solution_count(tree, node) > 0,
        decreases node.board@.len(), 1nat, 0nat,
    {
        Self::lemma_solvable_among_iff_counted(tree, node, node.children.len());
    }

    /// The same of the first `n` children of a node.
    proof fn lemma_solvable_among_iff_counted(
        tree: Seq<NodeView<SIZE>>,
        node: NodeView<SIZE>,
        n: nat,
    )
        requires
            Self::descending(tree),
            Self::fits(tree, node),
            n <= node.children.len(),
        ensures
            Self::solvable_among(tree, node, n).len() > 0 <==> Self::solution_count_among(
                tree,
                node,
                n,
            ) > 0,
        decreases node.board@.len(), 0nat, n,
    {
        if n > 0 {
            Self::lemma_solvable_among_iff_counted(tree, node, (n - 1) as nat);
            assert(Self::descends(tree, node, n - 1));
            let child = tree[node.children[n - 1] as int];
            Self::lemma_solvable_iff_counted(tree, child);
        }
    }

    /// A node with a single peg counts as one way, and a node with more pegs
    /// and a single child counts as many ways as the child.
    pub proof fn lemma_solution_count_small(tree: Seq<NodeView<SIZE>>, node: NodeView<SIZE>)
        requires
            Self::fits(tree, node),
        ensures
            node.board@.len() == 1 ==> Self::solution_count(tree, node) == 1,
            node.board@.len() != 1 && node.children.len() == 0 ==> Self::solution_count(tree, node)
                == 0,
            node.board@.len() != 1 && node.children.len() == 1 ==> Self::solution_count(tree, node)
                == Self::solution_count(tree, tree[node.children[0] as int]),
    {
        if node.board@.len() != 1 && node.children.len() == 1 {
            assert(Self::descends(tree, node, 0));
            assert(Self::solution_count_among(tree, node, 0) == 0);
            assert(Self::solution_count_among(tree, node, 1) == Self::solution_count_among(
                tree,
                node,
                0,
            ) + Self::solution_count(tree, tree[node.children[0] as int]));
        }
    }

    /// Whether node `i` is the node `from` at which a search began or was
    /// added to a tree that had `before` nodes.
    pub open spec fn visited(before: nat, from: int, i: int) -> bool {
        i == from || before <= i
    }

    /// Whether some child of node `i` holds the board with the pegs
    /// `target`.
    pub open spec fn leads_to(tree: Seq<NodeView<SIZE>>, i: int, target: Set<Position>) -> bool {
        exists|j: int|
            0 <= j < tree.len() && tree[i].children.contains(j as usize) && (#[trigger] tree[j]).board@
                == target
    }

    /// Whether every legal jump on the board of node `i` leads to a child of
    /// node `i`.
    pub open spec fn explored(tree: Seq<NodeView<SIZE>>, i: int) -> bool {
        forall|from: Position, to: Position|
            (#[trigger] tree[i].board.jumped(from, to)).is_some() ==> Self::leads_to(
                tree,
                i,
                tree[i].board.after_jump(from, to),
            )
    }

    /// Whether `new` has every node of `old`, with the same board.
    pub open spec fn extends(old: Seq<NodeView<SIZE>>, new: Seq<NodeView<SIZE>>) -> bool {
        &&& old.len() <= new.len()
        &&& forall|i: int| 0 <= i < old.len() ==> (#[trigger] new[i]).board == old[i].board
    }

    /// Whether the board of node `j` is what a legal jump makes of the board
    /// of a visited node.
    pub open spec fn produced(tree: Seq<NodeView<SIZE>>, before: nat, from: int, j: int) -> bool {
        exists|i: int|
            0 <= i < tree.len() && Self::visited(before, from, i) && (#[trigger] tree[i]).board.jumps_to(
                tree[j].board,
            )
    }

    /// What a search from node `from` makes of the tree `old` and finds: the
    /// tree `new` and the list `found`.
    ///
    /// The visited nodes are `from` and the nodes that the search added. The
    /// old nodes keep their boards. The list holds the visited nodes with a
    /// single peg, each once. Every legal jump on the board of a visited node
    /// leads to a child of that node, and the board of every added node is
    /// what a legal jump makes of the board of a visited node.
    pub open spec fn searched(
        old: Seq<NodeView<SIZE>>,
        from: int,
        new: Seq<NodeView<SIZE>>,
        found: Seq<usize>,
    ) -> bool {
        &&& Self::well_formed(new)
        &&& Self::extends(old, new)
        &&& forall|k: int|
            0 <= k < found.len() ==> (#[trigger] found[k]) < new.len() && Self::visited(
                old.len(),
                from,
                found[k] as int,
            ) && new[found[k] as int].board@.len() == 1
        &&& forall|a: int, b: int| 0 <= a < b < found.len() ==> found[a] != found[b]
        &&& forall|i: int|
            0 <= i < new.len() && Self::visited(old.len(), from, i) ==> Self::explored(new, i) && ((
            #[trigger] new[i]).board@.len() == 1 ==> found.contains(i as usize))
        &&& forall|j: int| old.len() <= j < new.len() ==> #[trigger] Self::produced(new, old.len(), from, j)
    }

    /// Where every legal jump on the board of every node leads to a child
    /// of that node, the tree holds every board on every way that starts at
    /// the board of one of its nodes.
    pub proof fn lemma_explored_holds_way(
        tree: Seq<NodeView<SIZE>>,
        i: int,
        way: Seq<Board<SIZE>>,
        k: int,
    )
        requires
            Self::well_formed(tree),
            forall|j: int| 0 <= j < tree.len() ==> Self::explored(tree, j),
            0 <= i < tree.len(),
            Board::<SIZE>::is_way(way),
            way[0] == tree[i].board,
            0 <= k < way.len(),
        ensures
            exists|j: int| Self::holds_at(tree, j, way[k]),
        decreases k,
    {
        if k == 0 {
            assert(Self::holds_at(tree, i, way[0]));
        } else {
            Self::lemma_explored_holds_way(tree, i, way, k - 1);
            let board = way[k - 1];
            let j = choose|j: int| Self::holds_at(tree, j, board);
            assert(board.wf() && board.jumps_to(way[k - 1 + 1]));
            let (from, to) = choose|from: Position, to: Position|
                (#[trigger] board.jumped(from, to)).is_some() && way[k]@ == board.after_jump(
                    from,
                    to,
                );
            assert(Self::explored(tree, j));
            assert(tree[j].board.jumped(from, to).is_some());
            assert(Self::leads_to(tree, j, board.after_jump(from, to)));
            let c = choose|c: int|
                0 <= c < tree.len() && tree[j].children.contains(c as usize) && (#[trigger] tree[c]).board@
                    == board.after_jump(from, to);
            assert(way[k].wf());
            tree[c].board.lemma_view_determines(way[k]);
            assert(Self::holds_at(tree, c, way[k]));
        }
    }

    /// After a search, legal jumps lead from the board of `from` to the
    /// board of every visited node.
    pub proof fn lemma_visited_reached(
        old: Seq<NodeView<SIZE>>,
        from: int,
        new: Seq<NodeView<SIZE>>,
        found: Seq<usize>,
        j: int,
    )
        requires
            0 <= from < old.len(),
            Self::searched(old, from, new, found),
            0 <= j < new.len(),
            Self::visited(old.len(), from, j),
        ensures
            new[from].board.reaches(new[j].board),
        decreases 64 - new[j].board@.len(),
    {
        assert(new[from].board.wf());
        if j == from {
            let way = seq![new[from].board];
            assert(Board::<SIZE>::is_way(way));
            assert(way[0] == new[from].board && way.last() == new[j].board);
        } else {
            assert(Self::produced(new, old.len(), from, j));
            let i = choose|i: int|
                0 <= i < new.len() && Self::visited(old.len(), from, i) && (#[trigger] new[i]).board.jumps_to(
                    new[j].board,
                );
            let (f, t) = choose|f: Position, t: Position|
                (#[trigger] new[i].board.jumped(f, t)).is_some() && new[j].board@
                    == new[i].board.after_jump(f, t);
            new[i].board.lemma_jump_takes_a_peg(f, t);
            assert(new[i].board.wf() && new[j].board.wf());
            new[i].board.lemma_count_bounded();
            Self::lemma_visited_reached(old, from, new, found, i);
            let way = choose|way: Seq<Board<SIZE>>|
                #[trigger] Board::<SIZE>::is_way(way) && way[0] == new[from].board && way.last()
                    == new[i].board;
            let longer = way.push(new[j].board);
            assert forall|k: int| 0 <= k < longer.len() implies (#[trigger] longer[k]).wf() && (k
                + 1 < longer.len() ==> longer[k].jumps_to(longer[k + 1])) by {
                if k < way.len() {
                    assert(longer[k] == way[k]);
                    if k + 1 < way.len() {
                        assert(longer[k + 1] == way[k + 1]);
                    }
                }
            }
            assert(Board::<SIZE>::is_way(longer));
            assert(longer[0] == new[from].board && longer.last() == new[j].board);
        }
    }

    /// A search from the root of a tree that holds nothing but its root
    /// finds a node exactly when the board of the root can be solved: when
    /// legal jumps lead from it to a board with a single peg.
    pub proof fn lemma_fresh_search_solves(
        old: Seq<NodeView<SIZE>>,
        new: Seq<NodeView<SIZE>>,
        found: Seq<usize>,
    )
        requires
            old.len() == 1,
            Self::searched(old, 0, new, found),
        ensures
            found.len() > 0 <==> exists|target: Board<SIZE>|
                target.wf() && target@.len() == 1 && #[trigger] old[0].board.reaches(target),
    {
        assert(new[0].board == old[0].board);
        if found.len() > 0 {
            let j = found[0] as int;
            Self::lemma_visited_reached(old, 0, new, found, j);
            assert(new[j].board.wf() && new[j].board@.len() == 1 && old[0].board.reaches(
                new[j].board,
            ));
        }
        if exists|target: Board<SIZE>|
            target.wf() && target@.len() == 1 && #[trigger] old[0].board.reaches(target) {
            let target = choose|target: Board<SIZE>|
                target.wf() && target@.len() == 1 && #[trigger] old[0].board.reaches(target);
            let way = choose|way: Seq<Board<SIZE>>|
                #[trigger] Board::<SIZE>::is_way(way) && way[0] == old[0].board && way.last()
                    == target;
            assert forall|j: int| 0 <= j < new.len() implies Self::explored(new, j) by {
                assert(Self::visited(1, 0, j));
            }
            Self::lemma_explored_holds_way(new, 0, way, way.len() - 1);
            let j = choose|j: int| Self::holds_at(new, j, target);
            assert(Self::visited(1, 0, j));
            assert(new[j].board@.len() == 1);
            assert(found.contains(j as usize));
        }
    }

    /// What making the jumps in `moves` from the `m`-th on, each on `board`,
    /// and inserting what each leaves below node `idx` makes of `tree` and of
    /// the nodes in `queue` that wait to be visited: every node that an
    /// insertion adds joins the queue at its end.
    pub open spec fn explore_moves(
        tree: Seq<NodeView<SIZE>>,
        queue: Seq<usize>,
        idx: int,
        board: Board<SIZE>,
        moves: Seq<(Position, Position, Position)>,
        m: int,
    ) -> (Seq<NodeView<SIZE>>, Seq<usize>)
        decreases moves.len() - m,
    {
        if m < 0 || m >= moves.len() {
            (tree, queue)
        } else {
            let next = board.jump_result(moves[m].0, moves[m].2);
            let (grown, reused, node) = Self::pushed(tree, idx, next);
            Self::explore_moves(
                grown,
                if reused {
                    queue
                } else {
                    queue.push(node)
                },
                idx,
                board,
                moves,
                m + 1,
            )
        }
    }

    /// What a search makes of `tree` and finds, with the nodes in `queue`
    /// waiting to be visited and the nodes in `found` found so far.
    ///
    /// The search visits the last node of the queue: it lists the node
    /// where its board holds a single peg, makes every legal jump on its
    /// board, and goes on with the tree and the queue that this leaves. It
    /// ends when the queue is empty. A step adds a node or shortens the
    /// queue, for every tree that a `usize` can count; the test for this
    /// only serves to make the definition well founded.
    pub open spec fn explore_from(
        tree: Seq<NodeView<SIZE>>,
        queue: Seq<usize>,
        found: Seq<usize>,
    ) -> (Seq<NodeView<SIZE>>, Seq<usize>)
        decreases usize::MAX - tree.len(), queue.len(),
    {
        if queue.len() == 0 {
            (tree, found)
        } else {
            let idx = queue.last() as int;
            let board = tree[idx].board;
            let listed = if board@.len() == 1 {
                found.push(queue.last())
            } else {
                found
            };
            let (grown, waiting) = Self::explore_moves(
                tree,
                queue.drop_last(),
                idx,
                board,
                board.all_moves(),
                0,
            );
            if grown.len() <= usize::MAX && (tree.len() < grown.len() || (tree.len() == grown.len()
                && waiting.len() < queue.len())) {
                Self::explore_from(grown, waiting, listed)
            } else {
                (grown, listed)
            }
        }
    }

    /// A child that holds a board is still there when the tree has grown and
    /// the node has kept its children.
    pub proof fn lemma_leads_to_kept(
        old: Seq<NodeView<SIZE>>,
        new: Seq<NodeView<SIZE>>,
        i: int,
        target: Set<Position>,
    )
        requires
            0 <= i < old.len(),
            Self::extends(old, new),
            Self::leads_to(old, i, target),
            forall|c: usize| old[i].children.contains(c) ==> new[i].children.contains(c),
        ensures
            Self::leads_to(new, i, target),
    {
        let j = choose|j: int|
            0 <= j < old.len() && old[i].children.contains(j as usize) && (#[trigger] old[j]).board@
                == target;
        assert(0 <= j < new.len() && new[i].children.contains(j as usize) && new[j].board@
            == target);
    }

    /// A node whose jumps all lead to its children stays so when the tree
    /// has grown and the node has kept its children.
    pub proof fn lemma_explored_kept(old: Seq<NodeView<SIZE>>, new: Seq<NodeView<SIZE>>, i: int)
        requires
            0 <= i < old.len(),
            Self::extends(old, new),
            Self::explored(old, i),
            forall|c: usize| old[i].children.contains(c) ==> new[i].children.contains(c),
        ensures
            Self::explored(new, i),
    {
        assert forall|from: Position, to: Position|
            (#[trigger] new[i].board.jumped(from, to)).is_some() implies Self::leads_to(
            new,
            i,
            new[i].board.after_jump(from, to),
        ) by {
            assert(old[i].board.jumped(from, to).is_some());
            Self::lemma_leads_to_kept(old, new, i, old[i].board.after_jump(from, to));
        }
    }

    /// Makes every legal jump on the board of node `from`, then on the board
    /// of every node that this adds to the tree, and so on until no jump
    /// adds a node. Gives the nodes with a single peg among `from` and the
    /// added nodes, each once. Afterwards every legal jump on the board of
    /// `from` or of an added node leads to a child of that node. The search
    /// goes on from the node that was added last.
    pub fn explore(&mut self, from: usize) -> (succ: Vec<usize>)
        requires
            from < old(self)@.len(),
        ensures
            (final(self)@, succ@) == Self::explore_from(
                old(self)@,
                seq![from],
                Seq::<usize>::empty(),
            ),
            Self::searched(old(self)@, from as int, final(self)@, succ@),
            Self::descending(old(self)@) ==> Self::descending(final(self)@),
    {
        let ghost before = self@;
        let ghost n0 = before.len();
        let mut qu: VecDeque<usize> = VecDeque::with_capacity(1024);
        let mut succ: Vec<usize> = Vec::with_capacity(256);
        qu.push_back(from);
        let ghost mut done: Set<int> = Set::empty();
        proof {
            use_type_invariant(&*self);
            assert(qu@[0] == from);
            assert(qu@ =~= seq![from]);
        }
        let ghost goal = Self::explore_from(before, seq![from], Seq::<usize>::empty());
        while qu.len() > 0
            invariant
                Self::explore_from(self@, qu@, succ@) == goal,
                Self::descending(before) ==> Self::descending(self@),
                Self::well_formed(self@),
                Self::extends(before, self@),
                n0 == before.len(),
                from < n0,
                forall|k: int|
                    0 <= k < qu@.len() ==> (#[trigger] qu@[k]) < self@.len() && Self::visited(
                        n0,
                        from as int,
                        qu@[k] as int,
                    ) && !done.contains(qu@[k] as int),
                forall|a: int, b: int| 0 <= a < b < qu@.len() ==> qu@[a] != qu@[b],
                forall|i: int|
                    0 <= i < self@.len() && Self::visited(n0, from as int, i) ==> done.contains(i)
                        || qu@.contains(i as usize),
                forall|i: int|
                    #[trigger] done.contains(i) ==> 0 <= i < self@.len() && Self::explored(
                        self@,
                        i,
                    ) && (self@[i].board@.len() == 1 ==> succ@.contains(i as usize)),
                forall|k: int|
                    0 <= k < succ@.len() ==> done.contains(#[trigger] succ@[k] as int)
                        && Self::visited(n0, from as int, succ@[k] as int) && self@[succ@[k] as int].board@.len()
                        == 1,
                forall|a: int, b: int| 0 <= a < b < succ@.len() ==> succ@[a] != succ@[b],
                forall|j: int|
                    n0 <= j < self@.len() ==> #[trigger] Self::produced(self@, n0, from as int, j),
            decreases usize::MAX - self@.len(), qu@.len(),
        {
            let ghost queue_before = qu@;
            let brd_idx = qu.pop_back().unwrap();
            assert(queue_before[queue_before.len() - 1] == brd_idx);
            let board = self.get(brd_idx).unwrap().board;
            let ghost listed = succ@;
            if board.count() == 1 {
                succ.push(brd_idx);
                assert(succ@[listed.len() as int] == brd_idx);
            }
            proof {
                assert forall|c: usize| listed.contains(c) implies succ@.contains(c) by {
                    let k = choose|k: int| 0 <= k < listed.len() && listed[k] == c;
                    assert(succ@[k] == c);
                }
                assert forall|k: int| 0 <= k < qu@.len() implies (#[trigger] qu@[k]) != brd_idx by {
                    assert(qu@[k] == queue_before[k]);
                }
                assert forall|i: int|
                    0 <= i < self@.len() && Self::visited(n0, from as int, i) implies done.contains(
                    i,
                ) || qu@.contains(i as usize) || i == brd_idx by {
                    if queue_before.contains(i as usize) {
                        let k = choose|k: int|
                            0 <= k < queue_before.len() && queue_before[k] == i as usize;
                        if k < qu@.len() {
                            assert(qu@[k] == i as usize);
                        }
                    }
                }
                assert forall|a: int, b: int| 0 <= a < b < succ@.len() implies succ@[a]
                    != succ@[b] by {
                    if b == listed.len() {
                        assert(listed[a] == succ@[a]);
                        assert(done.contains(succ@[a] as int));
                    } else {
                        assert(listed[a] == succ@[a] && listed[b] == succ@[b]);
                    }
                }
            }
            let moves = board.all_valid_moves();
            let ghost tree_at_pop = self@;
            let ghost queue_at_pop = qu@;
            let ghost pass = Self::explore_moves(
                tree_at_pop,
                queue_at_pop,
                brd_idx as int,
                board,
                moves@,
                0,
            );
            proof {
                assert(queue_at_pop =~= queue_before.drop_last());
                if board@.len() == 1 {
                    assert(succ@ =~= listed.push(brd_idx));
                }
            }
            let mut m: usize = 0;
            while m < moves.len()
                invariant
                    m <= moves@.len(),
                    Self::explore_moves(self@, qu@, brd_idx as int, board, moves@, m as int)
                        == pass,
                    Self::descending(before) ==> Self::descending(self@),
                    Self::well_formed(self@),
                    Self::extends(before, self@),
                    n0 == before.len(),
                    from < n0,
                    brd_idx < self@.len(),
                    Self::visited(n0, from as int, brd_idx as int),
                    !done.contains(brd_idx as int),
                    self@[brd_idx as int].board == board,
                    forall|f: Position, o: Position, t: Position|
                        moves@.contains((f, o, t)) <==> board.legal(f, o, t),
                    tree_at_pop.len() <= self@.len(),
                    self@.len() - tree_at_pop.len() == qu@.len() - queue_at_pop.len(),
                    forall|k: int|
                        0 <= k < qu@.len() ==> (#[trigger] qu@[k]) < self@.len() && Self::visited(
                            n0,
                            from as int,
                            qu@[k] as int,
                        ) && !done.contains(qu@[k] as int) && qu@[k] != brd_idx,
                    forall|a: int, b: int| 0 <= a < b < qu@.len() ==> qu@[a] != qu@[b],
                    forall|i: int|
                        0 <= i < self@.len() && Self::visited(n0, from as int, i) ==> done.contains(
                            i,
                        ) || qu@.contains(i as usize) || i == brd_idx,
                    forall|i: int|
                        #[trigger] done.contains(i) ==> 0 <= i < self@.len() && Self::explored(
                            self@,
                            i,
                        ) && (self@[i].board@.len() == 1 ==> succ@.contains(i as usize)),
                    forall|k: int|
                        0 <= k < succ@.len() ==> (done.contains(#[trigger] succ@[k] as int)
                            || succ@[k] == brd_idx) && Self::visited(n0, from as int, succ@[k] as int)
                            && succ@[k] < self@.len() && self@[succ@[k] as int].board@.len() == 1,
                    forall|a: int, b: int| 0 <= a < b < succ@.len() ==> succ@[a] != succ@[b],
                    board@.len() == 1 ==> succ@.contains(brd_idx),
                    forall|j: int|
                        n0 <= j < self@.len() ==> #[trigger] Self::produced(
                            self@,
                            n0,
                            from as int,
                            j,
                        ),
                    forall|j: int|
                        0 <= j < m ==> Self::leads_to(
                            self@,
                            brd_idx as int,
                            board.after_jump((#[trigger] moves@[j]).0, moves@[j].2),
                        ),
                decreases moves@.len() - m,
            {
                let mv = moves[m];
                let ghost prev = self@;
                proof {
                    assert(moves@.contains(mv));
                    assert(mv == (mv.0, mv.1, mv.2));
                    board.lemma_jumped_iff_legal(mv.0, mv.1, mv.2);
                }
                match self.apply_move(brd_idx, mv.0, mv.2) {
                    Some((existing, idx, next)) => {
                        proof {
                            Self::lemma_pushed(prev, brd_idx as int, next);
                            assert(Self::extends(prev, self@));
                            assert forall|j: int| n0 <= j < self@.len() implies #[trigger] Self::produced(
                                self@,
                                n0,
                                from as int,
                                j,
                            ) by {
                                if j < prev.len() {
                                    assert(Self::produced(prev, n0, from as int, j));
                                    let i = choose|i: int|
                                        0 <= i < prev.len() && Self::visited(n0, from as int, i) && (
                                        #[trigger] prev[i]).board.jumps_to(prev[j].board);
                                    assert(self@[i].board == prev[i].board);
                                    assert(self@[j].board == prev[j].board);
                                    assert(self@[i].board.jumps_to(self@[j].board));
                                } else {
                                    assert(self@[brd_idx as int].board.jumped(mv.0, mv.2).is_some());
                                    assert(self@[brd_idx as int].board.jumps_to(self@[j].board));
                                }
                            }
                            assert forall|i: int| #[trigger] done.contains(i) implies 0 <= i
                                < self@.len() && Self::explored(self@, i) && (self@[i].board@.len()
                                == 1 ==> succ@.contains(i as usize)) by {
                                assert(0 <= i < prev.len());
                                assert(prev[i].board@.len() == 1 ==> succ@.contains(i as usize));
                                assert(self@[i].board == prev[i].board);
                                Self::lemma_explored_kept(prev, self@, i);
                            }
                            assert forall|j: int| 0 <= j < m + 1 implies Self::leads_to(
                                self@,
                                brd_idx as int,
                                board.after_jump((#[trigger] moves@[j]).0, moves@[j].2),
                            ) by {
                                if j < m {
                                    Self::lemma_leads_to_kept(
                                        prev,
                                        self@,
                                        brd_idx as int,
                                        board.after_jump(moves@[j].0, moves@[j].2),
                                    );
                                } else {
                                    assert(self@[brd_idx as int].children.contains(idx));
                                    assert(self@[idx as int].board@ == board.after_jump(
                                        mv.0,
                                        mv.2,
                                    ));
                                }
                            }
                            assert forall|k: int| 0 <= k < succ@.len() implies (done.contains(
                                #[trigger] succ@[k] as int,
                            ) || succ@[k] == brd_idx) && Self::visited(
                                n0,
                                from as int,
                                succ@[k] as int,
                            ) && succ@[k] < self@.len() && self@[succ@[k] as int].board@.len()
                                == 1 by {
                                assert(prev[succ@[k] as int].board@.len() == 1);
                            }
                        }
                        let ghost queue_prev = qu@;
                        if !existing {
                            qu.push_back(idx);
                        }
                        proof {
                            assert(Self::explore_moves(
                                prev,
                                queue_prev,
                                brd_idx as int,
                                board,
                                moves@,
                                m as int,
                            ) == Self::explore_moves(
                                self@,
                                qu@,
                                brd_idx as int,
                                board,
                                moves@,
                                m + 1,
                            ));
                            assert forall|k: int| 0 <= k < qu@.len() implies (#[trigger] qu@[k])
                                < self@.len() && Self::visited(n0, from as int, qu@[k] as int)
                                && !done.contains(qu@[k] as int) && qu@[k] != brd_idx by {
                                if k < queue_prev.len() {
                                    assert(qu@[k] == queue_prev[k]);
                                }
                            }
                            assert forall|a: int, b: int| 0 <= a < b < qu@.len() implies qu@[a]
                                != qu@[b] by {
                                if b < queue_prev.len() {
                                    assert(qu@[a] == queue_prev[a] && qu@[b] == queue_prev[b]);
                                } else {
                                    assert(qu@[a] == queue_prev[a]);
                                }
                            }
                            assert forall|i: int|
                                0 <= i < self@.len() && Self::visited(
                                    n0,
                                    from as int,
                                    i,
                                ) implies done.contains(i) || qu@.contains(i as usize) || i
                                == brd_idx by {
                                if i < prev.len() {
                                    if queue_prev.contains(i as usize) {
                                        let k = choose|k: int|
                                            0 <= k < queue_prev.len() && queue_prev[k] == i as usize;
                                        assert(qu@[k] == i as usize);
                                    }
                                } else {
                                    assert(qu@[queue_prev.len() as int] == i as usize);
                                }
                            }
                        }
                    },
                    None => {},
                }
                m += 1;
            }
            proof {
                assert forall|f: Position, t: Position|
                    (#[trigger] self@[brd_idx as int].board.jumped(f, t)).is_some() implies Self::leads_to(
                    self@,
                    brd_idx as int,
                    self@[brd_idx as int].board.after_jump(f, t),
                ) by {
                    let o = board.jumped(f, t).unwrap();
                    board.lemma_jumped_iff_legal(f, o, t);
                    assert(moves@.contains((f, o, t)));
                    let j = choose|j: int| 0 <= j < moves@.len() && moves@[j] == (f, o, t);
                    assert(moves@[j].0 == f && moves@[j].2 == t);
                }
                done = done.insert(brd_idx as int);
                assert(pass == (self@, qu@));
                assert(Self::explore_from(tree_at_pop, queue_before, listed)
                    == Self::explore_from(self@, qu@, succ@));
            }
        }
        proof {
            assert forall|i: int|
                0 <= i < self@.len() && Self::visited(n0, from as int, i) implies Self::explored(
                self@,
                i,
            ) && ((#[trigger] self@[i]).board@.len() == 1 ==> succ@.contains(i as usize)) by {
                assert(!qu@.contains(i as usize));
                assert(done.contains(i));
            }
        }
        succ
    }

    /// The children of node `from` from which a board with a single peg can
    /// be reached, and behind them `usize::MAX` where the node itself holds
    /// such a board; `None` where the tree has no node `from`.
    ///
    /// Every step down the tree must take pegs off the board; else the walk
    /// down need not end.
    pub fn check_solvable(&self, from: usize) -> (r: Option<Vec<usize>>)
        requires
            Self::descending(self@),
        ensures
            r.is_some() == (from < self@.len()),
            r matches Some(list) ==> list@ == Self::solvable_list(self@, self@[from as int]),
    {
        match self.get(from) {
            Some(node) => Some(node.solvable(self)),
            None => None,
        }
    }
}

impl<const SIZE: u8> GameTreeNode<SIZE> {
    /// The node that this node names as its parent, or `None` where `p` has
    /// no such node.
    pub fn parent<'a>(&'a self, p: &'a GameTree<SIZE>) -> (r: Option<&'a GameTreeNode<SIZE>>)
        ensures
            r.is_some() == (self.parent < p@.len()),
            r matches Some(node) ==> node@ == p@[self.parent as int],
    {
        p.get(self.parent)
    }

    /// The nodes of `p` that this node names as its children, in order; an
    /// index that names no node of `p` is passed over.
    pub fn children<'a>(&'a self, p: &'a GameTree<SIZE>) -> (r: Vec<&'a GameTreeNode<SIZE>>)
        ensures
            node_views(r@) == GameTree::<SIZE>::nodes_of(p@, self@.children),
    {
        let idxs = children_slice(&self.children);
        let mut r: Vec<&'a GameTreeNode<SIZE>> = Vec::new();
        let mut k: usize = 0;
        assert(idxs@.take(0) =~= Seq::<usize>::empty());
        while k < idxs.len()
            invariant
                k <= idxs@.len(),
                idxs@ == self@.children,
                node_views(r@) == GameTree::<SIZE>::nodes_of(p@, idxs@.take(k as int)),
            decreases idxs@.len() - k,
        {
            let ghost before = r@;
            assert(idxs@.take(k + 1).drop_last() =~= idxs@.take(k as int));
            match p.get(idxs[k]) {
                Some(node) => {
                    r.push(node);
                    assert(node_views(r@) =~= node_views(before).push(node@));
                },
                None => {},
            }
            k += 1;
        }
        assert(idxs@.take(k as int) =~= idxs@);
        r
    }

    /// The children of this node from which a board with a single peg can be
    /// reached, in order, and behind them `usize::MAX` where this node itself
    /// holds such a board.
    ///
    /// Every step down `p`, and from this node to a child, must take pegs
    /// off the board; else the walk down need not end.
    pub fn solvable(&self, p: &GameTree<SIZE>) -> (r: Vec<usize>)
        requires
            GameTree::<SIZE>::descending(p@),
            GameTree::<SIZE>::fits(p@, self@),
        ensures
            r@ == GameTree::<SIZE>::solvable_list(p@, self@),
        decreases self.board@.len(),
    {
        let idxs = children_slice(&self.children);
        let mut r: Vec<usize> = Vec::new();
        let mut k: usize = 0;
        while k < idxs.len()
            invariant
                k <= idxs@.len(),
                idxs@ == self@.children,
                GameTree::<SIZE>::descending(p@),
                GameTree::<SIZE>::fits(p@, self@),
                r@ == GameTree::<SIZE>::solvable_among(p@, self@, k as nat),
            decreases idxs@.len() - k,
        {
            let ch = idxs[k];
            assert(GameTree::<SIZE>::descends(p@, self@, k as int));
            let node = p.get(ch).unwrap();
            if node.solvable(p).len() > 0 {
                r.push(ch);
            }
            k += 1;
        }
        if self.board.count() == 1 {
            r.push(usize::MAX);
        }
        r
    }

    /// The number of ways from this node down to a board with a single peg,
    /// or `None` where that number is too large for a `usize`.
    ///
    /// Every step down `p`, and from this node to a child, must take pegs
    /// off the board; else the walk down need not end.
    pub fn checked_num_solutions(&self, p: &GameTree<SIZE>) -> (r: Option<usize>)
        requires
            GameTree::<SIZE>::descending(p@),
            GameTree::<SIZE>::fits(p@, self@),
        ensures
            match r {
                Some(n) => n == GameTree::<SIZE>::solution_count(p@, self@),
                None => GameTree::<SIZE>::solution_count(p@, self@) > usize::MAX,
            },
        decreases self.board@.len(),
    {
        if self.board.count() == 1 {
            return Some(1);
        }
        let idxs = children_slice(&self.children);
        let mut sum: usize = 0;
        let mut k: usize = 0;
        while k < idxs.len()
            invariant
                k <= idxs@.len(),
                idxs@ == self@.children,
                self.board@.len() != 1,
                GameTree::<SIZE>::descending(p@),
                GameTree::<SIZE>::fits(p@, self@),
                sum == GameTree::<SIZE>::solution_count_among(p@, self@, k as nat),
            decreases idxs@.len() - k,
        {
            let ch = idxs[k];
            assert(GameTree::<SIZE>::descends(p@, self@, k as int));
            proof {
                GameTree::<SIZE>::lemma_solution_count_grows(
                    p@,
                    self@,
                    (k + 1) as nat,
                    idxs@.len(),
                );
            }
            let node = p.get(ch).unwrap();
            let below = match node.checked_num_solutions(p) {
                Some(n) => n,
                None => {
                    return None;
                },
            };
            sum = match sum.checked_add(below) {
                Some(s) => s,
                None => {
                    return None;
                },
            };
            k += 1;
        }
        Some(sum)
    }

    /// The number of ways from this node down to a board with a single peg.
    ///
    /// Every step down `p`, and from this node to a child, must take pegs
    /// off the board, else the walk down need not end; and the number must
    /// fit a `usize`.
    pub fn num_solutions(&self, p: &GameTree<SIZE>) -> (n: usize)
        requires
            GameTree::<SIZE>::descending(p@),
            GameTree::<SIZE>::fits(p@, self@),
            GameTree::<SIZE>::solution_count(p@, self@) <= usize::MAX,
        ensures
            n == GameTree::<SIZE>::solution_count(p@, self@),
    {
        self.checked_num_solutions(p).unwrap()
    }
}

} // verus!
