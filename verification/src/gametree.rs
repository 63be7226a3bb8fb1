//! The tree of explored game states: every board met so far is held once, and
//! each node lists the nodes that jumps made from it have led to.

use crate::adapters::{
    children_clone, children_new, children_push, children_remove, children_slice, find_position,
    items, Children,
};
use crate::board::{Board, Position};
use vstd::prelude::*;
use vstd::std_specs::cmp::PartialEqSpecImpl;

pub mod search;

verus! {

/// What a node holds, as plain values.
pub struct NodeView<const SIZE: u8> {
    pub board: Board<SIZE>,
    pub parent: usize,
    pub children: Seq<usize>,
}

/// One explored state: its board, the node it was last reached from, and the
/// nodes reached from it. The root has no parent and holds `usize::MAX` in
/// its place.
#[derive(Debug)]
pub struct GameTreeNode<const SIZE: u8> {
    pub board: Board<SIZE>,
    pub parent: usize,
    pub children: Children,
}

impl<const SIZE: u8> View for GameTreeNode<SIZE> {
    type V = NodeView<SIZE>;

    open spec fn view(&self) -> NodeView<SIZE> {
        NodeView { board: self.board, parent: self.parent, children: items(self.children) }
    }
}

/// Whether two lists hold the same indices in the same order.
fn same_items(a: &[usize], b: &[usize]) -> (r: bool)
    ensures
        r == (a@ == b@),
{
    if a.len() != b.len() {
        return false;
    }
    let mut k: usize = 0;
    while k < a.len()
        invariant
            k <= a@.len(),
            a@.len() == b@.len(),
            forall|j: int| 0 <= j < k ==> a@[j] == b@[j],
        decreases a@.len() - k,
    {
        if a[k] != b[k] {
            return false;
        }
        k += 1;
    }
    assert(a@ =~= b@);
    true
}

/// Two nodes are equal exactly when they hold the same board, name the same
/// parent and list the same children in the same order.
impl<const SIZE: u8> PartialEq for GameTreeNode<SIZE> {
    fn eq(&self, other: &Self) -> (r: bool) {
        self.board == other.board && self.parent == other.parent && same_items(
            children_slice(&self.children),
            children_slice(&other.children),
        )
    }
}

impl<const SIZE: u8> Eq for GameTreeNode<SIZE> {

}

impl<const SIZE: u8> PartialEqSpecImpl for GameTreeNode<SIZE> {
    open spec fn obeys_eq_spec() -> bool {
        true
    }

    open spec fn eq_spec(&self, other: &Self) -> bool {
        self@ == other@
    }
}

impl<const SIZE: u8> Clone for GameTreeNode<SIZE> {
    fn clone(&self) -> (c: Self)
        ensures
            c@ == self@,
    {
        GameTreeNode {
            board: self.board,
            parent: self.parent,
            children: children_clone(&self.children),
        }
    }
}

/// The nodes of a tree as plain values.
pub open spec fn views<const SIZE: u8>(states: Seq<GameTreeNode<SIZE>>) -> Seq<NodeView<SIZE>> {
    Seq::new(states.len(), |i: int| states[i]@)
}

/// The explored states. A node is named by its index, which it keeps for
/// good; the root is node 0.
#[derive(Debug)]
pub struct GameTree<const SIZE: u8> {
    states: Vec<GameTreeNode<SIZE>>,
}

impl<const SIZE: u8> View for GameTree<SIZE> {
    type V = Seq<NodeView<SIZE>>;

    closed spec fn view(&self) -> Seq<NodeView<SIZE>> {
        views(self.states@)
    }
}

impl<const SIZE: u8> Default for GameTree<SIZE> {
    /// The tree without nodes.
    fn default() -> (t: Self)
        ensures
            t@ == Seq::<NodeView<SIZE>>::empty(),
    {
        let t = Self { states: Vec::new() };
        assert(t@ =~= Seq::<NodeView<SIZE>>::empty());
        t
    }
}

/// What moving the item at `k` of a list to its end does: the list keeps
/// its items and its length, the items before `k` keep their places, those
/// behind move one place up, and a list without repeats stays so.
pub proof fn lemma_moved_to_end(list: Seq<usize>, k: int)
    requires
        0 <= k < list.len(),
    ensures
        ({
            let moved = list.remove(k).push(list[k]);
            &&& moved.len() == list.len()
            &&& moved.last() == list[k]
            &&& forall|j: int| 0 <= j < k ==> moved[j] == list[j]
            &&& forall|j: int| k <= j < list.len() - 1 ==> moved[j] == list[j + 1]
            &&& forall|c: usize| moved.contains(c) <==> list.contains(c)
            &&& list.no_duplicates() ==> moved.no_duplicates()
        }),
{
    let moved = list.remove(k).push(list[k]);
    let last = list.len() - 1;
    assert forall|c: usize| moved.contains(c) <==> list.contains(c) by {
        if list.contains(c) {
            let j = choose|j: int| 0 <= j < list.len() && list[j] == c;
            if j < k {
                assert(moved[j] == c);
            } else if j == k {
                assert(moved[last] == c);
            } else {
                assert(moved[j - 1] == c);
            }
        }
        if moved.contains(c) {
            let j = choose|j: int| 0 <= j < moved.len() && moved[j] == c;
            if j < k {
                assert(list[j] == c);
            } else if j == last {
                assert(list[k] == c);
            } else {
                assert(list[j + 1] == c);
            }
        }
    }
    if list.no_duplicates() {
        assert forall|a: int, b: int| 0 <= a < moved.len() && 0 <= b < moved.len() && a
            != b implies moved[a] != moved[b] by {
            let from = |j: int| if j == last { k } else if j < k { j } else { j + 1 };
            assert(moved[a] == list[from(a)] && moved[b] == list[from(b)]);
            assert(from(a) != from(b));
        }
    }
}

/// What appending an item to a list does: the list gains the item and keeps
/// the others, and a list without repeats that did not hold the item stays
/// without repeats.
pub proof fn lemma_appended(list: Seq<usize>, item: usize)
    ensures
        forall|c: usize| list.push(item).contains(c) <==> c == item || list.contains(c),
        list.no_duplicates() && !list.contains(item) ==> list.push(item).no_duplicates(),
{
    let longer = list.push(item);
    assert forall|c: usize| longer.contains(c) <==> c == item || list.contains(c) by {
        if list.contains(c) {
            let j = choose|j: int| 0 <= j < list.len() && list[j] == c;
            assert(longer[j] == c);
        }
        if c == item {
            assert(longer[list.len() as int] == c);
        }
        if longer.contains(c) {
            let j = choose|j: int| 0 <= j < longer.len() && longer[j] == c;
            if j < list.len() {
                assert(list[j] == c);
            }
        }
    }
    if list.no_duplicates() && !list.contains(item) {
        assert forall|a: int, b: int| 0 <= a < longer.len() && 0 <= b < longer.len() && a
            != b implies longer[a] != longer[b] by {
            if a < list.len() {
                assert(list.contains(list[a]));
            }
            if b < list.len() {
                assert(list.contains(list[b]));
            }
        }
    }
}

impl<const SIZE: u8> GameTree<SIZE> {
    /// Whether every child of `node` is a node of `tree`.
    pub open spec fn in_tree(tree: Seq<NodeView<SIZE>>, node: NodeView<SIZE>) -> bool {
        forall|k: int| 0 <= k < node.children.len() ==> (#[trigger] node.children[k]) < tree.len()
    }

    /// Whether every child of `node` is a node of `tree` with fewer pegs than
    /// `node` has.
    pub open spec fn fits(tree: Seq<NodeView<SIZE>>, node: NodeView<SIZE>) -> bool {
        forall|k: int|
            0 <= k < node.children.len() ==> (#[trigger] node.children[k]) < tree.len()
                && tree[node.children[k] as int].board@.len() < node.board@.len()
    }

    /// Whether every step from a node of `tree` to a child takes pegs off
    /// the board, as a jump does. A walk down such a tree ends.
    pub open spec fn descending(tree: Seq<NodeView<SIZE>>) -> bool {
        forall|i: int| 0 <= i < tree.len() ==> Self::fits(tree, #[trigger] tree[i])
    }

    /// Whether every node but a root is among the children of the node that
    /// it names as its parent, and a root names `usize::MAX`.
    pub open spec fn parents_known(tree: Seq<NodeView<SIZE>>) -> bool {
        forall|i: int|
            0 <= i < tree.len() ==> (#[trigger] tree[i]).parent == usize::MAX || (tree[i].parent
                < tree.len() && tree[tree[i].parent as int].children.contains(i as usize))
    }

    /// What holds of every tree: its boards are sound, no two nodes hold the
    /// same board, every child of a node is a node, no node has a child
    /// twice, and the parent of a node has the node among its children.
    pub open spec fn well_formed(tree: Seq<NodeView<SIZE>>) -> bool {
        &&& tree.len() <= usize::MAX
        &&& Self::parents_known(tree)
        &&& forall|i: int|
            0 <= i < tree.len() ==> (#[trigger] tree[i]).board.wf() && Self::in_tree(tree, tree[i])
                && tree[i].children.no_duplicates()
        &&& forall|i: int, j: int|
            0 <= i < j < tree.len() ==> (#[trigger] tree[i]).board != (#[trigger] tree[j]).board
    }

    /// Every tree is well formed.
    #[verifier::type_invariant]
    spec fn inv(self) -> bool {
        Self::well_formed(self@)
    }

    /// Whether node `i` of `tree` holds `board`.
    pub open spec fn holds_at(tree: Seq<NodeView<SIZE>>, i: int, board: Board<SIZE>) -> bool {
        0 <= i < tree.len() && tree[i].board == board
    }

    /// Whether `k` is the first place among the children of `after` at which
    /// a node holds `board`.
    pub open spec fn first_child_holding(
        tree: Seq<NodeView<SIZE>>,
        after: int,
        board: Board<SIZE>,
        k: int,
    ) -> bool {
        let ch = tree[after].children;
        &&& 0 <= k < ch.len()
        &&& Self::holds_at(tree, ch[k] as int, board)
        &&& forall|j: int| 0 <= j < k ==> !Self::holds_at(tree, #[trigger] ch[j] as int, board)
    }

    /// Whether `i` is the first node that holds `board`.
    pub open spec fn first_node_holding(
        tree: Seq<NodeView<SIZE>>,
        board: Board<SIZE>,
        i: int,
    ) -> bool {
        &&& Self::holds_at(tree, i, board)
        &&& forall|j: int| 0 <= j < i ==> (#[trigger] tree[j]).board != board
    }

    /// `tree` with the parent of node `i` set to `parent`.
    pub open spec fn with_parent(tree: Seq<NodeView<SIZE>>, i: int, parent: usize) -> Seq<
        NodeView<SIZE>,
    > {
        tree.update(i, NodeView { board: tree[i].board, parent, children: tree[i].children })
    }

    /// `tree` with the children of node `i` set to `children`.
    pub open spec fn with_children(tree: Seq<NodeView<SIZE>>, i: int, children: Seq<usize>) -> Seq<
        NodeView<SIZE>,
    > {
        tree.update(i, NodeView { board: tree[i].board, parent: tree[i].parent, children })
    }

    /// What inserting `board` below node `after` makes of `tree`, whether a
    /// node was reused, and the node that holds `board` afterwards.
    ///
    /// A child of `after` that holds `board` is moved to the end of the
    /// children of `after`, the others keeping their order. Failing that, a
    /// node anywhere in the tree that holds `board` becomes a new last child
    /// of `after`. Failing that too, a new node is added as the last child.
    /// In each case `after` becomes the parent of the node.
    pub open spec fn pushed(tree: Seq<NodeView<SIZE>>, after: int, board: Board<SIZE>) -> (
        Seq<NodeView<SIZE>>,
        bool,
        usize,
    ) {
        let ch = tree[after].children;
        if exists|k: int| Self::first_child_holding(tree, after, board, k) {
            let k = choose|k: int| Self::first_child_holding(tree, after, board, k);
            let reparented = Self::with_parent(tree, ch[k] as int, after as usize);
            (
                Self::with_children(
                    reparented,
                    after,
                    reparented[after].children.remove(k).push(ch[k]),
                ),
                true,
                ch[k],
            )
        } else if exists|i: int| Self::first_node_holding(tree, board, i) {
            let i = choose|i: int| Self::first_node_holding(tree, board, i);
            let reparented = Self::with_parent(tree, i, after as usize);
            (
                Self::with_children(
                    reparented,
                    after,
                    reparented[after].children.push(i as usize),
                ),
                true,
                i as usize,
            )
        } else {
            let grown = tree.push(
                NodeView { board, parent: after as usize, children: Seq::empty() },
            );
            (
                Self::with_children(grown, after, ch.push(tree.len() as usize)),
                false,
                tree.len() as usize,
            )
        }
    }

    /// The nodes of the tree that holds `board` at its root and nothing
    /// else.
    pub open spec fn start_tree(board: Board<SIZE>) -> Seq<NodeView<SIZE>> {
        seq![NodeView { board, parent: usize::MAX, children: Seq::<usize>::empty() }]
    }

    /// The tree that holds `board` at its root and nothing else.
    pub fn start(board: Board<SIZE>) -> (t: GameTree<SIZE>)
        ensures
            t@ == Self::start_tree(board),
            Self::well_formed(t@),
            Self::descending(t@),
    {
        proof {
            use_type_invariant(&board);
        }
        let mut states: Vec<GameTreeNode<SIZE>> = Vec::new();
        states.push(GameTreeNode { board, parent: usize::MAX, children: children_new() });
        assert(states@.len() == states.len());
        assert(views(states@) =~= Self::start_tree(board));
        GameTree { states }
    }

    /// Node `i`, or `None` where the tree has no such node.
    pub fn get(&self, i: usize) -> (r: Option<&GameTreeNode<SIZE>>)
        ensures
            r.is_some() == (i < self@.len()),
            r matches Some(node) ==> node@ == self@[i as int] && Self::in_tree(self@, node@),
            Self::well_formed(self@),
    {
        proof {
            use_type_invariant(self);
        }
        if i < self.states.len() {
            Some(&self.states[i])
        } else {
            None
        }
    }

    /// Whether every step from a node of the tree to a child takes pegs off
    /// the board.
    pub fn is_descending(&self) -> (r: bool)
        ensures
            r == Self::descending(self@),
    {
        proof {
            use_type_invariant(self);
        }
        let mut i: usize = 0;
        while i < self.states.len()
            invariant
                i <= self@.len(),
                self@.len() == self.states@.len(),
                Self::well_formed(self@),
                forall|j: int| 0 <= j < i ==> Self::fits(self@, #[trigger] self@[j]),
            decreases self@.len() - i,
        {
            let node = &self.states[i];
            let kids = children_slice(&node.children);
            let pegs = node.board.count();
            assert(Self::in_tree(self@, self@[i as int]));
            let mut k: usize = 0;
            while k < kids.len()
                invariant
                    i < self@.len(),
                    self@.len() == self.states@.len(),
                    k <= kids@.len(),
                    kids@ == self@[i as int].children,
                    pegs == self@[i as int].board@.len(),
                    Self::in_tree(self@, self@[i as int]),
                    forall|j: int|
                        0 <= j < k ==> (#[trigger] kids@[j]) < self@.len() && self@[kids@[j] as int].board@.len()
                            < pegs,
                decreases kids@.len() - k,
            {
                let c = kids[k];
                assert(self@[i as int].children[k as int] < self@.len());
                if self.states[c].board.count() >= pegs {
                    assert(!Self::fits(self@, self@[i as int]));
                    return false;
                }
                k += 1;
            }
            i += 1;
        }
        true
    }

    /// The first place among the children of `after` at which a node holds
    /// `board`, and that node.
    fn find_child(states: &Vec<GameTreeNode<SIZE>>, after: usize, board: Board<SIZE>) -> (r:
        Option<(usize, usize)>)
        requires
            Self::well_formed(views(states@)),
            after < states@.len(),
        ensures
            match r {
                Some((k, node)) => Self::first_child_holding(
                    views(states@),
                    after as int,
                    board,
                    k as int,
                ) && node == views(states@)[after as int].children[k as int],
                None => forall|k: int|
                    !Self::first_child_holding(views(states@), after as int, board, k),
            },
    {
        let holds = |child: &usize| -> (b: bool)
            requires
                *child < states@.len(),
            ensures
                b == (states@[*child as int].board == board),
            { states[*child].board == board };
        let kids = children_slice(&states[after].children);
        proof {
            let tree = views(states@);
            assert(Self::in_tree(tree, tree[after as int]));
            assert forall|i: int| 0 <= i < kids@.len() implies call_requires(
                holds,
                (&#[trigger] kids@[i],),
            ) by {
                assert(tree[after as int].children[i] < tree.len());
            }
        }
        match find_position(kids, holds) {
            Some((k, node)) => Some((k, *node)),
            None => None,
        }
    }

    /// The first node that holds `board`.
    fn find_node(states: &Vec<GameTreeNode<SIZE>>, board: Board<SIZE>) -> (r: Option<usize>)
        ensures
            match r {
                Some(i) => Self::first_node_holding(views(states@), board, i as int),
                None => forall|i: int| 0 <= i < states@.len() ==> (#[trigger] views(
                    states@,
                )[i]).board != board,
            },
    {
        let holds = |node: &GameTreeNode<SIZE>| -> (b: bool)
            ensures
                b == (node.board == board),
            { node.board == board };
        match find_position(states.as_slice(), holds) {
            Some((i, _)) => Some(i),
            None => None,
        }
    }

    /// The place found by a search from the front is the only first place.
    proof fn lemma_one_first_child(
        tree: Seq<NodeView<SIZE>>,
        after: int,
        board: Board<SIZE>,
        k: int,
    )
        requires
            Self::first_child_holding(tree, after, board, k),
        ensures
            (choose|j: int| Self::first_child_holding(tree, after, board, j)) == k,
    {
        let ch = tree[after].children;
        let j = choose|j: int| Self::first_child_holding(tree, after, board, j);
        if j < k {
            assert(!Self::holds_at(tree, ch[j] as int, board));
        }
        if k < j {
            assert(!Self::holds_at(tree, ch[k] as int, board));
        }
    }

    /// The node found by a search from the front is the only first node.
    proof fn lemma_one_first_node(tree: Seq<NodeView<SIZE>>, board: Board<SIZE>, i: int)
        requires
            Self::first_node_holding(tree, board, i),
        ensures
            (choose|j: int| Self::first_node_holding(tree, board, j)) == i,
    {
        let j = choose|j: int| Self::first_node_holding(tree, board, j);
        if j < i {
            assert(tree[j].board != board);
        }
        if i < j {
            assert(tree[i].board != board);
        }
    }

    /// Inserts `board` below node `after` of the nodes in `states`.
    fn insert(states: &mut Vec<GameTreeNode<SIZE>>, after: usize, board: Board<SIZE>) -> (r: (
        bool,
        usize,
    ))
        requires
            Self::well_formed(views(old(states)@)),
            board.wf(),
            after < old(states)@.len(),
        ensures
            (views(final(states)@), r.0, r.1) == Self::pushed(
                views(old(states)@),
                after as int,
                board,
            ),
            Self::well_formed(views(final(states)@)),
    {
        let ghost tree = views(states@);
        let r = match Self::find_child(states, after, board) {
            Some((k, node)) => {
                proof {
                    Self::lemma_one_first_child(tree, after as int, board, k as int);
                    assert(Self::in_tree(tree, tree[after as int]));
                    assert(tree[after as int].children[k as int] < tree.len());
                }
                states[node].parent = after;
                let moved = children_remove(&mut states[after].children, k);
                children_push(&mut states[after].children, moved);
                (true, node)
            },
            None => match Self::find_node(states, board) {
                Some(i) => {
                    proof {
                        Self::lemma_one_first_node(tree, board, i as int);
                    }
                    states[i].parent = after;
                    children_push(&mut states[after].children, i);
                    (true, i)
                },
                None => {
                    assert(!exists|i: int| Self::first_node_holding(tree, board, i));
                    let idx = states.len();
                    states.push(GameTreeNode { board, parent: after, children: children_new() });
                    children_push(&mut states[after].children, idx);
                    (false, idx)
                },
            },
        };
        proof {
            assert(states@.len() == states.len());
            assert(views(states@) =~= Self::pushed(tree, after as int, board).0);
            Self::lemma_pushed_well_formed(tree, after as int, board);
        }
        r
    }

    /// Inserts `board` below node `after` and gives whether a node was
    /// reused, and the node that holds `board`.
    ///
    /// `after` must be a node of the tree. Where every step down the tree
    /// took pegs off the board before and `board` holds fewer pegs than the
    /// board of `after`, as what a jump or the removal of a peg leaves
    /// does, every step down the tree takes pegs off afterwards too.
    pub fn push(&mut self, after: usize, board: Board<SIZE>) -> (r: (bool, usize))
        requires
            after < old(self)@.len(),
        ensures
            (final(self)@, r.0, r.1) == Self::pushed(old(self)@, after as int, board),
            Self::well_formed(final(self)@),
            Self::descending(old(self)@) && board@.len() < old(self)@[after as int].board@.len()
                ==> Self::descending(final(self)@),
    {
        proof {
            use_type_invariant(&*self);
            use_type_invariant(&board);
            if Self::descending(self@) && board@.len() < self@[after as int].board@.len() {
                Self::lemma_pushed_descending(self@, after as int, board);
            }
        }
        let mut states: Vec<GameTreeNode<SIZE>> = Vec::new();
        std::mem::swap(&mut states, &mut self.states);
        let r = Self::insert(&mut states, after, board);
        self.states = states;
        r
    }

    /// Where some node holds `board`, some node is the first to hold it.
    proof fn lemma_first_node(tree: Seq<NodeView<SIZE>>, board: Board<SIZE>, i: int)
        requires
            Self::holds_at(tree, i, board),
        ensures
            exists|j: int| Self::first_node_holding(tree, board, j),
        decreases i,
    {
        if exists|j: int| 0 <= j < i && tree[j].board == board {
            let j = choose|j: int| 0 <= j < i && tree[j].board == board;
            Self::lemma_first_node(tree, board, j);
        } else {
            assert(Self::first_node_holding(tree, board, i));
        }
    }

    /// Where some child of `after` holds `board`, some child is the first to
    /// hold it.
    proof fn lemma_first_child(tree: Seq<NodeView<SIZE>>, after: int, board: Board<SIZE>, k: int)
        requires
            0 <= k < tree[after].children.len(),
            Self::holds_at(tree, tree[after].children[k] as int, board),
        ensures
            exists|j: int| Self::first_child_holding(tree, after, board, j),
        decreases k,
    {
        let ch = tree[after].children;
        if exists|j: int| 0 <= j < k && Self::holds_at(tree, ch[j] as int, board) {
            let j = choose|j: int| 0 <= j < k && Self::holds_at(tree, ch[j] as int, board);
            Self::lemma_first_child(tree, after, board, j);
        } else {
            assert(Self::first_child_holding(tree, after, board, k));
        }
    }

    /// What an insertion does and what it leaves alone. The node that is
    /// given back holds `board`, has `after` as its parent and is the last
    /// child of `after`, where it stands once; every child that `after` had
    /// it still has, in the order it had them. No board changes, no node but
    /// `after` gains, loses or reorders children, and no node but the one
    /// given back changes its parent. A node is added, at the end and
    /// without children, exactly when none was reused, which is exactly when
    /// no node held `board` before.
    pub proof fn lemma_pushed(tree: Seq<NodeView<SIZE>>, after: int, board: Board<SIZE>)
        requires
            Self::well_formed(tree),
            0 <= after < tree.len(),
        ensures
            ({
                let (grown, reused, node) = Self::pushed(tree, after, board);
                let kids = grown[after].children;
                &&& reused == (exists|i: int| Self::holds_at(tree, i, board))
                &&& grown.len() == (if reused {
                    tree.len()
                } else {
                    tree.len() + 1
                })
                &&& !reused ==> node == tree.len() && grown[node as int].children.len() == 0
                &&& node < grown.len()
                &&& board != tree[after].board ==> node != after
                &&& grown[node as int].board == board
                &&& grown[node as int].parent == after
                &&& kids.len() > 0
                &&& kids.last() == node
                &&& kids.no_duplicates()
                &&& kids.drop_last() == (if tree[after].children.contains(node) {
                    tree[after].children.remove(tree[after].children.index_of(node))
                } else {
                    tree[after].children
                })
                &&& forall|c: usize| tree[after].children.contains(c) ==> kids.contains(c)
                &&& forall|c: usize| kids.contains(c) ==> c == node || tree[after].children.contains(c)
                &&& forall|i: int| 0 <= i < tree.len() ==> (#[trigger] grown[i]).board == tree[i].board
                &&& forall|i: int|
                    0 <= i < tree.len() && i != after ==> (#[trigger] grown[i]).children
                        == tree[i].children
                &&& forall|i: int|
                    0 <= i < tree.len() && i != node ==> (#[trigger] grown[i]).parent
                        == tree[i].parent
            }),
    {
        let ch = tree[after].children;
        let (grown, reused, node) = Self::pushed(tree, after, board);
        let kids = grown[after].children;
        assert(Self::in_tree(tree, tree[after]) && ch.no_duplicates());
        if exists|k: int| Self::first_child_holding(tree, after, board, k) {
            let k = choose|k: int| Self::first_child_holding(tree, after, board, k);
            assert(Self::holds_at(tree, ch[k] as int, board));
            assert(kids == ch.remove(k).push(ch[k]));
            lemma_moved_to_end(ch, k);
            assert(ch.contains(node));
            ch.index_of_first_ensures(node);
            assert(ch.index_of(node) == k);
            assert(kids.drop_last() =~= ch.remove(k));
        } else {
            let held = exists|i: int| Self::first_node_holding(tree, board, i);
            if exists|i: int| Self::holds_at(tree, i, board) {
                Self::lemma_first_node(tree, board, choose|i: int| Self::holds_at(tree, i, board));
            }
            assert(kids == ch.push(node));
            lemma_appended(ch, node);
            if ch.contains(node) {
                let k = choose|k: int| 0 <= k < ch.len() && ch[k] == node;
                assert(ch[k] < tree.len());
                assert(Self::holds_at(tree, ch[k] as int, board));
                Self::lemma_first_child(tree, after, board, k);
            }
            assert(kids.drop_last() =~= ch);
        }
        if reused && !(exists|i: int| Self::holds_at(tree, i, board)) {
            if exists|k: int| Self::first_child_holding(tree, after, board, k) {
                let k = choose|k: int| Self::first_child_holding(tree, after, board, k);
                assert(Self::holds_at(tree, ch[k] as int, board));
            } else {
                let i = choose|i: int| Self::first_node_holding(tree, board, i);
                assert(Self::holds_at(tree, i, board));
            }
        }
    }

    /// Inserting a board below the same node twice reuses, the second time,
    /// the node that the first insertion gave, adds no node and leaves the
    /// children of the node as the first insertion left them.
    pub proof fn lemma_pushed_twice(tree: Seq<NodeView<SIZE>>, after: int, board: Board<SIZE>)
        requires
            Self::well_formed(tree),
            board.wf(),
            Self::pushed(tree, after, board).0.len() <= usize::MAX,
            0 <= after < tree.len(),
        ensures
            ({
                let first = Self::pushed(tree, after, board);
                let second = Self::pushed(first.0, after, board);
                &&& second.1
                &&& second.2 == first.2
                &&& second.0.len() == first.0.len()
                &&& second.0[after].children == first.0[after].children
            }),
    {
        Self::lemma_pushed(tree, after, board);
        Self::lemma_pushed_well_formed(tree, after, board);
        let first = Self::pushed(tree, after, board);
        let kids = first.0[after].children;
        let last = kids.len() - 1;
        assert(Self::holds_at(first.0, kids[last] as int, board));
        Self::lemma_first_child(first.0, after, board, last);
        let k = choose|k: int| Self::first_child_holding(first.0, after, board, k);
        assert(Self::in_tree(first.0, first.0[after]));
        assert(kids[k] < first.0.len());
        assert(first.0[kids[k] as int].board == first.0[first.2 as int].board);
        assert(kids[k] == kids[last]);
        assert(k == last);
        Self::lemma_pushed(first.0, after, board);
        let second = Self::pushed(first.0, after, board);
        assert(second.0[after].children =~= kids.remove(k).push(kids[k]));
        assert(kids.remove(last).push(kids[last]) =~= kids);
    }

    /// Inserting the board of a node below its parent reuses the node and
    /// makes it the last child of its parent.
    pub proof fn lemma_pushed_own_board(tree: Seq<NodeView<SIZE>>, i: int)
        requires
            Self::well_formed(tree),
            0 <= i < tree.len(),
            tree[i].parent < tree.len(),
        ensures
            ({
                let above = tree[i].parent as int;
                let grown = Self::pushed(tree, above, tree[i].board);
                &&& grown.1
                &&& grown.2 == i
                &&& grown.0.len() == tree.len()
                &&& grown.0[above].children.last() == i
            }),
    {
        let above = tree[i].parent as int;
        let kids = tree[above].children;
        assert(kids.contains(i as usize));
        let k = choose|k: int| 0 <= k < kids.len() && kids[k] == i as usize;
        Self::lemma_pushed(tree, above, tree[i].board);
        Self::lemma_first_child(tree, above, tree[i].board, k);
        let first = choose|j: int| Self::first_child_holding(tree, above, tree[i].board, j);
        assert(Self::in_tree(tree, tree[above]));
        assert(kids[first] < tree.len());
        if kids[first] != i as usize {
            if (kids[first] as int) < i {
                assert(tree[kids[first] as int].board != tree[i].board);
            } else {
                assert(tree[i].board != tree[kids[first] as int].board);
            }
        }
    }

    /// An insertion of a sound board leaves a well-formed tree well formed.
    pub proof fn lemma_pushed_well_formed(
        tree: Seq<NodeView<SIZE>>,
        after: int,
        board: Board<SIZE>,
    )
        requires
            Self::well_formed(tree),
            board.wf(),
            Self::pushed(tree, after, board).0.len() <= usize::MAX,
            0 <= after < tree.len(),
        ensures
            Self::well_formed(Self::pushed(tree, after, board).0),
    {
        Self::lemma_pushed(tree, after, board);
        let (grown, reused, node) = Self::pushed(tree, after, board);
        assert forall|i: int| 0 <= i < grown.len() implies (#[trigger] grown[i]).parent
            == usize::MAX || (grown[i].parent < grown.len() && grown[grown[i].parent as int].children.contains(
            i as usize,
        )) by {
            if i == node {
                assert(grown[after].children[grown[after].children.len() - 1] == node);
            } else {
                assert(grown[i].parent == tree[i].parent);
                let p = tree[i].parent;
                if p != usize::MAX && p != after {
                    assert(grown[p as int].children == tree[p as int].children);
                }
            }
        }
        assert forall|i: int| 0 <= i < grown.len() implies (#[trigger] grown[i]).board.wf()
            && Self::in_tree(grown, grown[i]) && grown[i].children.no_duplicates() by {
            if i < tree.len() {
                assert(tree[i].board.wf() && Self::in_tree(tree, tree[i])
                    && tree[i].children.no_duplicates());
            }
            assert forall|k: int| 0 <= k < grown[i].children.len() implies (
            #[trigger] grown[i].children[k]) < grown.len() by {
                let c = grown[i].children[k];
                if i == after {
                    assert(grown[after].children.contains(c));
                    if c != node {
                        let j = choose|j: int|
                            0 <= j < tree[after].children.len() && tree[after].children[j] == c;
                        assert(tree[after].children[j] < tree.len());
                    }
                } else if i < tree.len() {
                    assert(tree[i].children[k] < tree.len());
                }
            }
        }
        assert forall|i: int, j: int| 0 <= i < j < grown.len() implies (#[trigger] grown[i]).board
            != (#[trigger] grown[j]).board by {
            if j < tree.len() {
                assert(tree[i].board != tree[j].board);
            } else {
                assert(!Self::holds_at(tree, i, board));
            }
        }
    }

    /// Where every step down the tree takes pegs off the board and `board`
    /// holds fewer pegs than the board of `after`, every step down the tree
    /// takes pegs off the board after the insertion too.
    pub proof fn lemma_pushed_descending(
        tree: Seq<NodeView<SIZE>>,
        after: int,
        board: Board<SIZE>,
    )
        requires
            Self::well_formed(tree),
            Self::descending(tree),
            0 <= after < tree.len(),
            board@.len() < tree[after].board@.len(),
        ensures
            Self::descending(Self::pushed(tree, after, board).0),
    {
        Self::lemma_pushed(tree, after, board);
        let (grown, reused, node) = Self::pushed(tree, after, board);
        assert forall|i: int| 0 <= i < grown.len() implies Self::fits(grown, #[trigger] grown[i]) by {
            if i < tree.len() {
                assert(Self::fits(tree, tree[i]));
            }
            assert forall|k: int| 0 <= k < grown[i].children.len() implies (
            #[trigger] grown[i].children[k]) < grown.len() && grown[grown[i].children[k] as int].board@.len()
                < grown[i].board@.len() by {
                let c = grown[i].children[k];
                if i == after {
                    assert(grown[after].children.contains(c));
                    if c != node {
                        let j = choose|j: int|
                            0 <= j < tree[after].children.len() && tree[after].children[j] == c;
                        assert(tree[after].children[j] < tree.len() && tree[tree[after].children[j] as int].board@.len()
                            < tree[after].board@.len());
                    }
                } else if i < tree.len() {
                    assert(tree[i].children[k] < tree.len() && tree[tree[i].children[k] as int].board@.len()
                        < tree[i].board@.len());
                }
            }
        }
    }

    /// The parent of node `i` with its index, or `None` where the tree has no
    /// node `i` or node `i` has no parent in the tree.
    pub fn parent(&self, i: usize) -> (r: Option<(usize, &GameTreeNode<SIZE>)>)
        ensures
            r.is_some() == (i < self@.len() && self@[i as int].parent < self@.len()),
            r matches Some((at, node)) ==> at == self@[i as int].parent && node@
                == self@[at as int],
    {
        match self.get(i) {
            Some(ch) => match ch.parent(self) {
                Some(node) => Some((ch.parent, node)),
                None => None,
            },
            None => None,
        }
    }

    /// The indices of the children of node `i`, in their present order, or
    /// `None` where the tree has no node `i`.
    pub fn children_indices(&self, i: usize) -> (r: Option<&Children>)
        ensures
            r.is_some() == (i < self@.len()),
            r matches Some(kids) ==> items(*kids) == self@[i as int].children,
    {
        match self.get(i) {
            Some(node) => Some(&node.children),
            None => None,
        }
    }

    /// The children of node `i`, each with its index, in their present
    /// order, or `None` where the tree has no node `i`.
    pub fn children(&self, i: usize) -> (r: Option<Vec<(usize, &GameTreeNode<SIZE>)>>)
        ensures
            r.is_some() == (i < self@.len()),
            r matches Some(kids) ==> {
                &&& kids@.len() == self@[i as int].children.len()
                &&& forall|k: int|
                    0 <= k < kids@.len() ==> (#[trigger] kids@[k]).0 == self@[i as int].children[k]
                        && kids@[k].1@ == self@[kids@[k].0 as int]
            },
    {
        let node = match self.get(i) {
            Some(node) => node,
            None => {
                return None;
            },
        };
        let idxs = children_slice(&node.children);
        let mut kids: Vec<(usize, &GameTreeNode<SIZE>)> = Vec::new();
        let mut k: usize = 0;
        while k < idxs.len()
            invariant
                k <= idxs@.len(),
                kids@.len() == k,
                idxs@ == self@[i as int].children,
                i < self@.len(),
                Self::in_tree(self@, self@[i as int]),
                forall|j: int|
                    0 <= j < k ==> (#[trigger] kids@[j]).0 == idxs@[j] && kids@[j].1@
                        == self@[kids@[j].0 as int],
            decreases idxs@.len() - k,
        {
            let c = idxs[k];
            assert(self@[i as int].children[k as int] < self@.len());
            kids.push((c, self.get(c).unwrap()));
            k += 1;
        }
        Some(kids)
    }

    /// Makes the jump from `from` to `to` on the board of node `boardi` and
    /// inserts the board that it leaves below that node. Gives whether a
    /// node was reused, the node that holds the new board, and the board;
    /// `None`, with the tree unchanged, where the tree has no node `boardi`
    /// or the jump is not legal on its board.
    pub fn apply_move(&mut self, boardi: usize, from: Position, to: Position) -> (r: Option<
        (bool, usize, Board<SIZE>),
    >)
        ensures
            Self::well_formed(final(self)@),
            Self::descending(old(self)@) ==> Self::descending(final(self)@),
            r.is_some() == (boardi < old(self)@.len() && old(self)@[boardi as int].board.jumped(
                from,
                to,
            ).is_some()),
            r.is_none() ==> final(self)@ == old(self)@,
            r matches Some((reused, node, board)) ==> {
                &&& board.wf()
                &&& board == old(self)@[boardi as int].board.jump_result(from, to)
                &&& board@ == old(self)@[boardi as int].board.after_jump(from, to)
                &&& board@.len() == old(self)@[boardi as int].board@.len() - 1
                &&& (final(self)@, reused, node) == Self::pushed(
                    old(self)@,
                    boardi as int,
                    board,
                )
            },
    {
        proof {
            use_type_invariant(&*self);
        }
        let board = match self.get(boardi) {
            Some(node) => match node.board.apply_move(from, to) {
                Some(board) => board,
                None => {
                    return None;
                },
            },
            None => {
                return None;
            },
        };
        let (new, idx) = self.push(boardi, board);
        Some((new, idx, board))
    }
}

} // verus!
