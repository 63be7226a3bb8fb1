//! A game in progress: the tree of the states met so far, the node that is
//! shown, and what the player is about to do.

use crate::adapters::find_position;
use crate::board::{Board, Position};
use crate::gametree::{GameTree, NodeView};
use vstd::prelude::*;

verus! {

/// What the player is about to do.
#[derive(Debug, Copy, Clone, PartialEq, Eq, Structural)]
pub enum State {
    /// Choose the peg to take off the full board.
    SelectStart,
    /// Choose the peg to jump with.
    Idle,
    /// Choose where the peg taken up jumps to.
    PickUpStone(Position),
}

/// What the player asks for.
#[derive(Debug, Copy, Clone, PartialEq, Eq, Structural)]
pub enum Command {
    /// Act on the cell under the pointer. After a jump the peg stays taken
    /// up where `hold` is set.
    Click { hold: bool },
    /// Put the peg taken up back.
    Cancel,
    /// Go to the state before.
    Undo,
    /// Go to the state that was last gone to from here.
    Redo,
    /// Go to the next of the states that were gone to from the state before.
    Side,
    /// Search all that follows and go to a solved state.
    Explore,
}

/// A game in progress.
#[derive(Debug)]
pub struct Session<const SIZE: u8> {
    tree: GameTree<SIZE>,
    current: usize,
    state: State,
}

/// A game in progress, as plain values.
pub struct SessionView<const SIZE: u8> {
    pub tree: Seq<NodeView<SIZE>>,
    pub current: usize,
    pub state: State,
}

impl<const SIZE: u8> View for Session<SIZE> {
    type V = SessionView<SIZE>;

    closed spec fn view(&self) -> SessionView<SIZE> {
        SessionView { tree: self.tree@, current: self.current, state: self.state }
    }
}

impl<const SIZE: u8> Session<SIZE> {
    /// The board with the pegs of `board` but the one on `stone`.
    pub open spec fn without(board: Board<SIZE>, stone: Position) -> Board<SIZE> {
        choose|b: Board<SIZE>| b.wf() && b@ == board@.remove(stone)
    }

    /// Whether `k` is the first place at which `list` holds `x`.
    pub open spec fn first_place(list: Seq<usize>, x: usize, k: int) -> bool {
        &&& 0 <= k < list.len()
        &&& list[k] == x
        &&& forall|j: int| 0 <= j < k ==> list[j] != x
    }

    /// The game with `board` inserted below the node shown, the node that
    /// holds it shown, and the player about to do `state`.
    pub open spec fn moved_on(s: SessionView<SIZE>, board: Board<SIZE>, state: State) -> SessionView<
        SIZE,
    > {
        let grown = GameTree::<SIZE>::pushed(s.tree, s.current as int, board);
        SessionView { tree: grown.0, current: grown.2, state }
    }

    /// What a click on the cell `hover` makes of the game.
    ///
    /// Before the first move it takes the peg under the pointer off the
    /// board. Later it takes the peg under the pointer up, and with a peg
    /// taken up it puts the peg back when the pointer is on it and else
    /// makes the jump to the cell under the pointer where that jump is
    /// legal.
    pub open spec fn clicked(s: SessionView<SIZE>, hold: bool, hover: Option<Position>) -> SessionView<
        SIZE,
    > {
        let board = s.tree[s.current as int].board;
        match hover {
            None => s,
            Some(stone) => match s.state {
                State::SelectStart => if board.cell(stone) == Some(true) {
                    Self::moved_on(s, Self::without(board, stone), State::Idle)
                } else {
                    s
                },
                State::Idle => if board.cell(stone) == Some(true) {
                    SessionView { tree: s.tree, current: s.current, state: State::PickUpStone(stone) }
                } else {
                    s
                },
                State::PickUpStone(pickup) => if stone == pickup {
                    SessionView { tree: s.tree, current: s.current, state: State::Idle }
                } else if board.jumped(pickup, stone).is_some() {
                    Self::moved_on(
                        s,
                        board.jump_result(pickup, stone),
                        if hold {
                            State::PickUpStone(stone)
                        } else {
                            State::Idle
                        },
                    )
                } else {
                    s
                },
            },
        }
    }

    /// What going back makes of the game: the parent of the node shown is
    /// shown, and the node left becomes the last child of its parent.
    pub open spec fn undone(s: SessionView<SIZE>) -> SessionView<SIZE> {
        let node = s.tree[s.current as int];
        if node.parent < s.tree.len() {
            SessionView {
                tree: GameTree::<SIZE>::pushed(s.tree, node.parent as int, node.board).0,
                current: node.parent,
                state: if node.parent == 0 {
                    State::SelectStart
                } else {
                    State::Idle
                },
            }
        } else {
            s
        }
    }

    /// What going forward makes of the game: the last child of the node
    /// shown is shown.
    pub open spec fn redone(s: SessionView<SIZE>) -> SessionView<SIZE> {
        let kids = s.tree[s.current as int].children;
        if kids.len() > 0 {
            SessionView {
                tree: s.tree,
                current: kids.last(),
                state: if kids.last() != 0 {
                    State::Idle
                } else {
                    s.state
                },
            }
        } else {
            s
        }
    }

    /// What going sideways makes of the game: the child that follows the
    /// node shown among the children of its parent is shown, the first
    /// child after the last.
    pub open spec fn sidestepped(s: SessionView<SIZE>) -> SessionView<SIZE> {
        let node = s.tree[s.current as int];
        if node.parent < s.tree.len() {
            let kids = s.tree[node.parent as int].children;
            if exists|k: int| Self::first_place(kids, s.current, k) {
                let k = choose|k: int| Self::first_place(kids, s.current, k);
                SessionView { tree: s.tree, current: kids[(k + 1) % (kids.len() as int)], state: s.state }
            } else {
                s
            }
        } else {
            s
        }
    }

    /// What a search makes of the game: the first solved node that the
    /// search from the node shown finds is shown.
    pub open spec fn explored(s: SessionView<SIZE>) -> SessionView<SIZE> {
        let (tree, found) = GameTree::<SIZE>::explore_from(
            s.tree,
            seq![s.current],
            Seq::<usize>::empty(),
        );
        SessionView {
            tree,
            current: if found.len() > 0 {
                found[0]
            } else {
                s.current
            },
            state: s.state,
        }
    }

    /// What a command makes of the game. While a peg is taken up, every
    /// command but a click only puts it back; before the first move only
    /// clicks and going forward do anything.
    pub open spec fn stepped(s: SessionView<SIZE>, cmd: Command, hover: Option<Position>) -> SessionView<
        SIZE,
    > {
        let idle = SessionView { tree: s.tree, current: s.current, state: State::Idle };
        if s.current >= s.tree.len() {
            s
        } else {
            match cmd {
                Command::Click { hold } => Self::clicked(s, hold, hover),
                Command::Cancel => match s.state {
                    State::PickUpStone(_) => idle,
                    _ => s,
                },
                Command::Undo => match s.state {
                    State::PickUpStone(_) => idle,
                    State::Idle => Self::undone(s),
                    State::SelectStart => s,
                },
                Command::Redo => match s.state {
                    State::PickUpStone(_) => idle,
                    _ => Self::redone(s),
                },
                Command::Side => match s.state {
                    State::PickUpStone(_) => idle,
                    State::Idle => Self::sidestepped(s),
                    State::SelectStart => s,
                },
                Command::Explore => match s.state {
                    State::PickUpStone(_) => idle,
                    State::Idle => Self::explored(s),
                    State::SelectStart => s,
                },
            }
        }
    }

    /// The game that starts on `board`: its tree holds `board` at the root,
    /// the root is shown, and the player chooses the peg to take off.
    pub fn new(board: Board<SIZE>) -> (s: Self)
        ensures
            s@.tree == GameTree::<SIZE>::start_tree(board),
            s@.current == 0,
            s@.state == State::SelectStart,
            GameTree::<SIZE>::descending(s@.tree),
    {
        Session { tree: GameTree::start(board), current: 0, state: State::SelectStart }
    }

    /// The tree of the states met so far.
    pub fn tree(&self) -> (t: &GameTree<SIZE>)
        ensures
            t@ == self@.tree,
    {
        &self.tree
    }

    /// The node that is shown.
    pub fn current(&self) -> (i: usize)
        ensures
            i == self@.current,
    {
        self.current
    }

    /// What the player is about to do.
    pub fn state(&self) -> (state: State)
        ensures
            state == self@.state,
    {
        self.state
    }

    /// Inserts `board` below the node shown and shows the node that holds
    /// it.
    fn move_on(&mut self, board: Board<SIZE>, state: State)
        requires
            old(self)@.current < old(self)@.tree.len(),
        ensures
            final(self)@ == Self::moved_on(old(self)@, board, state),
            GameTree::<SIZE>::descending(old(self)@.tree) && board@.len()
                < old(self)@.tree[old(self)@.current as int].board@.len()
                ==> GameTree::<SIZE>::descending(final(self)@.tree),
    {
        let (_, node) = self.tree.push(self.current, board);
        self.current = node;
        self.state = state;
    }

    /// Carries out a click on the cell `hover`.
    fn click(&mut self, board: Board<SIZE>, hold: bool, hover: Option<Position>)
        requires
            old(self)@.current < old(self)@.tree.len(),
            board == old(self)@.tree[old(self)@.current as int].board,
        ensures
            final(self)@ == Self::clicked(old(self)@, hold, hover),
            GameTree::<SIZE>::descending(old(self)@.tree) ==> GameTree::<SIZE>::descending(
                final(self)@.tree,
            ),
    {
        let stone = match hover {
            Some(stone) => stone,
            None => {
                return ;
            },
        };
        match self.state {
            State::SelectStart => {
                match board.at(stone) {
                    Some(true) => {
                        let keep = |old: &Position| -> (keep: bool)
                            ensures
                                keep == (*old != stone),
                            { *old != stone };
                        let new = board.filter(keep);
                        proof {
                            board.lemma_view_valid();
                            assert(new@ =~= board@.remove(stone));
                            Self::without(board, stone).lemma_view_determines(new);
                        }
                        self.move_on(new, State::Idle);
                    },
                    _ => {},
                }
            },
            State::Idle => {
                match board.at(stone) {
                    Some(true) => {
                        self.state = State::PickUpStone(stone);
                    },
                    _ => {},
                }
            },
            State::PickUpStone(pickup) => {
                if stone == pickup {
                    self.state = State::Idle;
                } else {
                    match board.apply_move(pickup, stone) {
                        Some(new) => {
                            self.move_on(
                                new,
                                if hold {
                                    State::PickUpStone(stone)
                                } else {
                                    State::Idle
                                },
                            );
                        },
                        None => {},
                    }
                }
            },
        }
    }

    /// Goes back to the parent of the node shown.
    fn undo(&mut self)
        requires
            old(self)@.current < old(self)@.tree.len(),
        ensures
            final(self)@ == Self::undone(old(self)@),
            GameTree::<SIZE>::descending(old(self)@.tree) ==> GameTree::<SIZE>::descending(
                final(self)@.tree,
            ),
    {
        let (idx, board) = match self.tree.get(self.current) {
            Some(node) => (node.parent, node.board),
            None => {
                return ;
            },
        };
        match self.tree.get(idx) {
            Some(_) => {
                proof {
                    let tree = self.tree@;
                    if GameTree::<SIZE>::descending(tree) {
                        assert(tree[idx as int].children.contains(self.current));
                        let k = choose|k: int|
                            0 <= k < tree[idx as int].children.len() && tree[idx as int].children[k]
                                == self.current;
                        assert(GameTree::<SIZE>::fits(tree, tree[idx as int]));
                        assert(tree[tree[idx as int].children[k] as int].board@.len()
                            < tree[idx as int].board@.len());
                    }
                }
                self.tree.push(idx, board);
                self.current = idx;
                self.state = if idx == 0 {
                    State::SelectStart
                } else {
                    State::Idle
                };
            },
            None => {},
        }
    }

    /// Goes forward to the last child of the node shown.
    fn redo(&mut self)
        requires
            old(self)@.current < old(self)@.tree.len(),
        ensures
            final(self)@ == Self::redone(old(self)@),
    {
        let last = match self.tree.children_indices(self.current) {
            Some(kids) => {
                let kids = kids.as_slice();
                if kids.len() > 0 {
                    Some(kids[kids.len() - 1])
                } else {
                    None
                }
            },
            None => None,
        };
        match last {
            Some(idx) => {
                self.current = idx;
                if idx != 0 {
                    self.state = State::Idle;
                }
            },
            None => {},
        }
    }

    /// Goes sideways to the child that follows the node shown.
    fn sidestep(&mut self)
        requires
            old(self)@.current < old(self)@.tree.len(),
        ensures
            final(self)@ == Self::sidestepped(old(self)@),
    {
        let i = self.current;
        let above = match self.tree.parent(i) {
            Some((above, _)) => above,
            None => {
                return ;
            },
        };
        let next = match self.tree.children_indices(above) {
            Some(kids) => {
                let kids = kids.as_slice();
                let is_here = |c: &usize| -> (b: bool)
                    ensures
                        b == (*c == i),
                    { *c == i };
                match find_position(kids, is_here) {
                    Some((k, _)) => {
                        proof {
                            assert(Self::first_place(kids@, i, k as int));
                            assert forall|k2: int| Self::first_place(kids@, i, k2) implies k2
                                == k by {
                                if k2 < k {
                                    assert(kids@[k2] != i);
                                }
                                if k < k2 {
                                    assert(kids@[k as int] != i);
                                }
                            }
                        }
                        let n = kids.len();
                        Some(kids[(k + 1) % n])
                    },
                    None => {
                        proof {
                            assert forall|k2: int| !Self::first_place(kids@, i, k2) by {
                                if 0 <= k2 < kids@.len() {
                                    assert(kids@[k2] != i);
                                }
                            }
                        }
                        None
                    },
                }
            },
            None => None,
        };
        match next {
            Some(idx) => {
                self.current = idx;
            },
            None => {},
        }
    }

    /// Searches from the node shown and goes to the first solved node found.
    fn explore(&mut self)
        requires
            old(self)@.current < old(self)@.tree.len(),
        ensures
            final(self)@ == Self::explored(old(self)@),
            GameTree::<SIZE>::descending(old(self)@.tree) ==> GameTree::<SIZE>::descending(
                final(self)@.tree,
            ),
    {
        let found = self.tree.explore(self.current);
        if found.len() > 0 {
            self.current = found[0];
        }
    }

    /// Carries out a command of the player, with the pointer on the cell
    /// `hover` if it is on a cell.
    pub fn apply(&mut self, cmd: Command, hover: Option<Position>)
        ensures
            final(self)@ == Self::stepped(old(self)@, cmd, hover),
            GameTree::<SIZE>::descending(old(self)@.tree) ==> GameTree::<SIZE>::descending(
                final(self)@.tree,
            ),
    {
        let board = match self.tree.get(self.current) {
            Some(node) => node.board,
            None => {
                return ;
            },
        };
        match cmd {
            Command::Click { hold } => self.click(board, hold, hover),
            Command::Cancel => match self.state {
                State::PickUpStone(_) => {
                    self.state = State::Idle;
                },
                _ => {},
            },
            Command::Undo => match self.state {
                State::PickUpStone(_) => {
                    self.state = State::Idle;
                },
                State::Idle => self.undo(),
                State::SelectStart => {},
            },
            Command::Redo => match self.state {
                State::PickUpStone(_) => {
                    self.state = State::Idle;
                },
                _ => self.redo(),
            },
            Command::Side => match self.state {
                State::PickUpStone(_) => {
                    self.state = State::Idle;
                },
                State::Idle => self.sidestep(),
                State::SelectStart => {},
            },
            Command::Explore => match self.state {
                State::PickUpStone(_) => {
                    self.state = State::Idle;
                },
                State::Idle => self.explore(),
                State::SelectStart => {},
            },
        }
    }
}

} // verus!
