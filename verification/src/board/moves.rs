//! Jump moves: a peg jumps over a neighbouring peg into the hole behind it,
//! and the peg jumped over leaves the board.

use super::{Board, Position};
use crate::adapters::{as_some, find_position};
use vstd::prelude::*;

verus! {

/// The `u8` that is `delta` away from `v`, where there is one.
pub open spec fn shifted(v: u8, delta: int) -> Option<u8> {
    if 0 <= v + delta <= 255 {
        Some((v + delta) as u8)
    } else {
        None
    }
}

/// The position `dist` steps from `p` in direction `dir`, where its
/// coordinates fit. The six directions, in order, change `(x, y)` by
/// `(+1, 0)`, `(0, +1)`, `(-1, +1)`, `(-1, 0)`, `(0, -1)` and `(+1, -1)` per
/// step.
pub open spec fn neighbour(p: Position, dir: int, dist: u8) -> Option<Position> {
    let d = dist as int;
    let (dx, dy) = if dir == 0 {
        (d, 0int)
    } else if dir == 1 {
        (0int, d)
    } else if dir == 2 {
        (-d, d)
    } else if dir == 3 {
        (-d, 0int)
    } else if dir == 4 {
        (0int, -d)
    } else {
        (d, -d)
    };
    match (shifted(p.x, dx), shifted(p.y, dy)) {
        (Some(x), Some(y)) => Some(Position { x, y }),
        _ => None,
    }
}

/// The first of the six directions in which `to` lies two steps from `from`.
pub open spec fn direction(from: Position, to: Position) -> Option<int> {
    if neighbour(from, 0, 2) == Some(to) {
        Some(0)
    } else if neighbour(from, 1, 2) == Some(to) {
        Some(1)
    } else if neighbour(from, 2, 2) == Some(to) {
        Some(2)
    } else if neighbour(from, 3, 2) == Some(to) {
        Some(3)
    } else if neighbour(from, 4, 2) == Some(to) {
        Some(4)
    } else if neighbour(from, 5, 2) == Some(to) {
        Some(5)
    } else {
        None
    }
}

/// The position with the two coordinates, where both are there.
fn both(x: Option<u8>, y: Option<u8>) -> (r: Option<Position>)
    ensures
        r == (match (x, y) {
            (Some(x), Some(y)) => Some(Position { x, y }),
            _ => None,
        }),
{
    match (x, y) {
        (Some(x), Some(y)) => Some(Position { x, y }),
        _ => None,
    }
}

/// Whether `a` is the position `b`.
fn same_cell(a: &Option<Position>, b: Position) -> (r: bool)
    ensures
        r == (*a == Some(b)),
{
    match a {
        Some(p) => p.x == b.x && p.y == b.y,
        None => false,
    }
}

impl<const SIZE: u8> Board<SIZE> {
    /// The jump from `from` in direction `dir`, where it is legal: the peg
    /// jumped over and the hole landed in.
    pub open spec fn jump(self, from: Position, dir: int) -> Option<(Position, Position)> {
        match (neighbour(from, dir, 1), neighbour(from, dir, 2)) {
            (Some(over), Some(to)) => if self.cell(to) == Some(false) && self.cell(over) == Some(
                true,
            ) {
                Some((over, to))
            } else {
                None
            },
            _ => None,
        }
    }

    /// The legal jumps from `from` in the first `n` directions, in the order
    /// of the directions.
    pub open spec fn jumps(self, from: Position, n: int) -> Seq<(Position, Position)>
        decreases n,
    {
        if n <= 0 {
            Seq::empty()
        } else {
            let rest = self.jumps(from, n - 1);
            match self.jump(from, n - 1) {
                Some(j) => rest.push(j),
                None => rest,
            }
        }
    }

    /// Whether the peg on `from` may jump over the peg on `over` into the
    /// hole `to`.
    pub open spec fn legal(self, from: Position, over: Position, to: Position) -> bool {
        &&& self.cell(from) == Some(true)
        &&& exists|dir: int| 0 <= dir < 6 && #[trigger] self.jump(from, dir) == Some((over, to))
    }

    /// The peg that leaves the board when the peg on `from` jumps to `to`,
    /// or `None` where that is no legal jump.
    pub open spec fn jumped(self, from: Position, to: Position) -> Option<Position> {
        if self.cell(from) != Some(true) || self.cell(to) != Some(false) {
            None
        } else {
            match direction(from, to) {
                Some(dir) => match neighbour(from, dir, 1) {
                    Some(over) => if self.cell(over) == Some(true) {
                        Some(over)
                    } else {
                        None
                    },
                    None => None,
                },
                None => None,
            }
        }
    }

    /// The legal jumps of the pegs in `pegs`, peg by peg in the order of the
    /// list and for each peg in the order of the directions, each as the peg
    /// that jumps, the peg jumped over and the hole landed in.
    pub open spec fn moves_of(self, pegs: Seq<Position>) -> Seq<(Position, Position, Position)>
        decreases pegs.len(),
    {
        if pegs.len() == 0 {
            Seq::empty()
        } else {
            self.moves_of(pegs.drop_last()) + self.jumps(pegs.last(), 6).map_values(
                |j: (Position, Position)| (pegs.last(), j.0, j.1),
            )
        }
    }

    /// Every legal jump on the board: the jumps of each peg, peg by peg from
    /// the lowest bit position up.
    pub open spec fn all_moves(self) -> Seq<(Position, Position, Position)> {
        self.moves_of(self.pegs())
    }

    /// The board that is left after the peg on `from` has jumped to `to`.
    pub open spec fn jump_result(self, from: Position, to: Position) -> Self {
        choose|b: Self| b.wf() && b@ == self.after_jump(from, to)
    }

    /// The sound board with the pegs that a jump leaves is the board that
    /// the jump leaves.
    pub proof fn lemma_jump_result(self, from: Position, to: Position, b: Self)
        requires
            b.wf(),
            b@ == self.after_jump(from, to),
        ensures
            b == self.jump_result(from, to),
    {
        let c = self.jump_result(from, to);
        c.lemma_view_determines(b);
    }

    /// No jump is listed twice among the jumps of a peg.
    pub proof fn lemma_jumps_distinct(self, from: Position, n: int)
        requires
            0 <= n <= 6,
        ensures
            self.jumps(from, n).no_duplicates(),
        decreases n,
    {
        if n > 0 {
            self.lemma_jumps_distinct(from, n - 1);
            let rest = self.jumps(from, n - 1);
            match self.jump(from, n - 1) {
                Some(j) => {
                    self.lemma_jumps_members(from, n - 1, j);
                    if rest.contains(j) {
                        let dir = choose|dir: int|
                            0 <= dir < n - 1 && #[trigger] self.jump(from, dir) == Some(j);
                        assert(neighbour(from, dir, 2) == Some(j.1));
                        assert(neighbour(from, n - 1, 2) == Some(j.1));
                    }
                    assert forall|a: int, b: int|
                        0 <= a < rest.len() + 1 && 0 <= b < rest.len() + 1 && a
                            != b implies rest.push(j)[a] != rest.push(j)[b] by {
                        if a < rest.len() {
                            assert(rest.contains(rest[a]));
                        }
                        if b < rest.len() {
                            assert(rest.contains(rest[b]));
                        }
                    }
                },
                None => {},
            }
        }
    }

    /// The jumps of a list of pegs without repeats hold no jump twice, and
    /// every one of them starts at a peg of the list.
    pub proof fn lemma_moves_of_distinct(self, pegs: Seq<Position>)
        requires
            pegs.no_duplicates(),
        ensures
            self.moves_of(pegs).no_duplicates(),
            forall|k: int|
                0 <= k < self.moves_of(pegs).len() ==> pegs.contains(
                    (#[trigger] self.moves_of(pegs)[k]).0,
                ),
        decreases pegs.len(),
    {
        if pegs.len() > 0 {
            let last = pegs.last();
            let before = self.moves_of(pegs.drop_last());
            let tag = |j: (Position, Position)| (last, j.0, j.1);
            let here = self.jumps(last, 6).map_values(tag);
            self.lemma_moves_of_distinct(pegs.drop_last());
            self.lemma_jumps_distinct(last, 6);
            assert forall|a: int, b: int| 0 <= a < here.len() && 0 <= b < here.len() && a
                != b implies here[a] != here[b] by {
                assert(self.jumps(last, 6)[a] != self.jumps(last, 6)[b]);
            }
            assert forall|i: int, j: int|
                0 <= i < before.len() && 0 <= j < here.len() implies before[i] != here[j] by {
                assert(pegs.drop_last().contains(before[i].0));
                let k = choose|k: int|
                    0 <= k < pegs.drop_last().len() && pegs.drop_last()[k] == before[i].0;
                assert(pegs[k] == before[i].0);
                assert(here[j].0 == pegs[pegs.len() - 1]);
            }
            vstd::seq_lib::lemma_no_dup_in_concat(before, here);
            assert forall|k: int| 0 <= k < (before + here).len() implies pegs.contains(
                (#[trigger] (before + here)[k]).0,
            ) by {
                if k < before.len() {
                    assert(pegs.drop_last().contains(before[k].0));
                    let i = choose|i: int|
                        0 <= i < pegs.drop_last().len() && pegs.drop_last()[i] == before[k].0;
                    assert(pegs[i] == before[k].0);
                } else {
                    assert(pegs[pegs.len() - 1] == last);
                }
            }
        }
    }

    /// No jump is listed twice among all the legal jumps on a board.
    pub proof fn lemma_all_moves_distinct(self)
        requires
            self.wf(),
        ensures
            self.all_moves().no_duplicates(),
    {
        self.lemma_pegs();
        self.lemma_moves_of_distinct(self.pegs());
    }

    /// The pegs that are left after the peg on `from` has jumped to `to`.
    pub open spec fn after_jump(self, from: Position, to: Position) -> Set<Position> {
        self@.remove(from).remove(self.jumped(from, to).unwrap()).insert(to)
    }

    /// Whether a legal jump on this board leaves the pegs of `next`.
    pub open spec fn jumps_to(self, next: Self) -> bool {
        exists|from: Position, to: Position|
            (#[trigger] self.jumped(from, to)).is_some() && next@ == self.after_jump(from, to)
    }

    /// Whether `way` is a row of sound boards, each but the last followed by
    /// what a legal jump makes of it.
    pub open spec fn is_way(way: Seq<Self>) -> bool {
        &&& way.len() > 0
        &&& forall|k: int|
            0 <= k < way.len() ==> (#[trigger] way[k]).wf() && (k + 1 < way.len()
                ==> way[k].jumps_to(way[k + 1]))
    }

    /// Whether legal jumps lead from this board to `target`.
    pub open spec fn reaches(self, target: Self) -> bool {
        exists|way: Seq<Self>| #[trigger] Self::is_way(way) && way[0] == self && way.last() == target
    }

    /// A jump takes one peg off the board.
    pub proof fn lemma_jump_takes_a_peg(self, from: Position, to: Position)
        requires
            self.jumped(from, to).is_some(),
        ensures
            self.after_jump(from, to).len() == self@.len() - 1,
            self.after_jump(from, to).finite(),
    {
        self.lemma_view_valid();
        let over = self.jumped(from, to).unwrap();
        self.lemma_jumped_iff_legal(from, over, to);
        let dir = direction(from, to).unwrap();
        assert(neighbour(from, dir, 1) == Some(over));
        assert(over != from);
    }

    /// A jump is named by where it starts and where it lands: `jumped` gives
    /// a peg exactly for the legal jumps, and no jump is legal when `from`
    /// holds no peg, `to` is no hole, `to` does not lie two steps from `from`
    /// in one of the six directions, or the cell between them holds no peg.
    pub proof fn lemma_jumped_iff_legal(self, from: Position, over: Position, to: Position)
        ensures
            self.jumped(from, to) == Some(over) <==> self.legal(from, over, to),
            self.cell(from) != Some(true) ==> self.jumped(from, to).is_none(),
            self.cell(to) != Some(false) ==> self.jumped(from, to).is_none(),
            direction(from, to).is_none() ==> self.jumped(from, to).is_none(),
            self.jumped(from, to) matches Some(e) ==> self.cell(e) == Some(true),
    {
        if self.jumped(from, to) == Some(over) {
            let dir = direction(from, to).unwrap();
            assert(self.jump(from, dir) == Some((over, to)));
        }
        if self.legal(from, over, to) {
            let dir = choose|dir: int|
                0 <= dir < 6 && #[trigger] self.jump(from, dir) == Some((over, to));
            assert(neighbour(from, dir, 2) == Some(to));
            assert(direction(from, to) == Some(dir));
        }
    }

    /// A pair is among the first `n` jumps exactly when it is the legal jump
    /// in one of the first `n` directions.
    pub proof fn lemma_jumps_members(self, from: Position, n: int, j: (Position, Position))
        requires
            0 <= n,
        ensures
            self.jumps(from, n).contains(j) <==> exists|dir: int|
                0 <= dir < n && #[trigger] self.jump(from, dir) == Some(j),
        decreases n,
    {
        if n > 0 {
            self.lemma_jumps_members(from, n - 1, j);
            let rest = self.jumps(from, n - 1);
            let all = self.jumps(from, n);
            if all.contains(j) {
                let k = choose|k: int| 0 <= k < all.len() && all[k] == j;
                if k < rest.len() {
                    assert(rest[k] == j);
                    assert(rest.contains(j));
                } else {
                    assert(self.jump(from, n - 1) == Some(j));
                }
            }
            if exists|dir: int| 0 <= dir < n && #[trigger] self.jump(from, dir) == Some(j) {
                let dir = choose|dir: int|
                    0 <= dir < n && #[trigger] self.jump(from, dir) == Some(j);
                if dir < n - 1 {
                    assert(rest.contains(j));
                    let k = choose|k: int| 0 <= k < rest.len() && rest[k] == j;
                    assert(all[k] == j);
                } else {
                    assert(all[all.len() - 1] == j);
                }
            }
        }
    }

    /// The positions `dist` steps from `p`, one entry for each of the six
    /// directions in order; `None` where the coordinates do not fit.
    pub fn neighbours(p: Position, dist: u8) -> (around: Vec<Option<Position>>)
        ensures
            around@.len() == 6,
            forall|dir: int| 0 <= dir < 6 ==> around@[dir] == neighbour(p, dir, dist),
    {
        let right = p.x.checked_add(dist);
        let left = p.x.checked_sub(dist);
        let down = p.y.checked_add(dist);
        let up = p.y.checked_sub(dist);
        let mut around: Vec<Option<Position>> = Vec::new();
        around.push(both(right, Some(p.y)));
        around.push(both(Some(p.x), down));
        around.push(both(left, down));
        around.push(both(left, Some(p.y)));
        around.push(both(Some(p.x), up));
        around.push(both(right, up));
        around
    }

    /// The legal jumps of the peg on `p`, each as the peg jumped over and the
    /// hole landed in, in the order of the directions; `None` where `p`
    /// holds no peg.
    pub fn valid_moves(&self, p: Position) -> (r: Option<Vec<(Position, Position)>>)
        ensures
            r.is_some() == (self.cell(p) == Some(true)),
            r matches Some(moves) ==> moves@ == self.jumps(p, 6),
    {
        match self.at(p) {
            Some(true) => {
                let ones = Self::neighbours(p, 1);
                let twos = Self::neighbours(p, 2);
                let mut moves: Vec<(Position, Position)> = Vec::new();
                let mut dir: usize = 0;
                while dir < 6
                    invariant
                        dir <= 6,
                        ones@.len() == 6,
                        twos@.len() == 6,
                        forall|d: int| 0 <= d < 6 ==> ones@[d] == neighbour(p, d, 1),
                        forall|d: int| 0 <= d < 6 ==> twos@[d] == neighbour(p, d, 2),
                        moves@ == self.jumps(p, dir as int),
                    decreases 6 - dir,
                {
                    match (ones[dir], twos[dir]) {
                        (Some(e), Some(t)) => {
                            let hole = match self.at(t) {
                                Some(peg) => !peg,
                                None => false,
                            };
                            let peg = match self.at(e) {
                                Some(peg) => peg,
                                None => false,
                            };
                            if hole && peg {
                                moves.push((e, t));
                            }
                        },
                        _ => {},
                    }
                    dir += 1;
                }
                Some(moves)
            },
            _ => None,
        }
    }

    /// Every legal jump on the board, as the peg that jumps, the peg jumped
    /// over and the hole landed in.
    ///
    /// The jumps are listed peg by peg from the lowest bit position up, and
    /// for each peg in the order of the directions.
    pub fn all_valid_moves(&self) -> (moves: Vec<(Position, Position, Position)>)
        ensures
            moves@ == self.all_moves(),
            moves@.no_duplicates(),
            forall|from: Position, over: Position, to: Position|
                moves@.contains((from, over, to)) <==> self.legal(from, over, to),
    {
        proof {
            use_type_invariant(self);
            self.lemma_all_moves_distinct();
        }
        let pegs = self.iter_stones();
        let mut moves: Vec<(Position, Position, Position)> = Vec::new();
        let mut k: usize = 0;
        assert(pegs@.take(0) =~= Seq::<Position>::empty());
        while k < pegs.len()
            invariant
                k <= pegs@.len(),
                forall|p: Position| self@.contains(p) <==> pegs@.contains(p),
                moves@ == self.moves_of(pegs@.take(k as int)),
                forall|m: (Position, Position, Position)|
                    moves@.contains(m) ==> self.legal(m.0, m.1, m.2),
                forall|j: int, over: Position, to: Position|
                    0 <= j < k && self.legal(pegs@[j], over, to) ==> moves@.contains(
                        (pegs@[j], over, to),
                    ),
            decreases pegs@.len() - k,
        {
            let from = pegs[k];
            assert(pegs@.contains(from));
            proof {
                self.lemma_view_valid();
            }
            let found = self.valid_moves(from).unwrap();
            let ghost start = moves@;
            let mut i: usize = 0;
            while i < found.len()
                invariant
                    i <= found@.len(),
                    moves@.len() == start.len() + i,
                    forall|j: int| 0 <= j < start.len() ==> moves@[j] == start[j],
                    forall|j: int|
                        0 <= j < i ==> moves@[start.len() + j] == (
                            from,
                            found@[j].0,
                            found@[j].1,
                        ),
                decreases found@.len() - i,
            {
                moves.push((from, found[i].0, found[i].1));
                i += 1;
            }
            proof {
                let tagged = found@.map_values(|j: (Position, Position)| (from, j.0, j.1));
                assert(moves@ =~= start + tagged);
                assert(pegs@.take(k + 1).drop_last() =~= pegs@.take(k as int));
                assert(pegs@.take(k + 1).last() == from);
                assert forall|m: (Position, Position, Position)|
                    moves@.contains(m) implies self.legal(m.0, m.1, m.2) by {
                    let j = choose|j: int| 0 <= j < moves@.len() && moves@[j] == m;
                    if j < start.len() {
                        assert(start[j] == m);
                        assert(start.contains(m));
                    } else {
                        let j2 = j - start.len();
                        assert(found@[j2] == (m.1, m.2));
                        assert(found@.contains((m.1, m.2)));
                        self.lemma_jumps_members(from, 6, (m.1, m.2));
                    }
                }
                assert forall|j: int, over: Position, to: Position|
                    0 <= j < k + 1 && self.legal(pegs@[j], over, to) implies moves@.contains(
                    (pegs@[j], over, to),
                ) by {
                    let m = (pegs@[j], over, to);
                    if j < k {
                        assert(start.contains(m));
                        let i0 = choose|i0: int| 0 <= i0 < start.len() && start[i0] == m;
                        assert(moves@[i0] == m);
                    } else {
                        self.lemma_jumps_members(from, 6, (over, to));
                        assert(found@.contains((over, to)));
                        let i0 = choose|i0: int| 0 <= i0 < found@.len() && found@[i0] == (over, to);
                        assert(moves@[start.len() + i0] == m);
                    }
                }
            }
            k += 1;
        }
        proof {
            assert(pegs@.take(k as int) =~= pegs@);
            assert(moves@ == self.moves_of(pegs@));
            assert forall|from: Position, over: Position, to: Position|
                self.legal(from, over, to) implies moves@.contains((from, over, to)) by {
                assert(self@.contains(from));
                assert(pegs@.contains(from));
                let j = choose|j: int| 0 <= j < pegs@.len() && pegs@[j] == from;
                assert(self.legal(pegs@[j], over, to));
            }
        }
        moves
    }

    /// The peg that leaves the board when the peg on `fr` jumps to `to`, or
    /// `None` where that is no legal jump.
    pub fn valid_move(&self, fr: Position, to: Position) -> (r: Option<Position>)
        ensures
            r == self.jumped(fr, to),
    {
        match self.at(fr) {
            Some(true) => {},
            _ => {
                return None;
            },
        }
        match self.at(to) {
            Some(false) => {},
            _ => {
                return None;
            },
        }
        let twos = Self::neighbours(fr, 2);
        let lands = |x: &Option<Position>| -> (b: bool)
            ensures
                b == (*x == Some(to)),
            { same_cell(x, to) };
        match find_position(twos.as_slice(), lands) {
            Some((dir, _)) => {
                assert(direction(fr, to) == Some(dir as int));
                let ones = Self::neighbours(fr, 1);
                match ones[dir] {
                    Some(p) => match self.at(p) {
                        Some(peg) => as_some(peg, p),
                        None => None,
                    },
                    None => None,
                }
            },
            None => {
                assert(direction(fr, to).is_none()) by {
                    assert(forall|d: int| 0 <= d < 6 ==> twos@[d] != Some(to));
                }
                None
            },
        }
    }

    /// The board after the peg on `from` has jumped to `to`: `from` is
    /// empty, the peg jumped over is gone, `to` holds a peg and every other
    /// cell is as before, so one peg fewer is left. `None` where that is no
    /// legal jump.
    pub fn apply_move(&self, from: Position, to: Position) -> (r: Option<Self>)
        ensures
            r.is_some() == self.jumped(from, to).is_some(),
            r matches Some(b) ==> {
                &&& b.wf()
                &&& b == self.jump_result(from, to)
                &&& b@ == self.after_jump(from, to)
                &&& b@.len() == self@.len() - 1
            },
    {
        let elim = match self.valid_move(from, to) {
            Some(e) => e,
            None => {
                return None;
            },
        };
        let step = |old: Position| -> (o: Option<Position>)
            ensures
                o == (if old == from {
                    Some(to)
                } else if old == elim {
                    None
                } else {
                    Some(old)
                }),
            {
                if old == from {
                    Some(to)
                } else if old == elim {
                    None
                } else {
                    Some(old)
                }
            };
        let r = self.filter_map(step);
        proof {
            self.lemma_view_valid();
            self.lemma_jumped_iff_legal(from, elim, to);
            let dir = direction(from, to).unwrap();
            assert(neighbour(from, dir, 1) == Some(elim));
            assert(elim != from);
            match r {
                None => {
                    let (p, q) = choose|p: Position, q: Position|
                        self@.contains(p) && call_ensures(step, (p,), Some(q)) && !Self::valid(q);
                    assert(q == to || q == p);
                },
                Some(b) => {
                    let want = self@.remove(from).remove(elim).insert(to);
                    assert forall|q: Position| b@.contains(q) == want.contains(q) by {
                        if b@.contains(q) {
                            let p = choose|p: Position|
                                self@.contains(p) && call_ensures(step, (p,), Some(q));
                        }
                        if want.contains(q) {
                            if q == to {
                                assert(self@.contains(from));
                                assert(!call_ensures(step, (from,), None));
                                let q2 = choose|q2: Position|
                                    b@.contains(q2) && call_ensures(step, (from,), Some(q2));
                            } else {
                                assert(self@.contains(q));
                                assert(!call_ensures(step, (q,), None));
                                let q2 = choose|q2: Position|
                                    b@.contains(q2) && call_ensures(step, (q,), Some(q2));
                            }
                        }
                    }
                    assert(b@ =~= want);
                    self.lemma_jump_result(from, to, b);
                },
            }
        }
        r
    }
}

} // verus!
