//! Boards made from a board: by keeping some pegs, by moving each peg, and by
//! the symmetries of the triangle.

use super::{pos, stride, BitSet, BitSetType, Board, Position};
use crate::word::BitWord;
use vstd::arithmetic::div_mod::lemma_fundamental_div_mod_converse;
use vstd::prelude::*;

verus! {

broadcast use vstd::function::group_function_axioms;

/// A symmetry of the triangle. With `z = SIZE - 1 - x - y`, the cell
/// `(x, y)` goes to `(x, y)` under `Identity`, to `(z, y)` under `Flip`, to
/// `(y, z)` under `RotateRight`, to `(z, x)` under `RotateLeft`, and each
/// rotation followed by `Flip` gives `(x, z)` and `(y, x)`.
#[derive(Debug, Clone, Copy, PartialEq, Eq, Structural)]
pub enum Symmetry {
    Identity,
    Flip,
    RotateRight,
    RotateLeft,
    RotateRightFlip,
    RotateLeftFlip,
}

impl Symmetry {
    /// The symmetry that undoes this one.
    pub open spec fn inverse(self) -> Symmetry {
        match self {
            Symmetry::RotateRight => Symmetry::RotateLeft,
            Symmetry::RotateLeft => Symmetry::RotateRight,
            other => other,
        }
    }

    /// This symmetry followed by `next`.
    pub open spec fn followed_by(self, next: Symmetry) -> Symmetry {
        match (self, next) {
            (Symmetry::Identity, other) => other,
            (other, Symmetry::Identity) => other,
            (Symmetry::Flip, Symmetry::Flip) => Symmetry::Identity,
            (Symmetry::Flip, Symmetry::RotateRight) => Symmetry::RotateLeftFlip,
            (Symmetry::Flip, Symmetry::RotateLeft) => Symmetry::RotateRightFlip,
            (Symmetry::Flip, Symmetry::RotateRightFlip) => Symmetry::RotateLeft,
            (Symmetry::Flip, Symmetry::RotateLeftFlip) => Symmetry::RotateRight,
            (Symmetry::RotateRight, Symmetry::Flip) => Symmetry::RotateRightFlip,
            (Symmetry::RotateRight, Symmetry::RotateRight) => Symmetry::RotateLeft,
            (Symmetry::RotateRight, Symmetry::RotateLeft) => Symmetry::Identity,
            (Symmetry::RotateRight, Symmetry::RotateRightFlip) => Symmetry::RotateLeftFlip,
            (Symmetry::RotateRight, Symmetry::RotateLeftFlip) => Symmetry::Flip,
            (Symmetry::RotateLeft, Symmetry::Flip) => Symmetry::RotateLeftFlip,
            (Symmetry::RotateLeft, Symmetry::RotateRight) => Symmetry::Identity,
            (Symmetry::RotateLeft, Symmetry::RotateLeft) => Symmetry::RotateRight,
            (Symmetry::RotateLeft, Symmetry::RotateRightFlip) => Symmetry::Flip,
            (Symmetry::RotateLeft, Symmetry::RotateLeftFlip) => Symmetry::RotateRightFlip,
            (Symmetry::RotateRightFlip, Symmetry::Flip) => Symmetry::RotateRight,
            (Symmetry::RotateRightFlip, Symmetry::RotateRight) => Symmetry::Flip,
            (Symmetry::RotateRightFlip, Symmetry::RotateLeft) => Symmetry::RotateLeftFlip,
            (Symmetry::RotateRightFlip, Symmetry::RotateRightFlip) => Symmetry::Identity,
            (Symmetry::RotateRightFlip, Symmetry::RotateLeftFlip) => Symmetry::RotateLeft,
            (Symmetry::RotateLeftFlip, Symmetry::Flip) => Symmetry::RotateLeft,
            (Symmetry::RotateLeftFlip, Symmetry::RotateRight) => Symmetry::RotateRightFlip,
            (Symmetry::RotateLeftFlip, Symmetry::RotateLeft) => Symmetry::Flip,
            (Symmetry::RotateLeftFlip, Symmetry::RotateRightFlip) => Symmetry::RotateRight,
            (Symmetry::RotateLeftFlip, Symmetry::RotateLeftFlip) => Symmetry::Identity,
        }
    }
}

/// The six symmetries in the order in which a board lists its variants.
pub open spec fn symmetry_at(k: int) -> Symmetry {
    if k == 0 {
        Symmetry::Identity
    } else if k == 1 {
        Symmetry::Flip
    } else if k == 2 {
        Symmetry::RotateRight
    } else if k == 3 {
        Symmetry::RotateLeft
    } else if k == 4 {
        Symmetry::RotateRightFlip
    } else {
        Symmetry::RotateLeftFlip
    }
}

impl<const SIZE: u8> Board<SIZE> {
    /// Where the symmetry `g` sends the cell `p`.
    pub open spec fn moved(g: Symmetry, p: Position) -> Position {
        let z = (SIZE - 1 - p.x - p.y) as u8;
        match g {
            Symmetry::Identity => p,
            Symmetry::Flip => Position { x: z, y: p.y },
            Symmetry::RotateRight => Position { x: p.y, y: z },
            Symmetry::RotateLeft => Position { x: z, y: p.x },
            Symmetry::RotateRightFlip => Position { x: p.x, y: z },
            Symmetry::RotateLeftFlip => Position { x: p.y, y: p.x },
        }
    }

    /// The cells that the symmetry `g` sends the cells of `s` to.
    pub open spec fn image(s: Set<Position>, g: Symmetry) -> Set<Position> {
        s.map(|p: Position| Self::moved(g, p))
    }

    /// Whether `v` is `b` seen through one of the six symmetries.
    pub open spec fn is_variant(v: Self, b: Self) -> bool {
        &&& v.wf()
        &&& exists|k: int| 0 <= k < 6 && v@ == #[trigger] Self::image(b@, symmetry_at(k))
    }

    /// Whether `c` is the canonical form of this board: the one among its
    /// variants with the least bit pattern.
    pub open spec fn canonical_is(self, c: Self) -> bool {
        &&& Self::is_variant(c, self)
        &&& forall|v: Self| Self::is_variant(v, self) ==> c.pattern() <= v.pattern()
    }

    /// A symmetry sends cells to cells, and two symmetries in a row are a
    /// symmetry.
    pub proof fn lemma_moved_twice(g: Symmetry, h: Symmetry, p: Position)
        requires
            Self::valid(p),
        ensures
            Self::valid(Self::moved(g, p)),
            Self::moved(h, Self::moved(g, p)) == Self::moved(g.followed_by(h), p),
            Self::moved(g.inverse(), Self::moved(g, p)) == p,
    {
    }

    /// A cell is in the image exactly when the inverse symmetry sends it to a
    /// cell of the set.
    pub proof fn lemma_image_contains(s: Set<Position>, g: Symmetry, q: Position)
        requires
            forall|p: Position| s.contains(p) ==> Self::valid(p),
        ensures
            Self::image(s, g).contains(q) <==> Self::valid(q) && s.contains(
                Self::moved(g.inverse(), q),
            ),
    {
        if Self::image(s, g).contains(q) {
            let p = choose|p: Position| s.contains(p) && q == Self::moved(g, p);
            Self::lemma_moved_twice(g, g.inverse(), p);
        }
        if Self::valid(q) && s.contains(Self::moved(g.inverse(), q)) {
            let p = Self::moved(g.inverse(), q);
            Self::lemma_moved_twice(g.inverse(), g, q);
            assert(s.contains(p) && q == Self::moved(g, p));
        }
    }

    /// The image of an image is the image under the two symmetries in a row,
    /// and the identity leaves a set of cells as it is.
    pub proof fn lemma_image_image(s: Set<Position>, g: Symmetry, h: Symmetry)
        requires
            forall|p: Position| s.contains(p) ==> Self::valid(p),
        ensures
            Self::image(Self::image(s, g), h) == Self::image(s, g.followed_by(h)),
            Self::image(s, Symmetry::Identity) == s,
            forall|q: Position| Self::image(s, g).contains(q) ==> Self::valid(q),
    {
        let mid = Self::image(s, g);
        assert forall|q: Position| mid.contains(q) implies Self::valid(q) by {
            Self::lemma_image_contains(s, g, q);
        }
        assert forall|q: Position|
            Self::image(mid, h).contains(q) == Self::image(s, g.followed_by(h)).contains(q) by {
            Self::lemma_image_contains(mid, h, q);
            Self::lemma_image_contains(s, g.followed_by(h), q);
            if Self::valid(q) {
                let m = Self::moved(h.inverse(), q);
                Self::lemma_moved_twice(h.inverse(), g.inverse(), q);
                Self::lemma_image_contains(s, g, m);
                assert(h.inverse().followed_by(g.inverse()) == g.followed_by(h).inverse());
            }
        }
        assert(Self::image(mid, h) =~= Self::image(s, g.followed_by(h)));
        assert forall|q: Position| Self::image(s, Symmetry::Identity).contains(q) == s.contains(
            q,
        ) by {
            Self::lemma_image_contains(s, Symmetry::Identity, q);
        }
        assert(Self::image(s, Symmetry::Identity) =~= s);
    }
}

impl<const SIZE: u8> Board<SIZE> {
    /// The board with each peg moved to where `map` sends it, or `None` when
    /// `map` sends a peg outside the triangle. `map` is asked once about
    /// each peg.
    pub fn map<F: FnMut(Position) -> Position>(&self, mut map: F) -> (r: Option<Self>)
        requires
            forall|p: Position| self@.contains(p) ==> call_requires(map, (p,)),
        ensures
            r.is_none() ==> exists|p: Position, q: Position|
                self@.contains(p) && call_ensures(map, (p,), q) && !Self::valid(q),
            r matches Some(b) ==> {
                &&& b.wf()
                &&& forall|q: Position|
                    b@.contains(q) ==> exists|p: Position|
                        self@.contains(p) && call_ensures(map, (p,), q)
                &&& forall|p: Position|
                    self@.contains(p) ==> exists|q: Position|
                        b@.contains(q) && call_ensures(map, (p,), q)
            },
    {
        proof {
            use_type_invariant(self);
        }
        let pegs = self.iter_stones();
        let mut moved: Vec<Position> = Vec::new();
        let mut k: usize = 0;
        let ghost asked = map;
        while k < pegs.len()
            invariant
                map == asked,
                k <= pegs@.len(),
                moved@.len() == k,
                forall|p: Position| self@.contains(p) <==> pegs@.contains(p),
                forall|p: Position| self@.contains(p) ==> call_requires(map, (p,)),
                forall|j: int| 0 <= j < k ==> call_ensures(map, (pegs@[j],), moved@[j]),
            decreases pegs@.len() - k,
        {
            assert(pegs@.contains(pegs@[k as int]));
            moved.push(map(pegs[k]));
            k += 1;
        }
        let r = Self::from_positions(&moved);
        proof {
            match r {
                None => {
                    let j = choose|j: int| 0 <= j < moved@.len() && !Self::valid(moved@[j]);
                    assert(pegs@.contains(pegs@[j]));
                    assert(self@.contains(pegs@[j]) && call_ensures(map, (pegs@[j],), moved@[j])
                        && !Self::valid(moved@[j]));
                },
                Some(b) => {
                    assert forall|q: Position| b@.contains(q) implies exists|p: Position|
                        self@.contains(p) && call_ensures(map, (p,), q) by {
                        let j = choose|j: int| 0 <= j < moved@.len() && moved@[j] == q;
                        assert(pegs@.contains(pegs@[j]));
                        assert(self@.contains(pegs@[j]) && call_ensures(map, (pegs@[j],), q));
                    }
                    assert forall|p: Position| self@.contains(p) implies exists|q: Position|
                        b@.contains(q) && call_ensures(map, (p,), q) by {
                        assert(pegs@.contains(p));
                        let j = choose|j: int| 0 <= j < pegs@.len() && pegs@[j] == p;
                        assert(moved@.contains(moved@[j]));
                        assert(b@.contains(moved@[j]) && call_ensures(map, (p,), moved@[j]));
                    }
                },
            }
        }
        r
    }

    /// The board with each peg moved to where `map` sends it and the pegs
    /// for which `map` gives `None` taken off, or `None` when `map` sends a
    /// peg outside the triangle. `map` is asked once about each peg.
    pub fn filter_map<F: FnMut(Position) -> Option<Position>>(&self, mut map: F) -> (r: Option<
        Self,
    >)
        requires
            forall|p: Position| self@.contains(p) ==> call_requires(map, (p,)),
        ensures
            r.is_none() ==> exists|p: Position, q: Position|
                self@.contains(p) && call_ensures(map, (p,), Some(q)) && !Self::valid(q),
            r matches Some(b) ==> {
                &&& b.wf()
                &&& forall|q: Position|
                    b@.contains(q) ==> exists|p: Position|
                        self@.contains(p) && call_ensures(map, (p,), Some(q))
                &&& forall|p: Position|
                    self@.contains(p) ==> call_ensures(map, (p,), None) || exists|q: Position|
                        b@.contains(q) && call_ensures(map, (p,), Some(q))
            },
    {
        proof {
            use_type_invariant(self);
        }
        let pegs = self.iter_stones();
        let mut moved: Vec<Position> = Vec::new();
        let mut k: usize = 0;
        let ghost asked = map;
        while k < pegs.len()
            invariant
                map == asked,
                k <= pegs@.len(),
                forall|p: Position| self@.contains(p) <==> pegs@.contains(p),
                forall|p: Position| self@.contains(p) ==> call_requires(map, (p,)),
                forall|i: int|
                    0 <= i < moved@.len() ==> exists|p: Position|
                        self@.contains(p) && call_ensures(map, (p,), Some(#[trigger] moved@[i])),
                forall|j: int|
                    0 <= j < k ==> call_ensures(map, (#[trigger] pegs@[j],), None) || exists|
                        i: int,
                    |
                        0 <= i < moved@.len() && call_ensures(map, (pegs@[j],), Some(moved@[i])),
            decreases pegs@.len() - k,
        {
            let p = pegs[k];
            assert(pegs@.contains(p));
            let ghost before = moved@;
            match map(p) {
                Some(q) => {
                    moved.push(q);
                    proof {
                        assert forall|i: int| 0 <= i < moved@.len() implies exists|p: Position|
                            self@.contains(p) && call_ensures(
                                map,
                                (p,),
                                Some(#[trigger] moved@[i]),
                            ) by {
                            if i < before.len() {
                                assert(moved@[i] == before[i]);
                            } else {
                                assert(self@.contains(p) && call_ensures(map, (p,), Some(q)));
                            }
                        }
                        assert forall|j: int| 0 <= j < k + 1 implies call_ensures(
                            map,
                            (#[trigger] pegs@[j],),
                            None,
                        ) || exists|i: int|
                            0 <= i < moved@.len() && call_ensures(
                                map,
                                (pegs@[j],),
                                Some(moved@[i]),
                            ) by {
                            if j < k {
                                if !call_ensures(map, (pegs@[j],), None) {
                                    let i = choose|i: int|
                                        0 <= i < before.len() && call_ensures(
                                            map,
                                            (pegs@[j],),
                                            Some(before[i]),
                                        );
                                    assert(moved@[i] == before[i]);
                                }
                            } else {
                                assert(moved@[before.len() as int] == q);
                            }
                        }
                    }
                },
                None => {},
            }
            k += 1;
        }
        let r = Self::from_positions(&moved);
        proof {
            match r {
                None => {
                    let i = choose|i: int| 0 <= i < moved@.len() && !Self::valid(moved@[i]);
                    let p = choose|p: Position|
                        self@.contains(p) && call_ensures(map, (p,), Some(moved@[i]));
                    assert(self@.contains(p) && call_ensures(map, (p,), Some(moved@[i]))
                        && !Self::valid(moved@[i]));
                },
                Some(b) => {
                    assert forall|q: Position| b@.contains(q) implies exists|p: Position|
                        self@.contains(p) && call_ensures(map, (p,), Some(q)) by {
                        let i = choose|i: int| 0 <= i < moved@.len() && moved@[i] == q;
                    }
                    assert forall|p: Position| self@.contains(p) implies call_ensures(
                        map,
                        (p,),
                        None,
                    ) || exists|q: Position|
                        b@.contains(q) && call_ensures(map, (p,), Some(q)) by {
                        assert(pegs@.contains(p));
                        let j = choose|j: int| 0 <= j < pegs@.len() && pegs@[j] == p;
                        if !call_ensures(map, (pegs@[j],), None) {
                            let i = choose|i: int|
                                0 <= i < moved@.len() && call_ensures(
                                    map,
                                    (pegs@[j],),
                                    Some(moved@[i]),
                                );
                            assert(moved@.contains(moved@[i]));
                            assert(b@.contains(moved@[i]) && call_ensures(
                                map,
                                (p,),
                                Some(moved@[i]),
                            ));
                        }
                    }
                },
            }
        }
        r
    }

    /// The board with only the pegs that `keep` accepts. `keep` is asked once
    /// about each peg.
    pub fn filter<F: FnMut(&Position) -> bool>(&self, mut keep: F) -> (r: Self)
        requires
            forall|p: Position| self@.contains(p) ==> call_requires(keep, (&p,)),
        ensures
            r.wf(),
            forall|p: Position| r@.contains(p) ==> self@.contains(p) && call_ensures(keep, (&p,), true),
            forall|p: Position|
                self@.contains(p) && !r@.contains(p) ==> call_ensures(keep, (&p,), false),
    {
        proof {
            use_type_invariant(self);
            self.lemma_view_valid();
        }
        let pegs = self.iter_stones();
        let mut kept: Vec<Position> = Vec::new();
        let mut k: usize = 0;
        let ghost asked = keep;
        while k < pegs.len()
            invariant
                keep == asked,
                k <= pegs@.len(),
                forall|p: Position| self@.contains(p) <==> pegs@.contains(p),
                forall|p: Position| self@.contains(p) ==> call_requires(keep, (&p,)),
                forall|i: int|
                    0 <= i < kept@.len() ==> self@.contains(#[trigger] kept@[i]) && call_ensures(
                        keep,
                        (&kept@[i],),
                        true,
                    ),
                forall|j: int|
                    0 <= j < k ==> kept@.contains(#[trigger] pegs@[j]) || call_ensures(
                        keep,
                        (&pegs@[j],),
                        false,
                    ),
            decreases pegs@.len() - k,
        {
            let p = pegs[k];
            assert(pegs@.contains(p));
            let ghost before = kept@;
            if keep(&p) {
                kept.push(p);
                proof {
                    assert forall|j: int| 0 <= j < k + 1 implies kept@.contains(
                        #[trigger] pegs@[j],
                    ) || call_ensures(keep, (&pegs@[j],), false) by {
                        if j < k {
                            if before.contains(pegs@[j]) {
                                let i = choose|i: int|
                                    0 <= i < before.len() && before[i] == pegs@[j];
                                assert(kept@[i] == pegs@[j]);
                            }
                        } else {
                            assert(kept@[before.len() as int] == p);
                        }
                    }
                }
            }
            k += 1;
        }
        let r = Self::from_positions(&kept).unwrap();
        proof {
            assert forall|p: Position| r@.contains(p) implies self@.contains(p) && call_ensures(
                keep,
                (&p,),
                true,
            ) by {
                let i = choose|i: int| 0 <= i < kept@.len() && kept@[i] == p;
            }
            assert forall|p: Position| self@.contains(p) && !r@.contains(p) implies call_ensures(
                keep,
                (&p,),
                false,
            ) by {
                assert(pegs@.contains(p));
                let j = choose|j: int| 0 <= j < pegs@.len() && pegs@[j] == p;
                assert(!kept@.contains(pegs@[j]));
            }
        }
        r
    }

    /// The board mirrored: every row read from its other end.
    pub fn flip(&self) -> (r: Self)
        ensures
            r.wf(),
            r@ == Self::image(self@, Symmetry::Flip),
    {
        proof {
            use_type_invariant(self);
            self.lemma_view_valid();
        }
        let mut dots: BitSetType = BitSetType::zero();
        let mut y: u8 = 0;
        while y < SIZE
            invariant
                self.wf(),
                y <= SIZE,
                forall|i: nat|
                    dots.has_bit(i) <==> Self::valid_index(i) && Self::cell_at(i).y < y
                        && self@.contains(Self::moved(Symmetry::Flip, Self::cell_at(i))),
            decreases SIZE - y,
        {
            let rowbits = self.row(y).unwrap();
            let len = Self::row_len(y) as usize;
            let base = Self::get_idx(pos(0, y)).unwrap();
            proof {
                Self::lemma_index_round_trip(Position { x: 0, y });
            }
            let mirrored = rowbits.revn(len);
            let shifted = mirrored.val.shl(base);
            let ghost before = dots;
            dots = dots.or(shifted);
            proof {
                let s = stride(SIZE) as int;
                assert forall|i: nat|
                    dots.has_bit(i) <==> Self::valid_index(i) && Self::cell_at(i).y < y + 1
                        && self@.contains(Self::moved(Symmetry::Flip, Self::cell_at(i))) by {
                    if shifted.has_bit(i) {
                        let j = (i - base) as nat;
                        assert(mirrored@.contains(j));
                        lemma_fundamental_div_mod_converse(i as int, s, y as int, j as int);
                        assert(rowbits@.contains((len - 1 - j) as nat));
                    }
                    if Self::valid_index(i) && Self::cell_at(i).y == y && self@.contains(
                        Self::moved(Symmetry::Flip, Self::cell_at(i)),
                    ) {
                        Self::lemma_cell_round_trip(i);
                        Self::lemma_index_round_trip(Self::cell_at(i));
                        let j = Self::cell_at(i).x as nat;
                        assert(i == j + base);
                        assert(rowbits@.contains((len - 1 - j) as nat));
                        assert(mirrored@.contains(j));
                        assert(mirrored.val.has_bit((i - base) as nat));
                    }
                }
            }
            y += 1;
        }
        let bits = BitSet::new(dots);
        proof {
            assert forall|i: nat| bits@.contains(i) implies Self::valid_index(i) by {}
        }
        let r = Board { dots: bits };
        proof {
            assert forall|q: Position| r@.contains(q) == Self::image(
                self@,
                Symmetry::Flip,
            ).contains(q) by {
                Self::lemma_image_contains(self@, Symmetry::Flip, q);
                if Self::valid(q) {
                    Self::lemma_index_round_trip(q);
                }
            }
            assert(r@ =~= Self::image(self@, Symmetry::Flip));
        }
        r
    }

    /// Where a rotation sends a cell.
    fn turned(g: Symmetry, p: Position) -> (q: Position)
        requires
            Self::valid(p),
            g == Symmetry::RotateRight || g == Symmetry::RotateLeft,
        ensures
            q == Self::moved(g, p),
    {
        match g {
            Symmetry::RotateRight => pos(p.y, SIZE - 1 - p.x - p.y),
            _ => pos(SIZE - 1 - p.y - p.x, p.x),
        }
    }

    /// The board with each peg moved to where the rotation `g` sends it.
    fn rotate(&self, g: Symmetry) -> (r: Self)
        requires
            g == Symmetry::RotateRight || g == Symmetry::RotateLeft,
        ensures
            r.wf(),
            r@ == Self::image(self@, g),
    {
        proof {
            self.lemma_view_valid();
        }
        let turn = |p: Position| -> (q: Position)
            requires
                Self::valid(p),
            ensures
                q == Self::moved(g, p),
            { Self::turned(g, p) };
        let turned = self.map(turn);
        proof {
            match turned {
                None => {
                    let (p, q) = choose|p: Position, q: Position|
                        self@.contains(p) && call_ensures(turn, (p,), q) && !Self::valid(q);
                    Self::lemma_moved_twice(g, Symmetry::Identity, p);
                },
                Some(b) => {
                    assert forall|q: Position| b@.contains(q) == Self::image(self@, g).contains(
                        q,
                    ) by {
                        if b@.contains(q) {
                            let p = choose|p: Position|
                                self@.contains(p) && call_ensures(turn, (p,), q);
                            assert(self@.contains(p) && q == Self::moved(g, p));
                        }
                        if Self::image(self@, g).contains(q) {
                            let p = choose|p: Position|
                                self@.contains(p) && q == Self::moved(g, p);
                            let q2 = choose|q2: Position|
                                b@.contains(q2) && call_ensures(turn, (p,), q2);
                        }
                    }
                    assert(b@ =~= Self::image(self@, g));
                },
            }
        }
        turned.unwrap()
    }

    /// The board turned to the right: the peg on `(x, y)` goes to
    /// `(y, SIZE - 1 - x - y)`.
    pub fn rotate_right(&self) -> (r: Self)
        ensures
            r.wf(),
            r@ == Self::image(self@, Symmetry::RotateRight),
    {
        self.rotate(Symmetry::RotateRight)
    }

    /// The board turned to the left: the peg on `(x, y)` goes to
    /// `(SIZE - 1 - x - y, x)`.
    pub fn rotate_left(&self) -> (r: Self)
        ensures
            r.wf(),
            r@ == Self::image(self@, Symmetry::RotateLeft),
    {
        self.rotate(Symmetry::RotateLeft)
    }

    /// The board turned to the right and then mirrored.
    pub fn rotate_right_flip(&self) -> (r: Self)
        ensures
            r.wf(),
            r@ == Self::image(self@, Symmetry::RotateRightFlip),
    {
        proof {
            self.lemma_view_valid();
            Self::lemma_image_image(self@, Symmetry::RotateRight, Symmetry::Flip);
        }
        self.rotate_right().flip()
    }

    /// The board turned to the left and then mirrored.
    pub fn rotate_left_flip(&self) -> (r: Self)
        ensures
            r.wf(),
            r@ == Self::image(self@, Symmetry::RotateLeftFlip),
    {
        proof {
            self.lemma_view_valid();
            Self::lemma_image_image(self@, Symmetry::RotateLeft, Symmetry::Flip);
        }
        self.rotate_left().flip()
    }

    /// The board seen through each of the six symmetries, the board itself
    /// first.
    pub fn all_variants(&self) -> (variants: Vec<Self>)
        ensures
            variants@.len() == 6,
            forall|k: int|
                0 <= k < 6 ==> (#[trigger] variants@[k]).wf() && variants@[k]@ == Self::image(
                    self@,
                    symmetry_at(k),
                ),
    {
        proof {
            use_type_invariant(self);
            self.lemma_view_valid();
            Self::lemma_image_image(self@, Symmetry::Identity, Symmetry::Identity);
        }
        let base = *self;
        let r = self.rotate_right();
        let l = self.rotate_left();
        let mut variants: Vec<Self> = Vec::new();
        variants.push(base);
        variants.push(base.flip());
        variants.push(r);
        variants.push(l);
        variants.push(self.rotate_right_flip());
        variants.push(self.rotate_left_flip());
        variants
    }

    /// The canonical form of the board: the one among its six variants with
    /// the least bit pattern.
    pub fn canonicalize(&self) -> (c: Self)
        ensures
            self.canonical_is(c),
    {
        let variants = self.all_variants();
        let mut best = variants[0];
        let mut at: usize = 0;
        let mut k: usize = 1;
        while k < 6
            invariant
                1 <= k <= 6,
                variants@.len() == 6,
                at < k,
                best == variants@[at as int],
                forall|j: int| 0 <= j < k ==> best.pattern() <= variants@[j].pattern(),
            decreases 6 - k,
        {
            if variants[k].dots.val < best.dots.val {
                best = variants[k];
                at = k;
            }
            k += 1;
        }
        proof {
            assert(best@ == Self::image(self@, symmetry_at(at as int)));
            assert forall|v: Self| Self::is_variant(v, *self) implies best.pattern()
                <= v.pattern() by {
                let j = choose|j: int|
                    0 <= j < 6 && v@ == #[trigger] Self::image(self@, symmetry_at(j));
                v.lemma_view_determines(variants@[j]);
            }
        }
        best
    }

    /// Boards that are variants of each other have the same canonical form.
    /// In particular the canonical form of a board is its own canonical form,
    /// and mirroring or turning a board does not change its canonical form.
    pub proof fn lemma_canonical_of_variant(b: Self, f: Self, cb: Self, cf: Self)
        requires
            b.wf(),
            Self::is_variant(f, b),
            b.canonical_is(cb),
            f.canonical_is(cf),
        ensures
            cb == cf,
    {
        b.lemma_view_valid();
        f.lemma_view_valid();
        let g = choose|k: int| 0 <= k < 6 && f@ == #[trigger] Self::image(b@, symmetry_at(k));
        let gb = choose|k: int| 0 <= k < 6 && cb@ == #[trigger] Self::image(b@, symmetry_at(k));
        let gf = choose|k: int| 0 <= k < 6 && cf@ == #[trigger] Self::image(f@, symmetry_at(k));
        let sg = symmetry_at(g);
        Self::lemma_image_image(b@, sg, symmetry_at(gf));
        Self::lemma_variant_at(cf, b, sg.followed_by(symmetry_at(gf)));
        Self::lemma_image_image(b@, sg, sg.inverse());
        Self::lemma_image_image(f@, sg.inverse(), symmetry_at(gb));
        Self::lemma_variant_at(cb, f, sg.inverse().followed_by(symmetry_at(gb)));
        cb.lemma_pattern_determines(cf);
    }

    /// A board whose pegs are the image of the pegs of `b` under a symmetry
    /// is a variant of `b`.
    pub proof fn lemma_variant_at(v: Self, b: Self, g: Symmetry)
        requires
            v.wf(),
            v@ == Self::image(b@, g),
        ensures
            Self::is_variant(v, b),
    {
        let k: int = match g {
            Symmetry::Identity => 0,
            Symmetry::Flip => 1,
            Symmetry::RotateRight => 2,
            Symmetry::RotateLeft => 3,
            Symmetry::RotateRightFlip => 4,
            Symmetry::RotateLeftFlip => 5,
        };
        assert(symmetry_at(k) == g);
        assert(v@ == Self::image(b@, symmetry_at(k)));
    }
}

} // verus!
