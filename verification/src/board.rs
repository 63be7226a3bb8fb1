//! The triangular board: cells, their bit positions, and the pegs on them.

use crate::adapters::as_some;
use crate::u32set::{FixedBitSet, SliceIndexBitSet};
use crate::word::BitWord;
use vstd::arithmetic::div_mod::{lemma_fundamental_div_mod, lemma_fundamental_div_mod_converse};
use vstd::arithmetic::power2::{lemma2_to64, lemma_pow2_strictly_increases, pow2};
use vstd::prelude::*;
use vstd::std_specs::cmp::PartialEqSpecImpl;

pub mod convert;
pub mod moves;
pub mod order;
pub mod transform;

verus! {

/// A cell of the board: column `x` of row `y`.
#[derive(Debug, Copy, Clone, PartialEq, Eq, Structural, Ord)]
pub struct Position {
    pub x: u8,
    pub y: u8,
}

impl Position {
    /// The cell in column `x` of row `y`.
    pub fn new(x: u8, y: u8) -> (p: Self)
        ensures
            p == (Position { x, y }),
    {
        Self { x, y }
    }

    /// The cell whose column and row are the two parts of `xy`.
    pub fn from(xy: (u8, u8)) -> (p: Self)
        ensures
            p == (Position { x: xy.0, y: xy.1 }),
    {
        Position { x: xy.0, y: xy.1 }
    }
}

/// The cell in column `x` of row `y`.
pub fn pos(x: u8, y: u8) -> (p: Position)
    ensures
        p == (Position { x, y }),
{
    Position::new(x, y)
}

/// The word that holds a board.
pub type BitSetType = u64;

/// The bit set that holds a board.
pub type BitSet = FixedBitSet<BitSetType>;

/// The distance between the bit positions of two cells that lie above each
/// other: the least power of two that is at least `n`.
pub open spec fn stride(n: u8) -> nat {
    if n <= 1 {
        1
    } else if n <= 2 {
        2
    } else if n <= 4 {
        4
    } else if n <= 8 {
        8
    } else if n <= 16 {
        16
    } else if n <= 32 {
        32
    } else if n <= 64 {
        64
    } else if n <= 128 {
        128
    } else {
        256
    }
}

/// The stride is a power of two that is at least `n`, and the least of
/// them.
pub proof fn lemma_stride_least(n: u8, e: nat)
    ensures
        exists|k: nat| k <= 8 && stride(n) == #[trigger] pow2(k),
        stride(n) >= n,
        pow2(e) >= n ==> stride(n) <= pow2(e),
{
    lemma2_to64();
    let k: nat = if n <= 1 {
        0
    } else if n <= 2 {
        1
    } else if n <= 4 {
        2
    } else if n <= 8 {
        3
    } else if n <= 16 {
        4
    } else if n <= 32 {
        5
    } else if n <= 64 {
        6
    } else if n <= 128 {
        7
    } else {
        8
    };
    assert(stride(n) == pow2(k));
    if e < k {
        if e + 1 < k {
            lemma_pow2_strictly_increases(e, (k - 1) as nat);
        }
    } else if e > k {
        lemma_pow2_strictly_increases(k, e);
    }
}

/// A product is at most the product of bounds on its factors.
proof fn lemma_mul_bound(y: nat, s: nat, ymax: nat, smax: nat)
    by (nonlinear_arith)
    requires
        y <= ymax,
        s <= smax,
    ensures
        y * s <= ymax * smax,
{
}

/// A triangle of side `SIZE`: row `y` has the `SIZE - y` cells with
/// `x < SIZE - y`. The board is the set of its cells that hold a peg.
#[derive(Debug, Copy, Clone, Eq)]
pub struct Board<const SIZE: u8> {
    dots: BitSet,
}

/// Two boards are equal exactly when their bit patterns are.
impl<const SIZE: u8> PartialEq for Board<SIZE> {
    fn eq(&self, other: &Self) -> (r: bool) {
        self.dots.val == other.dots.val
    }
}

impl<const SIZE: u8> PartialEqSpecImpl for Board<SIZE> {
    open spec fn obeys_eq_spec() -> bool {
        true
    }

    open spec fn eq_spec(&self, other: &Self) -> bool {
        *self == *other
    }
}

impl<const SIZE: u8> View for Board<SIZE> {
    type V = Set<Position>;

    /// The cells that hold a peg.
    closed spec fn view(&self) -> Set<Position> {
        Set::new(|p: Position| Self::valid(p) && self.dots@.contains(Self::index_of(p)))
    }
}

impl<const SIZE: u8> Board<SIZE> {
    /// Whether `p` is a cell of the triangle.
    pub open spec fn valid(p: Position) -> bool {
        p.y < SIZE && p.x < SIZE - p.y
    }

    /// The bit position of cell `p`.
    pub open spec fn index_of(p: Position) -> nat {
        p.x as nat + p.y as nat * stride(SIZE)
    }

    /// Whether `i` is the bit position of a cell of the triangle.
    pub open spec fn valid_index(i: nat) -> bool {
        i / stride(SIZE) < SIZE && i % stride(SIZE) < SIZE - i / stride(SIZE)
    }

    /// The cell whose bit position is `i`.
    pub open spec fn cell_at(i: nat) -> Position {
        Position { x: (i % stride(SIZE)) as u8, y: (i / stride(SIZE)) as u8 }
    }

    /// Every cell of the triangle.
    pub open spec fn all_cells() -> Set<Position> {
        Set::new(|p: Position| Self::valid(p))
    }

    /// What the board holds at `p`: a peg, a hole, or nothing where `p` is no
    /// cell.
    pub open spec fn cell(self, p: Position) -> Option<bool> {
        if Self::valid(p) {
            Some(self@.contains(p))
        } else {
            None
        }
    }

    /// The raw bit pattern of the board.
    pub closed spec fn pattern(self) -> u64 {
        self.dots.val
    }

    /// The triangle fits into the 64 bits, which a side of at most 8 does,
    /// and every set bit stands for a cell.
    #[verifier::type_invariant]
    pub closed spec fn wf(self) -> bool {
        &&& SIZE <= 8
        &&& forall|i: nat| self.dots@.contains(i) ==> Self::valid_index(i)
    }

    /// The side of a sound board is at most 8, so that each of its cells has
    /// a bit of its own among the 64.
    pub proof fn lemma_side_fits(self)
        requires
            self.wf(),
        ensures
            SIZE <= 8,
            forall|p: Position| Self::valid(p) ==> Self::index_of(p) < 64,
    {
        assert forall|p: Position| Self::valid(p) implies Self::index_of(p) < 64 by {
            Self::lemma_index_round_trip(p);
        }
    }

    /// Encoding a cell and decoding the result gives the cell back.
    pub proof fn lemma_index_round_trip(p: Position)
        requires
            Self::valid(p),
        ensures
            Self::valid_index(Self::index_of(p)),
            Self::cell_at(Self::index_of(p)) == p,
            SIZE <= 8 ==> Self::index_of(p) < 64,
    {
        let s = stride(SIZE) as int;
        lemma_fundamental_div_mod_converse(Self::index_of(p) as int, s, p.y as int, p.x as int);
        if SIZE <= 8 {
            lemma_mul_bound(p.y as nat, stride(SIZE), 7, 8);
        }
    }

    /// Decoding the bit position of a cell and encoding the result gives the
    /// bit position back.
    pub proof fn lemma_cell_round_trip(i: nat)
        requires
            Self::valid_index(i),
        ensures
            Self::valid(Self::cell_at(i)),
            Self::index_of(Self::cell_at(i)) == i,
    {
        let s = stride(SIZE) as int;
        lemma_fundamental_div_mod(i as int, s);
        assert(s * (i as int / s) == (i as int / s) * s) by (nonlinear_arith);
    }

    /// Only cells hold pegs, and there are finitely many of them.
    pub proof fn lemma_view_valid(self)
        ensures
            self@.finite(),
            forall|p: Position| self@.contains(p) ==> Self::valid(p),
    {
        let f = |i: nat| Self::cell_at(i);
        self.dots.lemma_view_bounded();
        self.dots@.lemma_map_finite(f);
        assert forall|p: Position| self@.contains(p) implies self.dots@.map(f).contains(p) by {
            Self::lemma_index_round_trip(p);
            assert(self.dots@.contains(Self::index_of(p)) && f(Self::index_of(p)) == p);
        }
        assert(self@.subset_of(self.dots@.map(f)));
        vstd::set_lib::lemma_set_subset_finite(self.dots@.map(f), self@);
    }

    /// Boards with the same pegs are the same board.
    pub proof fn lemma_view_determines(self, other: Self)
        requires
            self.wf(),
            other.wf(),
            self@ == other@,
        ensures
            self == other,
    {
        assert forall|i: nat| self.dots@.contains(i) == other.dots@.contains(i) by {
            if self.dots@.contains(i) || other.dots@.contains(i) {
                Self::lemma_cell_round_trip(i);
                let p = Self::cell_at(i);
                assert(self@.contains(p) == self.dots@.contains(Self::index_of(p)));
                assert(other@.contains(p) == other.dots@.contains(Self::index_of(p)));
            }
        }
        assert(self.dots@ =~= other.dots@);
        self.dots.lemma_view_determines(other.dots);
    }

    /// The bit pattern has a one exactly at the bit positions of the cells
    /// that hold a peg.
    pub proof fn lemma_pattern_bits(self, i: nat)
        requires
            self.wf(),
        ensures
            self.pattern().has_bit(i) <==> Self::valid_index(i) && self@.contains(Self::cell_at(i)),
    {
        if Self::valid_index(i) {
            Self::lemma_cell_round_trip(i);
        }
        assert(self.dots@.contains(i) == self.pattern().has_bit(i));
    }

    /// Boards with the same bit pattern are the same board.
    pub proof fn lemma_pattern_determines(self, other: Self)
        requires
            self.pattern() == other.pattern(),
        ensures
            self == other,
    {
    }

    /// A board holds at most 64 pegs.
    pub proof fn lemma_count_bounded(self)
        requires
            self.wf(),
        ensures
            self@.len() <= 64,
    {
        self.lemma_count();
        self.dots.lemma_view_bounded();
    }

    /// The number of pegs is the number of set bits.
    proof fn lemma_count(self)
        requires
            self.wf(),
        ensures
            self@.len() == self.dots@.len(),
    {
        let f = |i: nat| Self::cell_at(i);
        self.dots.lemma_view_bounded();
        assert forall|p: Position| self@.contains(p) == self.dots@.map(f).contains(p) by {
            if self@.contains(p) {
                Self::lemma_index_round_trip(p);
                assert(self.dots@.contains(Self::index_of(p)) && f(Self::index_of(p)) == p);
            }
            if self.dots@.map(f).contains(p) {
                let i = choose|i: nat| self.dots@.contains(i) && f(i) == p;
                Self::lemma_cell_round_trip(i);
            }
        }
        assert(self.dots@.map(f) =~= self@);
        assert forall|i: nat, j: nat|
            self.dots@.contains(i) && self.dots@.contains(j) && #[trigger] f(i) == #[trigger] f(
                j,
            ) implies i == j by {
            Self::lemma_cell_round_trip(i);
            Self::lemma_cell_round_trip(j);
        }
        vstd::set_lib::lemma_map_size(self.dots@, self@, f);
    }

    /// The distance between the bit positions of two cells that lie above
    /// each other.
    pub fn row_offset() -> (r: usize)
        ensures
            r == stride(SIZE),
    {
        let mut r: usize = 1;
        while r < SIZE as usize
            invariant
                r == 1 || r == 2 || r == 4 || r == 8 || r == 16 || r == 32 || r == 64 || r == 128
                    || r == 256,
                r == 1 || r < 2 * SIZE,
            decreases 512 - r,
        {
            r = r * 2;
        }
        r
    }

    /// The number of cells in row `y`, which must be at most `SIZE`.
    pub fn row_len(y: u8) -> (n: u8)
        requires
            y <= SIZE,
        ensures
            n == SIZE - y,
    {
        SIZE - y
    }

    /// Whether `p` is a cell of the triangle.
    pub fn valid_pos(p: Position) -> (r: bool)
        ensures
            r == Self::valid(p),
    {
        p.y < SIZE && p.x < Self::row_len(p.y)
    }

    /// The bit position of `p`, or `None` where `p` is no cell.
    pub fn get_idx(p: Position) -> (r: Option<usize>)
        ensures
            r == (if Self::valid(p) {
                Some(Self::index_of(p) as usize)
            } else {
                None
            }),
            r matches Some(i) ==> i == Self::index_of(p),
    {
        let s = Self::row_offset();
        proof {
            lemma_mul_bound(p.y as nat, s as nat, 255, 256);
        }
        as_some(Self::valid_pos(p), (p.x as usize) + (p.y as usize) * s)
    }

    /// The cell with bit position `i`, or `None` where no cell has it.
    pub fn get_pos(i: usize) -> (r: Option<Position>)
        ensures
            r == (if Self::valid_index(i as nat) {
                Some(Self::cell_at(i as nat))
            } else {
                None
            }),
    {
        let s = Self::row_offset();
        let x = i % s;
        let y = i / s;
        if x > 255 || y > 255 {
            return None;
        }
        let p = Position { x: x as u8, y: y as u8 };
        as_some(Self::valid_pos(p), p)
    }

    /// Cells with distinct bit positions, listed from the lowest up.
    pub open spec fn ascending(cells: Seq<Position>) -> bool {
        forall|a: int, b: int|
            #![trigger cells[a], cells[b]]
            0 <= a < b < cells.len() ==> Self::index_of(cells[a]) < Self::index_of(cells[b])
    }

    /// Bit positions grow along a row and from each row to the next.
    pub proof fn lemma_index_order(p: Position, q: Position)
        requires
            Self::valid(p),
            Self::valid(q),
            p.y < q.y || (p.y == q.y && p.x < q.x),
        ensures
            Self::index_of(p) < Self::index_of(q),
    {
        let s = stride(SIZE);
        if p.y < q.y {
            assert((p.y as nat + 1) * s <= q.y as nat * s) by (nonlinear_arith)
                requires
                    p.y as nat + 1 <= q.y as nat,
            ;
            assert((p.y as nat + 1) * s == p.y as nat * s + s) by (nonlinear_arith);
        }
    }

    /// The board whose pegs are the given cells, or `None` when one of them
    /// is no cell of the triangle. The side of the triangle must be at most
    /// 8, so that every cell has a bit of its own.
    pub fn from_positions(cells: &Vec<Position>) -> (r: Option<Self>)
        requires
            SIZE <= 8,
        ensures
            r.is_some() == (forall|k: int| 0 <= k < cells@.len() ==> Self::valid(cells@[k])),
            r matches Some(b) ==> b.wf() && b@ == cells@.to_set(),
    {
        let mut idxs: Vec<usize> = Vec::new();
        let mut k: usize = 0;
        while k < cells.len()
            invariant
                SIZE <= 8,
                k <= cells@.len(),
                idxs@.len() == k,
                forall|j: int| 0 <= j < k ==> Self::valid(cells@[j]),
                forall|j: int| 0 <= j < k ==> idxs@[j] == Self::index_of(cells@[j]),
            decreases cells@.len() - k,
        {
            match Self::get_idx(cells[k]) {
                Some(i) => idxs.push(i),
                None => {
                    return None;
                },
            }
            k += 1;
        }
        proof {
            assert forall|j: int| 0 <= j < idxs@.len() implies idxs@[j] < 64 by {
                Self::lemma_index_round_trip(cells@[j]);
            }
        }
        let dots: BitSet = FixedBitSet::from_positions(&idxs);
        proof {
            assert forall|i: nat| dots@.contains(i) implies Self::valid_index(i) by {
                let j = choose|j: int| 0 <= j < idxs@.len() && idxs@[j] == i;
                Self::lemma_index_round_trip(cells@[j]);
            }
        }
        let b = Board { dots };
        proof {
            assert forall|p: Position| b@.contains(p) == cells@.to_set().contains(p) by {
                if b@.contains(p) {
                    let j = choose|j: int| 0 <= j < idxs@.len() && idxs@[j] == Self::index_of(p);
                    Self::lemma_index_round_trip(cells@[j]);
                    Self::lemma_index_round_trip(p);
                    assert(cells@[j] == p);
                }
                if cells@.to_set().contains(p) {
                    let j = choose|j: int| 0 <= j < cells@.len() && cells@[j] == p;
                    assert(idxs@[j] == Self::index_of(p));
                }
            }
            assert(b@ =~= cells@.to_set());
        }
        Some(b)
    }

    /// Every cell of the triangle, row by row.
    pub fn iter_all() -> (cells: Vec<Position>)
        ensures
            forall|p: Position| Self::valid(p) <==> cells@.contains(p),
            Self::ascending(cells@),
    {
        let mut cells: Vec<Position> = Vec::new();
        let mut y: u8 = 0;
        while y < SIZE
            invariant
                y <= SIZE,
                forall|k: int|
                    0 <= k < cells@.len() ==> Self::valid(#[trigger] cells@[k]) && cells@[k].y < y,
                forall|p: Position| Self::valid(p) && p.y < y ==> cells@.contains(p),
                Self::ascending(cells@),
            decreases SIZE - y,
        {
            let n = Self::row_len(y);
            let mut x: u8 = 0;
            while x < n
                invariant
                    y < SIZE,
                    n == SIZE - y,
                    x <= n,
                    forall|k: int|
                        0 <= k < cells@.len() ==> Self::valid(#[trigger] cells@[k]) && (cells@[k].y
                            < y || (cells@[k].y == y && cells@[k].x < x)),
                    forall|p: Position|
                        Self::valid(p) && (p.y < y || (p.y == y && p.x < x)) ==> cells@.contains(
                            p,
                        ),
                    Self::ascending(cells@),
                decreases n - x,
            {
                let ghost before = cells@;
                let p = pos(x, y);
                cells.push(p);
                proof {
                    assert forall|q: Position|
                        Self::valid(q) && (q.y < y || (q.y == y && q.x < x + 1)) implies cells@.contains(
                        q,
                    ) by {
                        if q == p {
                            assert(cells@[before.len() as int] == q);
                        } else {
                            let k = choose|k: int| 0 <= k < before.len() && before[k] == q;
                            assert(cells@[k] == q);
                        }
                    }
                    assert forall|a: int, b: int|
                        #![trigger cells@[a], cells@[b]]
                        0 <= a < b < cells@.len() implies Self::index_of(cells@[a])
                        < Self::index_of(cells@[b]) by {
                        if b == before.len() {
                            assert(cells@[a] == before[a]);
                            Self::lemma_index_order(cells@[a], p);
                        } else {
                            assert(cells@[a] == before[a] && cells@[b] == before[b]);
                        }
                    }
                }
                x += 1;
            }
            y += 1;
        }
        proof {
            assert forall|p: Position| cells@.contains(p) implies Self::valid(p) by {
                let k = choose|k: int| 0 <= k < cells@.len() && cells@[k] == p;
            }
        }
        cells
    }

    /// The board with a peg on every cell. The side of the triangle must be
    /// at most 8.
    pub fn full() -> (r: Self)
        requires
            SIZE <= 8,
        ensures
            r.wf(),
            r@ == Self::all_cells(),
            forall|p: Position| Self::valid(p) ==> r.cell(p) == Some(true),
    {
        let cells = Self::iter_all();
        let r = Self::from_positions(&cells).unwrap();
        assert(r@ =~= Self::all_cells());
        r
    }

    /// The board with a peg on every cell but `e`. The side of the triangle
    /// must be at most 8.
    pub fn start(e: Position) -> (r: Self)
        requires
            SIZE <= 8,
        ensures
            r.wf(),
            r@ == Self::all_cells().remove(e),
            Self::valid(e) ==> r.cell(e) == Some(false),
            forall|p: Position| Self::valid(p) && p != e ==> r.cell(p) == Some(true),
    {
        let cells = Self::iter_all();
        let mut kept: Vec<Position> = Vec::new();
        let mut k: usize = 0;
        while k < cells.len()
            invariant
                k <= cells@.len(),
                forall|j: int| 0 <= j < kept@.len() ==> cells@.contains(kept@[j]) && kept@[j] != e,
                forall|j: int| 0 <= j < k && cells@[j] != e ==> kept@.contains(cells@[j]),
            decreases cells@.len() - k,
        {
            let p = cells[k];
            if p != e {
                let ghost before = kept@;
                kept.push(p);
                proof {
                    assert forall|j: int| 0 <= j < k + 1 && cells@[j] != e implies kept@.contains(
                        cells@[j],
                    ) by {
                        if j < k {
                            let i = choose|i: int| 0 <= i < before.len() && before[i] == cells@[j];
                            assert(kept@[i] == cells@[j]);
                        } else {
                            assert(kept@[before.len() as int] == cells@[j]);
                        }
                    }
                }
            }
            k += 1;
        }
        let r = Self::from_positions(&kept).unwrap();
        proof {
            assert forall|p: Position| r@.contains(p) == Self::all_cells().remove(e).contains(
                p,
            ) by {
                if r@.contains(p) {
                    let j = choose|j: int| 0 <= j < kept@.len() && kept@[j] == p;
                }
                if Self::valid(p) && p != e {
                    let j = choose|j: int| 0 <= j < cells@.len() && cells@[j] == p;
                    assert(kept@.contains(cells@[j]));
                }
            }
            assert(r@ =~= Self::all_cells().remove(e));
        }
        r
    }

    /// The cells with a bit position below `n` that hold a peg, from the
    /// lowest bit position up.
    pub open spec fn pegs_below(self, n: nat) -> Seq<Position>
        decreases n,
    {
        if n == 0 {
            Seq::empty()
        } else {
            let rest = self.pegs_below((n - 1) as nat);
            if Self::valid_index((n - 1) as nat) && self@.contains(Self::cell_at((n - 1) as nat)) {
                rest.push(Self::cell_at((n - 1) as nat))
            } else {
                rest
            }
        }
    }

    /// The cells that hold a peg, from the lowest bit position up.
    pub open spec fn pegs(self) -> Seq<Position> {
        self.pegs_below(64)
    }

    /// The pegs with a bit position below `n` are listed from the lowest bit
    /// position up, and every one of them is listed.
    pub proof fn lemma_pegs_below_ascending(self, n: nat)
        ensures
            Self::ascending(self.pegs_below(n)),
            forall|k: int|
                0 <= k < self.pegs_below(n).len() ==> Self::valid(#[trigger] self.pegs_below(n)[k])
                    && Self::index_of(self.pegs_below(n)[k]) < n && self@.contains(
                    self.pegs_below(n)[k],
                ),
            forall|p: Position|
                self@.contains(p) && Self::index_of(p) < n ==> self.pegs_below(n).contains(p),
        decreases n,
    {
        if n > 0 {
            let m = (n - 1) as nat;
            let rest = self.pegs_below(m);
            let all = self.pegs_below(n);
            self.lemma_pegs_below_ascending(m);
            self.lemma_view_valid();
            if Self::valid_index(m) {
                Self::lemma_cell_round_trip(m);
            }
            assert forall|p: Position| self@.contains(p) && Self::index_of(p) < n implies all.contains(
                p,
            ) by {
                Self::lemma_index_round_trip(p);
                if Self::index_of(p) < m {
                    let k = choose|k: int| 0 <= k < rest.len() && rest[k] == p;
                    assert(all[k] == p);
                } else {
                    assert(all[all.len() - 1] == p);
                }
            }
            assert forall|a: int, b: int|
                #![trigger all[a], all[b]]
                0 <= a < b < all.len() implies Self::index_of(all[a]) < Self::index_of(all[b]) by {
                assert(all[a] == rest[a]);
                if b < rest.len() {
                    assert(all[b] == rest[b]);
                }
            }
        }
    }

    /// The list of the pegs holds every peg once, from the lowest bit
    /// position up.
    pub proof fn lemma_pegs(self)
        requires
            self.wf(),
        ensures
            Self::ascending(self.pegs()),
            self.pegs().no_duplicates(),
            forall|p: Position| self.pegs().contains(p) <==> self@.contains(p),
    {
        self.lemma_pegs_below_ascending(64);
        self.lemma_side_fits();
        self.lemma_view_valid();
        let pegs = self.pegs();
        assert forall|a: int, b: int| 0 <= a < pegs.len() && 0 <= b < pegs.len() && a
            != b implies pegs[a] != pegs[b] by {
            if a < b {
                assert(Self::index_of(pegs[a]) < Self::index_of(pegs[b]));
            } else {
                assert(Self::index_of(pegs[b]) < Self::index_of(pegs[a]));
            }
        }
        assert forall|p: Position| pegs.contains(p) implies self@.contains(p) by {
            let k = choose|k: int| 0 <= k < pegs.len() && pegs[k] == p;
        }
    }

    /// The pegs are the cells of the set bits, in the order of the bits.
    proof fn lemma_pegs_below(self, n: nat)
        requires
            self.wf(),
        ensures
            self.pegs_below(n) == self.dots.members_below(n).map_values(
                |i: usize| Self::cell_at(i as nat),
            ),
        decreases n,
    {
        let f = |i: usize| Self::cell_at(i as nat);
        if n == 0 {
            assert(self.pegs_below(0) =~= self.dots.members_below(0).map_values(f));
        } else {
            let m = (n - 1) as nat;
            self.lemma_pegs_below(m);
            self.lemma_pattern_bits(m);
            assert(self.dots@.contains(m) == self.pattern().has_bit(m));
            if self.dots@.contains(m) {
                self.dots.val.lemma_bit_in_width(m);
                assert(self.dots.members_below(n) == self.dots.members_below(m).push(m as usize));
                assert(self.dots.members_below(m).push(m as usize).map_values(f)
                    =~= self.dots.members_below(m).map_values(f).push(f(m as usize)));
            }
        }
    }

    /// The cells that hold a peg, from the lowest bit position up.
    pub fn iter_stones(&self) -> (pegs: Vec<Position>)
        ensures
            pegs@ == self.pegs(),
            forall|p: Position| self@.contains(p) <==> pegs@.contains(p),
            Self::ascending(pegs@),
    {
        proof {
            use_type_invariant(self);
        }
        let idxs = self.dots.iter_pos();
        let mut pegs: Vec<Position> = Vec::new();
        let mut k: usize = 0;
        while k < idxs.len()
            invariant
                self.wf(),
                k <= idxs@.len(),
                pegs@.len() == k,
                forall|j: int| 0 <= j < idxs@.len() ==> self.dots@.contains(idxs@[j] as nat),
                forall|j: int| 0 <= j < k ==> pegs@[j] == Self::cell_at(idxs@[j] as nat),
            decreases idxs@.len() - k,
        {
            match Self::get_pos(idxs[k]) {
                Some(p) => pegs.push(p),
                None => {},
            }
            k += 1;
        }
        proof {
            self.lemma_pegs_below(64);
            assert(pegs@ =~= self.dots.members_below(64).map_values(
                |i: usize| Self::cell_at(i as nat),
            ));
            assert forall|p: Position| self@.contains(p) implies pegs@.contains(p) by {
                Self::lemma_index_round_trip(p);
                let j = choose|j: int|
                    0 <= j < idxs@.len() && idxs@[j] == Self::index_of(p);
                assert(pegs@[j] == p);
            }
            assert forall|p: Position| pegs@.contains(p) implies self@.contains(p) by {
                let j = choose|j: int| 0 <= j < pegs@.len() && pegs@[j] == p;
                Self::lemma_cell_round_trip(idxs@[j] as nat);
            }
            assert forall|a: int, b: int|
                #![trigger pegs@[a], pegs@[b]]
                0 <= a < b < pegs@.len() implies Self::index_of(pegs@[a]) < Self::index_of(
                pegs@[b],
            ) by {
                Self::lemma_cell_round_trip(idxs@[a] as nat);
                Self::lemma_cell_round_trip(idxs@[b] as nat);
            }
        }
        pegs
    }

    /// Every cell of the triangle, row by row, with whether it holds a peg.
    pub fn iter(&self) -> (cells: Vec<(Position, bool)>)
        ensures
            forall|p: Position|
                Self::valid(p) <==> exists|k: int| 0 <= k < cells@.len() && cells@[k].0 == p,
            forall|k: int| 0 <= k < cells@.len() ==> cells@[k].1 == self@.contains(cells@[k].0),
            forall|a: int, b: int|
                #![trigger cells@[a], cells@[b]]
                0 <= a < b < cells@.len() ==> Self::index_of(cells@[a].0) < Self::index_of(
                    cells@[b].0,
                ),
    {
        let all = Self::iter_all();
        let mut cells: Vec<(Position, bool)> = Vec::new();
        let mut k: usize = 0;
        while k < all.len()
            invariant
                k <= all@.len(),
                cells@.len() == k,
                forall|p: Position| Self::valid(p) <==> all@.contains(p),
                forall|j: int| 0 <= j < k ==> cells@[j].0 == all@[j],
                forall|j: int| 0 <= j < k ==> cells@[j].1 == self@.contains(cells@[j].0),
            decreases all@.len() - k,
        {
            let p = all[k];
            assert(all@.contains(p));
            let peg = self.at(p).unwrap();
            cells.push((p, peg));
            k += 1;
        }
        proof {
            assert forall|p: Position| Self::valid(p) implies exists|k: int|
                0 <= k < cells@.len() && cells@[k].0 == p by {
                let j = choose|j: int| 0 <= j < all@.len() && all@[j] == p;
                assert(cells@[j].0 == p);
            }
            assert forall|p: Position|
                (exists|k: int| 0 <= k < cells@.len() && cells@[k].0 == p) implies Self::valid(
                p,
            ) by {
                let j = choose|j: int| 0 <= j < cells@.len() && cells@[j].0 == p;
                assert(all@[j] == p);
            }
            assert forall|a: int, b: int|
                #![trigger cells@[a], cells@[b]]
                0 <= a < b < cells@.len() implies Self::index_of(cells@[a].0) < Self::index_of(
                cells@[b].0,
            ) by {
                assert(Self::index_of(all@[a]) < Self::index_of(all@[b]));
            }
        }
        cells
    }

    /// The pegs of row `y` as a bit set over the columns, or `None` where the
    /// triangle has no row `y`.
    pub fn row(&self, y: u8) -> (r: Option<BitSet>)
        ensures
            SIZE <= 8,
            r.is_some() == (y < SIZE),
            r matches Some(bits) ==> bits@ == Set::new(
                |x: nat| x < SIZE - y && self@.contains(Position { x: x as u8, y }),
            ),
    {
        proof {
            use_type_invariant(self);
        }
        if y < SIZE {
            let base = Self::get_idx(pos(0, y)).unwrap();
            let len = Self::row_len(y) as usize;
            proof {
                lemma_mul_bound(y as nat, stride(SIZE), 7, 8);
            }
            let bits = (..len).index(&(base..).index(&self.dots));
            proof {
                let want = Set::new(
                    |x: nat| x < SIZE - y && self@.contains(Position { x: x as u8, y }),
                );
                assert forall|x: nat| bits@.contains(x) == want.contains(x) by {
                    if x < SIZE - y {
                        let p = Position { x: x as u8, y };
                        assert(Self::index_of(p) == base + x);
                    }
                }
                assert(bits@ =~= want);
            }
            Some(bits)
        } else {
            None
        }
    }

    /// The number of pegs.
    pub fn count(&self) -> (n: usize)
        ensures
            n == self@.len(),
    {
        proof {
            use_type_invariant(self);
            self.lemma_count();
        }
        self.dots.len()
    }

    /// Whether bit `i` of the board is set, or `None` where the bit set has
    /// no bit `i`.
    fn at_index(&self, i: usize) -> (r: Option<bool>)
        ensures
            r == (if i < 64 {
                Some(self.dots@.contains(i as nat))
            } else {
                None
            }),
    {
        self.dots.get(i)
    }

    /// What the board holds at `p`: `Some(true)` for a peg, `Some(false)` for
    /// a hole, `None` where `p` is no cell.
    pub fn at(&self, p: Position) -> (r: Option<bool>)
        ensures
            r == self.cell(p),
    {
        proof {
            use_type_invariant(self);
            if Self::valid(p) {
                Self::lemma_index_round_trip(p);
            }
        }
        match Self::get_idx(p) {
            Some(i) => self.at_index(i),
            None => None,
        }
    }
}

} // verus!
