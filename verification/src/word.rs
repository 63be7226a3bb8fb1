//! Unsigned machine words as rows of bits.

use crate::adapters::{max_value_u32, max_value_u64};
use vstd::prelude::*;
use vstd::std_specs::bits::{
    axiom_u32_trailing_zeros, axiom_u64_trailing_zeros, u32_trailing_zeros, u64_trailing_zeros,
};

verus! {

/// An unsigned machine word seen as a row of `width()` bits.
///
/// Bit `i` of a word is `has_bit(i)`; no word has a bit at or above its
/// width, and a word is determined by its bits.
pub trait BitWord: Copy + Sized {
    /// Number of bits in the word.
    spec fn width() -> nat;

    /// Whether bit `i` of the word is one.
    spec fn has_bit(self, i: nat) -> bool;

    /// A word has no bit outside its width.
    proof fn lemma_bit_in_width(self, i: nat)
        requires
            self.has_bit(i),
        ensures
            i < Self::width(),
    ;

    /// Two words with the same bits are the same word.
    proof fn lemma_same_bits(self, other: Self)
        requires
            forall|i: nat| self.has_bit(i) == other.has_bit(i),
        ensures
            self == other,
    ;

    /// The width as a machine integer.
    fn bit_width() -> (w: usize)
        ensures
            w == Self::width(),
            w >= 1,
    ;

    /// The word with no bit set.
    fn zero() -> (r: Self)
        ensures
            forall|i: nat| !#[trigger] r.has_bit(i),
    ;

    /// The word with bit 0 set and no other.
    fn one() -> (r: Self)
        ensures
            forall|i: nat| #[trigger] r.has_bit(i) == (i == 0),
    ;

    /// The word with every bit set.
    fn max_value() -> (r: Self)
        ensures
            forall|i: nat| #[trigger] r.has_bit(i) == (i < Self::width()),
    ;

    /// Whether two words are the same.
    fn same(self, other: Self) -> (r: bool)
        ensures
            r == (self == other),
    ;

    /// Bitwise and.
    fn and(self, other: Self) -> (r: Self)
        ensures
            forall|i: nat| #[trigger] r.has_bit(i) == (self.has_bit(i) && other.has_bit(i)),
    ;

    /// Bitwise or.
    fn or(self, other: Self) -> (r: Self)
        ensures
            forall|i: nat| #[trigger] r.has_bit(i) == (self.has_bit(i) || other.has_bit(i)),
    ;

    /// Moves every bit `n` places up; bits pushed past the width are lost.
    fn shl(self, n: usize) -> (r: Self)
        requires
            n < Self::width(),
        ensures
            forall|i: nat| #[trigger]
                r.has_bit(i) == (n <= i < Self::width() && self.has_bit((i - n) as nat)),
    ;

    /// Moves every bit `n` places down; bits pushed below 0 are lost.
    fn shr(self, n: usize) -> (r: Self)
        requires
            n < Self::width(),
        ensures
            forall|i: nat| #[trigger] r.has_bit(i) == self.has_bit(i + n as nat),
    ;
}

/// Bit `i` of a 64-bit word.
pub open spec fn bit64(v: u64, i: u64) -> bool {
    (v >> i) & 1 == 1
}

/// Bit `i` of a 32-bit word.
pub open spec fn bit32(v: u32, i: u32) -> bool {
    (v >> i) & 1 == 1
}

/// The positions of the one bits of a 64-bit word.
pub open spec fn ones64(v: u64) -> Set<nat> {
    Set::new(|i: nat| i < 64 && bit64(v, i as u64))
}

/// The positions of the one bits of a 32-bit word.
pub open spec fn ones32(v: u32) -> Set<nat> {
    Set::new(|i: nat| i < 32 && bit32(v, i as u32))
}

/// The bits of what the bitwise operations make of 64-bit words, and of 0,
/// 1 and the largest word.
proof fn lemma_logic64(a: u64, b: u64, i: u64)
    by (bit_vector)
    requires
        i < 64,
    ensures
        bit64(a & b, i) == (bit64(a, i) && bit64(b, i)),
        bit64(a | b, i) == (bit64(a, i) || bit64(b, i)),
        bit64(a ^ b, i) == (bit64(a, i) != bit64(b, i)),
        a ^ b == 0 ==> a == b,
        !bit64(0, i),
        bit64(1, i) == (i == 0),
        bit64(0xffff_ffff_ffff_ffff, i),
{
}

/// The bits of a shifted 64-bit word.
proof fn lemma_shift64(a: u64, n: u64, i: u64)
    by (bit_vector)
    requires
        i < 64,
        n < 64,
    ensures
        bit64(a >> n, i) == (i + n < 64 && bit64(a, (i + n) as u64)),
        bit64(a << n, i) == (n <= i && bit64(a, (i - n) as u64)),
{
}

/// The bits of what the bitwise operations make of 32-bit words, and of 0,
/// 1 and the largest word.
proof fn lemma_logic32(a: u32, b: u32, i: u32)
    by (bit_vector)
    requires
        i < 32,
    ensures
        bit32(a & b, i) == (bit32(a, i) && bit32(b, i)),
        bit32(a | b, i) == (bit32(a, i) || bit32(b, i)),
        bit32(a ^ b, i) == (bit32(a, i) != bit32(b, i)),
        a ^ b == 0 ==> a == b,
        !bit32(0, i),
        bit32(1, i) == (i == 0),
        bit32(0xffff_ffff, i),
{
}

/// The bits of a shifted 32-bit word.
proof fn lemma_shift32(a: u32, n: u32, i: u32)
    by (bit_vector)
    requires
        i < 32,
        n < 32,
    ensures
        bit32(a >> n, i) == (i + n < 32 && bit32(a, (i + n) as u32)),
        bit32(a << n, i) == (n <= i && bit32(a, (i - n) as u32)),
{
}

impl BitWord for u64 {
    open spec fn width() -> nat {
        64
    }

    open spec fn has_bit(self, i: nat) -> bool {
        i < 64 && bit64(self, i as u64)
    }

    proof fn lemma_bit_in_width(self, i: nat) {
    }

    proof fn lemma_same_bits(self, other: Self) {
        let x = self ^ other;
        lemma_logic64(self, other, 0);
        if x != 0 {
            axiom_u64_trailing_zeros(x);
            let t = u64_trailing_zeros(x) as u64;
            lemma_logic64(self, other, t);
            assert(self.has_bit(t as nat) == other.has_bit(t as nat));
        }
    }

    fn bit_width() -> (w: usize) {
        64
    }

    fn zero() -> (r: Self) {
        proof {
            assert forall|i: nat| !#[trigger] 0u64.has_bit(i) by {
                if i < 64 {
                    lemma_logic64(0, 0, i as u64);
                }
            }
        }
        0
    }

    fn one() -> (r: Self) {
        proof {
            assert forall|i: nat| #[trigger] 1u64.has_bit(i) == (i == 0) by {
                if i < 64 {
                    lemma_logic64(0, 0, i as u64);
                }
            }
        }
        1
    }

    fn max_value() -> (r: Self) {
        let r = max_value_u64();
        proof {
            assert forall|i: nat| #[trigger] r.has_bit(i) == (i < 64) by {
                if i < 64 {
                    lemma_logic64(0, 0, i as u64);
                }
            }
        }
        r
    }

    fn same(self, other: Self) -> (r: bool) {
        self == other
    }

    fn and(self, other: Self) -> (r: Self) {
        let r = self & other;
        proof {
            assert forall|i: nat| #[trigger]
                r.has_bit(i) == (self.has_bit(i) && other.has_bit(i)) by {
                if i < 64 {
                    lemma_logic64(self, other, i as u64);
                }
            }
        }
        r
    }

    fn or(self, other: Self) -> (r: Self) {
        let r = self | other;
        proof {
            assert forall|i: nat| #[trigger]
                r.has_bit(i) == (self.has_bit(i) || other.has_bit(i)) by {
                if i < 64 {
                    lemma_logic64(self, other, i as u64);
                }
            }
        }
        r
    }

    fn shl(self, n: usize) -> (r: Self) {
        let r = self << (n as u64);
        proof {
            assert forall|i: nat| #[trigger]
                r.has_bit(i) == (n <= i < 64 && self.has_bit((i - n) as nat)) by {
                if i < 64 {
                    lemma_shift64(self, n as u64, i as u64);
                }
            }
        }
        r
    }

    fn shr(self, n: usize) -> (r: Self) {
        let r = self >> (n as u64);
        proof {
            assert forall|i: nat| #[trigger] r.has_bit(i) == self.has_bit(i + n as nat) by {
                if i < 64 {
                    lemma_shift64(self, n as u64, i as u64);
                }
            }
        }
        r
    }
}

impl BitWord for u32 {
    open spec fn width() -> nat {
        32
    }

    open spec fn has_bit(self, i: nat) -> bool {
        i < 32 && bit32(self, i as u32)
    }

    proof fn lemma_bit_in_width(self, i: nat) {
    }

    proof fn lemma_same_bits(self, other: Self) {
        let x = self ^ other;
        lemma_logic32(self, other, 0);
        if x != 0 {
            axiom_u32_trailing_zeros(x);
            let t = u32_trailing_zeros(x) as u32;
            lemma_logic32(self, other, t);
            assert(self.has_bit(t as nat) == other.has_bit(t as nat));
        }
    }

    fn bit_width() -> (w: usize) {
        32
    }

    fn zero() -> (r: Self) {
        proof {
            assert forall|i: nat| !#[trigger] 0u32.has_bit(i) by {
                if i < 32 {
                    lemma_logic32(0, 0, i as u32);
                }
            }
        }
        0
    }

    fn one() -> (r: Self) {
        proof {
            assert forall|i: nat| #[trigger] 1u32.has_bit(i) == (i == 0) by {
                if i < 32 {
                    lemma_logic32(0, 0, i as u32);
                }
            }
        }
        1
    }

    fn max_value() -> (r: Self) {
        let r = max_value_u32();
        proof {
            assert forall|i: nat| #[trigger] r.has_bit(i) == (i < 32) by {
                if i < 32 {
                    lemma_logic32(0, 0, i as u32);
                }
            }
        }
        r
    }

    fn same(self, other: Self) -> (r: bool) {
        self == other
    }

    fn and(self, other: Self) -> (r: Self) {
        let r = self & other;
        proof {
            assert forall|i: nat| #[trigger]
                r.has_bit(i) == (self.has_bit(i) && other.has_bit(i)) by {
                if i < 32 {
                    lemma_logic32(self, other, i as u32);
                }
            }
        }
        r
    }

    fn or(self, other: Self) -> (r: Self) {
        let r = self | other;
        proof {
            assert forall|i: nat| #[trigger]
                r.has_bit(i) == (self.has_bit(i) || other.has_bit(i)) by {
                if i < 32 {
                    lemma_logic32(self, other, i as u32);
                }
            }
        }
        r
    }

    fn shl(self, n: usize) -> (r: Self) {
        let r = self << (n as u32);
        proof {
            assert forall|i: nat| #[trigger]
                r.has_bit(i) == (n <= i < 32 && self.has_bit((i - n) as nat)) by {
                if i < 32 {
                    lemma_shift32(self, n as u32, i as u32);
                }
            }
        }
        r
    }

    fn shr(self, n: usize) -> (r: Self) {
        let r = self >> (n as u32);
        proof {
            assert forall|i: nat| #[trigger] r.has_bit(i) == self.has_bit(i + n as nat) by {
                if i < 32 {
                    lemma_shift32(self, n as u32, i as u32);
                }
            }
        }
        r
    }
}

} // verus!
