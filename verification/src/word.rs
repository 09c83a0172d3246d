use vstd::prelude::*;

verus! {

broadcast use vstd::std_specs::bits::group_bits_axioms;

use vstd::std_specs::bits::u64_trailing_zeros;

/// Number of positions `i` in `0..n` at which `f(i)` holds.
pub open spec fn count_true(f: spec_fn(int) -> bool, n: int) -> nat
    decreases n,
{
    if n <= 0 {
        0
    } else {
        count_true(f, n - 1) + if f(n - 1) {
            1nat
        } else {
            0nat
        }
    }
}

/// A fixed-width machine word used as storage for bit sets.
///
/// A word is modelled by its bits: `bit(i)` tells whether position `i` is set,
/// and no position outside `0..spec_bits()` is ever set.
pub trait Word: Copy + Sized {
    /// The number of bits in the word.
    spec fn spec_bits() -> nat;

    /// Whether bit `i` is set.
    spec fn bit(&self, i: int) -> bool;

    /// The width is between 8 and 128 bits.
    proof fn lemma_width()
        ensures
            8 <= Self::spec_bits() <= 128,
    ;

    /// Only positions inside the width are ever set.
    proof fn lemma_bit_range(w: Self)
        ensures
            forall|i: int| #[trigger] w.bit(i) ==> 0 <= i < Self::spec_bits(),
    ;

    /// The number of bits in the word.
    fn bits() -> (r: usize)
        ensures
            r == Self::spec_bits(),
    ;

    /// The word with no bit set.
    fn zero() -> (r: Self)
        ensures
            forall|i: int| !#[trigger] r.bit(i),
    ;

    /// The word with only bit 0 set.
    fn one() -> (r: Self)
        ensures
            forall|i: int| #[trigger] r.bit(i) == (i == 0),
    ;

    /// The word with every bit set.
    fn ones() -> (r: Self)
        ensures
            forall|i: int| #[trigger] r.bit(i) == (0 <= i < Self::spec_bits()),
    ;

    /// Bitwise and.
    fn bit_and(self, other: Self) -> (r: Self)
        ensures
            forall|i: int| #[trigger] r.bit(i) == (self.bit(i) && other.bit(i)),
    ;

    /// Bitwise or.
    fn bit_or(self, other: Self) -> (r: Self)
        ensures
            forall|i: int| #[trigger] r.bit(i) == (self.bit(i) || other.bit(i)),
    ;

    /// Bitwise exclusive or.
    fn bit_xor(self, other: Self) -> (r: Self)
        ensures
            forall|i: int| #[trigger] r.bit(i) == (self.bit(i) != other.bit(i)),
    ;

    /// Bitwise complement.
    fn bit_not(self) -> (r: Self)
        ensures
            forall|i: int| #[trigger] r.bit(i) == (0 <= i < Self::spec_bits() && !self.bit(i)),
    ;

    /// Shift left by `n < bits()` positions.
    fn shl(self, n: u32) -> (r: Self)
        requires
            n < Self::spec_bits(),
        ensures
            forall|i: int| #[trigger] r.bit(i) == (n <= i < Self::spec_bits() && self.bit(i - n)),
    ;

    /// Shift right by `n < bits()` positions.
    fn shr(self, n: u32) -> (r: Self)
        requires
            n < Self::spec_bits(),
        ensures
            forall|i: int| #[trigger] r.bit(i) == (0 <= i && self.bit(i + n)),
    ;

    /// Shift left, or `None` when `n` is not less than the width.
    fn checked_shl(self, n: u32) -> (r: Option<Self>)
        ensures
            match r {
                Some(w) => n < Self::spec_bits() && forall|i: int| #[trigger] w.bit(i) == (n <= i
                    < Self::spec_bits() && self.bit(i - n)),
                None => n >= Self::spec_bits(),
            },
    ;

    /// Shift right, or `None` when `n` is not less than the width.
    fn checked_shr(self, n: u32) -> (r: Option<Self>)
        ensures
            match r {
                Some(w) => n < Self::spec_bits() && forall|i: int| #[trigger] w.bit(i) == (0 <= i
                    && self.bit(i + n)),
                None => n >= Self::spec_bits(),
            },
    ;

    /// The number of set bits.
    fn count_ones(self) -> (r: u32)
        ensures
            r == count_true(|i: int| self.bit(i), Self::spec_bits() as int),
    ;

    /// The number of clear bits below the lowest set bit (the width when no bit is set).
    fn trailing_zeros(self) -> (r: u32)
        ensures
            r <= Self::spec_bits(),
            forall|j: int| 0 <= j < r ==> !#[trigger] self.bit(j),
            r < Self::spec_bits() ==> self.bit(r as int),
    ;

    /// The number of clear bits above the highest set bit (the width when no bit is set).
    fn leading_zeros(self) -> (r: u32)
        ensures
            r <= Self::spec_bits(),
            forall|j: int| Self::spec_bits() - r <= j < Self::spec_bits() ==> !#[trigger] self.bit(j),
            r < Self::spec_bits() ==> self.bit(Self::spec_bits() - 1 - r),
    ;

    /// Whether no bit is set.
    fn is_zero(self) -> (r: bool)
        ensures
            r == (forall|i: int| !#[trigger] self.bit(i)),
    ;
}

proof fn lemma_u64_logic(x: u64, y: u64, i: u64)
    by (bit_vector)
    requires
        i < 64,
    ensures
        ((x >> i) & 1 == 1) || ((x >> i) & 1 == 0),
        ((x & y) >> i) & 1 == 1 <==> ((x >> i) & 1 == 1 && (y >> i) & 1 == 1),
        ((x | y) >> i) & 1 == 1 <==> ((x >> i) & 1 == 1 || (y >> i) & 1 == 1),
        ((x ^ y) >> i) & 1 == 1 <==> (((x >> i) & 1 == 1) != ((y >> i) & 1 == 1)),
        ((!x) >> i) & 1 == 1 <==> !((x >> i) & 1 == 1),
        (0u64 >> i) & 1 != 1,
        (1u64 >> i) & 1 == 1 <==> i == 0,
        (0xffff_ffff_ffff_ffffu64 >> i) & 1 == 1,
{
}

proof fn lemma_u64_shift(x: u64, n: u64, i: u64, j: u64)
    by (bit_vector)
    requires
        i < 64,
        n < 64,
        j < 64,
    ensures
        i < n ==> ((x << n) >> i) & 1 == 0,
        j + n == i ==> ((x << n) >> i) & 1 == (x >> j) & 1,
        i + n < 64 && j == i + n ==> ((x >> n) >> i) & 1 == (x >> j) & 1,
        i + n >= 64 ==> ((x >> n) >> i) & 1 == 0,
{
}

impl Word for u64 {
    open spec fn spec_bits() -> nat {
        64
    }

    open spec fn bit(&self, i: int) -> bool {
        0 <= i < 64 && (*self >> (i as u64)) & 1 == 1
    }

    proof fn lemma_width() {
    }

    proof fn lemma_bit_range(w: Self) {
    }

    fn bits() -> (r: usize) {
        64
    }

    fn zero() -> (r: Self) {
        proof {
            assert forall|i: int| !#[trigger] 0u64.bit(i) by {
                if 0 <= i < 64 {
                    lemma_u64_logic(0, 0, i as u64);
                }
            }
        }
        0
    }

    fn one() -> (r: Self) {
        proof {
            assert forall|i: int| #[trigger] 1u64.bit(i) == (i == 0) by {
                if 0 <= i < 64 {
                    lemma_u64_logic(1, 1, i as u64);
                }
            }
        }
        1
    }

    fn ones() -> (r: Self) {
        let r: u64 = 0xffff_ffff_ffff_ffff;
        proof {
            assert forall|i: int| #[trigger] r.bit(i) == (0 <= i < 64) by {
                if 0 <= i < 64 {
                    lemma_u64_logic(r, r, i as u64);
                }
            }
        }
        r
    }

    fn bit_and(self, other: Self) -> (r: Self) {
        let r = self & other;
        proof {
            assert forall|i: int| #[trigger] r.bit(i) == (self.bit(i) && other.bit(i)) by {
                if 0 <= i < 64 {
                    lemma_u64_logic(self, other, i as u64);
                }
            }
        }
        r
    }

    fn bit_or(self, other: Self) -> (r: Self) {
        let r = self | other;
        proof {
            assert forall|i: int| #[trigger] r.bit(i) == (self.bit(i) || other.bit(i)) by {
                if 0 <= i < 64 {
                    lemma_u64_logic(self, other, i as u64);
                }
            }
        }
        r
    }

    fn bit_xor(self, other: Self) -> (r: Self) {
        let r = self ^ other;
        proof {
            assert forall|i: int| #[trigger] r.bit(i) == (self.bit(i) != other.bit(i)) by {
                if 0 <= i < 64 {
                    lemma_u64_logic(self, other, i as u64);
                }
            }
        }
        r
    }

    fn bit_not(self) -> (r: Self) {
        let r = !self;
        proof {
            assert forall|i: int| #[trigger] r.bit(i) == (0 <= i < 64 && !self.bit(i)) by {
                if 0 <= i < 64 {
                    lemma_u64_logic(self, self, i as u64);
                }
            }
        }
        r
    }

    fn shl(self, n: u32) -> (r: Self) {
        let r = self << n;
        proof {
            assert forall|i: int| #[trigger] r.bit(i) == (n <= i < 64 && self.bit(i - n)) by {
                if 0 <= i < 64 {
                    if i < n {
                        lemma_u64_shift(self, n as u64, i as u64, 0);
                    } else {
                        lemma_u64_shift(self, n as u64, i as u64, (i - n) as u64);
                    }
                }
            }
        }
        r
    }

    fn shr(self, n: u32) -> (r: Self) {
        let r = self >> n;
        proof {
            assert forall|i: int| #[trigger] r.bit(i) == (0 <= i && self.bit(i + n)) by {
                if 0 <= i < 64 {
                    if i + n < 64 {
                        lemma_u64_shift(self, n as u64, i as u64, (i + n) as u64);
                    } else {
                        lemma_u64_shift(self, n as u64, i as u64, 0);
                    }
                }
            }
        }
        r
    }

    fn checked_shl(self, n: u32) -> (r: Option<Self>) {
        if n < 64 {
            Some(self.shl(n))
        } else {
            None
        }
    }

    fn checked_shr(self, n: u32) -> (r: Option<Self>) {
        if n < 64 {
            Some(self.shr(n))
        } else {
            None
        }
    }

    fn count_ones(self) -> (r: u32) {
        u64_count_ones(self)
    }

    fn trailing_zeros(self) -> (r: u32) {
        let r = u64::trailing_zeros(self);
        proof {
            assert forall|j: int| 0 <= j < r implies !#[trigger] self.bit(j) by {
                lemma_u64_logic(self, self, j as u64);
                assert((self >> (j as u64)) & 1u64 == 0u64);
            }
            if r < 64 {
                lemma_u64_logic(self, self, r as u64);
            }
        }
        r
    }

    fn leading_zeros(self) -> (r: u32) {
        let r = u64::leading_zeros(self);
        proof {
            assert forall|j: int| 64 - r <= j < 64 implies !#[trigger] self.bit(j) by {
                lemma_u64_logic(self, self, j as u64);
                assert((self >> (j as u64)) & 1u64 == 0u64);
            }
            if r < 64 {
                lemma_u64_logic(self, self, (63 - r) as u64);
            }
        }
        r
    }

    fn is_zero(self) -> (r: bool) {
        proof {
            lemma_u64_logic(0, 0, 0);
            if self != 0 {
                let t = u64::trailing_zeros(self);
                lemma_u64_logic(self, self, t as u64);
                assert(self.bit(t as int));
            } else {
                assert forall|i: int| !#[trigger] self.bit(i) by {
                    if 0 <= i < 64 {
                        lemma_u64_logic(self, self, i as u64);
                    }
                }
            }
        }
        self == 0
    }
}

/// `u64::count_ones`: documented as the number of ones in the binary representation;
/// the contract states that count over the 64 positions.
#[verifier::external_body]
fn u64_count_ones(x: u64) -> (r: u32)
    ensures
        r == count_true(|i: int| x.bit(i), 64),
{
    x.count_ones()
}

proof fn lemma_u8_logic(x: u8, y: u8, i: u8)
    by (bit_vector)
    requires
        i < 8,
    ensures
        ((x >> i) & 1 == 1) || ((x >> i) & 1 == 0),
        ((x & y) >> i) & 1 == 1 <==> ((x >> i) & 1 == 1 && (y >> i) & 1 == 1),
        ((x | y) >> i) & 1 == 1 <==> ((x >> i) & 1 == 1 || (y >> i) & 1 == 1),
        ((x ^ y) >> i) & 1 == 1 <==> (((x >> i) & 1 == 1) != ((y >> i) & 1 == 1)),
        ((!x) >> i) & 1 == 1 <==> !((x >> i) & 1 == 1),
        (0u8 >> i) & 1 != 1,
        (1u8 >> i) & 1 == 1 <==> i == 0,
        (0xffu8 >> i) & 1 == 1,
{
}

proof fn lemma_u8_shift(x: u8, n: u8, i: u8, j: u8)
    by (bit_vector)
    requires
        i < 8,
        n < 8,
        j < 8,
    ensures
        i < n ==> ((x << n) >> i) & 1 == 0,
        j + n == i ==> ((x << n) >> i) & 1 == (x >> j) & 1,
        i + n < 8 && j == i + n ==> ((x >> n) >> i) & 1 == (x >> j) & 1,
        i + n >= 8 ==> ((x >> n) >> i) & 1 == 0,
{
}

impl Word for u8 {
    open spec fn spec_bits() -> nat {
        8
    }

    open spec fn bit(&self, i: int) -> bool {
        0 <= i < 8 && (*self >> (i as u8)) & 1 == 1
    }

    proof fn lemma_width() {
    }

    proof fn lemma_bit_range(w: Self) {
    }

    fn bits() -> (r: usize) {
        8
    }

    fn zero() -> (r: Self) {
        proof {
            assert forall|i: int| !#[trigger] 0u8.bit(i) by {
                if 0 <= i < 8 {
                    lemma_u8_logic(0, 0, i as u8);
                }
            }
        }
        0
    }

    fn one() -> (r: Self) {
        proof {
            assert forall|i: int| #[trigger] 1u8.bit(i) == (i == 0) by {
                if 0 <= i < 8 {
                    lemma_u8_logic(1, 1, i as u8);
                }
            }
        }
        1
    }

    fn ones() -> (r: Self) {
        let r: u8 = 0xff;
        proof {
            assert forall|i: int| #[trigger] r.bit(i) == (0 <= i < 8) by {
                if 0 <= i < 8 {
                    lemma_u8_logic(r, r, i as u8);
                }
            }
        }
        r
    }

    fn bit_and(self, other: Self) -> (r: Self) {
        let r = self & other;
        proof {
            assert forall|i: int| #[trigger] r.bit(i) == (self.bit(i) && other.bit(i)) by {
                if 0 <= i < 8 {
                    lemma_u8_logic(self, other, i as u8);
                }
            }
        }
        r
    }

    fn bit_or(self, other: Self) -> (r: Self) {
        let r = self | other;
        proof {
            assert forall|i: int| #[trigger] r.bit(i) == (self.bit(i) || other.bit(i)) by {
                if 0 <= i < 8 {
                    lemma_u8_logic(self, other, i as u8);
                }
            }
        }
        r
    }

    fn bit_xor(self, other: Self) -> (r: Self) {
        let r = self ^ other;
        proof {
            assert forall|i: int| #[trigger] r.bit(i) == (self.bit(i) != other.bit(i)) by {
                if 0 <= i < 8 {
                    lemma_u8_logic(self, other, i as u8);
                }
            }
        }
        r
    }

    fn bit_not(self) -> (r: Self) {
        let r = !self;
        proof {
            assert forall|i: int| #[trigger] r.bit(i) == (0 <= i < 8 && !self.bit(i)) by {
                if 0 <= i < 8 {
                    lemma_u8_logic(self, self, i as u8);
                }
            }
        }
        r
    }

    fn shl(self, n: u32) -> (r: Self) {
        let r = self << n;
        proof {
            assert forall|i: int| #[trigger] r.bit(i) == (n <= i < 8 && self.bit(i - n)) by {
                if 0 <= i < 8 {
                    if i < n {
                        lemma_u8_shift(self, n as u8, i as u8, 0);
                    } else {
                        lemma_u8_shift(self, n as u8, i as u8, (i - n) as u8);
                    }
                }
            }
        }
        r
    }

    fn shr(self, n: u32) -> (r: Self) {
        let r = self >> n;
        proof {
            assert forall|i: int| #[trigger] r.bit(i) == (0 <= i && self.bit(i + n)) by {
                if 0 <= i < 8 {
                    if i + n < 8 {
                        lemma_u8_shift(self, n as u8, i as u8, (i + n) as u8);
                    } else {
                        lemma_u8_shift(self, n as u8, i as u8, 0);
                    }
                }
            }
        }
        r
    }

    fn checked_shl(self, n: u32) -> (r: Option<Self>) {
        if n < 8 {
            Some(self.shl(n))
        } else {
            None
        }
    }

    fn checked_shr(self, n: u32) -> (r: Option<Self>) {
        if n < 8 {
            Some(self.shr(n))
        } else {
            None
        }
    }

    fn count_ones(self) -> (r: u32) {
        u8_count_ones(self)
    }

    fn trailing_zeros(self) -> (r: u32) {
        let r = u8::trailing_zeros(self);
        proof {
            assert forall|j: int| 0 <= j < r implies !#[trigger] self.bit(j) by {
                lemma_u8_logic(self, self, j as u8);
                assert((self >> (j as u8)) & 1u8 == 0u8);
            }
            if r < 8 {
                lemma_u8_logic(self, self, r as u8);
            }
        }
        r
    }

    fn leading_zeros(self) -> (r: u32) {
        let r = u8::leading_zeros(self);
        proof {
            assert forall|j: int| 8 - r <= j < 8 implies !#[trigger] self.bit(j) by {
                lemma_u8_logic(self, self, j as u8);
                assert((self >> (j as u8)) & 1u8 == 0u8);
            }
            if r < 8 {
                lemma_u8_logic(self, self, (7 - r) as u8);
            }
        }
        r
    }

    fn is_zero(self) -> (r: bool) {
        proof {
            lemma_u8_logic(0, 0, 0);
            if self != 0 {
                let t = u8::trailing_zeros(self);
                lemma_u8_logic(self, self, t as u8);
                assert(self.bit(t as int));
            } else {
                assert forall|i: int| !#[trigger] self.bit(i) by {
                    if 0 <= i < 8 {
                        lemma_u8_logic(self, self, i as u8);
                    }
                }
            }
        }
        self == 0
    }
}

/// `u8::count_ones`: documented as the number of ones in the binary representation;
/// the contract states that count over the 8 positions.
#[verifier::external_body]
fn u8_count_ones(x: u8) -> (r: u32)
    ensures
        r == count_true(|i: int| x.bit(i), 8),
{
    x.count_ones()
}

proof fn lemma_u16_logic(x: u16, y: u16, i: u16)
    by (bit_vector)
    requires
        i < 16,
    ensures
        ((x >> i) & 1 == 1) || ((x >> i) & 1 == 0),
        ((x & y) >> i) & 1 == 1 <==> ((x >> i) & 1 == 1 && (y >> i) & 1 == 1),
        ((x | y) >> i) & 1 == 1 <==> ((x >> i) & 1 == 1 || (y >> i) & 1 == 1),
        ((x ^ y) >> i) & 1 == 1 <==> (((x >> i) & 1 == 1) != ((y >> i) & 1 == 1)),
        ((!x) >> i) & 1 == 1 <==> !((x >> i) & 1 == 1),
        (0u16 >> i) & 1 != 1,
        (1u16 >> i) & 1 == 1 <==> i == 0,
        (0xffffu16 >> i) & 1 == 1,
{
}

proof fn lemma_u16_shift(x: u16, n: u16, i: u16, j: u16)
    by (bit_vector)
    requires
        i < 16,
        n < 16,
        j < 16,
    ensures
        i < n ==> ((x << n) >> i) & 1 == 0,
        j + n == i ==> ((x << n) >> i) & 1 == (x >> j) & 1,
        i + n < 16 && j == i + n ==> ((x >> n) >> i) & 1 == (x >> j) & 1,
        i + n >= 16 ==> ((x >> n) >> i) & 1 == 0,
{
}

impl Word for u16 {
    open spec fn spec_bits() -> nat {
        16
    }

    open spec fn bit(&self, i: int) -> bool {
        0 <= i < 16 && (*self >> (i as u16)) & 1 == 1
    }

    proof fn lemma_width() {
    }

    proof fn lemma_bit_range(w: Self) {
    }

    fn bits() -> (r: usize) {
        16
    }

    fn zero() -> (r: Self) {
        proof {
            assert forall|i: int| !#[trigger] 0u16.bit(i) by {
                if 0 <= i < 16 {
                    lemma_u16_logic(0, 0, i as u16);
                }
            }
        }
        0
    }

    fn one() -> (r: Self) {
        proof {
            assert forall|i: int| #[trigger] 1u16.bit(i) == (i == 0) by {
                if 0 <= i < 16 {
                    lemma_u16_logic(1, 1, i as u16);
                }
            }
        }
        1
    }

    fn ones() -> (r: Self) {
        let r: u16 = 0xffff;
        proof {
            assert forall|i: int| #[trigger] r.bit(i) == (0 <= i < 16) by {
                if 0 <= i < 16 {
                    lemma_u16_logic(r, r, i as u16);
                }
            }
        }
        r
    }

    fn bit_and(self, other: Self) -> (r: Self) {
        let r = self & other;
        proof {
            assert forall|i: int| #[trigger] r.bit(i) == (self.bit(i) && other.bit(i)) by {
                if 0 <= i < 16 {
                    lemma_u16_logic(self, other, i as u16);
                }
            }
        }
        r
    }

    fn bit_or(self, other: Self) -> (r: Self) {
        let r = self | other;
        proof {
            assert forall|i: int| #[trigger] r.bit(i) == (self.bit(i) || other.bit(i)) by {
                if 0 <= i < 16 {
                    lemma_u16_logic(self, other, i as u16);
                }
            }
        }
        r
    }

    fn bit_xor(self, other: Self) -> (r: Self) {
        let r = self ^ other;
        proof {
            assert forall|i: int| #[trigger] r.bit(i) == (self.bit(i) != other.bit(i)) by {
                if 0 <= i < 16 {
                    lemma_u16_logic(self, other, i as u16);
                }
            }
        }
        r
    }

    fn bit_not(self) -> (r: Self) {
        let r = !self;
        proof {
            assert forall|i: int| #[trigger] r.bit(i) == (0 <= i < 16 && !self.bit(i)) by {
                if 0 <= i < 16 {
                    lemma_u16_logic(self, self, i as u16);
                }
            }
        }
        r
    }

    fn shl(self, n: u32) -> (r: Self) {
        let r = self << n;
        proof {
            assert forall|i: int| #[trigger] r.bit(i) == (n <= i < 16 && self.bit(i - n)) by {
                if 0 <= i < 16 {
                    if i < n {
                        lemma_u16_shift(self, n as u16, i as u16, 0);
                    } else {
                        lemma_u16_shift(self, n as u16, i as u16, (i - n) as u16);
                    }
                }
            }
        }
        r
    }

    fn shr(self, n: u32) -> (r: Self) {
        let r = self >> n;
        proof {
            assert forall|i: int| #[trigger] r.bit(i) == (0 <= i && self.bit(i + n)) by {
                if 0 <= i < 16 {
                    if i + n < 16 {
                        lemma_u16_shift(self, n as u16, i as u16, (i + n) as u16);
                    } else {
                        lemma_u16_shift(self, n as u16, i as u16, 0);
                    }
                }
            }
        }
        r
    }

    fn checked_shl(self, n: u32) -> (r: Option<Self>) {
        if n < 16 {
            Some(self.shl(n))
        } else {
            None
        }
    }

    fn checked_shr(self, n: u32) -> (r: Option<Self>) {
        if n < 16 {
            Some(self.shr(n))
        } else {
            None
        }
    }

    fn count_ones(self) -> (r: u32) {
        u16_count_ones(self)
    }

    fn trailing_zeros(self) -> (r: u32) {
        let r = u16::trailing_zeros(self);
        proof {
            assert forall|j: int| 0 <= j < r implies !#[trigger] self.bit(j) by {
                lemma_u16_logic(self, self, j as u16);
                assert((self >> (j as u16)) & 1u16 == 0u16);
            }
            if r < 16 {
                lemma_u16_logic(self, self, r as u16);
            }
        }
        r
    }

    fn leading_zeros(self) -> (r: u32) {
        let r = u16::leading_zeros(self);
        proof {
            assert forall|j: int| 16 - r <= j < 16 implies !#[trigger] self.bit(j) by {
                lemma_u16_logic(self, self, j as u16);
                assert((self >> (j as u16)) & 1u16 == 0u16);
            }
            if r < 16 {
                lemma_u16_logic(self, self, (15 - r) as u16);
            }
        }
        r
    }

    fn is_zero(self) -> (r: bool) {
        proof {
            lemma_u16_logic(0, 0, 0);
            if self != 0 {
                let t = u16::trailing_zeros(self);
                lemma_u16_logic(self, self, t as u16);
                assert(self.bit(t as int));
            } else {
                assert forall|i: int| !#[trigger] self.bit(i) by {
                    if 0 <= i < 16 {
                        lemma_u16_logic(self, self, i as u16);
                    }
                }
            }
        }
        self == 0
    }
}

/// `u16::count_ones`: documented as the number of ones in the binary representation;
/// the contract states that count over the 16 positions.
#[verifier::external_body]
fn u16_count_ones(x: u16) -> (r: u32)
    ensures
        r == count_true(|i: int| x.bit(i), 16),
{
    x.count_ones()
}

proof fn lemma_u32_logic(x: u32, y: u32, i: u32)
    by (bit_vector)
    requires
        i < 32,
    ensures
        ((x >> i) & 1 == 1) || ((x >> i) & 1 == 0),
        ((x & y) >> i) & 1 == 1 <==> ((x >> i) & 1 == 1 && (y >> i) & 1 == 1),
        ((x | y) >> i) & 1 == 1 <==> ((x >> i) & 1 == 1 || (y >> i) & 1 == 1),
        ((x ^ y) >> i) & 1 == 1 <==> (((x >> i) & 1 == 1) != ((y >> i) & 1 == 1)),
        ((!x) >> i) & 1 == 1 <==> !((x >> i) & 1 == 1),
        (0u32 >> i) & 1 != 1,
        (1u32 >> i) & 1 == 1 <==> i == 0,
        (0xffff_ffffu32 >> i) & 1 == 1,
{
}

proof fn lemma_u32_shift(x: u32, n: u32, i: u32, j: u32)
    by (bit_vector)
    requires
        i < 32,
        n < 32,
        j < 32,
    ensures
        i < n ==> ((x << n) >> i) & 1 == 0,
        j + n == i ==> ((x << n) >> i) & 1 == (x >> j) & 1,
        i + n < 32 && j == i + n ==> ((x >> n) >> i) & 1 == (x >> j) & 1,
        i + n >= 32 ==> ((x >> n) >> i) & 1 == 0,
{
}

impl Word for u32 {
    open spec fn spec_bits() -> nat {
        32
    }

    open spec fn bit(&self, i: int) -> bool {
        0 <= i < 32 && (*self >> (i as u32)) & 1 == 1
    }

    proof fn lemma_width() {
    }

    proof fn lemma_bit_range(w: Self) {
    }

    fn bits() -> (r: usize) {
        32
    }

    fn zero() -> (r: Self) {
        proof {
            assert forall|i: int| !#[trigger] 0u32.bit(i) by {
                if 0 <= i < 32 {
                    lemma_u32_logic(0, 0, i as u32);
                }
            }
        }
        0
    }

    fn one() -> (r: Self) {
        proof {
            assert forall|i: int| #[trigger] 1u32.bit(i) == (i == 0) by {
                if 0 <= i < 32 {
                    lemma_u32_logic(1, 1, i as u32);
                }
            }
        }
        1
    }

    fn ones() -> (r: Self) {
        let r: u32 = 0xffff_ffff;
        proof {
            assert forall|i: int| #[trigger] r.bit(i) == (0 <= i < 32) by {
                if 0 <= i < 32 {
                    lemma_u32_logic(r, r, i as u32);
                }
            }
        }
        r
    }

    fn bit_and(self, other: Self) -> (r: Self) {
        let r = self & other;
        proof {
            assert forall|i: int| #[trigger] r.bit(i) == (self.bit(i) && other.bit(i)) by {
                if 0 <= i < 32 {
                    lemma_u32_logic(self, other, i as u32);
                }
            }
        }
        r
    }

    fn bit_or(self, other: Self) -> (r: Self) {
        let r = self | other;
        proof {
            assert forall|i: int| #[trigger] r.bit(i) == (self.bit(i) || other.bit(i)) by {
                if 0 <= i < 32 {
                    lemma_u32_logic(self, other, i as u32);
                }
            }
        }
        r
    }

    fn bit_xor(self, other: Self) -> (r: Self) {
        let r = self ^ other;
        proof {
            assert forall|i: int| #[trigger] r.bit(i) == (self.bit(i) != other.bit(i)) by {
                if 0 <= i < 32 {
                    lemma_u32_logic(self, other, i as u32);
                }
            }
        }
        r
    }

    fn bit_not(self) -> (r: Self) {
        let r = !self;
        proof {
            assert forall|i: int| #[trigger] r.bit(i) == (0 <= i < 32 && !self.bit(i)) by {
                if 0 <= i < 32 {
                    lemma_u32_logic(self, self, i as u32);
                }
            }
        }
        r
    }

    fn shl(self, n: u32) -> (r: Self) {
        let r = self << n;
        proof {
            assert forall|i: int| #[trigger] r.bit(i) == (n <= i < 32 && self.bit(i - n)) by {
                if 0 <= i < 32 {
                    if i < n {
                        lemma_u32_shift(self, n as u32, i as u32, 0);
                    } else {
                        lemma_u32_shift(self, n as u32, i as u32, (i - n) as u32);
                    }
                }
            }
        }
        r
    }

    fn shr(self, n: u32) -> (r: Self) {
        let r = self >> n;
        proof {
            assert forall|i: int| #[trigger] r.bit(i) == (0 <= i && self.bit(i + n)) by {
                if 0 <= i < 32 {
                    if i + n < 32 {
                        lemma_u32_shift(self, n as u32, i as u32, (i + n) as u32);
                    } else {
                        lemma_u32_shift(self, n as u32, i as u32, 0);
                    }
                }
            }
        }
        r
    }

    fn checked_shl(self, n: u32) -> (r: Option<Self>) {
        if n < 32 {
            Some(self.shl(n))
        } else {
            None
        }
    }

    fn checked_shr(self, n: u32) -> (r: Option<Self>) {
        if n < 32 {
            Some(self.shr(n))
        } else {
            None
        }
    }

    fn count_ones(self) -> (r: u32) {
        u32_count_ones(self)
    }

    fn trailing_zeros(self) -> (r: u32) {
        let r = u32::trailing_zeros(self);
        proof {
            assert forall|j: int| 0 <= j < r implies !#[trigger] self.bit(j) by {
                lemma_u32_logic(self, self, j as u32);
                assert((self >> (j as u32)) & 1u32 == 0u32);
            }
            if r < 32 {
                lemma_u32_logic(self, self, r as u32);
            }
        }
        r
    }

    fn leading_zeros(self) -> (r: u32) {
        let r = u32::leading_zeros(self);
        proof {
            assert forall|j: int| 32 - r <= j < 32 implies !#[trigger] self.bit(j) by {
                lemma_u32_logic(self, self, j as u32);
                assert((self >> (j as u32)) & 1u32 == 0u32);
            }
            if r < 32 {
                lemma_u32_logic(self, self, (31 - r) as u32);
            }
        }
        r
    }

    fn is_zero(self) -> (r: bool) {
        proof {
            lemma_u32_logic(0, 0, 0);
            if self != 0 {
                let t = u32::trailing_zeros(self);
                lemma_u32_logic(self, self, t as u32);
                assert(self.bit(t as int));
            } else {
                assert forall|i: int| !#[trigger] self.bit(i) by {
                    if 0 <= i < 32 {
                        lemma_u32_logic(self, self, i as u32);
                    }
                }
            }
        }
        self == 0
    }
}

/// `u32::count_ones`: documented as the number of ones in the binary representation;
/// the contract states that count over the 32 positions.
#[verifier::external_body]
fn u32_count_ones(x: u32) -> (r: u32)
    ensures
        r == count_true(|i: int| x.bit(i), 32),
{
    x.count_ones()
}

proof fn lemma_u128_logic(x: u128, y: u128, i: u128)
    by (bit_vector)
    requires
        i < 128,
    ensures
        ((x >> i) & 1 == 1) || ((x >> i) & 1 == 0),
        ((x & y) >> i) & 1 == 1 <==> ((x >> i) & 1 == 1 && (y >> i) & 1 == 1),
        ((x | y) >> i) & 1 == 1 <==> ((x >> i) & 1 == 1 || (y >> i) & 1 == 1),
        ((x ^ y) >> i) & 1 == 1 <==> (((x >> i) & 1 == 1) != ((y >> i) & 1 == 1)),
        ((!x) >> i) & 1 == 1 <==> !((x >> i) & 1 == 1),
        (0u128 >> i) & 1 != 1,
        (1u128 >> i) & 1 == 1 <==> i == 0,
        (0xffff_ffff_ffff_ffff_ffff_ffff_ffff_ffffu128 >> i) & 1 == 1,
{
}

proof fn lemma_u128_shift(x: u128, n: u128, i: u128, j: u128)
    by (bit_vector)
    requires
        i < 128,
        n < 128,
        j < 128,
    ensures
        i < n ==> ((x << n) >> i) & 1 == 0,
        j + n == i ==> ((x << n) >> i) & 1 == (x >> j) & 1,
        i + n < 128 && j == i + n ==> ((x >> n) >> i) & 1 == (x >> j) & 1,
        i + n >= 128 ==> ((x >> n) >> i) & 1 == 0,
{
}

impl Word for u128 {
    open spec fn spec_bits() -> nat {
        128
    }

    open spec fn bit(&self, i: int) -> bool {
        0 <= i < 128 && (*self >> (i as u128)) & 1 == 1
    }

    proof fn lemma_width() {
    }

    proof fn lemma_bit_range(w: Self) {
    }

    fn bits() -> (r: usize) {
        128
    }

    fn zero() -> (r: Self) {
        proof {
            assert forall|i: int| !#[trigger] 0u128.bit(i) by {
                if 0 <= i < 128 {
                    lemma_u128_logic(0, 0, i as u128);
                }
            }
        }
        0
    }

    fn one() -> (r: Self) {
        proof {
            assert forall|i: int| #[trigger] 1u128.bit(i) == (i == 0) by {
                if 0 <= i < 128 {
                    lemma_u128_logic(1, 1, i as u128);
                }
            }
        }
        1
    }

    fn ones() -> (r: Self) {
        let r: u128 = 0xffff_ffff_ffff_ffff_ffff_ffff_ffff_ffff;
        proof {
            assert forall|i: int| #[trigger] r.bit(i) == (0 <= i < 128) by {
                if 0 <= i < 128 {
                    lemma_u128_logic(r, r, i as u128);
                }
            }
        }
        r
    }

    fn bit_and(self, other: Self) -> (r: Self) {
        let r = self & other;
        proof {
            assert forall|i: int| #[trigger] r.bit(i) == (self.bit(i) && other.bit(i)) by {
                if 0 <= i < 128 {
                    lemma_u128_logic(self, other, i as u128);
                }
            }
        }
        r
    }

    fn bit_or(self, other: Self) -> (r: Self) {
        let r = self | other;
        proof {
            assert forall|i: int| #[trigger] r.bit(i) == (self.bit(i) || other.bit(i)) by {
                if 0 <= i < 128 {
                    lemma_u128_logic(self, other, i as u128);
                }
            }
        }
        r
    }

    fn bit_xor(self, other: Self) -> (r: Self) {
        let r = self ^ other;
        proof {
            assert forall|i: int| #[trigger] r.bit(i) == (self.bit(i) != other.bit(i)) by {
                if 0 <= i < 128 {
                    lemma_u128_logic(self, other, i as u128);
                }
            }
        }
        r
    }

    fn bit_not(self) -> (r: Self) {
        let r = !self;
        proof {
            assert forall|i: int| #[trigger] r.bit(i) == (0 <= i < 128 && !self.bit(i)) by {
                if 0 <= i < 128 {
                    lemma_u128_logic(self, self, i as u128);
                }
            }
        }
        r
    }

    fn shl(self, n: u32) -> (r: Self) {
        let r = self << n;
        proof {
            assert forall|i: int| #[trigger] r.bit(i) == (n <= i < 128 && self.bit(i - n)) by {
                if 0 <= i < 128 {
                    if i < n {
                        lemma_u128_shift(self, n as u128, i as u128, 0);
                    } else {
                        lemma_u128_shift(self, n as u128, i as u128, (i - n) as u128);
                    }
                }
            }
        }
        r
    }

    fn shr(self, n: u32) -> (r: Self) {
        let r = self >> n;
        proof {
            assert forall|i: int| #[trigger] r.bit(i) == (0 <= i && self.bit(i + n)) by {
                if 0 <= i < 128 {
                    if i + n < 128 {
                        lemma_u128_shift(self, n as u128, i as u128, (i + n) as u128);
                    } else {
                        lemma_u128_shift(self, n as u128, i as u128, 0);
                    }
                }
            }
        }
        r
    }

    fn checked_shl(self, n: u32) -> (r: Option<Self>) {
        if n < 128 {
            Some(self.shl(n))
        } else {
            None
        }
    }

    fn checked_shr(self, n: u32) -> (r: Option<Self>) {
        if n < 128 {
            Some(self.shr(n))
        } else {
            None
        }
    }

    fn count_ones(self) -> (r: u32) {
        u128_count_ones(self)
    }

    fn trailing_zeros(self) -> (r: u32) {
        let lo = self as u64;
        let hi = (self >> 64u128) as u64;
        proof {
            lemma_u128_halves_bits(self);
        }
        if !Word::is_zero(lo) {
            let t = Word::trailing_zeros(lo);
            proof {
                assert forall|j: int| 0 <= j < t implies !#[trigger] self.bit(j) by {
                    assert(!lo.bit(j));
                }
                assert(self.bit(t as int) == lo.bit(t as int));
            }
            t
        } else {
            let t = Word::trailing_zeros(hi);
            proof {
                assert forall|j: int| 0 <= j < t + 64 implies !#[trigger] self.bit(j) by {
                    if j < 64 {
                        assert(!lo.bit(j));
                    } else {
                        assert(!hi.bit(j - 64));
                        assert(self.bit((j - 64) + 64) == hi.bit(j - 64));
                    }
                }
                if t < 64 {
                    assert(self.bit(t + 64) == hi.bit(t as int));
                }
            }
            64 + t
        }
    }

    fn leading_zeros(self) -> (r: u32) {
        let lo = self as u64;
        let hi = (self >> 64u128) as u64;
        proof {
            lemma_u128_halves_bits(self);
        }
        if !Word::is_zero(hi) {
            let l = Word::leading_zeros(hi);
            proof {
                assert forall|j: int| 128 - l <= j < 128 implies !#[trigger] self.bit(j) by {
                    assert(!hi.bit(j - 64));
                    assert(self.bit((j - 64) + 64) == hi.bit(j - 64));
                }
                assert(self.bit((63 - l) + 64) == hi.bit(63 - l));
            }
            l
        } else {
            let l = Word::leading_zeros(lo);
            proof {
                assert forall|j: int| 64 - l <= j < 128 implies !#[trigger] self.bit(j) by {
                    if j < 64 {
                        assert(!lo.bit(j));
                    } else {
                        assert(!hi.bit(j - 64));
                        assert(self.bit((j - 64) + 64) == hi.bit(j - 64));
                    }
                }
                if l < 64 {
                    assert(self.bit(63 - l) == lo.bit(63 - l));
                }
            }
            64 + l
        }
    }

    fn is_zero(self) -> (r: bool) {
        proof {
            lemma_u128_halves_bits(self);
            lemma_u128_halves_zero(self);
            let lo = self as u64;
            let hi = (self >> 64u128) as u64;
            if lo != 0 {
                let t = u64_trailing_zeros(lo);
                lemma_u64_logic(lo, lo, t as u64);
                assert(self.bit(t as int));
            } else if hi != 0 {
                let t = u64_trailing_zeros(hi);
                lemma_u64_logic(hi, hi, t as u64);
                assert(self.bit(t + 64));
            } else {
                assert forall|i: int| !#[trigger] self.bit(i) by {
                    if 0 <= i < 64 {
                        lemma_u64_logic(lo, lo, i as u64);
                        assert(!lo.bit(i));
                    } else if 64 <= i < 128 {
                        lemma_u64_logic(hi, hi, (i - 64) as u64);
                        assert(!hi.bit(i - 64));
                        assert(self.bit((i - 64) + 64) == hi.bit(i - 64));
                    }
                }
            }
        }
        self == 0
    }
}


proof fn lemma_u128_half_bit(x: u128, i: u64, j: u128, k: u64)
    by (bit_vector)
    requires
        i < 64,
        j == i + 64,
        k == i,
    ensures
        ((x >> (k as u128)) & 1 == 1) <==> (((x as u64) >> i) & 1 == 1),
        ((x >> j) & 1 == 1) <==> ((((x >> 64u128) as u64) >> i) & 1 == 1),
{
}

proof fn lemma_u128_halves_zero(x: u128)
    by (bit_vector)
    ensures
        x == 0 <==> ((x as u64) == 0 && ((x >> 64u128) as u64) == 0),
{
}

/// Each half of a `u128` holds the corresponding 64 bits of it.
proof fn lemma_u128_halves_bits(x: u128)
    ensures
        forall|i: int| 0 <= i < 64 ==> #[trigger] x.bit(i) == (x as u64).bit(i),
        forall|i: int| 0 <= i < 64 ==> #[trigger] x.bit(i + 64) == ((x >> 64u128) as u64).bit(i),
{
    assert forall|i: int| 0 <= i < 64 implies #[trigger] x.bit(i) == (x as u64).bit(i) by {
        lemma_u128_half_bit(x, i as u64, (i + 64) as u128, i as u64);
    }
    assert forall|i: int| 0 <= i < 64 implies #[trigger] x.bit(i + 64) == ((x >> 64u128) as u64).bit(i) by {
        lemma_u128_half_bit(x, i as u64, (i + 64) as u128, i as u64);
    }
}

/// `u128::count_ones`: documented as the number of ones in the binary representation;
/// the contract states that count over the 128 positions.
#[verifier::external_body]
fn u128_count_ones(x: u128) -> (r: u32)
    ensures
        r == count_true(|i: int| x.bit(i), 128),
{
    x.count_ones()
}

proof fn lemma_usize_logic(x: usize, y: usize, i: usize)
    by (bit_vector)
    requires
        i < usize::BITS,
    ensures
        ((x >> i) & 1 == 1) || ((x >> i) & 1 == 0),
        ((x & y) >> i) & 1 == 1 <==> ((x >> i) & 1 == 1 && (y >> i) & 1 == 1),
        ((x | y) >> i) & 1 == 1 <==> ((x >> i) & 1 == 1 || (y >> i) & 1 == 1),
        ((x ^ y) >> i) & 1 == 1 <==> (((x >> i) & 1 == 1) != ((y >> i) & 1 == 1)),
        ((!x) >> i) & 1 == 1 <==> !((x >> i) & 1 == 1),
        (0usize >> i) & 1 != 1,
        (1usize >> i) & 1 == 1 <==> i == 0,
        ((!0usize) >> i) & 1 == 1,
{
}

proof fn lemma_usize_shift(x: usize, n: usize, i: usize, j: usize)
    by (bit_vector)
    requires
        i < usize::BITS,
        n < usize::BITS,
        j < usize::BITS,
    ensures
        i < n ==> ((x << n) >> i) & 1 == 0,
        j + n == i ==> ((x << n) >> i) & 1 == (x >> j) & 1,
        i + n < usize::BITS && j == i + n ==> ((x >> n) >> i) & 1 == (x >> j) & 1,
        i + n >= usize::BITS ==> ((x >> n) >> i) & 1 == 0,
{
}

impl Word for usize {
    open spec fn spec_bits() -> nat {
        usize::BITS as nat
    }

    open spec fn bit(&self, i: int) -> bool {
        0 <= i < usize::BITS && (*self >> (i as usize)) & 1 == 1
    }

    proof fn lemma_width() {
    }

    proof fn lemma_bit_range(w: Self) {
    }

    fn bits() -> (r: usize) {
        usize::BITS as usize
    }

    fn zero() -> (r: Self) {
        proof {
            assert forall|i: int| !#[trigger] 0usize.bit(i) by {
                if 0 <= i < usize::BITS {
                    lemma_usize_logic(0, 0, i as usize);
                }
            }
        }
        0
    }

    fn one() -> (r: Self) {
        proof {
            assert forall|i: int| #[trigger] 1usize.bit(i) == (i == 0) by {
                if 0 <= i < usize::BITS {
                    lemma_usize_logic(1, 1, i as usize);
                }
            }
        }
        1
    }

    fn ones() -> (r: Self) {
        let r: usize = !0usize;
        proof {
            assert forall|i: int| #[trigger] r.bit(i) == (0 <= i < usize::BITS) by {
                if 0 <= i < usize::BITS {
                    lemma_usize_logic(r, r, i as usize);
                }
            }
        }
        r
    }

    fn bit_and(self, other: Self) -> (r: Self) {
        let r = self & other;
        proof {
            assert forall|i: int| #[trigger] r.bit(i) == (self.bit(i) && other.bit(i)) by {
                if 0 <= i < usize::BITS {
                    lemma_usize_logic(self, other, i as usize);
                }
            }
        }
        r
    }

    fn bit_or(self, other: Self) -> (r: Self) {
        let r = self | other;
        proof {
            assert forall|i: int| #[trigger] r.bit(i) == (self.bit(i) || other.bit(i)) by {
                if 0 <= i < usize::BITS {
                    lemma_usize_logic(self, other, i as usize);
                }
            }
        }
        r
    }

    fn bit_xor(self, other: Self) -> (r: Self) {
        let r = self ^ other;
        proof {
            assert forall|i: int| #[trigger] r.bit(i) == (self.bit(i) != other.bit(i)) by {
                if 0 <= i < usize::BITS {
                    lemma_usize_logic(self, other, i as usize);
                }
            }
        }
        r
    }

    fn bit_not(self) -> (r: Self) {
        let r = !self;
        proof {
            assert forall|i: int| #[trigger] r.bit(i) == (0 <= i < usize::BITS && !self.bit(i)) by {
                if 0 <= i < usize::BITS {
                    lemma_usize_logic(self, self, i as usize);
                }
            }
        }
        r
    }

    fn shl(self, n: u32) -> (r: Self) {
        let r = self << n;
        proof {
            assert forall|i: int| #[trigger] r.bit(i) == (n <= i < usize::BITS && self.bit(i - n)) by {
                if 0 <= i < usize::BITS {
                    if i < n {
                        lemma_usize_shift(self, n as usize, i as usize, 0);
                    } else {
                        lemma_usize_shift(self, n as usize, i as usize, (i - n) as usize);
                    }
                }
            }
        }
        r
    }

    fn shr(self, n: u32) -> (r: Self) {
        let r = self >> n;
        proof {
            assert forall|i: int| #[trigger] r.bit(i) == (0 <= i && self.bit(i + n)) by {
                if 0 <= i < usize::BITS {
                    if i + n < usize::BITS {
                        lemma_usize_shift(self, n as usize, i as usize, (i + n) as usize);
                    } else {
                        lemma_usize_shift(self, n as usize, i as usize, 0);
                    }
                }
            }
        }
        r
    }

    fn checked_shl(self, n: u32) -> (r: Option<Self>) {
        if n < usize::BITS {
            Some(self.shl(n))
        } else {
            None
        }
    }

    fn checked_shr(self, n: u32) -> (r: Option<Self>) {
        if n < usize::BITS {
            Some(self.shr(n))
        } else {
            None
        }
    }

    fn count_ones(self) -> (r: u32) {
        usize_count_ones(self)
    }

    fn trailing_zeros(self) -> (r: u32) {
        let wide = self as u64;
        proof {
            lemma_usize_widened_bits(self);
        }
        let t = Word::trailing_zeros(wide);
        if t < usize::BITS {
            proof {
                assert forall|j: int| 0 <= j < t implies !#[trigger] self.bit(j) by {
                    assert(!wide.bit(j));
                }
                assert(wide.bit(t as int));
            }
            t
        } else {
            proof {
                assert forall|j: int| 0 <= j < usize::BITS implies !#[trigger] self.bit(j) by {
                    assert(!wide.bit(j));
                }
            }
            usize::BITS
        }
    }

    fn leading_zeros(self) -> (r: u32) {
        let wide = self as u64;
        proof {
            lemma_usize_widened_bits(self);
        }
        let l = Word::leading_zeros(wide);
        proof {
            assert(l >= 64 - usize::BITS) by {
                if l < 64 - usize::BITS {
                    assert(wide.bit(63 - l));
                }
            }
            assert forall|j: int| usize::BITS - (l - (64 - usize::BITS)) <= j < usize::BITS implies !#[trigger] self.bit(j) by {
                assert(!wide.bit(j));
            }
            if l - (64 - usize::BITS) < usize::BITS {
                assert(wide.bit(63 - l));
            }
        }
        l - (64 - usize::BITS)
    }

    fn is_zero(self) -> (r: bool) {
        proof {
            lemma_usize_widened_bits(self);
            let wide = self as u64;
            if self != 0 {
                let t = u64_trailing_zeros(wide);
                lemma_u64_logic(wide, wide, t as u64);
                assert(wide.bit(t as int));
                assert(self.bit(t as int));
            } else {
                assert forall|i: int| !#[trigger] self.bit(i) by {
                    if 0 <= i < usize::BITS {
                        lemma_u64_logic(wide, wide, i as u64);
                        assert(!wide.bit(i));
                    }
                }
            }
        }
        self == 0
    }
}

/// `usize::count_ones`: documented as the number of ones in the binary representation;
/// the contract states that count over the `usize::BITS` positions.
#[verifier::external_body]
fn usize_count_ones(x: usize) -> (r: u32)
    ensures
        r == count_true(|i: int| x.bit(i), usize::BITS as int),
{
    x.count_ones()
}

proof fn lemma_usize_widen_bit(x: usize, i: u64, k: usize)
    by (bit_vector)
    requires
        i < usize::BITS,
        k == i,
    ensures
        (((x as u64) >> i) & 1 == 1) <==> ((x >> k) & 1 == 1),
{
}

proof fn lemma_usize_widen_high(x: usize, i: u64)
    by (bit_vector)
    requires
        usize::BITS <= i < 64,
    ensures
        ((x as u64) >> i) & 1 != 1,
{
}

proof fn lemma_usize_widen_zero(x: usize)
    by (bit_vector)
    ensures
        x == 0 <==> (x as u64) == 0,
{
}

/// Widening a `usize` to `u64` keeps its bits and sets none above `usize::BITS`.
proof fn lemma_usize_widened_bits(x: usize)
    ensures
        forall|i: int| #[trigger] (x as u64).bit(i) == x.bit(i),
        x == 0 <==> (x as u64) == 0,
{
    lemma_usize_widen_zero(x);
    assert forall|i: int| #[trigger] (x as u64).bit(i) == x.bit(i) by {
        if 0 <= i < usize::BITS {
            lemma_usize_widen_bit(x, i as u64, i as usize);
        } else if usize::BITS <= i < 64 {
            lemma_usize_widen_high(x, i as u64);
        }
    }
}

} // verus!
