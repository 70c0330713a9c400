//! Numbers in IEEE 754 double format, read through their bits.

use vstd::arithmetic::power2::{
    lemma_pow2_pos, lemma_pow2_strictly_increases, lemma_pow2_unfold, pow2,
};
use vstd::prelude::*;

verus! {

/// A number in IEEE 754 double format: a sign bit, eleven exponent bits and
/// fifty-two fraction bits.
#[derive(Clone, Copy, Debug)]
pub struct Double {
    pub bits: u64,
}

impl Double {
    /// Whether the sign bit is set.
    pub open spec fn signed(self) -> bool {
        self.bits >= 0x8000_0000_0000_0000
    }

    /// The exponent bits.
    pub open spec fn exponent(self) -> int {
        (self.bits as int / 0x10_0000_0000_0000) % 0x800
    }

    /// The fraction bits.
    pub open spec fn fraction(self) -> int {
        self.bits as int % 0x10_0000_0000_0000
    }

    /// Whether this is not a number.
    pub open spec fn is_nan(self) -> bool {
        self.exponent() == 0x7ff && self.fraction() != 0
    }

    /// Whether this is an infinity.
    pub open spec fn is_infinite(self) -> bool {
        self.exponent() == 0x7ff && self.fraction() == 0
    }

    /// The significand, of which the magnitude is a multiple or a part by a
    /// power of two.
    pub open spec fn significand(self) -> int {
        if self.exponent() == 0 {
            self.fraction()
        } else {
            self.fraction() + 0x10_0000_0000_0000
        }
    }

    /// The power of two by which the significand is to be divided: its value is
    /// negative where it is to be multiplied.
    pub open spec fn shift(self) -> int {
        if self.exponent() == 0 {
            1074
        } else {
            1075 - self.exponent()
        }
    }

    /// Whether the magnitude of a finite number or an infinity is greater than
    /// `n`.
    pub open spec fn magnitude_exceeds(self, n: int) -> bool {
        if self.is_infinite() {
            true
        } else if self.shift() >= 0 {
            self.significand() > n * pow2(self.shift() as nat)
        } else {
            self.significand() * pow2((-self.shift()) as nat) > n
        }
    }

    /// The magnitude of a finite number rounded to the nearest integer, halves
    /// up.
    pub open spec fn rounded_magnitude(self) -> int {
        if self.shift() > 0 {
            (self.significand() + pow2((self.shift() - 1) as nat) as int) / (pow2(
                self.shift() as nat,
            ) as int)
        } else {
            self.significand() * pow2((-self.shift()) as nat)
        }
    }

    /// Whether this is a number less than zero.
    pub open spec fn negative(self) -> bool {
        self.signed() && !self.is_nan() && self.magnitude_exceeds(0)
    }

    /// Whether this is a number greater than `n`, which is not negative.
    pub open spec fn above(self, n: int) -> bool {
        !self.signed() && !self.is_nan() && self.magnitude_exceeds(n)
    }

    /// Whether this is a number less than `-n`, where `n` is not negative.
    pub open spec fn below_minus(self, n: int) -> bool {
        self.signed() && !self.is_nan() && self.magnitude_exceeds(n)
    }

    /// This number rounded to the nearest integer, halves away from zero; zero
    /// for what is not a number.
    pub open spec fn rounded(self) -> int {
        if self.is_nan() {
            0
        } else if self.signed() {
            -self.rounded_magnitude()
        } else {
            self.rounded_magnitude()
        }
    }

    fn parts(&self) -> (r: (bool, u64, u64))
        ensures
            r.0 == self.signed(),
            r.1 == self.exponent(),
            r.2 == self.fraction(),
            r.1 <= 0x7ff,
            r.2 < 0x10_0000_0000_0000,
    {
        let bits = self.bits;
        proof {
            assert(bits >> 63 == 1 <==> bits >= 0x8000_0000_0000_0000) by (bit_vector);
            assert((bits >> 52) & 0x7ff == (bits / 0x10_0000_0000_0000) % 0x800) by (bit_vector);
            assert(bits & 0xf_ffff_ffff_ffff == bits % 0x10_0000_0000_0000) by (bit_vector);
        }
        (bits >> 63 == 1, (bits >> 52) & 0x7ff, bits & 0xf_ffff_ffff_ffff)
    }

    /// Whether this is not a number.
    pub fn nan(&self) -> (r: bool)
        ensures
            r == self.is_nan(),
    {
        let (_, exponent, fraction) = self.parts();
        exponent == 0x7ff && fraction != 0
    }

    /// Whether the magnitude is greater than `n`.
    fn exceeds(&self, n: u32) -> (r: bool)
        requires
            !self.is_nan(),
            n <= 0xffff,
        ensures
            r == self.magnitude_exceeds(n as int),
    {
        let (_, exponent, fraction) = self.parts();
        if exponent == 0x7ff {
            return true;
        }
        let significand: u64 = if exponent == 0 {
            fraction
        } else {
            fraction + 0x10_0000_0000_0000
        };
        let ghost s = significand as int;
        if exponent > 1075 {
            proof {
                let p = pow2((-self.shift()) as nat);
                lemma_pow2_pos((-self.shift()) as nat);
                assert(s * p >= s) by (nonlinear_arith)
                    requires
                        p >= 1,
                        s >= 0,
                ;
            }
            return true;
        }
        let shift: u32 = if exponent == 0 {
            1074
        } else {
            (1075 - exponent) as u32
        };
        if shift > 54 {
            proof {
                lemma_pow2_values();
                lemma_pow2_strictly_increases(54, shift as nat);
                let p = pow2(shift as nat);
                if n > 0 {
                    assert(n * p >= p) by (nonlinear_arith)
                        requires
                            n >= 1,
                            p >= 0,
                    ;
                } else {
                    assert(n * p == 0) by (nonlinear_arith)
                        requires
                            n == 0,
                    ;
                }
            }
            return n == 0 && significand > 0;
        }
        let power = power_of_two(shift);
        proof {
            let p = power as int;
            assert(0 <= n * p <= 0xffff * 0x40_0000_0000_0000) by (nonlinear_arith)
                requires
                    0 <= n <= 0xffff,
                    0 <= p <= 0x40_0000_0000_0000,
            ;
        }
        significand as u128 > n as u128 * power as u128
    }

    /// The magnitude rounded to the nearest integer, halves up.
    fn round_magnitude(&self) -> (r: u32)
        requires
            !self.is_nan(),
            !self.magnitude_exceeds(0xffff),
        ensures
            r == self.rounded_magnitude(),
            r <= 0xffff,
            forall|n: int|
                0 <= n <= 0xffff && !self.magnitude_exceeds(n) ==> r <= n,
    {
        let (_, exponent, fraction) = self.parts();
        let significand: u64 = if exponent == 0 {
            fraction
        } else {
            fraction + 0x10_0000_0000_0000
        };
        let ghost s = significand as int;
        proof {
            if exponent >= 1075 {
                let p = pow2((-self.shift()) as nat);
                lemma_pow2_pos((-self.shift()) as nat);
                assert(s * p >= s) by (nonlinear_arith)
                    requires
                        p >= 1,
                        s >= 0,
                ;
                if exponent == 1075 {
                    lemma_pow2_values();
                }
            }
        }
        let shift: u32 = if exponent == 0 {
            1074
        } else {
            (1075 - exponent) as u32
        };
        proof {
            lemma_pow2_values();
            lemma_pow2_unfold(shift as nat);
        }
        if shift > 54 {
            proof {
                let h = pow2((shift - 1) as nat) as int;
                if shift > 55 {
                    lemma_pow2_strictly_increases(54, (shift - 1) as nat);
                }
                vstd::arithmetic::div_mod::lemma_basic_div(s + h, pow2(shift as nat) as int);
                assert(self.rounded_magnitude() == 0);
            }
            return 0;
        }
        let power = power_of_two(shift);
        let half: u64 = power / 2;
        let r: u64 = (significand + half) / power;
        proof {
            let p = power as int;
            assert(half == pow2((shift - 1) as nat));
            assert forall|n: int| 0 <= n <= 0xffff && !self.magnitude_exceeds(n) implies r <= n by {
                assert(r <= n) by (nonlinear_arith)
                    requires
                        s <= n * p,
                        2 * half == p,
                        p > 0,
                        r == (s + half) / p,
                ;
            }
            assert(!self.magnitude_exceeds(0xffff));
        }
        r as u32
    }

    /// Whether this is a number less than zero.
    pub fn is_negative(&self) -> (r: bool)
        ensures
            r == self.negative(),
    {
        let (signed, _, _) = self.parts();
        signed && !self.nan() && self.exceeds(0)
    }

    /// Whether this is a number greater than `n`.
    pub fn is_above(&self, n: u16) -> (r: bool)
        ensures
            r == self.above(n as int),
    {
        let (signed, _, _) = self.parts();
        !signed && !self.nan() && self.exceeds(n as u32)
    }

    /// Whether this is a number less than `-n`.
    pub fn is_below_minus(&self, n: u16) -> (r: bool)
        ensures
            r == self.below_minus(n as int),
    {
        let (signed, _, _) = self.parts();
        signed && !self.nan() && self.exceeds(n as u32)
    }

    /// This number rounded to the nearest integer, halves away from zero; zero
    /// for what is not a number.
    pub fn round(&self) -> (r: i32)
        requires
            !self.above(0xffff),
            !self.below_minus(0xffff),
        ensures
            r == self.rounded(),
            -0xffff <= r <= 0xffff,
            forall|n: int| 0 <= n <= 0xffff && !self.above(n) ==> r <= n,
            forall|n: int| 0 <= n <= 0xffff && !self.below_minus(n) ==> -n <= r,
    {
        if self.nan() {
            return 0;
        }
        let (signed, _, _) = self.parts();
        let magnitude = self.round_magnitude();
        if signed {
            proof {
                assert forall|n: int| 0 <= n <= 0xffff && !self.below_minus(n) implies -n
                    <= -(magnitude as int) by {
                    assert(!self.magnitude_exceeds(n));
                }
            }
            -(magnitude as i32)
        } else {
            proof {
                assert forall|n: int| 0 <= n <= 0xffff && !self.above(n) implies magnitude
                    <= n by {
                    assert(!self.magnitude_exceeds(n));
                }
            }
            magnitude as i32
        }
    }
}

/// Some powers of two.
proof fn lemma_pow2_values()
    ensures
        pow2(0) == 1,
        pow2(54) == 0x40_0000_0000_0000,
{
    vstd::arithmetic::power2::lemma2_to64();
    vstd::arithmetic::power2::lemma2_to64_rest();
}

/// A power of two.
fn power_of_two(k: u32) -> (r: u64)
    requires
        k <= 54,
    ensures
        r == pow2(k as nat),
        1 <= r <= 0x40_0000_0000_0000,
{
    let mut r: u64 = 1;
    let mut i: u32 = 0;
    proof {
        lemma_pow2_values();
    }
    while i < k
        invariant
            i <= k <= 54,
            r == pow2(i as nat),
            r >= 1,
            pow2(54) == 0x40_0000_0000_0000,
            r <= 0x40_0000_0000_0000,
        decreases k - i,
    {
        proof {
            lemma_pow2_unfold((i + 1) as nat);
            if i + 1 < 54 {
                lemma_pow2_strictly_increases((i + 1) as nat, 54);
            }
        }
        r = r * 2;
        i = i + 1;
    }
    r
}

impl Double {
    /// The bits of a number are its sign, its exponent and its fraction from the top
    /// down, in one bit, eleven bits and fifty-two bits.
    pub proof fn bits_are_sign_exponent_and_fraction(self)
        ensures
            self.bits == (if self.signed() {
                0x8000_0000_0000_0000int
            } else {
                0int
            }) + 0x10_0000_0000_0000 * self.exponent() + self.fraction(),
            0 <= self.exponent() <= 0x7ff,
            0 <= self.fraction() < 0x10_0000_0000_0000,
            self.is_nan() ==> self.exponent() == 0x7ff && self.fraction() > 0,
            self.is_infinite() ==> self.exponent() == 0x7ff && self.fraction() == 0,
    {
        let n = self.bits as int;
        let high = n / 0x10_0000_0000_0000;
        assert(n == 0x10_0000_0000_0000 * high + n % 0x10_0000_0000_0000);
        assert(0 <= high < 0x1000);
        assert(high == 0x800 * (high / 0x800) + high % 0x800);
        assert(high >= 0x800 <==> n >= 0x8000_0000_0000_0000);
    }

    /// A number is rounded to the nearest whole number: its distance from the number
    /// is a half at most, and exactly between two whole numbers the one further from
    /// zero is taken. Rounding does not change the sign.
    pub proof fn rounding_goes_to_the_nearest(self)
        requires
            !self.is_nan(),
            !self.is_infinite(),
            self.shift() > 0,
        ensures
            ({
                let one = pow2(self.shift() as nat) as int;
                let r = self.rounded_magnitude();
                &&& (2 * r - 1) * one <= 2 * self.significand() < (2 * r + 1) * one
                &&& self.rounded() == (if self.signed() {
                    -r
                } else {
                    r
                })
            }),
    {
        let s = self.shift();
        let half = pow2((s - 1) as nat) as int;
        let one = pow2(s as nat) as int;
        vstd::arithmetic::power2::lemma_pow2_unfold(s as nat);
        vstd::arithmetic::power2::lemma_pow2_pos((s - 1) as nat);
        let n = self.significand() + half;
        let r = n / one;
        assert(r * one <= n < (r + 1) * one) by (nonlinear_arith)
            requires
                r == n / one,
                one > 0,
        ;
        assert((2 * r - 1) * one == 2 * (r * one) - one && (2 * r + 1) * one == 2 * (r * one) + one
            && (r + 1) * one == r * one + one) by (nonlinear_arith);
    }

    /// A number that is a whole number is compared and rounded as that number.
    pub proof fn whole_numbers_stay_themselves(self, n: int, m: int)
        requires
            !self.is_nan(),
            !self.is_infinite(),
            self.shift() >= 0,
            0 <= n,
            0 <= m,
            self.significand() == n * pow2(self.shift() as nat),
        ensures
            self.rounded() == (if self.signed() {
                -n
            } else {
                n
            }),
            self.above(m) <==> !self.signed() && n > m,
            self.below_minus(m) <==> self.signed() && n > m,
            self.negative() <==> self.signed() && n > 0,
    {
        let s = self.shift();
        let one = pow2(s as nat) as int;
        vstd::arithmetic::power2::lemma_pow2_pos(s as nat);
        assert(n * one > m * one <==> n > m) by (nonlinear_arith)
            requires
                one > 0,
        ;
        assert(n * one > 0 * one <==> n > 0) by (nonlinear_arith)
            requires
                one > 0,
        ;
        if s > 0 {
            let half = pow2((s - 1) as nat) as int;
            vstd::arithmetic::power2::lemma_pow2_unfold(s as nat);
            vstd::arithmetic::power2::lemma_pow2_pos((s - 1) as nat);
            assert((n * one + half) / one == n) by (nonlinear_arith)
                requires
                    0 <= half < one,
            ;
        } else {
            vstd::arithmetic::power2::lemma2_to64();
            assert(pow2(0) == 1);
            assert(-s == 0);
            assert(n * 1 == n && n * 1 * 1 == n) by (nonlinear_arith);
            assert(self.rounded_magnitude() == self.significand() * pow2(0));
        }
    }

    /// What is no number is neither below nor above anything and rounds to zero, and
    /// what is infinite is beyond every bound on its side.
    pub proof fn special_numbers_are_told_apart(self, n: int)
        ensures
            self.is_nan() ==> !self.negative() && !self.above(n) && !self.below_minus(n)
                && self.rounded() == 0,
            self.is_infinite() && self.signed() ==> self.negative() && self.below_minus(n)
                && !self.above(n),
            self.is_infinite() && !self.signed() ==> !self.negative() && self.above(n)
                && !self.below_minus(n),
    {
    }
}

impl Double {
    /// A number is above a bound, or below its negative, exactly if it is greater
    /// than that, be it by a fraction; a zero has no sign.
    pub proof fn bounds_are_exact(self, n: int)
        requires
            !self.is_nan(),
            !self.is_infinite(),
            0 <= n,
        ensures
            ({
                let down = pow2(self.shift() as nat) as int;
                let up = pow2((-self.shift()) as nat) as int;
                let greater = if self.shift() >= 0 {
                    self.significand() > n * down
                } else {
                    self.significand() * up > n
                };
                &&& self.above(n) <==> !self.signed() && greater
                &&& self.below_minus(n) <==> self.signed() && greater
                &&& self.negative() ==> self.signed()
                &&& self.significand() == 0 ==> !self.negative()
                &&& self.significand() > 0 && self.signed() ==> self.negative()
            }),
    {
        if self.shift() < 0 {
            vstd::arithmetic::power2::lemma_pow2_pos((-self.shift()) as nat);
            assert(self.significand() * pow2((-self.shift()) as nat) > 0 <==> self.significand() > 0)
                by (nonlinear_arith)
                requires
                    self.significand() >= 0,
                    pow2((-self.shift()) as nat) > 0,
            ;
        }
    }

    /// The value of a number is its significand, divided by two as often as its shift
    /// says: an exponent one higher doubles it, and in a number that is not tiny the
    /// fraction has a leading one.
    pub proof fn exponents_double_the_value(self, other: Self)
        requires
            self.exponent() > 0,
            other.exponent() == self.exponent() + 1,
            other.fraction() == self.fraction(),
        ensures
            other.significand() == self.significand(),
            other.shift() + 1 == self.shift(),
            self.significand() == 0x10_0000_0000_0000 + self.fraction(),
            self.exponent() == 1023 ==> self.shift() == 52,
    {
    }
}

} // verus!
