//! Arithmetic on binary32 numbers. Each operation gives the number nearest
//! to the exact result, ties to the even significand; the remainder and
//! the conversions to whole numbers are exact.

use vstd::prelude::*;
use crate::rounding::lemma_absorbed;
use crate::rounding::lemma_exact;
use crate::rounding::lemma_two_to_64;
use crate::rounding::lemma_two_to_grows;
use crate::rounding::lemma_two_to_positive;
use crate::rounding::nearest_bits;
use crate::rounding::packed;
use crate::rounding::power_of_two;
use crate::rounding::power_of_two_64;
use crate::rounding::round_pack;
use crate::rounding::round_ratio;
use crate::rounding::two_to;
use crate::scalar::Scalar;
use crate::scalar::INFINITY_BITS;
use crate::scalar::NAN_BITS;
use crate::scalar::SIGN_BIT;
use crate::scalar::ZERO_BITS;

verus! {

/// The bits of a zero with the given sign.
pub open spec fn signed_zero(negative: bool) -> u32 {
    if negative {
        SIGN_BIT
    } else {
        0
    }
}

/// The bits of an infinity with the given sign.
pub open spec fn signed_infinity(negative: bool) -> u32 {
    if negative {
        (SIGN_BIT + INFINITY_BITS) as u32
    } else {
        INFINITY_BITS
    }
}

/// The bits of a zero with the given sign.
fn sign_of(negative: bool) -> (bits: u32)
    ensures
        bits == signed_zero(negative),
{
    if negative {
        SIGN_BIT
    } else {
        0
    }
}

/// A significand doubled until it has 24 bits, with its exponent lowered
/// by one for each doubling.
pub open spec fn widened(sig: int, e: int) -> (int, int)
    decreases
            if 0 < sig < 0x80_0000 {
                0x80_0000 - sig
            } else {
                0
            },
{
    if sig <= 0 || sig >= 0x80_0000 {
        (sig, e)
    } else {
        widened(2 * sig, e - 1)
    }
}

/// The significand of a subnormal number doubled until it has 24 bits, and
/// the exponent that goes with it.
fn widen(m: u32) -> (r: (u64, i32))
    requires
        1 <= m < 0x80_0000,
    ensures
        (r.0 as int, r.1 as int) == widened(m as int, 1),
        0x80_0000 <= r.0 < 0x100_0000,
        -22 <= r.1 <= 1,
{
    let mut sig: u64 = m as u64;
    let mut e: i32 = 1;
    proof {
        assert(two_to(0) == 1);
        assert(m * two_to(0) == m);
    }
    while sig < 0x80_0000
        invariant
            1 <= sig < 0x100_0000,
            -22 <= e <= 1,
            sig == m * two_to((1 - e) as nat),
            widened(sig as int, e as int) == widened(m as int, 1),
        decreases 0x100_0000 - sig,
    {
        proof {
            // As long as a doubling is due, fewer than 23 have been made.
            if 1 - e >= 23 {
                lemma_two_to_grows(23, (1 - e) as nat);
                lemma_two_to_64();
                assert(m * two_to((1 - e) as nat) >= two_to((1 - e) as nat)) by (nonlinear_arith)
                    requires
                        m >= 1,
                ;
            }
            assert(two_to((1 - e + 1) as nat) == 2 * two_to((1 - e) as nat));
            assert(2 * (m * two_to((1 - e) as nat)) == m * (2 * two_to((1 - e) as nat)))
                by (nonlinear_arith);
        }
        sig = 2 * sig;
        e = e - 1;
    }
    (sig, e)
}

/// The bits of the number nearest to the sum of two integers with signs,
/// in units of `2^exp`: the positive zero where they cancel.
pub open spec fn combined(minus_a: bool, wide: nat, minus_b: bool, y: nat, exp: int) -> u32 {
    if minus_a == minus_b {
        nearest_bits(minus_a, wide + y, 1, exp)
    } else if wide > y {
        nearest_bits(minus_a, (wide - y) as nat, 1, exp)
    } else if wide < y {
        nearest_bits(minus_b, (y - wide) as nat, 1, exp)
    } else {
        0
    }
}

/// The sum of two finite numbers other than zero is the number nearest to
/// the sum of their digits, those of the number of greater scale widened
/// to the scale of the other.
proof fn lemma_plus_is_combined(a: Scalar, b: Scalar)
    requires
        a.finite(),
        b.finite(),
        a.digits() >= 1,
        b.digits() >= 1,
        a.scale() >= b.scale(),
    ensures
        a.plus(b).bits == combined(
            a.negative(),
            a.digits() * two_to((a.scale() - b.scale()) as nat),
            b.negative(),
            b.digits(),
            b.scale() - 150,
        ),
{
    reveal(Scalar::plus);
    let wide = a.digits() * two_to((a.scale() - b.scale()) as nat);
    assert(two_to(0) == 1);
    assert(b.digits() * two_to(0) == b.digits());
    lemma_two_to_positive((a.scale() - b.scale()) as nat);
    assert(wide >= 1) by (nonlinear_arith)
        requires
            wide == a.digits() * two_to((a.scale() - b.scale()) as nat),
            a.digits() >= 1,
            two_to((a.scale() - b.scale()) as nat) >= 1,
    ;
}

/// Digits widened by 27 bits or more are more than any digits.
proof fn lemma_wide_is_more(x: nat, y: nat, gap: nat)
    requires
        x >= 1,
        y < 0x100_0000,
        gap >= 27,
    ensures
        x * two_to(gap) > y,
{
    lemma_two_to_grows(27, gap);
    lemma_two_to_64();
    assert(x * two_to(gap) > y) by (nonlinear_arith)
        requires
            x >= 1,
            two_to(gap) >= 0x800_0000,
            y < 0x100_0000,
    ;
}

/// Digits widened by at most 37 bits have at most 61 bits.
proof fn lemma_wide_fits(x: nat, gap: nat)
    requires
        1 <= x < 0x100_0000,
        gap <= 37,
    ensures
        1 <= x * two_to(gap) < 0x2000_0000_0000_0000,
{
    lemma_two_to_grows(gap, 37);
    lemma_two_to_positive(gap);
    lemma_two_to_64();
    assert(1 <= x * two_to(gap) < 0x100_0000 * 0x20_0000_0000) by (nonlinear_arith)
        requires
            1 <= x < 0x100_0000,
            1 <= two_to(gap) <= 0x20_0000_0000,
    ;
}

/// The bits of the sum of two finite numbers other than zero, the first
/// of which has the greater scale or the same.
fn add_parts(x: u64, i: i32, y: u64, j: i32, a: Scalar, b: Scalar) -> (bits: u32)
    requires
        a.finite(),
        b.finite(),
        x == a.digits(),
        y == b.digits(),
        i == a.scale(),
        j == b.scale(),
        x >= 1,
        y >= 1,
        i >= j,
    ensures
        bits == a.plus(b).bits,
{
    let minus_a = a.bits >= SIGN_BIT;
    let minus_b = b.bits >= SIGN_BIT;
    let gap: i32 = i - j;
    proof {
        lemma_plus_is_combined(a, b);
        a.lemma_own_bits();
        b.lemma_own_bits();
    }
    if gap > 37 {
        // The smaller number is absorbed.
        proof {
            lemma_absorbed(minus_a, x as nat, y as nat, i as int, gap as nat);
            lemma_wide_is_more(x as nat, y as nat, gap as nat);
        }
        return a.bits;
    }
    let p: u64 = power_of_two_64(gap as u32);
    proof {
        lemma_wide_fits(x as nat, gap as nat);
    }
    let wide: u64 = x * p;
    if minus_a == minus_b {
        round_pack(minus_a, wide + y, j - 150)
    } else if wide > y {
        round_pack(minus_a, wide - y, j - 150)
    } else if wide < y {
        round_pack(minus_b, y - wide, j - 150)
    } else {
        0
    }
}

/// The integer nearest to the square root of `n`.
pub open spec fn nearest_root(n: nat) -> nat
    decreases n,
{
    if n == 0 {
        0
    } else {
        let q = nearest_root((n - 1) as nat);
        if n > q * q + q {
            q + 1
        } else {
            q
        }
    }
}

/// The integer nearest to the square root of `n` is nearer to it than
/// half: `(q - 1/2)^2 < n < (q + 1/2)^2`, which in integers is
/// `q^2 - q < n <= q^2 + q`.
pub proof fn lemma_nearest_root(n: nat)
    requires
        n >= 1,
    ensures
        nearest_root(n) >= 1,
        nearest_root(n) * nearest_root(n) - nearest_root(n) < n,
        n <= nearest_root(n) * nearest_root(n) + nearest_root(n),
    decreases n,
{
    if n > 1 {
        lemma_nearest_root((n - 1) as nat);
        let q = nearest_root((n - 1) as nat);
        let r = nearest_root(n);
        if n > q * q + q {
            assert(r == q + 1);
            assert(n == q * q + q + 1);
            assert(r * r - r == q * q + q) by (nonlinear_arith)
                requires
                    r == q + 1,
            ;
            assert(r * r + r >= q * q + q + 1) by (nonlinear_arith)
                requires
                    r == q + 1,
            ;
        } else {
            assert(r == q);
            assert(r * r == q * q) by (nonlinear_arith)
                requires
                    r == q,
            ;
        }
    } else {
        reveal_with_fuel(nearest_root, 3);
        assert(nearest_root(1) == 1);
    }
}

/// Only one integer is nearer than half to the square root of `n`.
pub proof fn lemma_nearest_root_unique(n: nat, a: nat, b: nat)
    requires
        a >= 1,
        b >= 1,
        a * a - a < n <= a * a + a,
        b * b - b < n <= b * b + b,
    ensures
        a == b,
{
    if a < b {
        assert(b * b - b >= a * a + a) by (nonlinear_arith)
            requires
                a + 1 <= b,
                a >= 1,
        ;
    } else if b < a {
        assert(a * a - a >= b * b + b) by (nonlinear_arith)
            requires
                b + 1 <= a,
                b >= 1,
        ;
    }
}

/// The rounded root of an integer of 47 or 48 bits has 24 bits, and is
/// nearer than half to the root.
proof fn lemma_root_in_range(n: nat, r: nat, q: nat, sig: nat)
    requires
        0x80_0000 <= sig < 0x100_0000,
        n == sig * 0x100_0000 || n == sig * 0x80_0000,
        r * r <= n,
        (r + 1) * (r + 1) > n,
        q == if n > r * r + r {
            r + 1
        } else {
            r
        },
    ensures
        0x80_0000 <= q < 0x100_0000,
        q * q - q < n <= q * q + q,
{
    assert(n >= 0x80_0000 * 0x80_0000) by (nonlinear_arith)
        requires
            n == sig * 0x100_0000 || n == sig * 0x80_0000,
            sig >= 0x80_0000,
    ;
    assert(n <= 0xff_ffff * 0x100_0000) by (nonlinear_arith)
        requires
            n == sig * 0x100_0000 || n == sig * 0x80_0000,
            sig <= 0xff_ffff,
    ;
    assert(r >= 0x80_0000) by (nonlinear_arith)
        requires
            (r + 1) * (r + 1) > n,
            n >= 0x80_0000 * 0x80_0000,
    ;
    assert(r < 0x100_0000) by (nonlinear_arith)
        requires
            r * r <= n,
            n <= 0xff_ffff * 0x100_0000,
    ;
    if n > r * r + r {
        assert((r + 1) * (r + 1) - (r + 1) == r * r + r) by (nonlinear_arith);
        assert((r + 1) * (r + 1) + (r + 1) >= (r + 1) * (r + 1)) by (nonlinear_arith);
        assert(r + 1 < 0x100_0000) by (nonlinear_arith)
            requires
                r * r + r < n,
                n <= 0xff_ffff * 0x100_0000,
                r < 0x100_0000,
        ;
    } else {
        assert(r * r - r < r * r) by (nonlinear_arith)
            requires
                r >= 1,
        ;
    }
}

impl Scalar {
    /// The digits of a finite number in units of `2^(unit - 150)`, with
    /// the sign of the number, for a unit not above its scale.
    pub open spec fn signed_digits(self, unit: int) -> int {
        let digits = self.digits() * two_to((self.scale() - unit) as nat);
        if self.negative() {
            -digits
        } else {
            digits as int
        }
    }

    /// The sum, rounded to the nearest number. A NaN plus anything and the
    /// sum of the two infinities are a NaN; an infinity plus anything else
    /// is that infinity. The sum of two numbers that cancel is the positive
    /// zero, that of two negative zeros the negative zero.
    #[verifier::opaque]
    pub open spec fn plus(self, other: Scalar) -> Scalar {
        if self.nan() || other.nan() {
            Scalar { bits: NAN_BITS }
        } else if !self.finite() {
            if !other.finite() && self.negative() != other.negative() {
                Scalar { bits: NAN_BITS }
            } else {
                self
            }
        } else if !other.finite() {
            other
        } else {
            let unit = if self.scale() <= other.scale() {
                self.scale()
            } else {
                other.scale()
            };
            let sum = self.signed_digits(unit) + other.signed_digits(unit);
            if sum == 0 {
                Scalar { bits: signed_zero(self.negative() && other.negative()) }
            } else if sum < 0 {
                Scalar { bits: nearest_bits(true, (-sum) as nat, 1, unit - 150) }
            } else {
                Scalar { bits: nearest_bits(false, sum as nat, 1, unit - 150) }
            }
        }
    }

    /// The difference, rounded to the nearest number: the sum of `self`
    /// and `other` with its sign changed.
    pub open spec fn minus(self, other: Scalar) -> Scalar {
        self.plus(other.negated())
    }

    /// The product, rounded to the nearest number. A NaN times anything and
    /// an infinity times a zero are a NaN; an infinity times anything else
    /// is an infinity, and a zero times any number is a zero. The sign is
    /// negative where the signs differ.
    #[verifier::opaque]
    pub open spec fn times(self, other: Scalar) -> Scalar {
        let negative = self.negative() != other.negative();
        if self.nan() || other.nan() {
            Scalar { bits: NAN_BITS }
        } else if !self.finite() || !other.finite() {
            if self.magnitude() == 0 || other.magnitude() == 0 {
                Scalar { bits: NAN_BITS }
            } else {
                Scalar { bits: signed_infinity(negative) }
            }
        } else if self.digits() == 0 || other.digits() == 0 {
            Scalar { bits: signed_zero(negative) }
        } else {
            Scalar {
                bits: nearest_bits(
                    negative,
                    self.digits() * other.digits(),
                    1,
                    self.scale() + other.scale() - 300,
                ),
            }
        }
    }

    /// The quotient, rounded to the nearest number. A NaN over anything or
    /// under anything, an infinity over an infinity and a zero over a zero
    /// are a NaN; an infinity over a number and a number other than zero
    /// over a zero are an infinity; a number over an infinity and a zero
    /// over a number are a zero. The sign is negative where the signs
    /// differ.
    #[verifier::opaque]
    pub open spec fn over(self, other: Scalar) -> Scalar {
        let negative = self.negative() != other.negative();
        if self.nan() || other.nan() {
            Scalar { bits: NAN_BITS }
        } else if !self.finite() {
            if other.finite() {
                Scalar { bits: signed_infinity(negative) }
            } else {
                Scalar { bits: NAN_BITS }
            }
        } else if !other.finite() {
            Scalar { bits: signed_zero(negative) }
        } else if other.magnitude() == 0 {
            if self.magnitude() == 0 {
                Scalar { bits: NAN_BITS }
            } else {
                Scalar { bits: signed_infinity(negative) }
            }
        } else if self.magnitude() == 0 {
            Scalar { bits: signed_zero(negative) }
        } else {
            Scalar {
                bits: nearest_bits(
                    negative,
                    (self.normal_significand() * 0x400_0000) as nat,
                    other.normal_significand() as nat,
                    self.normal_exponent() - other.normal_exponent() - 26,
                ),
            }
        }
    }

    /// The remainder of the division by `other` cut off toward zero; it
    /// has the sign of `self` and is exact. The remainder of a NaN or by a
    /// NaN, of an infinity and by a zero is a NaN; the remainder by an
    /// infinity, and that of a number smaller than `other`, is the number
    /// itself.
    #[verifier::opaque]
    pub open spec fn remainder(self, other: Scalar) -> Scalar {
        if self.nan() || other.nan() || !self.finite() || other.magnitude() == 0 {
            Scalar { bits: NAN_BITS }
        } else if !other.finite() || self.magnitude() == 0 || self.scale() < other.scale() {
            self
        } else {
            let left = (self.digits() * two_to((self.scale() - other.scale()) as nat))
                % other.digits();
            if left == 0 {
                Scalar { bits: signed_zero(self.negative()) }
            } else {
                Scalar { bits: nearest_bits(self.negative(), left, 1, other.scale() - 150) }
            }
        }
    }

    /// The least non-negative remainder of the division by `other`: the
    /// remainder, raised by the magnitude of `other` where it is negative.
    pub open spec fn wrapped(self, other: Scalar) -> Scalar {
        let r = self.remainder(other);
        if r.less(Scalar { bits: ZERO_BITS }) {
            r.plus(other.absolute())
        } else {
            r
        }
    }

    /// The significand of a number that is not zero, brought to 24 bits:
    /// that of a normal number, and that of a subnormal number doubled
    /// until it has 24 bits.
    pub open spec fn normal_significand(self) -> int {
        if self.exponent() == 0 {
            widened(self.magnitude(), 1).0
        } else {
            self.significand()
        }
    }

    /// The exponent that goes with the significand of 24 bits: the value
    /// of the number is `normal_significand * 2^(normal_exponent - 150)`.
    pub open spec fn normal_exponent(self) -> int {
        if self.exponent() == 0 {
            widened(self.magnitude(), 1).1
        } else {
            self.exponent()
        }
    }

    /// The square root, rounded to the nearest number. The root of a zero
    /// is that zero, the root of positive infinity is infinity, and the
    /// root of a NaN or of a negative number is a NaN. Any other number is
    /// `sig * 2^(e - 150)` with `sig` of 24 bits; with `n` the integer
    /// `sig * 2^23` or `sig * 2^24`, whichever leaves an even power of two,
    /// its root is the integer nearest to the root of `n`, times that
    /// power's root.
    #[verifier::opaque]
    pub open spec fn root(self) -> Scalar {
        if self.nan() || (self.negative() && self.magnitude() != 0) {
            Scalar { bits: NAN_BITS }
        } else if self.magnitude() == 0 || self.magnitude() == INFINITY_BITS {
            self
        } else {
            let sig = self.normal_significand();
            let e = self.normal_exponent();
            let n = if e % 2 == 0 {
                sig * 0x100_0000
            } else {
                sig * 0x80_0000
            };
            Scalar { bits: (((e + 127) / 2) * 0x80_0000 + nearest_root(n as nat) - 0x80_0000) as u32 }
        }
    }

    /// The number nearest to `n`.
    #[verifier::opaque]
    pub open spec fn of_count(n: u32) -> Scalar {
        if n == 0 {
            Scalar { bits: 0 }
        } else {
            Scalar { bits: nearest_bits(false, n as nat, 1, 0) }
        }
    }

    /// The number nearest to a size `n`.
    #[verifier::opaque]
    pub open spec fn of_size(n: usize) -> Scalar {
        if n == 0 {
            Scalar { bits: 0 }
        } else {
            Scalar { bits: nearest_bits(false, n as nat, 1, 0) }
        }
    }

    /// The number cut off to an unsigned integer of 32 bits, toward zero:
    /// 0 for a NaN, for anything below 1 and for every negative number, the
    /// largest integer for anything too large.
    pub open spec fn truncated(self) -> int {
        if self.nan() || self.negative() || self.exponent() < 127 {
            0
        } else if self.exponent() >= 159 {
            0xffff_ffff
        } else if self.exponent() >= 150 {
            self.significand() * two_to((self.exponent() - 150) as nat)
        } else {
            self.significand() / (two_to((150 - self.exponent()) as nat) as int)
        }
    }

    /// The number without its fraction: cut off toward zero to a whole
    /// number, with the sign kept. A number of magnitude below 1 becomes a
    /// zero; a number without fraction bits, an infinity and a NaN stay as
    /// they are.
    pub open spec fn whole(self) -> Scalar {
        if self.exponent() < 127 {
            Scalar { bits: (self.bits - self.magnitude()) as u32 }
        } else if self.exponent() >= 150 {
            self
        } else {
            Scalar {
                bits: (self.bits - self.magnitude() % (two_to(
                    (150 - self.exponent()) as nat,
                ) as int)) as u32,
            }
        }
    }

    /// The sum of a number other than zero and a zero is the number.
    proof fn lemma_plus_zero(self, zero: Scalar)
        requires
            self.finite(),
            self.magnitude() != 0,
            zero.magnitude() == 0,
        ensures
            self.plus(zero) == self,
            zero.plus(self) == self,
    {
        reveal(Scalar::plus);
        self.lemma_own_bits();
        let k = (self.scale() - 1) as nat;
        lemma_exact(self.negative(), self.digits(), self.scale(), k);
        assert(two_to(0) == 1);
        assert(0 * two_to(0) == 0);
        assert(zero.signed_digits(1) == 0);
    }

    /// The order of the terms does not change a sum.
    pub proof fn lemma_plus_commutes(a: Scalar, b: Scalar)
        requires
            a.finite(),
            b.finite(),
        ensures
            a.plus(b) == b.plus(a),
    {
        reveal(Scalar::plus);
    }

    /// The sum, rounded to the nearest number.
    pub fn add(self, other: Scalar) -> (r: Scalar)
        ensures
            r == self.plus(other),
    {
        let a: u32 = self.magnitude_bits();
        let b: u32 = other.magnitude_bits();
        let minus_a = self.bits >= SIGN_BIT;
        let minus_b = other.bits >= SIGN_BIT;
        if a >= INFINITY_BITS || b >= INFINITY_BITS {
            reveal(Scalar::plus);
            if a > INFINITY_BITS || b > INFINITY_BITS {
                return Scalar { bits: NAN_BITS };
            }
            if a == INFINITY_BITS {
                if b == INFINITY_BITS && minus_a != minus_b {
                    return Scalar { bits: NAN_BITS };
                }
                return self;
            }
            return other;
        }
        if a == 0 || b == 0 {
            if a == 0 && b == 0 {
                proof {
                    reveal(Scalar::plus);
                    assert(two_to(0) == 1);
                    assert(0 * two_to(0) == 0);
                }
                return Scalar { bits: sign_of(minus_a && minus_b) };
            }
            if a == 0 {
                proof {
                    other.lemma_plus_zero(self);
                }
                return other;
            }
            proof {
                self.lemma_plus_zero(other);
            }
            return self;
        }
        let (x, i) = self.parts();
        let (y, j) = other.parts();
        if i >= j {
            Scalar { bits: add_parts(x, i, y, j, self, other) }
        } else {
            let r = add_parts(y, j, x, i, other, self);
            proof {
                Scalar::lemma_plus_commutes(self, other);
            }
            Scalar { bits: r }
        }
    }

    /// The difference, rounded to the nearest number.
    pub fn sub(self, other: Scalar) -> (r: Scalar)
        ensures
            r == self.minus(other),
    {
        self.add(other.neg())
    }

    /// The product, rounded to the nearest number.
    pub fn mul(self, other: Scalar) -> (r: Scalar)
        ensures
            r == self.times(other),
    {
        reveal(Scalar::times);
        let negative = (self.bits >= SIGN_BIT) != (other.bits >= SIGN_BIT);
        let a: u32 = self.magnitude_bits();
        let b: u32 = other.magnitude_bits();
        if a > INFINITY_BITS || b > INFINITY_BITS {
            return Scalar { bits: NAN_BITS };
        }
        if a == INFINITY_BITS || b == INFINITY_BITS {
            if a == 0 || b == 0 {
                return Scalar { bits: NAN_BITS };
            }
            return Scalar { bits: sign_of(negative) + INFINITY_BITS };
        }
        let (x, i) = self.parts();
        let (y, j) = other.parts();
        if x == 0 || y == 0 {
            return Scalar { bits: sign_of(negative) };
        }
        proof {
            assert(1 <= x * y < 0x100_0000 * 0x100_0000) by (nonlinear_arith)
                requires
                    1 <= x < 0x100_0000,
                    1 <= y < 0x100_0000,
            ;
        }
        Scalar { bits: round_pack(negative, x * y, i + j - 300) }
    }

    /// The significand of 24 bits of a finite number other than zero, and
    /// the exponent that goes with it.
    fn normal_parts(self) -> (r: (u64, i32))
        requires
            self.finite(),
            self.magnitude() != 0,
        ensures
            r.0 == self.normal_significand(),
            r.1 == self.normal_exponent(),
            0x80_0000 <= r.0 < 0x100_0000,
            -22 <= r.1 <= 254,
    {
        let m: u32 = self.magnitude_bits();
        if m < 0x80_0000 {
            widen(m)
        } else {
            ((m % 0x80_0000 + 0x80_0000) as u64, (m / 0x80_0000) as i32)
        }
    }

    /// The quotient, rounded to the nearest number.
    pub fn div(self, other: Scalar) -> (r: Scalar)
        ensures
            r == self.over(other),
    {
        reveal(Scalar::over);
        let negative = (self.bits >= SIGN_BIT) != (other.bits >= SIGN_BIT);
        let a: u32 = self.magnitude_bits();
        let b: u32 = other.magnitude_bits();
        if a > INFINITY_BITS || b > INFINITY_BITS {
            return Scalar { bits: NAN_BITS };
        }
        if a == INFINITY_BITS {
            if b == INFINITY_BITS {
                return Scalar { bits: NAN_BITS };
            }
            return Scalar { bits: sign_of(negative) + INFINITY_BITS };
        }
        if b == INFINITY_BITS {
            return Scalar { bits: sign_of(negative) };
        }
        if b == 0 {
            if a == 0 {
                return Scalar { bits: NAN_BITS };
            }
            return Scalar { bits: sign_of(negative) + INFINITY_BITS };
        }
        if a == 0 {
            return Scalar { bits: sign_of(negative) };
        }
        let (x, i) = self.normal_parts();
        let (y, j) = other.normal_parts();
        proof {
            // The ratio of the significands, times 2^26, has 26 or 27 bits.
            assert(y * 0x200_0000 <= x * 0x400_0000) by (nonlinear_arith)
                requires
                    y < 0x100_0000,
                    x >= 0x80_0000,
            ;
            vstd::arithmetic::div_mod::lemma_multiply_divide_lt(
                (x * 0x400_0000) as int,
                y as int,
                0x800_0000,
            );
        }
        Scalar { bits: round_ratio(negative, x * 0x400_0000, y, i - j - 26) }
    }

    /// The square root, rounded to the nearest number.
    pub fn sqrt(self) -> (r: Scalar)
        ensures
            r == self.root(),
    {
        reveal(Scalar::root);
        let m: u32 = self.magnitude_bits();
        if m > INFINITY_BITS || (self.bits >= SIGN_BIT && m != 0) {
            return Scalar { bits: NAN_BITS };
        }
        if m == 0 || m == INFINITY_BITS {
            return self;
        }
        // The number as `sig * 2^(e - 150)`, with `sig` of 24 bits.
        let (sig, e) = if m < 0x80_0000 {
            widen(m)
        } else {
            ((m % 0x80_0000 + 0x80_0000) as u64, (m / 0x80_0000) as i32)
        };
        let n: u64 = if e % 2 == 0 {
            sig * 0x100_0000
        } else {
            sig * 0x80_0000
        };
        // The whole part of the root of `n`, bit by bit.
        let mut r: u64 = 0;
        let mut k: u32 = 24;
        proof {
            lemma_two_to_64();
            assert(n < 0x1_0000_0000_0000) by (nonlinear_arith)
                requires
                    n <= sig * 0x100_0000,
                    sig < 0x100_0000,
            ;
        }
        while k > 0
            invariant
                0 <= k <= 24,
                n < 0x1_0000_0000_0000,
                r * r <= n,
                (r + two_to(k as nat)) * (r + two_to(k as nat)) > n,
                r + two_to(k as nat) <= 0x100_0000,
            decreases k,
        {
            k = k - 1;
            let step: u64 = power_of_two_64(k);
            let candidate: u64 = r + step;
            proof {
                assert(two_to((k + 1) as nat) == 2 * two_to(k as nat));
                assert(candidate * candidate <= 0x100_0000 * 0x100_0000) by (nonlinear_arith)
                    requires
                        candidate <= 0x100_0000,
                ;
            }
            if candidate * candidate <= n {
                r = candidate;
            }
        }
        proof {
            assert(two_to(0) == 1);
        }
        // The nearest integer is the whole part or the next one.
        proof {
            assert(r * r + r < 0x1_0000_0000_0000 + 0x100_0000) by (nonlinear_arith)
                requires
                    r * r <= n,
                    n < 0x1_0000_0000_0000,
                    r <= 0x100_0000,
            ;
        }
        let q: u64 = if n > r * r + r {
            r + 1
        } else {
            r
        };
        proof {
            lemma_root_in_range(n as nat, r as nat, q as nat, sig as nat);
            lemma_nearest_root(n as nat);
            lemma_nearest_root_unique(n as nat, q as nat, nearest_root(n as nat));
        }
        let exponent: u32 = ((e + 127) / 2) as u32;
        Scalar { bits: exponent * 0x80_0000 + (q - 0x80_0000) as u32 }
    }

    /// The remainder of the division by `other`, with the sign of `self`.
    pub fn rem(self, other: Scalar) -> (r: Scalar)
        ensures
            r == self.remainder(other),
    {
        reveal(Scalar::remainder);
        let a: u32 = self.magnitude_bits();
        let b: u32 = other.magnitude_bits();
        if a >= INFINITY_BITS || b > INFINITY_BITS || b == 0 {
            return Scalar { bits: NAN_BITS };
        }
        if b == INFINITY_BITS || a == 0 {
            return self;
        }
        let (x, i) = self.parts();
        let (y, j) = other.parts();
        if i < j {
            return self;
        }
        // The remainder of `x * 2^(i - j)` by `y`, one doubling at a time.
        let mut left: u64 = x % y;
        let mut k: i32 = 0;
        proof {
            assert(two_to(0) == 1);
            assert(x * two_to(0) == x);
        }
        while k < i - j
            invariant
                1 <= j <= i <= 254,
                0 <= k <= i - j,
                1 <= y < 0x100_0000,
                left == (x * two_to(k as nat)) % (y as int),
                left < y,
            decreases i - j - k,
        {
            proof {
                let whole = x * two_to(k as nat);
                vstd::arithmetic::div_mod::lemma_mul_mod_noop_right(2, whole as int, y as int);
                assert(two_to((k + 1) as nat) == 2 * two_to(k as nat));
                assert(x * (2 * two_to(k as nat)) == 2 * (x * two_to(k as nat)))
                    by (nonlinear_arith);
            }
            left = (2 * left) % y;
            k = k + 1;
        }
        if left == 0 {
            Scalar { bits: sign_of(self.bits >= SIGN_BIT) }
        } else {
            Scalar { bits: round_pack(self.bits >= SIGN_BIT, left, j - 150) }
        }
    }

    /// The least non-negative remainder of the division by `other`.
    pub fn rem_euclid(self, other: Scalar) -> (r: Scalar)
        ensures
            r == self.wrapped(other),
    {
        let r = self.rem(other);
        if r.lt(Scalar::zero()) {
            r.add(other.abs())
        } else {
            r
        }
    }

    /// The number nearest to an unsigned integer.
    pub fn from_u32(n: u32) -> (r: Scalar)
        ensures
            r == Scalar::of_count(n),
    {
        reveal(Scalar::of_count);
        if n == 0 {
            Scalar { bits: 0 }
        } else {
            Scalar { bits: round_pack(false, n as u64, 0) }
        }
    }

    /// The number nearest to a size.
    pub fn from_usize(n: usize) -> (r: Scalar)
        ensures
            r == Scalar::of_size(n),
    {
        reveal(Scalar::of_size);
        if n == 0 {
            Scalar { bits: 0 }
        } else {
            Scalar { bits: round_pack(false, n as u64, 0) }
        }
    }

    /// The number cut off to an integer, toward zero and into the range of
    /// the result.
    pub fn to_u32(self) -> (n: u32)
        ensures
            n == self.truncated(),
    {
        if self.is_nan() || self.bits >= SIGN_BIT {
            return 0;
        }
        let e: u32 = self.bits / 0x80_0000;
        let m: u32 = self.bits % 0x80_0000 + 0x80_0000;
        if e < 127 {
            0
        } else if e >= 159 {
            0xffff_ffff
        } else if e >= 150 {
            let p: u32 = power_of_two(e - 150);
            proof {
                lemma_two_to_grows((e - 150) as nat, 8);
                lemma_two_to_64();
                assert(p <= 256);
                assert(m * p <= 0xffff_ffff) by (nonlinear_arith)
                    requires
                        m < 0x100_0000,
                        p <= 256,
                ;
            }
            m * p
        } else {
            let p: u32 = power_of_two(150 - e);
            m / p
        }
    }

    /// The number without its fraction.
    pub fn trunc(self) -> (r: Scalar)
        ensures
            r == self.whole(),
    {
        let m: u32 = self.magnitude_bits();
        let e: u32 = m / 0x80_0000;
        if e < 127 {
            Scalar { bits: self.bits - m }
        } else if e >= 150 {
            self
        } else {
            let p: u32 = power_of_two(150 - e);
            Scalar { bits: self.bits - m % p }
        }
    }
}

} // verus!
