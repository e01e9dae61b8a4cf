//! Rounding keeps the order of what it rounds: of two exact values the
//! smaller has the nearest number that is not the greater. From this, the
//! difference and the quotient keep or turn the order of their first
//! terms, and the test of a ray against a box is monotone in the box.

use vstd::prelude::*;
use crate::rounding::bits_of;
use crate::rounding::half_even;
use crate::rounding::lemma_bits_of;
use crate::rounding::lemma_two_to_64;
use crate::rounding::lemma_two_to_adds;
use crate::rounding::lemma_two_to_grows;
use crate::rounding::lemma_two_to_positive;
use crate::rounding::nearest_bits;
use crate::rounding::rounded_significand;
use crate::rounding::two_to;
use crate::rounding::unit_exponent;
use crate::aabb::Interval;
use crate::aabb::AABB;
use crate::arithmetic::widened;
use crate::bvh::crossing_is_monotone;
use crate::ray::Ray;
use crate::scalar::ZERO_BITS;
use crate::scalar::Scalar;
use crate::scalar::INFINITY_BITS;
use crate::scalar::SIGN_BIT;

verus! {

/// The integer nearest to a ratio is within half of it, and even where it
/// is exactly half away.
pub proof fn lemma_half_even_is_nearest(a: nat, d: nat)
    requires
        d >= 1,
    ensures
        (2 * half_even(a, d) - 1) * d <= 2 * a <= (2 * half_even(a, d) + 1) * d,
        2 * a == (2 * half_even(a, d) - 1) * d || 2 * a == (2 * half_even(a, d) + 1) * d
            ==> half_even(a, d) % 2 == 0,
{
    let q = a / d;
    let r = a % d;
    let h = half_even(a, d);
    vstd::arithmetic::div_mod::lemma_fundamental_div_mod(a as int, d as int);
    assert(a == d * q + r);
    assert(0 <= r < d);
    if h == q + 1 {
        assert((2 * h - 1) * d == 2 * (d * q) + d) by (nonlinear_arith)
            requires
                h == q + 1,
        ;
        assert((2 * h + 1) * d == 2 * (d * q) + 3 * d) by (nonlinear_arith)
            requires
                h == q + 1,
        ;
    } else {
        assert((2 * h - 1) * d == 2 * (d * q) - d) by (nonlinear_arith)
            requires
                h == q,
        ;
        assert((2 * h + 1) * d == 2 * (d * q) + d) by (nonlinear_arith)
            requires
                h == q,
        ;
    }
}

/// Of two ratios the smaller has the nearest integer that is not the
/// greater.
pub proof fn lemma_half_even_grows(a1: nat, d1: nat, a2: nat, d2: nat)
    requires
        d1 >= 1,
        d2 >= 1,
        a1 * d2 <= a2 * d1,
    ensures
        half_even(a1, d1) <= half_even(a2, d2),
{
    let h1 = half_even(a1, d1) as int;
    let h2 = half_even(a2, d2) as int;
    lemma_half_even_is_nearest(a1, d1);
    lemma_half_even_is_nearest(a2, d2);
    if h1 > h2 {
        // Both lie half away from their ratios, which are the same.
        assert(((2 * h1 - 1) * d1) * d2 <= (2 * a1) * d2) by (nonlinear_arith)
            requires
                (2 * h1 - 1) * d1 <= 2 * a1,
                d2 >= 1,
        ;
        assert((2 * a2) * d1 <= ((2 * h2 + 1) * d2) * d1) by (nonlinear_arith)
            requires
                2 * a2 <= (2 * h2 + 1) * d2,
                d1 >= 1,
        ;
        assert((2 * a1) * d2 <= (2 * a2) * d1) by (nonlinear_arith)
            requires
                a1 * d2 <= a2 * d1,
        ;
        assert(((2 * h1 - 1) * d1) * d2 == (2 * h1 - 1) * (d1 * d2)) by (nonlinear_arith);
        assert(((2 * h2 + 1) * d2) * d1 == (2 * h2 + 1) * (d1 * d2)) by (nonlinear_arith);
        assert(d1 * d2 >= 1) by (nonlinear_arith)
            requires
                d1 >= 1,
                d2 >= 1,
        ;
        assert(2 * h1 - 1 <= 2 * h2 + 1) by (nonlinear_arith)
            requires
                (2 * h1 - 1) * (d1 * d2) <= (2 * h2 + 1) * (d1 * d2),
                d1 * d2 >= 1,
        ;
        assert(h1 == h2 + 1);
        assert((2 * h1 - 1) * (d1 * d2) == (2 * h2 + 1) * (d1 * d2));
        // So every step above is an equality.
        assert(((2 * h1 - 1) * d1) * d2 == (2 * a1) * d2);
        assert((2 * a2) * d1 == ((2 * h2 + 1) * d2) * d1);
        assert((2 * h1 - 1) * d1 == 2 * a1) by (nonlinear_arith)
            requires
                ((2 * h1 - 1) * d1) * d2 == (2 * a1) * d2,
                d2 >= 1,
        ;
        assert(2 * a2 == (2 * h2 + 1) * d2) by (nonlinear_arith)
            requires
                (2 * a2) * d1 == ((2 * h2 + 1) * d2) * d1,
                d1 >= 1,
        ;
        assert(h1 % 2 == 0);
        assert(h2 % 2 == 0);
    }
}

/// The magnitude of the binary32 number nearest to `a / b * 2^exp`.
pub open spec fn nearest_magnitude(a: nat, b: nat, exp: int) -> int {
    let unit = unit_exponent(a / b, exp);
    if unit + 150 >= 255 {
        INFINITY_BITS as int
    } else {
        (unit + 149) * 0x80_0000 + rounded_significand(a, b, exp, unit)
    }
}

/// A ratio of at least one lies between the powers of two that the number
/// of bits of its whole part gives.
pub proof fn lemma_whole_bounds(a: nat, b: nat)
    requires
        a >= b >= 1,
    ensures
        a / b >= 1,
        bits_of(a / b) >= 1,
        two_to((bits_of(a / b) - 1) as nat) * b <= a < two_to(bits_of(a / b)) * b,
{
    let w = a / b;
    vstd::arithmetic::div_mod::lemma_fundamental_div_mod(a as int, b as int);
    assert(a == b * w + a % b);
    assert(w >= 1) by (nonlinear_arith)
        requires
            a == b * w + a % b,
            a % b < b,
            a >= b,
            b >= 1,
            w >= 0,
    ;
    lemma_bits_of(w);
    let lo = two_to((bits_of(w) - 1) as nat);
    let hi = two_to(bits_of(w));
    assert(lo * b <= a) by (nonlinear_arith)
        requires
            a == b * w + a % b,
            lo <= w,
            b >= 1,
    ;
    assert(a < hi * b) by (nonlinear_arith)
        requires
            a == b * w + a % b,
            a % b < b,
            w + 1 <= hi,
            b >= 1,
    ;
}

/// The numerator of a ratio in units of `2^unit`.
pub open spec fn numerator_at(a: nat, exp: int, unit: int) -> nat {
    if unit >= exp {
        a
    } else {
        a * two_to((exp - unit) as nat)
    }
}

/// The denominator of a ratio in units of `2^unit`.
pub open spec fn denominator_at(b: nat, exp: int, unit: int) -> nat {
    if unit >= exp {
        b * two_to((unit - exp) as nat)
    } else {
        b
    }
}

/// The greater of an exponent and a unit.
pub open spec fn top(exp: int, unit: int) -> int {
    if unit >= exp {
        unit
    } else {
        exp
    }
}

/// A ratio in units of `2^unit`, brought to a common base: the numerator
/// times `2^(unit - base)` and the denominator times `2^(exp - base)` are
/// the terms of the ratio times the same power of two.
pub proof fn lemma_at_unit(a: nat, b: nat, exp: int, unit: int, base: int)
    requires
        base <= exp,
        base <= unit,
        b >= 1,
    ensures
        numerator_at(a, exp, unit) * two_to((unit - base) as nat) == a * two_to(
            (top(exp, unit) - base) as nat,
        ),
        denominator_at(b, exp, unit) * two_to((exp - base) as nat) == b * two_to(
            (top(exp, unit) - base) as nat,
        ),
        denominator_at(b, exp, unit) >= 1,
        rounded_significand(a, b, exp, unit) == half_even(
            numerator_at(a, exp, unit),
            denominator_at(b, exp, unit),
        ),
{
    if unit >= exp {
        lemma_two_to_adds((unit - exp) as nat, (exp - base) as nat);
        lemma_two_to_positive((unit - exp) as nat);
        let x = two_to((unit - exp) as nat);
        let y = two_to((exp - base) as nat);
        assert((b * x) * y == b * (x * y)) by (nonlinear_arith);
        assert(b * x >= 1) by (nonlinear_arith)
            requires
                b >= 1,
                x >= 1,
        ;
    } else {
        lemma_two_to_adds((exp - unit) as nat, (unit - base) as nat);
        let x = two_to((exp - unit) as nat);
        let y = two_to((unit - base) as nat);
        assert((a * x) * y == a * (x * y)) by (nonlinear_arith);
    }
}

/// The significand of the nearest number has at most 24 bits, or is
/// `2^24`; it has 24 bits where the number is not subnormal.
pub proof fn lemma_significand_bounds(a: nat, b: nat, exp: int)
    requires
        a >= b >= 1,
    ensures
        rounded_significand(a, b, exp, unit_exponent(a / b, exp)) <= 0x100_0000,
        unit_exponent(a / b, exp) > -149 ==> rounded_significand(
            a,
            b,
            exp,
            unit_exponent(a / b, exp),
        ) >= 0x80_0000,
        0 <= nearest_magnitude(a, b, exp) <= INFINITY_BITS,
{
    lemma_two_to_64();
    lemma_whole_bounds(a, b);
    let len = bits_of(a / b) as int;
    let unit = unit_exponent(a / b, exp);
    let n = numerator_at(a, exp, unit);
    let d = denominator_at(b, exp, unit);
    let base = if exp <= unit {
        exp
    } else {
        unit
    };
    lemma_at_unit(a, b, exp, unit, base);
    let q = half_even(n, d);
    lemma_half_even_is_nearest(n, d);
    // n < 2^24 * d.
    assert(len + exp <= unit + 24);
    if unit >= exp {
        lemma_two_to_grows(len as nat, (24 + unit - exp) as nat);
        lemma_two_to_adds(24, (unit - exp) as nat);
        let x = two_to((unit - exp) as nat);
        assert(n < 0x100_0000 * d) by (nonlinear_arith)
            requires
                n == a,
                a < two_to(len as nat) * b,
                two_to(len as nat) <= 0x100_0000 * x,
                d == b * x,
                b >= 1,
        ;
    } else {
        lemma_two_to_adds(len as nat, (exp - unit) as nat);
        lemma_two_to_grows((len + exp - unit) as nat, 24);
        lemma_two_to_positive((exp - unit) as nat);
        let x = two_to((exp - unit) as nat);
        assert(n < 0x100_0000 * d) by (nonlinear_arith)
            requires
                n == a * x,
                a < two_to(len as nat) * b,
                two_to(len as nat) * x <= 0x100_0000,
                d == b,
                b >= 1,
                x >= 1,
        ;
    }
    assert(q <= 0x100_0000) by (nonlinear_arith)
        requires
            (2 * q - 1) * d <= 2 * n,
            n < 0x100_0000 * d,
            d >= 1,
    ;
    if unit > -149 {
        // 2^23 * d <= n.
        assert(unit == len - 24 + exp);
        if unit >= exp {
            let x = two_to((unit - exp) as nat);
            lemma_two_to_adds(23, (unit - exp) as nat);
            assert(0x80_0000 * d <= n) by (nonlinear_arith)
                requires
                    n == a,
                    two_to((len - 1) as nat) * b <= a,
                    two_to((len - 1) as nat) == 0x80_0000 * x,
                    d == b * x,
            ;
        } else {
            let x = two_to((exp - unit) as nat);
            lemma_two_to_adds((len - 1) as nat, (exp - unit) as nat);
            assert(0x80_0000 * d <= n) by (nonlinear_arith)
                requires
                    n == a * x,
                    two_to((len - 1) as nat) * b <= a,
                    two_to((len - 1) as nat) * x == 0x80_0000,
                    d == b,
                    x >= 0,
            ;
        }
        assert(q >= 0x80_0000) by (nonlinear_arith)
            requires
                2 * n <= (2 * q + 1) * d,
                0x80_0000 * d <= n,
                d >= 1,
        ;
    }
}

/// Products of products, grouped in two ways.
proof fn lemma_regrouped(n: nat, d: nat, x: nat, y: nat, z: nat)
    ensures
        (n * d) * ((x * y) * z) == ((n * x) * (d * y)) * z,
        ((n * d) * z) * (x * y) == ((n * x) * (d * y)) * z,
{
    assert((n * d) * ((x * y) * z) == ((n * x) * (d * y)) * z) by (nonlinear_arith);
    assert(((n * d) * z) * (x * y) == ((n * x) * (d * y)) * z) by (nonlinear_arith);
}

/// Rounding keeps the order: of two values `a1 / b1 * 2^e1` and
/// `a2 / b2 * 2^e2`, each at least its own unit, the smaller has the
/// nearest number whose magnitude is not the greater.
pub proof fn lemma_rounding_grows(a1: nat, b1: nat, e1: int, a2: nat, b2: nat, e2: int, base: int)
    requires
        a1 >= b1 >= 1,
        a2 >= b2 >= 1,
        base <= e1,
        base <= e2,
        base <= -149,
        (a1 * b2) * two_to((e1 - base) as nat) <= (a2 * b1) * two_to((e2 - base) as nat),
    ensures
        nearest_magnitude(a1, b1, e1) <= nearest_magnitude(a2, b2, e2),
{
    lemma_two_to_64();
    lemma_whole_bounds(a1, b1);
    lemma_whole_bounds(a2, b2);
    lemma_significand_bounds(a1, b1, e1);
    lemma_significand_bounds(a2, b2, e2);
    let l1 = bits_of(a1 / b1) as int;
    let l2 = bits_of(a2 / b2) as int;
    let u1 = unit_exponent(a1 / b1, e1);
    let u2 = unit_exponent(a2 / b2, e2);
    let first_power = two_to((e1 - base) as nat);
    let second_power = two_to((e2 - base) as nat);
    lemma_two_to_positive((e1 - base) as nat);
    lemma_two_to_positive((e2 - base) as nat);
    // The leading bit of the first value is not above that of the second.
    if l1 + e1 > l2 + e2 {
        let lo = two_to((l1 - 1) as nat);
        let hi = two_to(l2 as nat);
        lemma_two_to_adds((l1 - 1) as nat, (e1 - base) as nat);
        lemma_two_to_adds(l2 as nat, (e2 - base) as nat);
        lemma_two_to_grows((l2 + e2 - base) as nat, (l1 - 1 + e1 - base) as nat);
        assert((a1 * b2) * first_power >= ((lo * b1) * b2) * first_power) by (nonlinear_arith)
            requires
                lo * b1 <= a1,
                b2 >= 1,
                first_power >= 1,
        ;
        assert((a2 * b1) * second_power < ((hi * b2) * b1) * second_power) by (nonlinear_arith)
            requires
                a2 < hi * b2,
                b1 >= 1,
                second_power >= 1,
        ;
        assert(((lo * b1) * b2) * first_power == (lo * first_power) * (b1 * b2)) by (nonlinear_arith);
        assert(((hi * b2) * b1) * second_power == (hi * second_power) * (b1 * b2)) by (nonlinear_arith);
        assert((hi * second_power) * (b1 * b2) <= (lo * first_power) * (b1 * b2)) by (nonlinear_arith)
            requires
                hi * second_power <= lo * first_power,
                b1 >= 1,
                b2 >= 1,
        ;
        assert(false);
    }
    assert(u1 <= u2);
    if u1 == u2 {
        let u = u1;
        lemma_at_unit(a1, b1, e1, u, base);
        lemma_at_unit(a2, b2, e2, u, base);
        let n1 = numerator_at(a1, e1, u);
        let d1 = denominator_at(b1, e1, u);
        let n2 = numerator_at(a2, e2, u);
        let d2 = denominator_at(b2, e2, u);
        let pu = two_to((u - base) as nat);
        let m1 = two_to((top(e1, u) - base) as nat);
        let m2 = two_to((top(e2, u) - base) as nat);
        lemma_two_to_positive((u - base) as nat);
        lemma_two_to_positive((top(e1, u) - base) as nat);
        lemma_two_to_positive((top(e2, u) - base) as nat);
        // n1 * d2 <= n2 * d1, seen through the common base.
        lemma_regrouped(n1, d2, pu, second_power, first_power);
        lemma_regrouped(a1, b2, m1, m2, first_power);
        assert((n1 * d2) * ((pu * second_power) * first_power) == ((a1 * b2) * first_power) * (m1 * m2));
        lemma_regrouped(n2, d1, pu, first_power, second_power);
        lemma_regrouped(a2, b1, m2, m1, second_power);
        assert((m2 * m1) * second_power == (m1 * m2) * second_power) by (nonlinear_arith);
        assert(((a2 * b1) * second_power) * (m2 * m1) == ((a2 * b1) * second_power) * (m1 * m2)) by (nonlinear_arith);
        assert((n2 * d1) * ((pu * first_power) * second_power) == ((a2 * b1) * second_power) * (m1 * m2));
        assert(((a1 * b2) * first_power) * (m1 * m2) <= ((a2 * b1) * second_power) * (m1 * m2)) by (nonlinear_arith)
            requires
                (a1 * b2) * first_power <= (a2 * b1) * second_power,
                m1 >= 1,
                m2 >= 1,
        ;
        assert((pu * second_power) * first_power == (pu * first_power) * second_power) by (nonlinear_arith);
        assert((pu * first_power) * second_power >= 1) by (nonlinear_arith)
            requires
                pu >= 1,
                first_power >= 1,
                second_power >= 1,
        ;
        assert(n1 * d2 <= n2 * d1) by (nonlinear_arith)
            requires
                (n1 * d2) * ((pu * first_power) * second_power) <= (n2 * d1) * ((pu * first_power) * second_power),
                (pu * first_power) * second_power >= 1,
        ;
        lemma_half_even_grows(n1, d1, n2, d2);
    }
}

/// The number nearest to a value is a number; its sign is the one given,
/// and its magnitude is the nearest magnitude.
pub proof fn lemma_nearest_rank(negative: bool, a: nat, b: nat, exp: int)
    requires
        a >= b >= 1,
    ensures
        !(Scalar { bits: nearest_bits(negative, a, b, exp) }).nan(),
        (Scalar { bits: nearest_bits(negative, a, b, exp) }).magnitude() == nearest_magnitude(
            a,
            b,
            exp,
        ),
        (Scalar { bits: nearest_bits(negative, a, b, exp) }).rank() == if negative {
            -nearest_magnitude(a, b, exp)
        } else {
            nearest_magnitude(a, b, exp)
        },
{
    lemma_significand_bounds(a, b, exp);
}

/// The value of a finite number in units of `2^-149`, without its sign:
/// its digits times `2^(scale - 1)`.
pub open spec fn size(x: Scalar) -> nat {
    x.digits() * two_to((x.scale() - 1) as nat)
}

/// What a finite number is made of: its magnitude is its digits in the
/// place of its scale.
pub proof fn lemma_parts(x: Scalar)
    requires
        x.finite(),
    ensures
        x.magnitude() == (x.scale() - 1) * 0x80_0000 + x.digits(),
        x.digits() < 0x100_0000,
        1 <= x.scale() <= 254,
        x.scale() >= 2 ==> x.digits() >= 0x80_0000,
        x.magnitude() == 0 <==> x.digits() == 0,
{
}

/// Of two finite numbers the one of smaller magnitude has the smaller
/// size.
pub proof fn lemma_size_grows(x: Scalar, y: Scalar)
    requires
        x.finite(),
        y.finite(),
        x.magnitude() <= y.magnitude(),
    ensures
        size(x) <= size(y),
{
    lemma_parts(x);
    lemma_parts(y);
    let px = two_to((x.scale() - 1) as nat);
    let py = two_to((y.scale() - 1) as nat);
    lemma_two_to_positive((x.scale() - 1) as nat);
    if x.scale() == y.scale() {
        assert(x.digits() * px <= y.digits() * px) by (nonlinear_arith)
            requires
                x.digits() <= y.digits(),
                px >= 0,
        ;
    } else {
        assert(x.scale() < y.scale());
        lemma_two_to_grows(x.scale() as nat, (y.scale() - 1) as nat);
        assert(two_to(x.scale() as nat) == 2 * px);
        assert(x.digits() * px <= y.digits() * py) by (nonlinear_arith)
            requires
                x.digits() < 0x100_0000,
                y.digits() >= 0x80_0000,
                2 * px <= py,
                px >= 1,
        ;
    }
}

/// The size of a finite number in the units of any scale not above its
/// own.
pub proof fn lemma_size_in_units(x: Scalar, unit: int)
    requires
        x.finite(),
        1 <= unit <= x.scale(),
    ensures
        (x.digits() * two_to((x.scale() - unit) as nat)) * two_to((unit - 1) as nat) == size(x),
{
    lemma_two_to_adds((x.scale() - unit) as nat, (unit - 1) as nat);
    let d = x.digits();
    let p = two_to((x.scale() - unit) as nat);
    let q = two_to((unit - 1) as nat);
    assert((d * p) * q == d * (p * q)) by (nonlinear_arith);
}

/// The difference keeps the order of its first term: of two numbers less
/// the same finite number, the smaller gives the difference that is not
/// the greater, and both differences are numbers.
pub proof fn lemma_minus_grows(a1: Scalar, a2: Scalar, x: Scalar)
    requires
        !a1.nan(),
        !a2.nan(),
        x.finite(),
        a1.rank() <= a2.rank(),
    ensures
        !a1.minus(x).nan(),
        !a2.minus(x).nan(),
        a1.minus(x).rank() <= a2.minus(x).rank(),
{
    if a1.finite() && a2.finite() {
        lemma_finite_minus_grows(a1, a2, x);
    } else {
        // An infinity less a finite number is that infinity, beyond every
        // difference of finite numbers.
        reveal(Scalar::plus);
        if a1.finite() {
            lemma_difference_bounds(a1, x);
        }
        if a2.finite() {
            lemma_difference_bounds(a2, x);
        }
    }
}

/// The difference of two finite numbers is a number between the
/// infinities.
pub proof fn lemma_difference_bounds(a: Scalar, x: Scalar)
    requires
        a.finite(),
        x.finite(),
    ensures
        !a.minus(x).nan(),
        -INFINITY_BITS <= a.minus(x).rank() <= INFINITY_BITS,
{
    let d = lemma_difference(a, x);
    if d > 0 {
        lemma_significand_bounds(d as nat, 1, -149);
    } else if d < 0 {
        lemma_significand_bounds((-d) as nat, 1, -149);
    }
}

/// Of two finite numbers less the same finite number, the smaller gives
/// the difference that is not the greater.
pub proof fn lemma_finite_minus_grows(a1: Scalar, a2: Scalar, x: Scalar)
    requires
        a1.finite(),
        a2.finite(),
        x.finite(),
        a1.rank() <= a2.rank(),
    ensures
        !a1.minus(x).nan(),
        !a2.minus(x).nan(),
        a1.minus(x).rank() <= a2.minus(x).rank(),
{
    let d1 = lemma_difference(a1, x);
    let d2 = lemma_difference(a2, x);
    // The exact differences are in the order of the first terms.
    if a1.negative() {
        if a2.negative() {
            lemma_size_grows(a2, a1);
        }
    } else if a2.negative() {
        // Both are zero.
        lemma_parts(a1);
        lemma_parts(a2);
        assert(0 * two_to((a1.scale() - 1) as nat) == 0);
        assert(0 * two_to((a2.scale() - 1) as nat) == 0);
    } else {
        lemma_size_grows(a1, a2);
    }
    assert(d1 <= d2);
    if d1 > 0 {
        lemma_rounding_grows(d1 as nat, 1, -149, d2 as nat, 1, -149, -149);
        assert(two_to(0) == 1);
        assert(((d1 as nat) * 1) * two_to(0) <= ((d2 as nat) * 1) * two_to(0));
    } else if d2 < 0 {
        assert(two_to(0) == 1);
        assert((((-d2) as nat) * 1) * two_to(0) <= (((-d1) as nat) * 1) * two_to(0));
        lemma_rounding_grows((-d2) as nat, 1, -149, (-d1) as nat, 1, -149, -149);
    }
}

/// The difference of two finite numbers is the number nearest to the exact
/// difference, which is returned in units of `2^-149`: a number, with the
/// sign of the exact difference or zero.
pub proof fn lemma_difference(a: Scalar, x: Scalar) -> (d: int)
    requires
        a.finite(),
        x.finite(),
    ensures
        d == (if a.negative() {
            -(size(a) as int)
        } else {
            size(a) as int
        }) - (if x.negative() {
            -(size(x) as int)
        } else {
            size(x) as int
        }),
        !a.minus(x).nan(),
        d == 0 ==> a.minus(x).rank() == 0,
        d > 0 ==> a.minus(x).rank() == nearest_magnitude(d as nat, 1, -149),
        d < 0 ==> a.minus(x).rank() == -nearest_magnitude((-d) as nat, 1, -149),
{
    reveal(Scalar::plus);
    let y = x.negated();
    lemma_parts(a);
    lemma_parts(x);
    lemma_parts(y);
    assert(y.finite() && y.digits() == x.digits() && y.scale() == x.scale());
    let unit = if a.scale() <= y.scale() {
        a.scale()
    } else {
        y.scale()
    };
    let sum = a.signed_digits(unit) + y.signed_digits(unit);
    let p = two_to((unit - 1) as nat);
    lemma_two_to_positive((unit - 1) as nat);
    lemma_size_in_units(a, unit);
    lemma_size_in_units(y, unit);
    assert(size(y) == size(x));
    let da = a.digits() * two_to((a.scale() - unit) as nat);
    let dy = y.digits() * two_to((y.scale() - unit) as nat);
    let va = if a.negative() {
        -(size(a) as int)
    } else {
        size(a) as int
    };
    let vx = if x.negative() {
        -(size(x) as int)
    } else {
        size(x) as int
    };
    let d = va - vx;
    assert(sum * p == d) by (nonlinear_arith)
        requires
            da * p == size(a),
            dy * p == size(x),
            sum == (if a.negative() {
                -(da as int)
            } else {
                da as int
            }) + (if y.negative() {
                -(dy as int)
            } else {
                dy as int
            }),
            y.negative() == !x.negative(),
            va == if a.negative() {
                -(size(a) as int)
            } else {
                size(a) as int
            },
            vx == if x.negative() {
                -(size(x) as int)
            } else {
                size(x) as int
            },
            d == va - vx,
    ;
    assert(sum == 0 <==> d == 0) by (nonlinear_arith)
        requires
            sum * p == d,
            p >= 1,
    ;
    assert(sum > 0 <==> d > 0) by (nonlinear_arith)
        requires
            sum * p == d,
            p >= 1,
    ;
    assert(two_to(0) == 1);
    if sum > 0 {
        lemma_nearest_rank(false, sum as nat, 1, unit - 150);
        lemma_same_value(sum as nat, unit - 150, d as nat, -149);
    } else if sum < 0 {
        lemma_nearest_rank(true, (-sum) as nat, 1, unit - 150);
        assert((-sum) * p == -d) by (nonlinear_arith)
            requires
                sum * p == d,
        ;
        lemma_same_value((-sum) as nat, unit - 150, (-d) as nat, -149);
    }
    d
}

/// Two ways of writing one value have one nearest number: `n * 2^e` and
/// `n * 2^(e - f)` in units of `2^f`.
pub proof fn lemma_same_value(n: nat, e: int, m: nat, f: int)
    requires
        n >= 1,
        f <= e,
        f <= -149,
        m == n * two_to((e - f) as nat),
    ensures
        nearest_magnitude(n, 1, e) == nearest_magnitude(m, 1, f),
{
    let p = two_to((e - f) as nat);
    lemma_two_to_positive((e - f) as nat);
    assert(two_to(0) == 1);
    assert(m >= 1) by (nonlinear_arith)
        requires
            m == n * p,
            n >= 1,
            p >= 1,
    ;
    assert((n * 1) * p == (m * 1) * 1) by (nonlinear_arith)
        requires
            m == n * p,
    ;
    lemma_rounding_grows(n, 1, e, m, 1, f, f);
    lemma_rounding_grows(m, 1, f, n, 1, e, f);
}

/// A significand doubled until it has 24 bits keeps its value: what the
/// doublings add to the significand they take from the exponent.
pub proof fn lemma_widened(sig: int, e: int, j: nat)
    requires
        1 <= sig < 0x100_0000,
        sig * two_to(j) >= 0x80_0000,
    ensures
        0x80_0000 <= widened(sig, e).0 < 0x100_0000,
        e - j <= widened(sig, e).1 <= e,
        widened(sig, e).0 * two_to((widened(sig, e).1 - e + j) as nat) == sig * two_to(j),
    decreases j,
{
    if sig < 0x80_0000 {
        assert(two_to(0) == 1);
        assert(j >= 1) by {
            if j == 0 {
                assert(sig * two_to(0) == sig);
            }
        }
        assert(two_to(j) == 2 * two_to((j - 1) as nat));
        assert((2 * sig) * two_to((j - 1) as nat) == sig * (2 * two_to((j - 1) as nat)))
            by (nonlinear_arith);
        lemma_widened(2 * sig, e - 1, (j - 1) as nat);
    }
}

/// A finite number other than zero, written with a significand of 24
/// bits, has the same value.
pub proof fn lemma_normal_parts(u: Scalar)
    requires
        u.finite(),
        u.magnitude() != 0,
    ensures
        0x80_0000 <= u.normal_significand() < 0x100_0000,
        -22 <= u.normal_exponent() <= 254,
        u.normal_significand() * two_to((u.normal_exponent() + 22) as nat) == size(u) * 0x80_0000,
{
    lemma_two_to_64();
    lemma_parts(u);
    let p = two_to((u.scale() - 1) as nat);
    if u.exponent() == 0 {
        let m = u.magnitude();
        assert(m * two_to(23) >= 0x80_0000) by (nonlinear_arith)
            requires
                m >= 1,
                two_to(23) == 0x80_0000,
        ;
        lemma_widened(m, 1, 23);
        assert(two_to(0) == 1);
        assert(size(u) == m) by (nonlinear_arith)
            requires
                size(u) == m * two_to(0),
                two_to(0) == 1,
        ;
    } else {
        lemma_two_to_adds((u.scale() - 1) as nat, 23);
        let d = u.digits();
        assert(d * (p * 0x80_0000) == (d * p) * 0x80_0000) by (nonlinear_arith);
    }
}

/// The magnitude of the quotient of a number by a finite number other
/// than zero: infinite for an infinity, zero for a zero, and else the
/// nearest magnitude of the ratio of the significands.
pub open spec fn quotient_magnitude(u: Scalar, s: Scalar) -> int {
    if !u.finite() {
        INFINITY_BITS as int
    } else if u.magnitude() == 0 {
        0
    } else {
        nearest_magnitude(
            (u.normal_significand() * 0x400_0000) as nat,
            s.normal_significand() as nat,
            u.normal_exponent() - s.normal_exponent() - 26,
        )
    }
}

/// The quotient of a number by a finite number other than zero is a
/// number, negative where the signs differ, of the quotient magnitude.
pub proof fn lemma_quotient(u: Scalar, s: Scalar)
    requires
        !u.nan(),
        s.finite(),
        s.magnitude() != 0,
    ensures
        !u.over(s).nan(),
        u.over(s).negative() == (u.negative() != s.negative()),
        u.over(s).magnitude() == quotient_magnitude(u, s),
        0 <= quotient_magnitude(u, s) <= INFINITY_BITS,
{
    reveal(Scalar::over);
    let negative = u.negative() != s.negative();
    if u.finite() && u.magnitude() != 0 {
        lemma_normal_parts(u);
        lemma_normal_parts(s);
        let a = (u.normal_significand() * 0x400_0000) as nat;
        let b = s.normal_significand() as nat;
        lemma_nearest_rank(negative, a, b, u.normal_exponent() - s.normal_exponent() - 26);
        lemma_significand_bounds(a, b, u.normal_exponent() - s.normal_exponent() - 26);
        let q = Scalar {
            bits: nearest_bits(negative, a, b, u.normal_exponent() - s.normal_exponent() - 26),
        };
        assert(q.negative() == negative);
    }
}

/// Of two numbers the one of smaller magnitude has the quotient of
/// smaller magnitude, by the same finite number other than zero.
pub proof fn lemma_quotient_grows(u1: Scalar, u2: Scalar, s: Scalar)
    requires
        !u1.nan(),
        !u2.nan(),
        s.finite(),
        s.magnitude() != 0,
        u1.magnitude() <= u2.magnitude(),
    ensures
        quotient_magnitude(u1, s) <= quotient_magnitude(u2, s),
{
    lemma_quotient(u1, s);
    lemma_quotient(u2, s);
    if u2.finite() && u1.magnitude() != 0 {
        lemma_normal_parts(u1);
        lemma_normal_parts(u2);
        lemma_normal_parts(s);
        lemma_size_grows(u1, u2);
        let b = s.normal_significand() as nat;
        let a1 = (u1.normal_significand() * 0x400_0000) as nat;
        let a2 = (u2.normal_significand() * 0x400_0000) as nat;
        let e1 = u1.normal_exponent() - s.normal_exponent() - 26;
        let e2 = u2.normal_exponent() - s.normal_exponent() - 26;
        let c = (352 - s.normal_exponent()) as nat;
        let pc = two_to(c);
        let w1 = two_to((u1.normal_exponent() + 22) as nat);
        let w2 = two_to((u2.normal_exponent() + 22) as nat);
        lemma_two_to_adds((u1.normal_exponent() + 22) as nat, c);
        lemma_two_to_adds((u2.normal_exponent() + 22) as nat, c);
        lemma_two_to_positive(c);
        let n1 = u1.normal_significand() as nat;
        let n2 = u2.normal_significand() as nat;
        assert((a1 * b) * (w1 * pc) == ((n1 * w1) * 0x400_0000) * (b * pc)) by (nonlinear_arith)
            requires
                a1 == n1 * 0x400_0000,
        ;
        assert((a2 * b) * (w2 * pc) == ((n2 * w2) * 0x400_0000) * (b * pc)) by (nonlinear_arith)
            requires
                a2 == n2 * 0x400_0000,
        ;
        assert(((n1 * w1) * 0x400_0000) * (b * pc) <= ((n2 * w2) * 0x400_0000) * (b * pc))
            by (nonlinear_arith)
            requires
                n1 * w1 <= n2 * w2,
                b >= 1,
                pc >= 1,
        ;
        assert(a1 >= b && a2 >= b);
        lemma_rounding_grows(a1, b, e1, a2, b, e2, -400);
    }
}

/// The quotient keeps the order of its first term where the divisor is
/// positive, and turns it where the divisor is negative; the quotients
/// are numbers.
pub proof fn lemma_over_grows(u1: Scalar, u2: Scalar, s: Scalar)
    requires
        !u1.nan(),
        !u2.nan(),
        s.finite(),
        s.magnitude() != 0,
        u1.rank() <= u2.rank(),
    ensures
        !u1.over(s).nan(),
        !u2.over(s).nan(),
        !s.negative() ==> u1.over(s).rank() <= u2.over(s).rank(),
        s.negative() ==> u2.over(s).rank() <= u1.over(s).rank(),
{
    lemma_quotient(u1, s);
    lemma_quotient(u2, s);
    if u1.negative() && u2.negative() {
        lemma_quotient_grows(u2, u1, s);
    } else if !u1.negative() && !u2.negative() {
        lemma_quotient_grows(u1, u2, s);
    } else if !u1.negative() && u2.negative() {
        // Both are zero.
        assert(u1.magnitude() == 0 && u2.magnitude() == 0);
    }
}

/// Whether an interval holds all of another: the other is empty, or its
/// bounds are numbers in their order within the bounds of the first.
pub open spec fn covers(outer: Interval, inner: Interval) -> bool {
    match inner {
        Interval::Empty => true,
        Interval::Infinite => outer is Infinite,
        Interval::Closed(e, f) => !e.nan() && !f.nan() && e.rank() <= f.rank() && match outer {
            Interval::Infinite => true,
            Interval::Closed(c, d) => !c.nan() && !d.nan() && c.rank() <= e.rank() && f.rank()
                <= d.rank(),
            Interval::Empty => false,
        },
    }
}

/// The intersection of two intervals holds all of the intersection of two
/// intervals that they hold.
pub proof fn lemma_meet_covers(o1: Interval, i1: Interval, o2: Interval, i2: Interval)
    requires
        covers(o1, i1),
        covers(o2, i2),
    ensures
        covers(o1.meet(o2), i1.meet(i2)),
{
}

/// A ray that meets a box within an interval meets it within every
/// interval that holds that one.
pub proof fn lemma_entry_covers(outer: Interval, inner: Interval)
    requires
        covers(outer, inner),
        inner.entry().is_some(),
    ensures
        outer.entry().is_some(),
{
}

/// On one axis, the parameters at which a ray lies between two planes
/// are among those at which it lies between two planes further apart.
pub proof fn lemma_axis_covers(
    a_outer: Scalar,
    b_outer: Scalar,
    a_inner: Scalar,
    b_inner: Scalar,
    x: Scalar,
    slope: Scalar,
)
    requires
        !a_outer.nan() && !b_outer.nan() && !a_inner.nan() && !b_inner.nan(),
        x.finite(),
        slope.finite(),
        a_outer.rank() <= a_inner.rank() <= b_inner.rank() <= b_outer.rank(),
    ensures
        covers(
            Interval::on_axis(a_outer, b_outer, x, slope),
            Interval::on_axis(a_inner, b_inner, x, slope),
        ),
{
    if !slope.same(Scalar { bits: ZERO_BITS }) {
        lemma_minus_grows(a_outer, a_inner, x);
        lemma_minus_grows(a_inner, b_inner, x);
        lemma_minus_grows(b_inner, b_outer, x);
        lemma_over_grows(a_outer.minus(x), a_inner.minus(x), slope);
        lemma_over_grows(a_inner.minus(x), b_inner.minus(x), slope);
        lemma_over_grows(b_inner.minus(x), b_outer.minus(x), slope);
    }
}

/// A ray that crosses a box crosses every box that encloses it: the test
/// of a ray against a box is monotone in the box, for valid boxes and a
/// ray whose origin and direction are finite.
pub proof fn lemma_crossing_grows(outer: AABB, inner: AABB, ray: Ray)
    requires
        ray.steady(),
        outer.valid(),
        inner.valid(),
        outer.encloses(inner),
        inner.crossing(ray).is_some(),
    ensures
        outer.crossing(ray).is_some(),
{
    let position = ray.at(Scalar { bits: ZERO_BITS });
    let direction = ray.heading();
    lemma_axis_covers(outer.min.x, outer.max.x, inner.min.x, inner.max.x, position.x, direction.x);
    lemma_axis_covers(outer.min.y, outer.max.y, inner.min.y, inner.max.y, position.y, direction.y);
    lemma_axis_covers(outer.min.z, outer.max.z, inner.min.z, inner.max.z, position.z, direction.z);
    let ox = Interval::on_axis(outer.min.x, outer.max.x, position.x, direction.x);
    let oy = Interval::on_axis(outer.min.y, outer.max.y, position.y, direction.y);
    let oz = Interval::on_axis(outer.min.z, outer.max.z, position.z, direction.z);
    let ix = Interval::on_axis(inner.min.x, inner.max.x, position.x, direction.x);
    let iy = Interval::on_axis(inner.min.y, inner.max.y, position.y, direction.y);
    let iz = Interval::on_axis(inner.min.z, inner.max.z, position.z, direction.z);
    lemma_meet_covers(oy, iy, oz, iz);
    lemma_meet_covers(ox, ix, oy.meet(oz), iy.meet(iz));
    lemma_entry_covers(ox.meet(oy.meet(oz)), ix.meet(iy.meet(iz)));
}

/// The test of a ray against a box is monotone in the box for every ray
/// whose origin and direction are finite.
pub proof fn lemma_crossing_is_monotone(ray: Ray)
    requires
        ray.steady(),
    ensures
        crossing_is_monotone(ray),
{
    assert forall|outer: AABB, inner: AABB| #![trigger outer.encloses(inner)]
        outer.valid() && inner.valid() && outer.encloses(inner) && inner.crossing(
            ray,
        ).is_some() implies outer.crossing(ray).is_some() by {
        lemma_crossing_grows(outer, inner, ray);
    }
}

} // verus!
