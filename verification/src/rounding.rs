//! Rounding to binary32: the number nearest to a ratio of integers times a
//! power of two, ties to the even significand.

use vstd::prelude::*;
use vstd::arithmetic::div_mod::lemma_fundamental_div_mod_converse;
use crate::scalar::INFINITY_BITS;
use crate::scalar::SIGN_BIT;

verus! {

/// Two to the power `n`.
pub open spec fn two_to(n: nat) -> nat
    decreases n,
{
    if n == 0 {
        1
    } else {
        2 * two_to((n - 1) as nat)
    }
}

/// A power of two is at least one.
pub proof fn lemma_two_to_positive(n: nat)
    ensures
        two_to(n) >= 1,
    decreases n,
{
    if n > 0 {
        lemma_two_to_positive((n - 1) as nat);
    }
}

/// A power of two grows with its exponent.
pub proof fn lemma_two_to_grows(a: nat, b: nat)
    requires
        a <= b,
    ensures
        two_to(a) <= two_to(b),
    decreases b,
{
    if a < b {
        lemma_two_to_grows(a, (b - 1) as nat);
    }
}

/// Powers of two multiply by adding their exponents.
pub proof fn lemma_two_to_adds(a: nat, b: nat)
    ensures
        two_to(a + b) == two_to(a) * two_to(b),
    decreases a,
{
    if a == 0 {
        assert(two_to(0) == 1);
        assert(two_to(b) == 1 * two_to(b));
    } else {
        lemma_two_to_adds((a - 1) as nat, b);
        assert(two_to(a + b) == 2 * two_to((a - 1 + b) as nat));
        assert(two_to(a) == 2 * two_to((a - 1) as nat));
        assert(2 * (two_to((a - 1) as nat) * two_to(b)) == (2 * two_to((a - 1) as nat)) * two_to(b))
            by (nonlinear_arith);
    }
}

/// The powers of two that bound the integers and the fields of the
/// numbers.
pub proof fn lemma_two_to_64()
    ensures
        two_to(0) == 1,
        two_to(8) == 0x100,
        two_to(22) == 0x40_0000,
        two_to(23) == 0x80_0000,
        two_to(24) == 0x100_0000,
        two_to(25) == 0x200_0000,
        two_to(26) == 0x400_0000,
        two_to(27) == 0x800_0000,
        two_to(28) == 0x1000_0000,
        two_to(32) == 0x1_0000_0000,
        two_to(37) == 0x20_0000_0000,
        two_to(62) == 0x4000_0000_0000_0000,
        two_to(63) == 0x8000_0000_0000_0000,
        two_to(64) == 0x1_0000_0000_0000_0000,
{
    reveal_with_fuel(two_to, 9);
    assert(two_to(5) == 0x20);
    assert(two_to(6) == 0x40);
    assert(two_to(7) == 0x80);
    assert(two_to(8) == 0x100);
    lemma_two_to_adds(8, 8);
    assert(two_to(16) == 0x1_0000);
    lemma_two_to_adds(16, 6);
    lemma_two_to_adds(16, 7);
    lemma_two_to_adds(16, 8);
    assert(two_to(24) == 0x100_0000);
    lemma_two_to_adds(24, 1);
    lemma_two_to_adds(24, 2);
    lemma_two_to_adds(24, 3);
    lemma_two_to_adds(24, 4);
    lemma_two_to_adds(24, 6);
    lemma_two_to_adds(24, 7);
    assert(two_to(30) == 0x4000_0000);
    assert(two_to(31) == 0x8000_0000);
    lemma_two_to_adds(16, 16);
    assert(two_to(32) == 0x1_0000_0000);
    lemma_two_to_adds(32, 5);
    lemma_two_to_adds(32, 30);
    lemma_two_to_adds(32, 31);
    lemma_two_to_adds(32, 32);
}

/// The number of bits of an integer: 0 for 0, and `k` for the integers
/// from `2^(k-1)` up to `2^k`.
pub open spec fn bits_of(n: nat) -> nat
    decreases n,
{
    if n == 0 {
        0
    } else {
        1 + bits_of(n / 2)
    }
}

/// An integer of `k` bits lies from `2^(k-1)` up to `2^k`.
pub proof fn lemma_bits_of(n: nat)
    requires
        n >= 1,
    ensures
        bits_of(n) >= 1,
        two_to((bits_of(n) - 1) as nat) <= n < two_to(bits_of(n)),
    decreases n,
{
    if n > 1 {
        lemma_bits_of(n / 2);
    } else {
        reveal_with_fuel(bits_of, 3);
        reveal_with_fuel(two_to, 3);
    }
}

/// An integer below `2^k` has at most `k` bits, and one from `2^k` on has
/// more.
pub proof fn lemma_bits_of_bound(n: nat, k: nat)
    ensures
        n < two_to(k) ==> bits_of(n) <= k,
        n >= two_to(k) ==> bits_of(n) > k,
{
    if n >= 1 {
        lemma_bits_of(n);
        if n < two_to(k) && bits_of(n) > k {
            lemma_two_to_grows(k, (bits_of(n) - 1) as nat);
        }
        if n >= two_to(k) && bits_of(n) <= k {
            lemma_two_to_grows(bits_of(n), k);
        }
    } else {
        lemma_two_to_positive(k);
    }
}

/// The number of bits of an integer between two powers of two.
pub proof fn lemma_bits_between(n: nat, k: nat)
    requires
        k >= 1,
        two_to((k - 1) as nat) <= n < two_to(k),
    ensures
        bits_of(n) == k,
{
    lemma_bits_of_bound(n, k);
    lemma_bits_of_bound(n, (k - 1) as nat);
}

/// The integer nearest to `a / b`; of two equally near integers the even
/// one.
pub open spec fn half_even(a: nat, b: nat) -> nat {
    let q = a / b;
    let r = a % b;
    if 2 * r > b || (2 * r == b && q % 2 == 1) {
        q + 1
    } else {
        q
    }
}

/// The exponent of the unit in the last place of the binary32 number
/// nearest to a value whose whole part is `whole` times `2^exp`: such
/// that the significand has 24 bits, but not below that of the subnormal
/// numbers.
pub open spec fn unit_exponent(whole: nat, exp: int) -> int {
    if bits_of(whole) - 24 + exp >= -149 {
        bits_of(whole) - 24 + exp
    } else {
        -149
    }
}

/// The significand of the binary32 number nearest to `a / b * 2^exp`, in
/// units of `2^unit`.
pub open spec fn rounded_significand(a: nat, b: nat, exp: int, unit: int) -> nat {
    if unit >= exp {
        half_even(a, b * two_to((unit - exp) as nat))
    } else {
        half_even(a * two_to((exp - unit) as nat), b)
    }
}

/// The bits of the number with the given sign and the significand `q` in
/// units of `2^unit`: the exponent field and the fraction, where a
/// significand of 25 bits carries into the exponent; infinity where the
/// exponent is beyond the largest.
pub open spec fn packed(negative: bool, q: nat, unit: int) -> u32 {
    let magnitude = if unit + 150 >= 255 {
        INFINITY_BITS as int
    } else {
        (unit + 149) * 0x80_0000 + q
    };
    if negative {
        (magnitude + SIGN_BIT) as u32
    } else {
        magnitude as u32
    }
}

/// The bits of the binary32 number nearest to `a / b * 2^exp`, with the
/// given sign, for a ratio of at least one; ties go to the even
/// significand, and what is beyond the largest number becomes infinity.
pub open spec fn nearest_bits(negative: bool, a: nat, b: nat, exp: int) -> u32 {
    let unit = unit_exponent(a / b, exp);
    packed(negative, rounded_significand(a, b, exp, unit), unit)
}

/// Two to the power `n`, for an exponent within the width of a significand.
pub(crate) fn power_of_two(n: u32) -> (p: u32)
    requires
        n <= 23,
    ensures
        p == two_to(n as nat),
        1 <= p <= 0x80_0000,
{
    let mut p: u32 = 1;
    let mut i: u32 = 0;
    proof {
        lemma_two_to_64();
    }
    while i < n
        invariant
            0 <= i <= n <= 23,
            p == two_to(i as nat),
            p * two_to((23 - i) as nat) == 0x80_0000,
            p >= 1,
        decreases n - i,
    {
        proof {
            assert(two_to((23 - i) as nat) == 2 * two_to((23 - i - 1) as nat));
            assert(p * two_to((23 - i) as nat) == (2 * p) * two_to((23 - i - 1) as nat))
                by (nonlinear_arith)
                requires
                    two_to((23 - i) as nat) == 2 * two_to((23 - i - 1) as nat),
            ;
            assert(two_to((23 - i - 1) as nat) >= 1) by {
                lemma_two_to_positive((23 - i - 1) as nat);
            }
            assert(2 * p <= 0x80_0000) by (nonlinear_arith)
                requires
                    (2 * p) * two_to((23 - i - 1) as nat) == 0x80_0000,
                    two_to((23 - i - 1) as nat) >= 1,
                    p >= 1,
            ;
        }
        p = 2 * p;
        i = i + 1;
    }
    proof {
        lemma_two_to_positive((23 - n) as nat);
        assert(p <= 0x80_0000) by (nonlinear_arith)
            requires
                p * two_to((23 - n) as nat) == 0x80_0000,
                two_to((23 - n) as nat) >= 1,
                p >= 1,
        ;
    }
    p
}

/// Two to the power `k`.
pub fn power_of_two_64(k: u32) -> (p: u64)
    requires
        k <= 63,
    ensures
        p == two_to(k as nat),
        1 <= p <= 0x8000_0000_0000_0000,
{
    let mut p: u64 = 1;
    let mut i: u32 = 0;
    proof {
        lemma_two_to_64();
    }
    while i < k
        invariant
            0 <= i <= k <= 63,
            p == two_to(i as nat),
            p >= 1,
        decreases k - i,
    {
        proof {
            lemma_two_to_grows((i + 1) as nat, 63);
            lemma_two_to_64();
            assert(two_to((i + 1) as nat) == 2 * two_to(i as nat));
        }
        p = 2 * p;
        i = i + 1;
    }
    proof {
        lemma_two_to_grows(k as nat, 63);
        lemma_two_to_64();
    }
    p
}

/// The number of bits of an integer.
pub fn bit_length(n: u64) -> (len: u32)
    ensures
        len == bits_of(n as nat),
        len <= 64,
        n >= 1 ==> len >= 1,
{
    let mut len: u32 = 0;
    let mut x: u64 = n;
    proof {
        assert(two_to(0) == 1);
        assert(x * two_to(0) == x);
    }
    while x > 0
        invariant
            len <= 64,
            bits_of(n as nat) == len + bits_of(x as nat),
            x * two_to(len as nat) <= n,
        decreases x,
    {
        proof {
            // As long as a bit is left, fewer than 64 have been counted.
            if len >= 64 {
                lemma_two_to_grows(64, len as nat);
                lemma_two_to_64();
                assert(x * two_to(len as nat) >= two_to(len as nat)) by (nonlinear_arith)
                    requires
                        x >= 1,
                ;
            }
            assert(two_to((len + 1) as nat) == 2 * two_to(len as nat));
            assert((x / 2) * (2 * two_to(len as nat)) <= x * two_to(len as nat))
                by (nonlinear_arith)
                requires
                    2 * (x / 2) <= x,
            ;
        }
        x = x / 2;
        len = len + 1;
    }
    proof {
        if n >= 1 {
            lemma_bits_of(n as nat);
        }
    }
    len
}

/// Nothing is left of an integer that is divided by a power of two four
/// times as large or larger.
pub proof fn lemma_rounds_to_nothing(num: nat, len: nat, shift: nat)
    requires
        num < two_to(len),
        shift >= len + 2,
    ensures
        half_even(num, two_to(shift)) == 0,
{
    let p = two_to(shift);
    lemma_two_to_grows(len + 2, shift);
    reveal_with_fuel(two_to, 3);
    assert(two_to(len + 2) == 4 * two_to(len));
    lemma_fundamental_div_mod_converse(num as int, p as int, 0, num as int);
}

/// The bits of the binary32 number nearest to `num * 2^exp`, with the
/// given sign.
pub fn round_pack(negative: bool, num: u64, exp: i32) -> (bits: u32)
    requires
        1 <= num,
        num < 0x4000_0000_0000_0000 || exp >= 0,
        -1000 <= exp <= 1000,
    ensures
        bits == nearest_bits(negative, num as nat, 1, exp as int),
{
    proof {
        lemma_two_to_64();
        lemma_bits_of(num as nat);
        lemma_bits_of_bound(num as nat, 62);
    }
    let len: i32 = bit_length(num) as i32;
    let natural: i32 = len - 24 + exp;
    let unit: i32 = if natural >= -149 {
        natural
    } else {
        -149
    };
    let shift: i32 = unit - exp;
    assert(unit == unit_exponent(num as nat / 1, exp as int));
    let q: u64 = if shift <= 0 {
        let p: u64 = power_of_two_64((0 - shift) as u32);
        proof {
            // `num * 2^-shift` has at most 24 bits.
            lemma_two_to_adds(len as nat, (0 - shift) as nat);
            lemma_two_to_grows((len - shift) as nat, 24);
            assert(num * p < two_to(len as nat) * p) by (nonlinear_arith)
                requires
                    num < two_to(len as nat),
                    p >= 1,
            ;
            assert(two_to(0) == 1);
            let x = (num * p) as nat;
            lemma_fundamental_div_mod_converse(x as int, 1, x as int, 0);
            if shift == 0 {
                assert(p == 1);
                assert(1 * two_to(0) == 1);
                assert(num * p == num) by (nonlinear_arith)
                    requires
                        p == 1,
                ;
            }
        }
        num * p
    } else if shift > len + 1 {
        proof {
            lemma_rounds_to_nothing(num as nat, len as nat, shift as nat);
            assert(1 * two_to(shift as nat) == two_to(shift as nat));
        }
        0
    } else {
        let p: u64 = power_of_two_64(shift as u32);
        let whole: u64 = num / p;
        let rest: u64 = num % p;
        proof {
            assert(1 * two_to(shift as nat) == two_to(shift as nat));
            // The whole part has at most 24 bits.
            lemma_two_to_adds(24, shift as nat);
            lemma_two_to_grows(len as nat, (24 + shift) as nat);
            assert(two_to(24) * (p as int) == (p as int) * two_to(24)) by (nonlinear_arith);
            vstd::arithmetic::div_mod::lemma_multiply_divide_lt(
                num as int,
                p as int,
                two_to(24) as int,
            );
        }
        if 2 * rest > p || (2 * rest == p && whole % 2 == 1) {
            whole + 1
        } else {
            whole
        }
    };
    assert(q == rounded_significand(num as nat, 1, exp as int, unit as int));
    assert(q <= 0x100_0000);
    let magnitude: u32 = if unit + 150 >= 255 {
        INFINITY_BITS
    } else {
        ((unit + 149) as u32) * 0x80_0000 + (q as u32)
    };
    if negative {
        magnitude + SIGN_BIT
    } else {
        magnitude
    }
}

/// Nothing is left of a ratio that is divided by a power of two four times
/// as large as its whole part or larger.
pub proof fn lemma_ratio_rounds_to_nothing(a: nat, b: nat, len: nat, shift: nat)
    requires
        b >= 1,
        a / b < two_to(len),
        shift >= len + 2,
    ensures
        half_even(a, b * two_to(shift)) == 0,
{
    let d = b * two_to(shift);
    lemma_two_to_grows(len + 2, shift);
    reveal_with_fuel(two_to, 3);
    assert(two_to(len + 2) == 4 * two_to(len));
    // a < b * 2^len, and the divisor is at least four times that.
    vstd::arithmetic::div_mod::lemma_fundamental_div_mod(a as int, b as int);
    assert(a < b * two_to(len)) by (nonlinear_arith)
        requires
            a == b * (a / b) + a % b,
            a % b < b,
            a / b < two_to(len),
            b >= 1,
    ;
    assert(4 * (b * two_to(len)) <= d) by (nonlinear_arith)
        requires
            4 * two_to(len) <= two_to(shift),
            d == b * two_to(shift),
            b >= 1,
    ;
    lemma_fundamental_div_mod_converse(a as int, d as int, 0, a as int);
}

/// The bits of the binary32 number nearest to `a / b * 2^exp`, with the
/// given sign, for a ratio of 26 or 27 bits.
pub fn round_ratio(negative: bool, a: u64, b: u64, exp: i32) -> (bits: u32)
    requires
        1 <= b < 0x100_0000,
        b * 0x200_0000 <= a < 0x8_0000_0000_0000,
        a / b < 0x800_0000,
        -1000 <= exp <= 1000,
    ensures
        bits == nearest_bits(negative, a as nat, b as nat, exp as int),
{
    let whole: u64 = a / b;
    proof {
        lemma_two_to_64();
        // The whole part has 26 or 27 bits.
        assert(whole >= 0x200_0000) by {
            vstd::arithmetic::div_mod::lemma_fundamental_div_mod(a as int, b as int);
            assert(b * (a / b) + a % b >= b * 0x200_0000);
            assert(a / b >= 0x200_0000) by (nonlinear_arith)
                requires
                    b * (a / b) + a % b >= b * 0x200_0000,
                    a % b < b,
                    b >= 1,
            ;
        }
        lemma_bits_of(whole as nat);
        lemma_bits_of_bound(whole as nat, 25);
        lemma_bits_of_bound(whole as nat, 27);
    }
    let len: i32 = bit_length(whole) as i32;
    let natural: i32 = len - 24 + exp;
    let unit: i32 = if natural >= -149 {
        natural
    } else {
        -149
    };
    let shift: i32 = unit - exp;
    assert(unit == unit_exponent((a as nat) / (b as nat), exp as int));
    assert(2 <= shift);
    let q: u64 = if shift > len + 1 {
        proof {
            lemma_ratio_rounds_to_nothing(a as nat, b as nat, len as nat, shift as nat);
        }
        0
    } else {
        let p: u64 = power_of_two_64(shift as u32);
        proof {
            lemma_two_to_grows(shift as nat, 28);
            assert(1 <= b * p < 0x100_0000 * 0x1000_0000) by (nonlinear_arith)
                requires
                    1 <= b < 0x100_0000,
                    1 <= p <= 0x1000_0000,
            ;
        }
        let d: u64 = b * p;
        let part: u64 = a / d;
        let rest: u64 = a % d;
        proof {
            // The significand has at most 24 bits.
            vstd::arithmetic::div_mod::lemma_div_denominator(a as int, b as int, p as int);
            lemma_two_to_adds(24, shift as nat);
            lemma_two_to_grows(len as nat, (24 + shift) as nat);
            assert(two_to(24) * (p as int) == (p as int) * two_to(24)) by (nonlinear_arith);
            vstd::arithmetic::div_mod::lemma_multiply_divide_lt(
                whole as int,
                p as int,
                two_to(24) as int,
            );
        }
        if 2 * rest > d || (2 * rest == d && part % 2 == 1) {
            part + 1
        } else {
            part
        }
    };
    assert(q == rounded_significand(a as nat, b as nat, exp as int, unit as int));
    assert(q <= 0x100_0000);
    let magnitude: u32 = if unit + 150 >= 255 {
        INFINITY_BITS
    } else {
        ((unit + 149) as u32) * 0x80_0000 + (q as u32)
    };
    if negative {
        magnitude + SIGN_BIT
    } else {
        magnitude
    }
}

/// A number that binary32 holds is the nearest to itself, however its
/// digits are written: `digits * 2^k` in units of `2^(scale - 150 - k)`
/// rounds to the digits in units of `2^(scale - 150)`.
pub proof fn lemma_exact(negative: bool, digits: nat, scale: int, k: nat)
    requires
        1 <= digits < 0x100_0000,
        1 <= scale <= 254,
        scale >= 2 ==> digits >= 0x80_0000,
    ensures
        nearest_bits(negative, digits * two_to(k), 1, scale - 150 - k) == packed(
            negative,
            digits,
            scale - 150,
        ),
{
    lemma_two_to_64();
    let n = digits * two_to(k);
    let exp = scale - 150 - k;
    lemma_two_to_positive(k);
    lemma_fundamental_div_mod_converse(n as int, 1, n as int, 0);
    // The bits of `n` are those of the digits and `k` more.
    lemma_bits_of(digits);
    let len = bits_of(digits);
    lemma_bits_of_bound(digits, 24);
    lemma_two_to_adds((len - 1) as nat, k);
    lemma_two_to_adds(len, k);
    assert(two_to((len - 1) as nat) * two_to(k) <= n < two_to(len) * two_to(k))
        by (nonlinear_arith)
        requires
            two_to((len - 1) as nat) <= digits < two_to(len),
            n == digits * two_to(k),
            two_to(k) >= 1,
    ;
    lemma_bits_between(n, len + k);
    if digits >= 0x80_0000 {
        lemma_bits_of_bound(digits, 23);
    }
    let unit = scale - 150;
    assert(unit_exponent(n / 1, exp) == unit);
    assert(1 * two_to(k) == two_to(k));
    assert(n == digits * two_to(k) + 0);
    assert(digits * two_to(k) == two_to(k) * digits) by (nonlinear_arith);
    lemma_fundamental_div_mod_converse(n as int, two_to(k) as int, digits as int, 0);
    assert(rounded_significand(n, 1, exp, unit) == digits);
}

/// A number far smaller than another does not change it when it is added
/// or taken away: the sum and the difference of `big * 2^gap` and `small`
/// round to `big`, where the gap is of 27 bits or more.
pub proof fn lemma_absorbed(negative: bool, big: nat, small: nat, scale: int, gap: nat)
    requires
        0x80_0000 <= big < 0x100_0000,
        1 <= small < 0x100_0000,
        27 <= gap,
        gap + 1 <= scale <= 254,
    ensures
        nearest_bits(negative, big * two_to(gap) + small, 1, scale - gap - 150) == packed(
            negative,
            big,
            scale - 150,
        ),
        nearest_bits(negative, (big * two_to(gap) - small) as nat, 1, scale - gap - 150)
            == packed(negative, big, scale - 150),
{
    lemma_two_to_64();
    reveal_with_fuel(two_to, 3);
    let p = two_to(gap);
    let half = two_to((gap - 1) as nat);
    let exp = scale - gap - 150;
    lemma_two_to_grows(27, gap);
    lemma_two_to_grows(26, (gap - 1) as nat);
    assert(p == 2 * half);
    lemma_two_to_adds(23, gap);
    lemma_two_to_adds(24, gap);
    lemma_two_to_adds(22, gap);

    // The sum.
    let sum = big * p + small;
    assert(two_to(23) * p <= sum < two_to(24) * p) by (nonlinear_arith)
        requires
            0x80_0000 <= big <= 0xff_ffff,
            small < 0x100_0000,
            p >= 0x800_0000,
            sum == big * p + small,
            two_to(23) == 0x80_0000,
            two_to(24) == 0x100_0000,
    ;
    lemma_bits_between(sum, 24 + gap);
    lemma_fundamental_div_mod_converse(sum as int, 1, sum as int, 0);
    assert(unit_exponent(sum / 1, exp) == scale - 150);
    assert(1 * p == p);
    assert(big * p == p * big) by (nonlinear_arith);
    lemma_fundamental_div_mod_converse(sum as int, p as int, big as int, small as int);
    assert(rounded_significand(sum, 1, exp, scale - 150) == big);

    // The difference.
    let difference = (big * p - small) as nat;
    assert(big * p >= 0x80_0000 * p) by (nonlinear_arith)
        requires
            big >= 0x80_0000,
            p >= 1,
    ;
    lemma_fundamental_div_mod_converse(difference as int, 1, difference as int, 0);
    if big > 0x80_0000 {
        assert(two_to(23) * p <= difference < two_to(24) * p) by (nonlinear_arith)
            requires
                0x80_0001 <= big <= 0xff_ffff,
                1 <= small < 0x100_0000,
                p >= 0x800_0000,
                difference == big * p - small,
                two_to(23) == 0x80_0000,
                two_to(24) == 0x100_0000,
        ;
        lemma_bits_between(difference, 24 + gap);
        assert(unit_exponent(difference / 1, exp) == scale - 150);
        assert(difference == p * (big - 1) + (p - small)) by (nonlinear_arith)
            requires
                difference == big * p - small,
        ;
        lemma_fundamental_div_mod_converse(
            difference as int,
            p as int,
            big - 1,
            p - small,
        );
        assert(rounded_significand(difference, 1, exp, scale - 150) == big);
    } else {
        // Just below a power of two the units are half as large.
        assert(two_to(22) * p <= difference < two_to(23) * p) by (nonlinear_arith)
            requires
                big == 0x80_0000,
                1 <= small < 0x100_0000,
                p >= 0x800_0000,
                difference == big * p - small,
                two_to(22) == 0x40_0000,
                two_to(23) == 0x80_0000,
        ;
        lemma_bits_between(difference, 23 + gap);
        assert(unit_exponent(difference / 1, exp) == scale - 151);
        assert(1 * half == half);
        assert(difference == half * 0xff_ffff + (half - small)) by (nonlinear_arith)
            requires
                difference == big * p - small,
                big == 0x80_0000,
                p == 2 * half,
        ;
        lemma_fundamental_div_mod_converse(
            difference as int,
            half as int,
            0xff_ffff,
            half - small,
        );
        assert(rounded_significand(difference, 1, exp, scale - 151) == 0x100_0000);
        assert(packed(negative, 0x100_0000, scale - 151) == packed(negative, big, scale - 150));
    }
}

} // verus!
