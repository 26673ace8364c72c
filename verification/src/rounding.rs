//! Rounding to whole numbers and to numbers with few binary digits.
use vstd::arithmetic::div_mod::lemma_fundamental_div_mod_converse;
use vstd::arithmetic::power2::{
    lemma2_to64, lemma2_to64_rest, lemma_pow2_adds, lemma_pow2_pos, lemma_pow2_unfold, pow2,
};
use vstd::prelude::*;

verus! {

/// How a remainder compares with one half.
#[derive(Debug, Clone, Copy, PartialEq, Eq, Structural)]
pub enum HalfTest {
    Less,
    Equal,
    More,
}

/// How a remainder compares with one half of a whole.
pub open spec fn half_test(remainder: nat, whole: nat) -> HalfTest {
    if 2 * remainder < whole {
        HalfTest::Less
    } else if 2 * remainder == whole {
        HalfTest::Equal
    } else {
        HalfTest::More
    }
}

/// A fraction rounded to a whole number; half goes to the even neighbour.
pub open spec fn half_to_even(a: nat, b: nat) -> nat {
    match half_test(a % b, b) {
        HalfTest::Less => a / b,
        HalfTest::More => a / b + 1,
        HalfTest::Equal => if (a / b) % 2 == 0 {
            a / b
        } else {
            a / b + 1
        },
    }
}

pub proof fn lemma_pow2_grows(small: nat, large: nat)
    requires
        small <= large,
    ensures
        pow2(small) <= pow2(large),
    decreases large - small,
{
    if small < large {
        lemma_pow2_grows(small, (large - 1) as nat);
        lemma_pow2_unfold(large);
        lemma_pow2_pos((large - 1) as nat);
    }
}

/// Rounding depends on the value of a fraction alone.
pub proof fn lemma_same_fraction(a: nat, b: nat, c: nat, f: nat)
    requires
        b > 0,
        f > 0,
        a * f == c * b,
    ensures
        half_to_even(a, b) == half_to_even(c, f),
{
    let q = a / b;
    let r = a % b;
    assert(a == q * b + r) by (nonlinear_arith)
        requires
            b > 0,
            q == a / b,
            r == a % b,
    ;
    assert(r < b) by (nonlinear_arith)
        requires
            b > 0,
            r == a % b,
    ;
    let s = c - q * f;
    assert(s * b == r * f) by (nonlinear_arith)
        requires
            a == q * b + r,
            a * f == c * b,
            s == c - q * f,
    ;
    assert(0 <= s < f) by (nonlinear_arith)
        requires
            s * b == r * f,
            0 <= r < b,
            f > 0,
    ;
    lemma_fundamental_div_mod_converse(c as int, f as int, q as int, s);
    assert(2 * r < b <==> 2 * s < f) by (nonlinear_arith)
        requires
            s * b == r * f,
            b > 0,
            f > 0,
    ;
    assert(2 * r == b <==> 2 * s == f) by (nonlinear_arith)
        requires
            s * b == r * f,
            b > 0,
            f > 0,
    ;
}

/// Whether a number has so many binary digits before the point once it is divided
/// by two to the power of `exponent`, and no power less will do.
pub open spec fn is_excess(n: nat, digits: nat, exponent: nat) -> bool {
    &&& n < pow2(exponent + digits)
    &&& exponent == 0 || n >= pow2((exponent + digits - 1) as nat)
}

/// By how many binary digits a number is longer than allowed.
pub open spec fn excess_of(n: nat, digits: nat) -> nat {
    choose|exponent: nat| is_excess(n, digits, exponent)
}

/// The number with so many binary digits that is nearest to a given one; half
/// way between two it is the one whose last digit is zero.
pub open spec fn with_digits(n: nat, digits: nat) -> nat {
    half_to_even(n, pow2(excess_of(n, digits))) * pow2(excess_of(n, digits))
}

/// The excess of a number is unique.
pub proof fn law_the_excess_is_unique(n: nat, digits: nat, one: nat, two: nat)
    requires
        is_excess(n, digits, one),
        is_excess(n, digits, two),
        digits > 0,
    ensures
        one == two,
{
    if one < two {
        lemma_pow2_grows(one + digits, (two + digits - 1) as nat);
    }
    if two < one {
        lemma_pow2_grows(two + digits, (one + digits - 1) as nat);
    }
}

/// Numbers that are short enough stay as they are.
pub proof fn law_short_numbers_stay(n: nat, digits: nat)
    requires
        n < pow2(digits),
        digits > 0,
    ensures
        with_digits(n, digits) == n,
{
    lemma2_to64();
    assert(is_excess(n, digits, 0));
    law_the_excess_is_unique(n, digits, 0, excess_of(n, digits));
    lemma_fundamental_div_mod_converse(n as int, 1, n as int, 0);
}

/// Every number has an excess.
proof fn lemma_some_excess(n: nat, digits: nat, from: nat) -> (exponent: nat)
    requires
        digits > 0,
        n < pow2(from + digits),
    ensures
        is_excess(n, digits, exponent),
    decreases from,
{
    if from == 0 || n >= pow2((from + digits - 1) as nat) {
        from
    } else {
        lemma_some_excess(n, digits, (from - 1) as nat)
    }
}

pub proof fn lemma_below_own_power(n: nat)
    ensures
        n < pow2(n),
    decreases n,
{
    if n == 0 {
        lemma2_to64();
    } else {
        lemma_below_own_power((n - 1) as nat);
        lemma_pow2_unfold(n);
    }
}

/// Rounding to so many binary digits adds to a number at most one part in two to
/// the power of their count.
pub proof fn law_rounding_adds_little(n: nat, digits: nat)
    requires
        digits > 0,
    ensures
        with_digits(n, digits) * pow2(digits) <= n * (pow2(digits) + 1),
{
    lemma_below_own_power(n);
    lemma_pow2_grows(n, n + digits);
    let e = lemma_some_excess(n, digits, n);
    law_the_excess_is_unique(n, digits, e, excess_of(n, digits));
    lemma_pow2_pos(e);
    lemma_pow2_pos(digits);
    let p = pow2(e) as int;
    let d = pow2(digits) as int;
    let q = n as int / p;
    let r = n as int % p;
    let w = half_to_even(n, pow2(e)) as int;
    assert(n == q * p + r && 0 <= r < p) by (nonlinear_arith)
        requires
            p > 0,
            q == n as int / p,
            r == n as int % p,
    ;
    if e == 0 {
        law_short_numbers_stay(n, digits);
        assert(n * d <= n * (d + 1)) by (nonlinear_arith);
    } else {
        assert(2 * (w * p) <= 2 * n + p) by (nonlinear_arith)
            requires
                n == q * p + r,
                0 <= r < p,
                w == q || (w == q + 1 && 2 * r >= p),
        ;
        lemma_pow2_adds(e, (digits - 1) as nat);
        lemma_pow2_unfold(digits);
        assert(p * d <= 2 * n) by (nonlinear_arith)
            requires
                n >= p * pow2((digits - 1) as nat),
                d == 2 * pow2((digits - 1) as nat),
        ;
        assert((w * p) * d <= n * (d + 1)) by (nonlinear_arith)
            requires
                2 * (w * p) <= 2 * n + p,
                p * d <= 2 * n,
                d > 0,
        ;
    }
}

/// What is not zero is not rounded to zero.
pub proof fn law_rounding_keeps_positive(n: nat, digits: nat)
    requires
        digits > 0,
        n > 0,
    ensures
        with_digits(n, digits) > 0,
{
    lemma_below_own_power(n);
    lemma_pow2_grows(n, n + digits);
    let e = lemma_some_excess(n, digits, n);
    law_the_excess_is_unique(n, digits, e, excess_of(n, digits));
    lemma_pow2_pos(e);
    if e == 0 {
        law_short_numbers_stay(n, digits);
    } else {
        let p = pow2(e) as int;
        lemma_pow2_grows(e, (e + digits - 1) as nat);
        assert(n as int / p >= 1) by (nonlinear_arith)
            requires
                n >= p,
                p > 0,
        ;
        assert(half_to_even(n, pow2(e)) * p > 0) by (nonlinear_arith)
            requires
                half_to_even(n, pow2(e)) >= 1,
                p > 0,
        ;
    }
}

/// A size rounded to the 24 binary digits of single precision, or the largest
/// size where that is too large.
pub fn to_single_precision(size: u128) -> (r: u128)
    ensures
        r == if with_digits(size as nat, 24) > u128::MAX {
            u128::MAX as nat
        } else {
            with_digits(size as nat, 24)
        },
{
    let mut power: u128 = 1;
    let ghost mut exponent: nat = 0;
    proof {
        lemma2_to64();
    }
    while size / power >= 0x100_0000
        invariant
            0 < power == pow2(exponent),
            exponent <= 104,
            exponent == 0 || size >= pow2((exponent + 23) as nat),
            pow2(24) == 0x100_0000,
            pow2(0) == 1,
        decreases 105 - exponent,
    {
        proof {
            lemma_pow2_adds(exponent, 24);
            assert(size >= power * 0x100_0000) by (nonlinear_arith)
                requires
                    size as int / power as int >= 0x100_0000,
                    power > 0,
            ;
            lemma_pow2_unfold(exponent + 1);
            if exponent >= 104 {
                lemma_pow2_at_128();
            }
            assert(exponent < 104);
            lemma_pow2_at_128();
            lemma_pow2_grows(exponent + 1, 104);
            exponent = exponent + 1;
        }
        power = power * 2;
    }
    proof {
        lemma_pow2_adds(exponent, 24);
        assert(size < power * 0x100_0000) by (nonlinear_arith)
            requires
                (size as int / power as int) < 0x100_0000,
                power > 0,
        ;
        assert(is_excess(size as nat, 24, exponent));
        law_the_excess_is_unique(size as nat, 24, exponent, excess_of(size as nat, 24));
    }
    let quotient: u128 = size / power;
    let remainder: u128 = size % power;
    let rest: u128 = power - remainder;
    let up: bool = remainder > rest || (remainder == rest && quotient % 2 == 1);
    let rounded: u128 = if up {
        quotient + 1
    } else {
        quotient
    };
    proof {
        assert(rounded == half_to_even(size as nat, pow2(exponent)));
    }
    match rounded.checked_mul(power) {
        Some(value) => value,
        None => u128::MAX,
    }
}

proof fn lemma_pow2_at_128()
    ensures
        pow2(104) * 0x100_0000 == u128::MAX + 1,
        pow2(104) <= u128::MAX,
{
    lemma2_to64();
    lemma2_to64_rest();
    lemma_pow2_adds(64, 40);
    assert(pow2(104) == 0x1_0000_0000_0000_0000 * 0x100_0000_0000) by {
        assert(pow2(64) == 0x1_0000_0000_0000_0000);
        assert(pow2(40) == 0x100_0000_0000);
    }
}

/// A fraction is rounded to the whole number nearest to it: none is nearer, and of
/// two that are equally near it is the even one.
pub proof fn law_fractions_are_rounded_to_the_nearest(a: nat, b: nat)
    requires
        b > 0,
    ensures
        2 * (half_to_even(a, b) * b) <= 2 * a + b,
        2 * a <= 2 * (half_to_even(a, b) * b) + b,
        2 * (half_to_even(a, b) * b) == 2 * a + b ==> half_to_even(a, b) % 2 == 0,
        2 * a == 2 * (half_to_even(a, b) * b) + b ==> half_to_even(a, b) % 2 == 0,
{
    let q = a as int / b as int;
    let r = a as int % b as int;
    let w = half_to_even(a, b) as int;
    let whole = b as int;
    assert(a == q * whole + r && 0 <= r < whole) by (nonlinear_arith)
        requires
            whole > 0,
            whole == b,
            q == a as int / whole,
            r == a as int % whole,
    ;
    if w == q {
        assert(w * whole == a - r);
    } else {
        assert(w == q + 1);
        assert(w * whole == a - r + whole) by (nonlinear_arith)
            requires
                w == q + 1,
                a == q * whole + r,
        ;
    }
}

/// Rounding to so many binary digits takes from a number at most one part in two to
/// the power of their count.
pub proof fn law_rounding_takes_little(n: nat, digits: nat)
    requires
        digits > 0,
    ensures
        n * (pow2(digits) - 1) <= with_digits(n, digits) * pow2(digits),
{
    lemma_below_own_power(n);
    lemma_pow2_grows(n, n + digits);
    let e = lemma_some_excess(n, digits, n);
    law_the_excess_is_unique(n, digits, e, excess_of(n, digits));
    lemma_pow2_pos(e);
    lemma_pow2_pos(digits);
    let p = pow2(e) as int;
    let d = pow2(digits) as int;
    let w = half_to_even(n, pow2(e)) as int;
    law_fractions_are_rounded_to_the_nearest(n, pow2(e));
    if e == 0 {
        law_short_numbers_stay(n, digits);
        assert(n * (d - 1) <= n * d) by (nonlinear_arith);
    } else {
        lemma_pow2_adds(e, (digits - 1) as nat);
        lemma_pow2_unfold(digits);
        assert(p * d <= 2 * n) by (nonlinear_arith)
            requires
                n >= p * pow2((digits - 1) as nat),
                d == 2 * pow2((digits - 1) as nat),
        ;
        assert(n * (d - 1) <= (w * p) * d) by (nonlinear_arith)
            requires
                2 * n <= 2 * (w * p) + p,
                p * d <= 2 * n,
                d > 0,
        ;
    }
}

} // verus!
