//! Sizes as people type them.
use crate::decimal::{
    are_digits, lemma_number_splits, lemma_ten_to, lemma_ten_to_grows, multiply, number_of, ten_to,
    test_half, whole_part,
};
use crate::rounding::{
    half_to_even, law_fractions_are_rounded_to_the_nearest, lemma_below_own_power,
    lemma_pow2_grows, lemma_same_fraction, HalfTest,
};
use crate::text::{
    ascii_lower, chars_of, is_text, is_white, law_white_space_around_a_text_does_not_matter,
    lower_ascii, part_of, trim, trimmed,
};
use vstd::arithmetic::div_mod::{lemma_div_denominator, lemma_fundamental_div_mod_converse};
use vstd::arithmetic::power2::{
    lemma2_to64, lemma2_to64_rest, lemma_pow2_adds, lemma_pow2_pos, lemma_pow2_unfold, pow2,
};
use vstd::prelude::*;

verus! {

/// Whether a character can stand in a number.
pub open spec fn is_number_char(ch: char) -> bool {
    '0' <= ch <= '9' || ch == '.'
}

/// How many characters in front can stand in a number.
pub open spec fn number_length(text: Seq<char>) -> int
    decreases text.len(),
{
    if text.len() > 0 && is_number_char(text[0]) {
        1 + number_length(text.skip(1))
    } else {
        0
    }
}

/// The digits of a number, the last of them first.
pub open spec fn digits_from_end(number: Seq<char>) -> Seq<u8>
    decreases number.len(),
{
    if number.len() == 0 {
        Seq::empty()
    } else if number.last() == '.' {
        digits_from_end(number.drop_last())
    } else {
        seq![(number.last() as u32 - '0' as u32) as u8] + digits_from_end(number.drop_last())
    }
}

/// How many points a number has.
pub open spec fn count_points(number: Seq<char>) -> int
    decreases number.len(),
{
    if number.len() == 0 {
        0
    } else {
        count_points(number.drop_last()) + if number.last() == '.' {
            1int
        } else {
            0
        }
    }
}

/// How many digits stand behind the point, if there is one.
pub open spec fn places_behind_point(number: Seq<char>) -> Option<nat>
    decreases number.len(),
{
    if number.len() == 0 {
        None
    } else if number.last() == '.' {
        Some(0)
    } else {
        match places_behind_point(number.drop_last()) {
            Some(places) => Some(places + 1),
            None => None,
        }
    }
}

/// Whether the characters make up a number: digits, with at most one point.
pub open spec fn is_number(number: Seq<char>) -> bool {
    digits_from_end(number).len() > 0 && count_points(number) <= 1
}

/// The number is `numerator_of` over `denominator_of`.
pub open spec fn numerator_of(number: Seq<char>) -> nat {
    number_of(digits_from_end(number))
}

/// The number is `numerator_of` over `denominator_of`.
pub open spec fn denominator_of(number: Seq<char>) -> nat {
    match places_behind_point(number) {
        Some(places) => ten_to(places),
        None => 1,
    }
}

/// How far the smallest positive number of double precision lies below one, in
/// powers of two.
pub open spec fn smallest_exponent() -> nat {
    1074
}

/// Whether numbers of double precision near a fraction lie apart by two to the
/// power of `exponent` times the smallest of them: 53 binary digits before the
/// point then, or the smallest distance there is.
pub open spec fn is_exponent_of(n: nat, d: nat, exponent: nat) -> bool {
    &&& n * pow2(smallest_exponent()) < d * pow2(exponent + 53)
    &&& exponent == 0 || n * pow2(smallest_exponent()) >= d * pow2((exponent + 52) as nat)
}

/// The exponent of the number of double precision that is nearest to a fraction.
pub open spec fn exponent_of(n: nat, d: nat) -> nat {
    choose|exponent: nat| is_exponent_of(n, d, exponent)
}

/// The significand of the number of double precision that is nearest to a
/// fraction.
pub open spec fn significand_of(n: nat, d: nat) -> nat {
    half_to_even(n * pow2(smallest_exponent()), d * pow2(exponent_of(n, d)))
}

/// Whether a fraction is too large for double precision: it is at least half way
/// from the largest number to the next power of two.
pub open spec fn is_too_large(n: nat, d: nat) -> bool {
    n >= d * (pow2(1024) - pow2(970))
}

/// The powers of two that units stand for.
pub open spec fn unit_shift(unit: Seq<char>) -> Option<nat> {
    if unit == ""@ || unit == "b"@ {
        Some(0)
    } else if unit == "k"@ || unit == "kb"@ || unit == "kib"@ {
        Some(10)
    } else if unit == "m"@ || unit == "mb"@ || unit == "mib"@ {
        Some(20)
    } else if unit == "g"@ || unit == "gb"@ || unit == "gib"@ {
        Some(30)
    } else if unit == "t"@ || unit == "tb"@ || unit == "tib"@ {
        Some(40)
    } else {
        None
    }
}

/// A number of double precision, times a power of two, rounded to a whole
/// number; half goes up.
pub open spec fn whole_size(significand: nat, exponent: nat, shift: nat) -> nat {
    let a = significand * pow2(exponent + shift);
    let b = pow2(smallest_exponent());
    (2 * a + b) / (2 * b)
}

/// The largest size.
pub open spec fn capped(size: nat) -> u128 {
    if size > u128::MAX {
        u128::MAX
    } else {
        size as u128
    }
}

/// The unit behind a number: without white space around it, in lower case.
pub open spec fn unit_of(suffix: Seq<char>) -> Seq<char> {
    trimmed(suffix).map_values(|ch: char| ascii_lower(ch))
}

/// The size that a text stands for: a number, taken in double precision, and a
/// unit. Nothing stands for zero.
pub open spec fn size_of_text(input: Seq<char>) -> Option<u128> {
    let text = trimmed(input);
    let number = text.take(number_length(text));
    let unit = unit_of(text.skip(number_length(text)));
    let n = numerator_of(number);
    let d = denominator_of(number);
    if text.len() == 0 {
        Some(0)
    } else if !is_number(number) || is_too_large(n, d) || unit_shift(unit) is None {
        None
    } else {
        Some(capped(whole_size(significand_of(n, d), exponent_of(n, d), unit_shift(unit)->0)))
    }
}

/// A fraction has only one exponent.
pub proof fn law_the_exponent_is_unique(n: nat, d: nat, one: nat, two: nat)
    requires
        is_exponent_of(n, d, one),
        is_exponent_of(n, d, two),
    ensures
        one == two,
{
    lemma_exponent_is_least(n, d, one, two);
    lemma_exponent_is_least(n, d, two, one);
}

proof fn lemma_exponent_is_least(n: nat, d: nat, one: nat, two: nat)
    requires
        is_exponent_of(n, d, one),
        is_exponent_of(n, d, two),
    ensures
        one >= two,
{
    if one < two {
        lemma_pow2_grows(one + 53, two + 52);
        assert(d * pow2(one + 53) <= d * pow2(two + 52)) by (nonlinear_arith)
            requires
                pow2(one + 53) <= pow2(two + 52),
        ;
    }
}

/// The digits of a number that has been scaled by powers of two stand for the
/// number that was given, `n` over `d`.
spec fn is_scaled(n: nat, d: nat, digits: Seq<u8>, places: nat, exponent: nat) -> bool {
    n * pow2(smallest_exponent()) * ten_to(places) == number_of(digits) * pow2(exponent) * d
}

proof fn lemma_halved(
    n: nat,
    d: nat,
    digits: Seq<u8>,
    halved: Seq<u8>,
    places: nat,
    exponent: nat,
)
    requires
        is_scaled(n, d, digits, places, exponent),
        number_of(halved) == number_of(digits) * 5,
    ensures
        is_scaled(n, d, halved, places + 1, exponent + 1),
{
    lemma_ten_to(places);
    lemma_pow2_unfold(exponent + 1);
    let (x, a, e) = (
        (n * pow2(smallest_exponent())) as int,
        number_of(digits) as int,
        pow2(exponent) as int,
    );
    assert(x * ten_to(places + 1) == number_of(halved) * pow2(exponent + 1) * d)
        by (nonlinear_arith)
        requires
            x * ten_to(places) == a * e * d,
            ten_to(places + 1) == 10 * ten_to(places),
            pow2(exponent + 1) == 2 * e,
            number_of(halved) == a * 5,
    ;
}

proof fn lemma_doubled(
    n: nat,
    d: nat,
    digits: Seq<u8>,
    doubled: Seq<u8>,
    places: nat,
    exponent: nat,
)
    requires
        exponent > 0,
        is_scaled(n, d, digits, places, exponent),
        number_of(doubled) == number_of(digits) * 2,
    ensures
        is_scaled(n, d, doubled, places, (exponent - 1) as nat),
{
    lemma_pow2_unfold(exponent);
    let (a, e) = (number_of(digits) as int, pow2((exponent - 1) as nat) as int);
    assert(a * pow2(exponent) * d == number_of(doubled) * e * d) by (nonlinear_arith)
        requires
            pow2(exponent) == 2 * e,
            number_of(doubled) == a * 2,
    ;
}

/// What stands before the point decides how a scaled number compares with a
/// power of two.
proof fn lemma_whole_part_decides(
    n: nat,
    d: nat,
    digits: Seq<u8>,
    places: nat,
    exponent: nat,
    bits: nat,
)
    requires
        d > 0,
        is_scaled(n, d, digits, places, exponent),
    ensures
        n * pow2(smallest_exponent()) < d * pow2(exponent + bits) <==> number_of(digits) < ten_to(
            places,
        ) * pow2(bits),
{
    lemma_ten_to(places);
    lemma_pow2_adds(exponent, bits);
    lemma_pow2_pos(exponent);
    let x = (n * pow2(smallest_exponent())) as int;
    let t = ten_to(places) as int;
    let a = number_of(digits) as int;
    let e = pow2(exponent) as int;
    let b = pow2(bits) as int;
    assert(x < d * (e * b) <==> a < t * b) by (nonlinear_arith)
        requires
            x * t == a * e * d,
            t > 0,
            e > 0,
            d > 0,
    ;
}

/// The whole part of a number and what stands behind the point.
proof fn lemma_parts(digits: Seq<u8>, places: nat) -> (parts: (nat, nat))
    requires
        are_digits(digits),
    ensures
        parts.0 == if places <= digits.len() {
            number_of(digits.skip(places as int))
        } else {
            0
        },
        parts.1 == if places <= digits.len() {
            number_of(digits.take(places as int))
        } else {
            number_of(digits)
        },
        number_of(digits) == parts.0 * ten_to(places) + parts.1,
        parts.1 < ten_to(places),
        number_of(digits) / ten_to(places) == parts.0,
        number_of(digits) % ten_to(places) == parts.1,
{
    let whole = if places <= digits.len() {
        number_of(digits.skip(places as int))
    } else {
        0
    };
    let rest = if places <= digits.len() {
        number_of(digits.take(places as int))
    } else {
        number_of(digits)
    };
    lemma_ten_to(places);
    if places <= digits.len() {
        lemma_number_splits(digits, places as int);
        assert(whole * ten_to(places) == ten_to(places) * whole) by (nonlinear_arith);
    } else {
        lemma_number_splits(digits, digits.len() as int);
        assert(digits.take(digits.len() as int) =~= digits);
        lemma_ten_to_grows(digits.len(), places);
        assert(whole * ten_to(places) == 0) by (nonlinear_arith)
            requires
                whole == 0,
        ;
    }
    lemma_fundamental_div_mod_converse(
        number_of(digits) as int,
        ten_to(places) as int,
        whole as int,
        rest as int,
    );
    (whole, rest)
}

/// Compares a whole part with a number of digits before the point.
proof fn lemma_whole_below(whole: nat, rest: nat, tens: nat, bound: nat)
    requires
        rest < tens,
    ensures
        whole * tens + rest < tens * bound <==> whole < bound,
{
    assert(whole * tens + rest < tens * bound <==> whole < bound) by (nonlinear_arith)
        requires
            0 <= rest < tens,
            whole >= 0,
            bound >= 0,
    ;
}

/// The most significant digits that double precision has.
const SIGNIFICAND_LIMIT: u64 = 0x20_0000_0000_0000;

const SIGNIFICAND_HALF: u64 = 0x10_0000_0000_0000;

proof fn lemma_limits()
    ensures
        pow2(53) == SIGNIFICAND_LIMIT,
        pow2(52) == SIGNIFICAND_HALF,
{
    lemma2_to64_rest();
}

/// The number of double precision that is nearest to digits with a point, as
/// significand and exponent; nothing where it is too large.
fn nearest_double(digits: Vec<u8>, places: u128) -> (r: Option<(u64, u64)>)
    requires
        are_digits(digits@),
        places <= usize::MAX,
    ensures
        ({
            let n = number_of(digits@);
            let d = ten_to(places as nat);
            match r {
                Some((significand, exponent)) => {
                    &&& !is_too_large(n, d)
                    &&& exponent == exponent_of(n, d)
                    &&& significand == significand_of(n, d)
                    &&& significand <= SIGNIFICAND_LIMIT
                    &&& exponent <= 2045
                },
                None => is_too_large(n, d),
            }
        }),
{
    let ghost n = number_of(digits@);
    let ghost d = ten_to(places as nat);
    let mut scaled: Vec<u8> = digits;
    let mut point: u128 = places;
    let mut exponent: u64 = 1074;
    proof {
        lemma_ten_to(places as nat);
        lemma_limits();
        assert(n * pow2(1074) * d == number_of(scaled@) * pow2(1074) * d);
    }
    while whole_part(&scaled, point, SIGNIFICAND_LIMIT) >= SIGNIFICAND_LIMIT
        invariant
            n == number_of(digits@),
            d == ten_to(places as nat),
            are_digits(scaled@),
            d > 0,
            1074 <= exponent <= 2046,
            point + 2046 - exponent <= usize::MAX + 972,
            is_scaled(n, d, scaled@, point as nat, exponent as nat),
            pow2(53) == SIGNIFICAND_LIMIT,
            pow2(52) == SIGNIFICAND_HALF,
            exponent > 1074 ==> number_of(scaled@) >= ten_to(point as nat) * pow2(52),
        decreases 2047 - exponent,
    {
        proof {
            let (whole, rest) = lemma_parts(scaled@, point as nat);
            lemma_whole_below(whole, rest, ten_to(point as nat), pow2(53));
            lemma_whole_part_decides(n, d, scaled@, point as nat, exponent as nat, 53);
        }
        if exponent == 2046 {
            proof {
                lemma_large_is_too_large(n, d, 2046 + 53);
            }
            return None;
        }
        let ghost before = scaled@;
        multiply(&mut scaled, 5);
        proof {
            lemma_halved(n, d, before, scaled@, point as nat, exponent as nat);
            lemma_ten_to(point as nat);
            lemma_pow2_unfold(53);
            assert(number_of(scaled@) >= ten_to(point as nat + 1) * pow2(52)) by (nonlinear_arith)
                requires
                    number_of(scaled@) == number_of(before) * 5,
                    number_of(before) >= ten_to(point as nat) * pow2(53),
                    pow2(53) == 2 * pow2(52),
                    ten_to(point as nat + 1) == 10 * ten_to(point as nat),
            ;
        }
        point = point + 1;
        exponent = exponent + 1;
    }
    proof {
        let (whole, rest) = lemma_parts(scaled@, point as nat);
        lemma_whole_below(whole, rest, ten_to(point as nat), pow2(53));
    }
    while exponent > 0 && whole_part(&scaled, point, SIGNIFICAND_LIMIT) < SIGNIFICAND_HALF
        invariant
            are_digits(scaled@),
            d > 0,
            exponent <= 2046,
            is_scaled(n, d, scaled@, point as nat, exponent as nat),
            pow2(53) == SIGNIFICAND_LIMIT,
            pow2(52) == SIGNIFICAND_HALF,
            number_of(scaled@) < ten_to(point as nat) * pow2(53),
            exponent > 1074 ==> number_of(scaled@) >= ten_to(point as nat) * pow2(52),
        decreases exponent,
    {
        let ghost before = scaled@;
        proof {
            let (whole, rest) = lemma_parts(scaled@, point as nat);
            lemma_whole_below(whole, rest, ten_to(point as nat), pow2(52));
        }
        multiply(&mut scaled, 2);
        proof {
            lemma_doubled(n, d, before, scaled@, point as nat, exponent as nat);
            lemma_pow2_unfold(53);
            assert(number_of(scaled@) < ten_to(point as nat) * pow2(53)) by (nonlinear_arith)
                requires
                    number_of(scaled@) == number_of(before) * 2,
                    number_of(before) < ten_to(point as nat) * pow2(52),
                    pow2(53) == 2 * pow2(52),
            ;
        }
        exponent = exponent - 1;
    }
    let whole: u64 = whole_part(&scaled, point, SIGNIFICAND_LIMIT);
    let ghost tens = ten_to(point as nat);
    let ghost a = number_of(scaled@);
    proof {
        let (q, rest) = lemma_parts(scaled@, point as nat);
        lemma_ten_to(point as nat);
        lemma_whole_below(q, rest, tens, pow2(53));
        lemma_whole_below(q, rest, tens, pow2(52));
        assert(whole == q);
        lemma_whole_part_decides(n, d, scaled@, point as nat, exponent as nat, 53);
        lemma_whole_part_decides(n, d, scaled@, point as nat, exponent as nat, 52);
        assert(is_exponent_of(n, d, exponent as nat));
        law_the_exponent_is_unique(n, d, exponent as nat, exponent_of(n, d));
        lemma_pow2_pos(exponent as nat);
        assert(d * pow2(exponent as nat) > 0) by (nonlinear_arith)
            requires
                d > 0,
                pow2(exponent as nat) > 0,
        ;
        assert((n * pow2(smallest_exponent())) * tens == a * (d * pow2(exponent as nat)))
            by (nonlinear_arith)
            requires
                (n * pow2(smallest_exponent())) * tens == a * pow2(exponent as nat) * d,
        ;
        lemma_same_fraction(
            n * pow2(smallest_exponent()),
            d * pow2(exponent as nat),
            a,
            tens,
        );
        assert(significand_of(n, d) == half_to_even(a, tens));
    }
    if exponent >= 2046 {
        proof {
            lemma_large_is_too_large(n, d, exponent as nat + 52);
        }
        return None;
    }
    let up: bool = match test_half(&scaled, point) {
        HalfTest::Less => false,
        HalfTest::More => true,
        HalfTest::Equal => whole % 2 == 1,
    };
    let significand: u64 = if up {
        whole + 1
    } else {
        whole
    };
    proof {
        assert(significand == half_to_even(a, tens));
        lemma_too_large(n, d, scaled@, point as nat, exponent as nat);
    }
    if exponent == 2045 && significand == SIGNIFICAND_LIMIT {
        return None;
    }
    Some((significand, exponent))
}

proof fn lemma_large_is_too_large(n: nat, d: nat, bits: nat)
    requires
        n * pow2(smallest_exponent()) >= d * pow2(bits),
        bits >= 2098,
    ensures
        is_too_large(n, d),
{
    lemma_pow2_grows(2098, bits);
    lemma_pow2_adds(1024, 1074);
    lemma_pow2_pos(1074);
    lemma_pow2_pos(970);
    assert(n >= d * (pow2(1024) - pow2(970))) by (nonlinear_arith)
        requires
            n * pow2(1074) >= d * pow2(bits),
            pow2(bits) >= pow2(2098),
            pow2(2098) == pow2(1024) * pow2(1074),
            pow2(1074) > 0,
            pow2(970) > 0,
    ;
}

/// A number below the last power of two is too large only if it is rounded up to
/// it.
proof fn lemma_too_large(n: nat, d: nat, digits: Seq<u8>, places: nat, exponent: nat)
    requires
        d > 0,
        are_digits(digits),
        exponent <= 2045,
        is_scaled(n, d, digits, places, exponent),
        number_of(digits) < ten_to(places) * pow2(53),
    ensures
        is_too_large(n, d) <==> exponent == 2045 && half_to_even(
            number_of(digits),
            ten_to(places),
        ) == pow2(53),
        half_to_even(number_of(digits), ten_to(places)) <= pow2(53),
{
    let a = number_of(digits) as int;
    let t = ten_to(places) as int;
    let k = pow2(970) as int;
    let (q, r) = lemma_parts(digits, places);
    lemma_ten_to(places);
    lemma_whole_below(q, r, ten_to(places), pow2(53));
    lemma_limits();
    lemma_pow2_pos(970);
    lemma_pow2_pos(1074);
    lemma_pow2_adds(970, 54);
    lemma_pow2_unfold(54);
    let limit = pow2(54) - 1;
    assert(pow2(1024) - pow2(970) == k * limit) by (nonlinear_arith)
        requires
            pow2(1024) == k * pow2(54),
            k == pow2(970),
            limit == pow2(54) - 1,
    ;
    let small = pow2(1074) as int;
    if exponent == 2045 {
        lemma_pow2_adds(1074, 971);
        lemma_pow2_unfold(971);
        assert(n * t == a * (2 * k) * d) by (nonlinear_arith)
            requires
                n * small * t == a * pow2(2045) * d,
                pow2(2045) == small * (2 * k),
                small > 0,
        ;
        assert(n >= d * (k * limit) <==> 2 * a >= limit * t) by (nonlinear_arith)
            requires
                n * t == a * (2 * k) * d,
                t > 0,
                k > 0,
                d > 0,
        ;
        assert(2 * a >= limit * t <==> 2 * (q - (pow2(53) - 1)) * t + 2 * r >= t)
            by (nonlinear_arith)
            requires
                a == q * t + r,
                limit == 2 * pow2(53) - 1,
        ;
        if q < pow2(53) - 1 {
            assert(2 * (q - (pow2(53) - 1)) * t + 2 * r < t) by (nonlinear_arith)
                requires
                    q - (pow2(53) - 1) <= -1,
                    r < t,
            ;
        } else {
            assert(2 * (q - (pow2(53) - 1)) * t == 0) by (nonlinear_arith)
                requires
                    q - (pow2(53) - 1) == 0,
            ;
        }
    } else {
        lemma_pow2_grows(exponent + 53, 2097);
        lemma_pow2_adds(1074, 1023);
        lemma_pow2_unfold(1024);
        lemma_pow2_grows(970, 1022);
        lemma_pow2_unfold(1023);
        lemma_pow2_pos(1022);
        lemma_whole_part_decides(n, d, digits, places, exponent, 53);
        assert(n < d * pow2(1023)) by (nonlinear_arith)
            requires
                n * small < d * pow2(exponent + 53),
                pow2(exponent + 53) <= pow2(2097),
                pow2(2097) == small * pow2(1023),
                small > 0,
                d > 0,
        ;
        assert(d * pow2(1023) <= d * (pow2(1024) - pow2(970))) by (nonlinear_arith)
            requires
                pow2(1024) - pow2(970) >= pow2(1023),
        ;
    }
}

/// A number of double precision, times a power of two, as a whole size.
fn whole_size_of(significand: u64, exponent: u64, shift: u64) -> (r: u128)
    requires
        exponent <= 2045,
        shift <= 40,
    ensures
        r == capped(whole_size(significand as nat, exponent as nat, shift as nat)),
{
    let raised: u64 = exponent + shift;
    let ghost m = significand as nat;
    let ghost total = raised as nat;
    let ghost b = pow2(1074) as int;
    proof {
        lemma_pow2_pos(1074);
        lemma_pow2_pos(total);
    }
    if raised >= 1074 {
        let mut size: u128 = significand as u128;
        let mut doubled: u64 = 0;
        let count: u64 = raised - 1074;
        proof {
            lemma2_to64();
            lemma_pow2_adds(count as nat, 1074);
            assert(significand * pow2(0) == significand) by (nonlinear_arith)
                requires
                    pow2(0) == 1,
            ;
            let exact = (m * pow2(count as nat)) as int;
            assert(m * pow2(total) == exact * b) by (nonlinear_arith)
                requires
                    pow2(total) == pow2(count as nat) * b,
                    exact == m * pow2(count as nat),
            ;
            assert((2 * (exact * b) + b) / (2 * b) == exact) by (nonlinear_arith)
                requires
                    b > 0,
            ;
            assert(whole_size(m, exponent as nat, shift as nat) == exact);
        }
        while doubled < count
            invariant
                doubled <= count,
                size == significand * pow2(doubled as nat),
                m == significand,
                whole_size(m, exponent as nat, shift as nat) == m * pow2(count as nat),
            decreases count - doubled,
        {
            if size > u128::MAX / 2 {
                proof {
                    lemma_pow2_grows(doubled as nat + 1, count as nat);
                    lemma_pow2_unfold(doubled as nat + 1);
                    assert(m * pow2(count as nat) > u128::MAX) by (nonlinear_arith)
                        requires
                            m * pow2(doubled as nat) > u128::MAX / 2,
                            pow2(count as nat) >= 2 * pow2(doubled as nat),
                    ;
                }
                return u128::MAX;
            }
            proof {
                lemma_pow2_unfold(doubled as nat + 1);
                assert(significand * pow2(doubled as nat + 1) == 2 * size) by (nonlinear_arith)
                    requires
                        size == significand * pow2(doubled as nat),
                        pow2(doubled as nat + 1) == 2 * pow2(doubled as nat),
                ;
            }
            size = size * 2;
            doubled = doubled + 1;
        }
        size
    } else {
        let count: u64 = 1074 - raised;
        let mut half: u64 = significand;
        let mut halved: u64 = 0;
        proof {
            lemma2_to64();
            assert(m as int / pow2(0) as int == m);
        }
        while halved < count - 1
            invariant
                1 <= count <= 1074,
                halved <= count - 1,
                m == significand,
                half == m as int / pow2(halved as nat) as int,
            decreases count - halved,
        {
            proof {
                lemma_pow2_unfold(halved as nat + 1);
                lemma_pow2_pos(halved as nat);
                lemma_div_denominator(m as int, pow2(halved as nat) as int, 2);
                assert(pow2(halved as nat) as int * 2 == pow2(halved as nat + 1) as int);
            }
            half = half / 2;
            halved = halved + 1;
        }
        proof {
            let less = (count - 1) as nat;
            let p = pow2(less) as int;
            lemma_pow2_pos(less);
            lemma_pow2_unfold(count as nat);
            lemma_pow2_adds(total, count as nat);
            let e = pow2(total) as int;
            assert(b == e * (2 * p)) by (nonlinear_arith)
                requires
                    b == e * pow2(count as nat),
                    pow2(count as nat) == 2 * p,
            ;
            lemma_round_half_up(m as int, p, e);
            assert(whole_size(m, exponent as nat, shift as nat) == (half + 1) / 2);
            assert(half <= significand) by (nonlinear_arith)
                requires
                    half == m as int / p,
                    p >= 1,
                    m == significand,
            ;
        }
        ((half as u128) + 1) / 2
    }
}

/// Rounding a number over a power of two needs one digit more than the whole
/// part.
proof fn lemma_round_half_up(m: int, p: int, e: int)
    requires
        m >= 0,
        p > 0,
        e > 0,
    ensures
        (2 * (m * e) + e * (2 * p)) / (2 * (e * (2 * p))) == (m / p + 1) / 2,
{
    let h = m / p;
    let r = m % p;
    assert(m == h * p + r && 0 <= r < p) by (nonlinear_arith)
        requires
            p > 0,
            h == m / p,
            r == m % p,
    ;
    let k = (h + 1) / 2;
    let parity = (h + 1) % 2;
    assert(h + 1 == 2 * k + parity);
    let top = 2 * (m * e) + e * (2 * p);
    let bottom = 2 * (e * (2 * p));
    let rest = e * (2 * (parity * p + r));
    assert(top == k * bottom + rest) by (nonlinear_arith)
        requires
            top == 2 * (m * e) + e * (2 * p),
            bottom == 2 * (e * (2 * p)),
            rest == e * (2 * (parity * p + r)),
            m == h * p + r,
            h + 1 == 2 * k + parity,
    ;
    assert(0 <= rest < bottom) by (nonlinear_arith)
        requires
            rest == e * (2 * (parity * p + r)),
            bottom == 2 * (e * (2 * p)),
            0 <= parity <= 1,
            0 <= r < p,
            e > 0,
            p > 0,
    ;
    lemma_fundamental_div_mod_converse(top, bottom, k, rest);
}

fn unit_shift_of(unit: &[char]) -> (r: Option<u64>)
    ensures
        match r {
            Some(shift) => unit_shift(unit@) == Some(shift as nat) && shift <= 40,
            None => unit_shift(unit@) is None,
        },
{
    if is_text(unit, "") || is_text(unit, "b") {
        Some(0)
    } else if is_text(unit, "k") || is_text(unit, "kb") || is_text(unit, "kib") {
        Some(10)
    } else if is_text(unit, "m") || is_text(unit, "mb") || is_text(unit, "mib") {
        Some(20)
    } else if is_text(unit, "g") || is_text(unit, "gb") || is_text(unit, "gib") {
        Some(30)
    } else if is_text(unit, "t") || is_text(unit, "tb") || is_text(unit, "tib") {
        Some(40)
    } else {
        None
    }
}

proof fn lemma_number_length(text: Seq<char>, end: int)
    requires
        0 <= end <= text.len(),
        forall|k: int| 0 <= k < end ==> is_number_char(#[trigger] text[k]),
        end < text.len() ==> !is_number_char(text[end]),
    ensures
        number_length(text) == end,
    decreases text.len(),
{
    if end > 0 {
        let rest = text.skip(1);
        assert(is_number_char(text[0]));
        assert forall|k: int| 0 <= k < end - 1 implies is_number_char(#[trigger] rest[k]) by {
            assert(rest[k] == text[k + 1]);
        }
        lemma_number_length(rest, end - 1);
    }
}

/// The digits of a number, the last first, how many of them stand behind the
/// point, and whether the number has one point at most.
fn read_number(number: &[char]) -> (r: (Vec<u8>, u128, bool))
    requires
        forall|k: int| 0 <= k < number@.len() ==> is_number_char(#[trigger] number@[k]),
    ensures
        r.0@ == digits_from_end(number@),
        are_digits(r.0@),
        r.2 == (count_points(number@) <= 1),
        r.1 == match places_behind_point(number@) {
            Some(places) => places,
            None => 0,
        },
        r.1 <= usize::MAX,
{
    let mut digits: Vec<u8> = Vec::new();
    let mut points: u64 = 0;
    let mut places: u128 = 0;
    let mut i: usize = number.len();
    let ghost all = number@;
    proof {
        assert(all.take(all.len() as int) =~= all);
        assert(digits@ + digits_from_end(all) =~= digits_from_end(all));
    }
    while i > 0
        invariant
            all == number@,
            i <= all.len(),
            forall|k: int| 0 <= k < all.len() ==> is_number_char(#[trigger] all[k]),
            are_digits(digits@),
            digits@ + digits_from_end(all.take(i as int)) == digits_from_end(all),
            points <= 2,
            points < 2 ==> count_points(all) == points + count_points(all.take(i as int)),
            points == 2 ==> count_points(all) >= 2,
            points == 0 ==> places_behind_point(all) == match places_behind_point(
                all.take(i as int),
            ) {
                Some(more) => Some((all.len() - i + more) as nat),
                None => None,
            },
            points > 0 ==> places_behind_point(all) == Some(places as nat),
            places <= all.len(),
            places <= usize::MAX,
            points == 0 ==> places == 0,
        decreases i,
    {
        let ghost before = digits@;
        let ghost rest = all.take(i as int);
        let ch: char = number[i - 1];
        proof {
            assert(rest.last() == ch);
            assert(rest.drop_last() =~= all.take(i - 1));
            assert(is_number_char(all[i - 1]));
            lemma_points_not_negative(all.take(i - 1));
        }
        if ch == '.' {
            if points == 0 {
                places = (number.len() - i) as u128;
            }
            if points < 2 {
                points = points + 1;
            }
        } else {
            let digit: u8 = (ch as u32 - '0' as u32) as u8;
            digits.push(digit);
            proof {
                assert(digits@ =~= before + seq![digit]);
                assert((before + seq![digit]) + digits_from_end(all.take(i - 1)) =~= before + (
                seq![digit] + digits_from_end(all.take(i - 1))));
            }
        }
        i = i - 1;
    }
    proof {
        assert(all.take(0) =~= Seq::empty());
        assert(digits@ + digits_from_end(all.take(0)) =~= digits@);
    }
    (digits, places, points < 2)
}

proof fn lemma_points_not_negative(number: Seq<char>)
    ensures
        count_points(number) >= 0,
    decreases number.len(),
{
    if number.len() > 0 {
        lemma_points_not_negative(number.drop_last());
    }
}

/// The size that a text stands for: a number, with or without a point, and a
/// unit, which is a power of 1024. Nothing stands for zero; where the text is no
/// size, nothing is returned.
pub fn parse_size_input_bytes(input: &str) -> (r: Option<u128>)
    ensures
        r == size_of_text(input@),
{
    let chars: Vec<char> = chars_of(input);
    let text: Vec<char> = trim(chars.as_slice());
    if text.len() == 0 {
        return Some(0);
    }
    let ghost all = text@;
    let mut split: usize = 0;
    while split < text.len() && (('0' <= text[split] && text[split] <= '9') || text[split] == '.')
        invariant
            split <= text@.len(),
            all == text@,
            forall|k: int| 0 <= k < split ==> is_number_char(#[trigger] all[k]),
        decreases text@.len() - split,
    {
        split = split + 1;
    }
    proof {
        lemma_number_length(all, split as int);
    }
    let number: Vec<char> = part_of(text.as_slice(), 0, split);
    let suffix: Vec<char> = part_of(text.as_slice(), split, text.len());
    proof {
        assert(number@ =~= all.take(split as int));
        assert(suffix@ =~= all.skip(split as int));
        assert forall|k: int| 0 <= k < number@.len() implies is_number_char(
            #[trigger] number@[k],
        ) by {
            assert(number@[k] == all[k]);
        }
    }
    let (digits, places, one_point): (Vec<u8>, u128, bool) = read_number(number.as_slice());
    if digits.len() == 0 || !one_point {
        return None;
    }
    proof {
        lemma_ten_to(0);
        assert(denominator_of(number@) == ten_to(places as nat));
    }
    let unit: Vec<char> = lower_ascii(trim(suffix.as_slice()).as_slice());
    match nearest_double(digits, places) {
        None => None,
        Some((significand, exponent)) => match unit_shift_of(unit.as_slice()) {
            None => None,
            Some(shift) => Some(whole_size_of(significand, exponent, shift)),
        },
    }
}

/// A whole number of units that double precision holds exactly, as it does up to
/// 2^53, is that many times the unit.
pub proof fn law_whole_numbers_are_exact(count: nat, shift: nat)
    requires
        count <= pow2(53),
    ensures
        whole_size(significand_of(count, 1), exponent_of(count, 1), shift) == count * pow2(shift),
        !is_too_large(count, 1),
{
    if count < pow2(53) {
        let e = lemma_some_exponent(count, 1074);
        lemma_pow2_adds((1074 - e) as nat, e);
        let m = (count * pow2((1074 - e) as nat)) as int;
        assert(count * pow2(1074) == m * pow2(e)) by (nonlinear_arith)
            requires
                pow2(1074) == pow2((1074 - e) as nat) * pow2(e),
                m == count * pow2((1074 - e) as nat),
        ;
        lemma_exact(count, e, m, shift);
    } else {
        lemma_pow2_adds(53, 1074);
        lemma_pow2_adds(52, 1075);
        lemma_pow2_adds(53, 1075);
        lemma_pow2_unfold(1128);
        lemma_pow2_pos(1127);
        assert(is_exponent_of(count, 1, 1075));
        lemma_exact(count, 1075, pow2(52) as int, shift);
    }
    lemma_pow2_grows(53, 1022);
    lemma_pow2_unfold(1024);
    lemma_pow2_unfold(1023);
    lemma_pow2_pos(1022);
    lemma_pow2_grows(970, 1023);
}

/// A whole number that is a multiple of the distance between the numbers of double
/// precision near it is one of them.
proof fn lemma_exact(count: nat, e: nat, m: int, shift: nat)
    requires
        is_exponent_of(count, 1, e),
        m >= 0,
        count * pow2(1074) == m * pow2(e),
    ensures
        whole_size(significand_of(count, 1), exponent_of(count, 1), shift) == count * pow2(shift),
{
    law_the_exponent_is_unique(count, 1, e, exponent_of(count, 1));
    lemma_pow2_pos(e);
    lemma_pow2_pos(1074);
    let rest = pow2(e) as int;
    let b = pow2(1074) as int;
    assert(1 * pow2(e) == rest);
    lemma_fundamental_div_mod_converse((count * pow2(1074)) as int, rest, m, 0);
    assert(significand_of(count, 1) == m);
    let exact = (count * pow2(shift)) as int;
    lemma_pow2_adds(e, shift);
    assert(m * pow2(e + shift) == exact * b) by (nonlinear_arith)
        requires
            pow2(e + shift) == rest * pow2(shift),
            count * b == m * rest,
            exact == count * pow2(shift),
    ;
    assert((2 * (exact * b) + b) / (2 * b) == exact) by (nonlinear_arith)
        requires
            b > 0,
    ;
}

/// Below a power of two a whole number has an exponent.
proof fn lemma_some_exponent(count: nat, from: nat) -> (e: nat)
    requires
        from <= 1074,
        count * pow2(1074) < 1 * pow2((from + 53) as nat) || count < pow2(53) && from == 1074,
    ensures
        e <= from,
        is_exponent_of(count, 1, e),
    decreases from,
{
    if from == 1074 && count < pow2(53) {
        lemma_pow2_adds(53, 1074);
        lemma_pow2_pos(1074);
        assert(count * pow2(1074) < pow2(53 + 1074)) by (nonlinear_arith)
            requires
                count < pow2(53),
                pow2(1074) > 0,
                pow2(53 + 1074) == pow2(53) * pow2(1074),
        ;
    }
    if from == 0 || count * pow2(1074) >= pow2((from + 52) as nat) {
        from
    } else {
        lemma_some_exponent(count, (from - 1) as nat)
    }
}

/// A number is read digit by digit: one digit more makes it ten times as large and
/// adds the digit. What stands behind a point counts in tenths, hundredths and so on.
pub proof fn law_numbers_are_read_digit_by_digit(number: Seq<char>, digit: char)
    requires
        '0' <= digit <= '9',
    ensures
        numerator_of(number.push(digit)) == 10 * numerator_of(number) + (digit as u32 - 48),
        numerator_of(number.push('.')) == numerator_of(number),
        numerator_of(Seq::empty()) == 0,
        places_behind_point(number) is None ==> denominator_of(number) == 1
            && places_behind_point(number.push(digit)) is None && denominator_of(
            number.push(digit),
        ) == 1,
        places_behind_point(number) is Some ==> denominator_of(number.push(digit)) == 10
            * denominator_of(number) && places_behind_point(number.push(digit)) is Some,
        places_behind_point(number.push('.')) is Some,
        denominator_of(number.push('.')) == 1,
        places_behind_point(Seq::empty()) is None,
{
    let longer = number.push(digit);
    assert(longer.drop_last() =~= number);
    let value = (digit as u32 - 48) as u8;
    let rest = digits_from_end(number);
    let all = digits_from_end(longer);
    assert(all == seq![value] + rest);
    assert(all.skip(1) =~= rest);
    assert(number.push('.').drop_last() =~= number);
    if let Some(places) = places_behind_point(number) {
        lemma_ten_to(places);
    }
    lemma_ten_to(0);
}

/// Characters make up a number if there is a digit among them and no second point.
pub proof fn law_a_number_has_a_digit_and_one_point_at_most(number: Seq<char>, ch: char)
    requires
        '0' <= ch <= '9' || ch == '.',
    ensures
        !is_number(Seq::empty()),
        '0' <= ch <= '9' ==> (is_number(number.push(ch)) <==> count_points(number) <= 1),
        ch == '.' ==> (is_number(number.push(ch)) <==> is_number(number) && count_points(number)
            == 0),
        count_points(number.push(ch)) == count_points(number) + if ch == '.' {
            1int
        } else {
            0
        },
        count_points(Seq::empty()) == 0,
{
    assert(number.push(ch).drop_last() =~= number);
    lemma_points_not_negative(number);
}

/// The units stand for powers of 1024, whatever of their letters is written; the case
/// of the letters and the white space around them do not matter.
pub proof fn law_units_stand_for_powers_of_1024(unit: Seq<char>)
    ensures
        unit_shift(unit) == Some(0nat) <==> unit == ""@ || unit == "b"@,
        unit_shift(unit) == Some(10nat) <==> unit == "k"@ || unit == "kb"@ || unit == "kib"@,
        unit_shift(unit) == Some(20nat) <==> unit == "m"@ || unit == "mb"@ || unit == "mib"@,
        unit_shift(unit) == Some(30nat) <==> unit == "g"@ || unit == "gb"@ || unit == "gib"@,
        unit_shift(unit) == Some(40nat) <==> unit == "t"@ || unit == "tb"@ || unit == "tib"@,
        unit_shift(unit) is Some ==> unit_shift(unit)->0 <= 40 && unit_shift(unit)->0 % 10 == 0,
{
    reveal_strlit("");
    reveal_strlit("b");
    reveal_strlit("k");
    reveal_strlit("kb");
    reveal_strlit("kib");
    reveal_strlit("m");
    reveal_strlit("mb");
    reveal_strlit("mib");
    reveal_strlit("g");
    reveal_strlit("gb");
    reveal_strlit("gib");
    reveal_strlit("t");
    reveal_strlit("tb");
    reveal_strlit("tib");
    assert(""@.len() == 0);
    assert("b"@[0] == 'b' && "k"@[0] == 'k' && "m"@[0] == 'm' && "g"@[0] == 'g' && "t"@[0] == 't');
    assert("kb"@[0] == 'k' && "mb"@[0] == 'm' && "gb"@[0] == 'g' && "tb"@[0] == 't');
    assert("kib"@[0] == 'k' && "mib"@[0] == 'm' && "gib"@[0] == 'g' && "tib"@[0] == 't');
}

proof fn lemma_number_length_of(number: Seq<char>, rest: Seq<char>)
    requires
        forall|k: int| 0 <= k < number.len() ==> is_number_char(#[trigger] number[k]),
        rest.len() > 0 ==> !is_number_char(rest[0]),
    ensures
        number_length(number + rest) == number.len(),
    decreases number.len(),
{
    if number.len() > 0 {
        assert(is_number_char(number[0]));
        assert((number + rest).skip(1) =~= number.skip(1) + rest);
        lemma_number_length_of(number.skip(1), rest);
    } else {
        assert(number + rest =~= rest);
    }
}

/// What is typed is read as a number and a unit, with whatever white space around them
/// and between them. It stands for no size where the number is none or too large or the
/// unit is not known, and else for the number, as near as double precision comes to it,
/// times what the unit stands for, rounded to whole bytes, as far as there are numbers
/// for it. Nothing but white space stands for zero.
pub proof fn law_typed_sizes_are_a_number_and_a_unit(
    front: Seq<char>,
    number: Seq<char>,
    gap: Seq<char>,
    unit: Seq<char>,
    back: Seq<char>,
)
    requires
        forall|k: int| 0 <= k < front.len() ==> is_white(#[trigger] front[k]),
        forall|k: int| 0 <= k < back.len() ==> is_white(#[trigger] back[k]),
        forall|k: int| 0 <= k < gap.len() ==> is_white(#[trigger] gap[k]),
        forall|k: int|
            0 <= k < number.len() ==> '0' <= #[trigger] number[k] <= '9' || number[k] == '.',
        unit.len() > 0 ==> !is_white(unit[0]) && !is_white(unit.last()) && !('0' <= unit[0]
            <= '9') && unit[0] != '.',
        number.len() == 0 || unit.len() == 0 ==> gap.len() == 0,
    ensures
        ({
            let small = unit.map_values(|ch: char| ascii_lower(ch));
            let (n, d) = (numerator_of(number), denominator_of(number));
            let size = size_of_text(front + (number + gap + unit) + back);
            &&& number.len() == 0 && unit.len() == 0 ==> size == Some(0u128)
            &&& number.len() > 0 || unit.len() > 0 ==> {
                &&& !is_number(number) ==> size is None
                &&& unit_shift(small) is None ==> size is None
                &&& n >= d * (pow2(1024) - pow2(970)) ==> size is None
                &&& is_number(number) && unit_shift(small) is Some && n < d * (pow2(1024) - pow2(
                    970,
                )) ==> {
                    let whole = whole_size(
                        significand_of(n, d),
                        exponent_of(n, d),
                        unit_shift(small)->0,
                    );
                    size == Some(
                        if whole <= u128::MAX {
                            whole as u128
                        } else {
                            u128::MAX
                        },
                    )
                }
            }
        }),
{
    let text = number + gap + unit;
    if text.len() > 0 {
        if number.len() > 0 {
            assert(text[0] == number[0]);
            assert(is_number_char(number[0]));
        } else {
            assert(text =~= unit);
        }
        if unit.len() > 0 {
            assert(text.last() == unit.last());
        } else {
            assert(text =~= number);
            assert(is_number_char(number[number.len() - 1]));
        }
    }
    law_white_space_around_a_text_does_not_matter(front, text, back);
    assert(text =~= number + (gap + unit));
    if gap.len() > 0 {
        assert((gap + unit)[0] == gap[0]);
        assert(is_white(gap[0]));
    } else {
        assert(gap + unit =~= unit);
    }
    lemma_number_length_of(number, gap + unit);
    assert(text.take(number.len() as int) =~= number);
    assert(text.skip(number.len() as int) =~= gap + unit);
    law_white_space_around_a_text_does_not_matter(gap, unit, Seq::empty());
    assert(gap + unit + Seq::<char>::empty() =~= gap + unit);
    if number.len() == 0 && unit.len() == 0 {
        assert(text.len() == 0);
    }
}

/// A whole number of units up to 2^53 is exactly so many times what the unit stands for.
pub proof fn law_typed_whole_sizes_are_exact(
    number: Seq<char>,
    unit: Seq<char>,
)
    requires
        number.len() > 0,
        forall|k: int| 0 <= k < number.len() ==> '0' <= #[trigger] number[k] <= '9',
        numerator_of(number) <= pow2(53),
        unit.len() > 0 ==> !is_white(unit[0]) && !is_white(unit.last()) && !('0' <= unit[0]
            <= '9') && unit[0] != '.',
        unit_shift(unit.map_values(|ch: char| ascii_lower(ch))) is Some,
    ensures
        size_of_text(number + unit) == Some(
            (numerator_of(number) * pow2(
                unit_shift(unit.map_values(|ch: char| ascii_lower(ch)))->0,
            )) as u128,
        ),
        numerator_of(number) * pow2(unit_shift(unit.map_values(|ch: char| ascii_lower(ch)))->0)
            <= u128::MAX,
{
    let none = Seq::<char>::empty();
    let small = unit.map_values(|ch: char| ascii_lower(ch));
    let n = numerator_of(number);
    let shift = unit_shift(small)->0;
    lemma_only_digits(number);
    law_whole_numbers_are_exact(n, shift);
    law_typed_sizes_are_a_number_and_a_unit(none, number, none, unit, none);
    assert(none + (number + none + unit) + none =~= number + unit);
    law_units_stand_for_powers_of_1024(small);
    lemma_pow2_grows(shift, 40);
    lemma2_to64();
    lemma2_to64_rest();
    assert(n * pow2(shift) <= u128::MAX) by (nonlinear_arith)
        requires
            n <= 0x20_0000_0000_0000,
            pow2(shift) <= 0x100_0000_0000,
    ;
}

proof fn lemma_only_digits(number: Seq<char>)
    requires
        forall|k: int| 0 <= k < number.len() ==> '0' <= #[trigger] number[k] <= '9',
    ensures
        number.len() > 0 ==> is_number(number),
        count_points(number) == 0,
        places_behind_point(number) is None,
        denominator_of(number) == 1,
        digits_from_end(number).len() == number.len(),
    decreases number.len(),
{
    if number.len() > 0 {
        assert('0' <= number[number.len() - 1] <= '9');
        lemma_only_digits(number.drop_last());
    }
}

/// A fraction is taken as the number of double precision nearest to it, and a size is
/// rounded to the nearest number of bytes, half of a byte up.
pub proof fn law_typed_sizes_are_rounded_to_the_nearest(n: nat, d: nat, shift: nat)
    requires
        d > 0,
    ensures
        ({
            let step = d * pow2(exponent_of(n, d));
            let exact = n * pow2(1074);
            let near = significand_of(n, d) * step;
            &&& 2 * near <= 2 * exact + step
            &&& 2 * exact <= 2 * near + step
        }),
        ({
            let bytes = significand_of(n, d) * pow2(exponent_of(n, d) + shift);
            let one = pow2(1074);
            let whole = whole_size(significand_of(n, d), exponent_of(n, d), shift);
            &&& 2 * (whole * one) <= 2 * bytes + one
            &&& 2 * bytes < 2 * (whole * one) + one
        }),
{
    let e = exponent_of(n, d);
    lemma_pow2_pos(e);
    lemma_pow2_pos(1074);
    assert(d * pow2(e) > 0) by (nonlinear_arith)
        requires
            d > 0,
            pow2(e) > 0,
    ;
    law_fractions_are_rounded_to_the_nearest(n * pow2(1074), d * pow2(e));
    let a = (significand_of(n, d) * pow2(e + shift)) as int;
    let b = pow2(1074) as int;
    let whole = (2 * a + b) / (2 * b);
    assert(2 * (whole * b) <= 2 * a + b && 2 * a < 2 * (whole * b) + b) by (nonlinear_arith)
        requires
            whole == (2 * a + b) / (2 * b),
            b > 0,
    ;
}

/// Numbers of double precision have 53 binary digits, and no more: 52 behind the first
/// one, but for the smallest of them.
pub proof fn law_numbers_have_53_binary_digits(n: nat, d: nat)
    requires
        d > 0,
    ensures
        significand_of(n, d) <= pow2(53),
        exponent_of(n, d) > 0 ==> significand_of(n, d) >= pow2(52),
{
    let a = n * pow2(1074);
    lemma_below_own_power(a);
    lemma_pow2_grows(a, a + 53);
    assert(a < d * pow2(a + 53)) by (nonlinear_arith)
        requires
            a < pow2(a + 53),
            d > 0,
    ;
    let found = lemma_exponent_below(n, d, a);
    let e = exponent_of(n, d);
    assert(is_exponent_of(n, d, e));
    lemma_pow2_pos(e);
    let b = d * pow2(e);
    assert(b > 0) by (nonlinear_arith)
        requires
            b == d * pow2(e),
            d > 0,
            pow2(e) > 0,
    ;
    let w = half_to_even(a, b) as int;
    law_fractions_are_rounded_to_the_nearest(a, b);
    lemma_pow2_adds(e, 53);
    let whole = b as int;
    let top = pow2(53) as int;
    assert(a < whole * top) by (nonlinear_arith)
        requires
            a < d * pow2(e + 53),
            pow2(e + 53) == pow2(e) * top,
            whole == d * pow2(e),
    ;
    assert(w <= top) by (nonlinear_arith)
        requires
            2 * (w * whole) <= 2 * a + whole,
            a < whole * top,
            whole > 0,
    ;
    if e > 0 {
        lemma_pow2_adds(e, 52);
        let low = pow2(52) as int;
        assert(a >= whole * low) by (nonlinear_arith)
            requires
                a >= d * pow2((e + 52) as nat),
                pow2((e + 52) as nat) == pow2(e) * low,
                whole == d * pow2(e),
        ;
        assert(w >= low) by (nonlinear_arith)
            requires
                2 * a <= 2 * (w * whole) + whole,
                a >= whole * low,
                whole > 0,
        ;
    }
}

proof fn lemma_exponent_below(n: nat, d: nat, from: nat) -> (e: nat)
    requires
        n * pow2(1074) < d * pow2(from + 53),
    ensures
        is_exponent_of(n, d, e),
    decreases from,
{
    if from == 0 || n * pow2(1074) >= d * pow2((from + 52) as nat) {
        from
    } else {
        lemma_exponent_below(n, d, (from - 1) as nat)
    }
}

} // verus!
