//! Numbers of any length, written in decimal digits.
use crate::rounding::{half_test, HalfTest};
use vstd::arithmetic::power::{lemma_pow0, lemma_pow1, lemma_pow_adds, lemma_pow_positive, pow};
use vstd::prelude::*;

verus! {

/// Whether every element is a decimal digit.
pub open spec fn are_digits(digits: Seq<u8>) -> bool {
    forall|i: int| 0 <= i < digits.len() ==> #[trigger] digits[i] <= 9
}

/// The number that digits stand for, the lowest of them first.
pub open spec fn number_of(digits: Seq<u8>) -> nat
    decreases digits.len(),
{
    if digits.len() == 0 {
        0
    } else {
        digits[0] as nat + 10 * number_of(digits.skip(1))
    }
}

/// Ten to the power of a count.
pub open spec fn ten_to(count: nat) -> nat {
    pow(10, count) as nat
}

pub proof fn lemma_ten_to(count: nat)
    ensures
        ten_to(0) == 1,
        ten_to(count) > 0,
        ten_to(count + 1) == 10 * ten_to(count),
        pow(10, count) == ten_to(count),
{
    lemma_pow0(10);
    lemma_pow1(10);
    lemma_pow_positive(10, count);
    lemma_pow_adds(10, count, 1);
    assert(ten_to(count + 1) == 10 * ten_to(count)) by (nonlinear_arith)
        requires
            pow(10, count + 1) == pow(10, count) * pow(10, 1),
            pow(10, 1) == 10,
            pow(10, count) > 0,
            ten_to(count) == pow(10, count) as nat,
            ten_to(count + 1) == pow(10, count + 1) as nat,
    ;
}

/// The lower digits and the higher digits make up the number.
pub proof fn lemma_number_splits(digits: Seq<u8>, count: int)
    requires
        0 <= count <= digits.len(),
        are_digits(digits),
    ensures
        number_of(digits) == number_of(digits.take(count)) + ten_to(count as nat) * number_of(
            digits.skip(count),
        ),
        number_of(digits.take(count)) < ten_to(count as nat),
    decreases count,
{
    lemma_ten_to(0);
    if count == 0 {
        assert(digits.skip(0) =~= digits);
        assert(digits.take(0) =~= Seq::empty());
        assert(ten_to(0) * number_of(digits) == number_of(digits)) by (nonlinear_arith)
            requires
                ten_to(0) == 1,
        ;
    } else {
        let rest = digits.skip(1);
        let less = (count - 1) as nat;
        assert forall|i: int| 0 <= i < rest.len() implies #[trigger] rest[i] <= 9 by {
            assert(rest[i] == digits[i + 1]);
        }
        lemma_number_splits(rest, count - 1);
        lemma_ten_to(less);
        assert(digits.take(count).skip(1) =~= rest.take(count - 1));
        assert(rest.skip(count - 1) =~= digits.skip(count));
        assert(digits.take(count)[0] == digits[0]);
        assert(digits[0] <= 9);
        let (low, high) = (number_of(rest.take(count - 1)), number_of(digits.skip(count)));
        assert(10 * (low + ten_to(less) * high) == 10 * low + ten_to(count as nat) * high)
            by (nonlinear_arith)
            requires
                ten_to(count as nat) == 10 * ten_to(less),
        ;
    }
}

/// Multiplies a number by a small one.
pub fn multiply(digits: &mut Vec<u8>, factor: u8)
    requires
        are_digits(old(digits)@),
        factor <= 10,
    ensures
        are_digits(final(digits)@),
        number_of(final(digits)@) == number_of(old(digits)@) * factor,
        final(digits)@.len() >= old(digits)@.len(),
{
    let ghost start = digits@;
    let mut carry: u8 = 0;
    let mut i: usize = 0;
    proof {
        lemma_ten_to(0);
        assert(start.take(0) =~= Seq::empty());
        assert(0 * factor == 0) by (nonlinear_arith);
    }
    while i < digits.len()
        invariant
            i <= digits@.len(),
            digits@.len() == start.len(),
            are_digits(digits@),
            are_digits(start),
            factor <= 10,
            carry <= 9,
            forall|k: int| i <= k < start.len() ==> digits@[k] == start[k],
            number_of(digits@.take(i as int)) + ten_to(i as nat) * carry == number_of(
                start.take(i as int),
            ) * factor,
        decreases digits@.len() - i,
    {
        let ghost before = digits@;
        let digit: u8 = digits[i];
        assert(digit as int * factor as int <= 90) by (nonlinear_arith)
            requires
                digit <= 9,
                factor <= 10,
        ;
        let product: u8 = digit * factor + carry;
        digits[i] = product % 10;
        let ghost old_carry = carry;
        carry = product / 10;
        proof {
            let low = number_of(digits@.take(i as int));
            let tens = ten_to(i as nat) as int;
            lemma_ten_to(i as nat);
            assert(digits@.take(i as int) =~= before.take(i as int));
            assert(are_digits(digits@)) by {
                assert forall|k: int| 0 <= k < digits@.len() implies #[trigger] digits@[k] <= 9 by {
                    if k != i {
                        assert(digits@[k] == before[k]);
                    }
                }
            }
            lemma_take_one_more(digits@, i as int);
            lemma_take_one_more(start, i as int);
            let source = number_of(start.take(i as int)) as int;
            assert(low + tens * (product % 10) + 10 * tens * (product / 10) == (source + tens
                * digit) * factor) by (nonlinear_arith)
                requires
                    low + tens * old_carry == source * factor,
                    product == digit * factor + old_carry,
                    product == 10 * (product / 10) + product % 10,
            ;
            assert(ten_to(i as nat + 1) * carry == 10 * tens * (product / 10)) by (nonlinear_arith)
                requires
                    ten_to(i as nat + 1) == 10 * tens,
                    carry == product / 10,
            ;
        }
        i = i + 1;
    }
    proof {
        assert(digits@.take(i as int) =~= digits@);
        assert(start.take(i as int) =~= start);
    }
    if carry > 0 {
        let ghost before = digits@;
        digits.push(carry);
        proof {
            let n = before.len() as int;
            assert(are_digits(digits@));
            lemma_number_splits(digits@, n);
            assert(digits@.take(n) =~= before);
            assert(digits@.skip(n) =~= seq![carry]);
            assert(digits@.skip(n).skip(1) =~= Seq::empty());
            assert(number_of(Seq::<u8>::empty()) == 0);
            assert(number_of(digits@.skip(n)) == carry);
        }
    } else {
        proof {
            assert(ten_to(i as nat) * carry == 0) by (nonlinear_arith)
                requires
                    carry == 0,
            ;
        }
    }
}

proof fn lemma_take_one_more(digits: Seq<u8>, count: int)
    requires
        0 <= count < digits.len(),
        are_digits(digits),
    ensures
        number_of(digits.take(count + 1)) == number_of(digits.take(count)) + ten_to(count as nat)
            * digits[count],
{
    let more = digits.take(count + 1);
    assert forall|i: int| 0 <= i < more.len() implies #[trigger] more[i] <= 9 by {
        assert(more[i] == digits[i]);
    }
    lemma_number_splits(more, count);
    assert(more.take(count) =~= digits.take(count));
    assert(more.skip(count) =~= seq![digits[count]]);
    assert(more.skip(count).skip(1) =~= Seq::empty());
    assert(number_of(Seq::<u8>::empty()) == 0);
}

/// The part of a number before the point, where so many digits stand behind it,
/// but not more than a limit.
pub fn whole_part(digits: &Vec<u8>, places: u128, limit: u64) -> (r: u64)
    requires
        are_digits(digits@),
        limit <= 0x100_0000_0000_0000,
    ensures
        places <= digits@.len() ==> r == if number_of(digits@.skip(places as int)) < limit {
            number_of(digits@.skip(places as int))
        } else {
            limit as nat
        },
        places > digits@.len() ==> r == 0,
{
    if places > digits.len() as u128 {
        return 0;
    }
    let places: usize = places as usize;
    let mut value: u64 = 0;
    let mut i: usize = digits.len();
    proof {
        assert(digits@.skip(digits@.len() as int) =~= Seq::empty());
    }
    while i > places
        invariant
            places <= i <= digits@.len(),
            are_digits(digits@),
            limit <= 0x100_0000_0000_0000,
            value == if number_of(digits@.skip(i as int)) < limit {
                number_of(digits@.skip(i as int))
            } else {
                limit as nat
            },
        decreases i,
    {
        i = i - 1;
        proof {
            assert(digits@.skip(i as int).skip(1) =~= digits@.skip(i as int + 1));
            assert(digits@.skip(i as int)[0] == digits@[i as int]);
            assert(digits@[i as int] <= 9);
        }
        let next: u64 = value * 10 + digits[i] as u64;
        value = if next < limit {
            next
        } else {
            limit
        };
    }
    value
}

/// Compares what stands behind the point with one half, where so many digits
/// stand behind it.
pub fn test_half(digits: &Vec<u8>, places: u128) -> (r: HalfTest)
    requires
        are_digits(digits@),
    ensures
        places <= digits@.len() ==> r == half_test(
            number_of(digits@.take(places as int)),
            ten_to(places as nat),
        ),
        places > digits@.len() ==> r == half_test(number_of(digits@), ten_to(places as nat)),
{
    proof {
        lemma_ten_to(0);
    }
    if places == 0 {
        proof {
            assert(digits@.take(0) =~= Seq::empty());
        }
        return HalfTest::Less;
    }
    let ghost less = (places - 1) as nat;
    proof {
        lemma_ten_to(less);
    }
    if places > digits.len() as u128 {
        proof {
            lemma_number_splits(digits@, digits@.len() as int);
            assert(digits@.take(digits@.len() as int) =~= digits@);
            lemma_ten_to_grows(digits@.len(), less);
        }
        return HalfTest::Less;
    }
    let count: usize = places as usize;
    let first: u8 = digits[count - 1];
    let ghost low = number_of(digits@.take(less as int));
    proof {
        lemma_number_splits(digits@, less as int);
        lemma_take_one_more(digits@, less as int);
    }
    if first != 5 {
        proof {
            let tens = ten_to(less) as int;
            if first < 5 {
                assert(tens * first <= 4 * tens) by (nonlinear_arith)
                    requires
                        first <= 4,
                        tens > 0,
                ;
            } else {
                assert(tens * first >= 6 * tens) by (nonlinear_arith)
                    requires
                        first >= 6,
                        tens > 0,
                ;
            }
        }
        return if first < 5 {
            HalfTest::Less
        } else {
            HalfTest::More
        };
    }
    let mut i: usize = 0;
    while i < count - 1
        invariant
            count == places,
            0 < count <= digits@.len(),
            i <= count - 1,
            are_digits(digits@),
            first == 5,
            less == count - 1,
            ten_to(places as nat) == 10 * ten_to(less),
            low == number_of(digits@.take(less as int)),
            number_of(digits@.take(places as int)) == low + ten_to(less) * first,
            forall|k: int| 0 <= k < i ==> digits@[k] == 0,
        decreases count - i,
    {
        if digits[i] != 0 {
            proof {
                lemma_nonzero_digit(digits@.take(less as int), i as int);
                assert(ten_to(less) * first == 5 * ten_to(less)) by (nonlinear_arith)
                    requires
                        first == 5,
                ;
            }
            return HalfTest::More;
        }
        i = i + 1;
    }
    proof {
        lemma_all_zero(digits@.take(less as int));
        assert(ten_to(less) * first == 5 * ten_to(less)) by (nonlinear_arith)
            requires
                first == 5,
        ;
    }
    HalfTest::Equal
}

pub proof fn lemma_ten_to_grows(small: nat, large: nat)
    requires
        small <= large,
    ensures
        ten_to(small) <= ten_to(large),
    decreases large - small,
{
    if small < large {
        lemma_ten_to_grows(small, (large - 1) as nat);
        lemma_ten_to((large - 1) as nat);
    }
}

proof fn lemma_nonzero_digit(digits: Seq<u8>, place: int)
    requires
        0 <= place < digits.len(),
        digits[place] != 0,
    ensures
        number_of(digits) > 0,
    decreases place,
{
    if place > 0 {
        assert(digits.skip(1)[place - 1] == digits[place]);
        lemma_nonzero_digit(digits.skip(1), place - 1);
    }
}

proof fn lemma_all_zero(digits: Seq<u8>)
    requires
        forall|k: int| 0 <= k < digits.len() ==> digits[k] == 0,
    ensures
        number_of(digits) == 0,
    decreases digits.len(),
{
    if digits.len() > 0 {
        assert forall|k: int| 0 <= k < digits.skip(1).len() implies digits.skip(1)[k] == 0 by {
            assert(digits.skip(1)[k] == digits[k + 1]);
        }
        lemma_all_zero(digits.skip(1));
    }
}

} // verus!
