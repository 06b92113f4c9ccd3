//! Decimal numerals: the counts of a gate header.

use crate::bytes::{all_digits, is_digit};
use vstd::prelude::*;

verus! {

/// The largest count that a token holds.
pub const MAX_COUNT: u8 = 255;

/// A numeral is one digit or more.
pub open spec fn is_numeral(text: Seq<u8>) -> bool {
    text.len() > 0 && all_digits(text)
}

/// The number that the digit `byte` stands for.
pub open spec fn digit_value(byte: u8) -> nat {
    (byte - 48) as nat
}

/// The number that the digits of `text` write in base ten; zeros in front
/// do not count.
pub open spec fn numeral_value(text: Seq<u8>) -> nat
    decreases text.len(),
{
    if text.len() == 0 {
        0
    } else {
        10 * numeral_value(text.drop_last()) + digit_value(text.last())
    }
}

/// The count that a numeral gives: its value, where that is 255 at most.
pub open spec fn count_of(text: Seq<u8>) -> Option<u8> {
    if numeral_value(text) <= MAX_COUNT {
        Some(numeral_value(text) as u8)
    } else {
        None
    }
}

/// The digits of `n` in base ten, without zeros in front.
pub open spec fn decimal(n: nat) -> Seq<u8>
    decreases n,
{
    if n < 10 {
        seq![(48 + n) as u8]
    } else {
        decimal(n / 10).push((48 + n % 10) as u8)
    }
}

/// A numeral as [`decimal`] writes it: with no zero in front, but for `0`
/// itself.
pub open spec fn is_canonical(text: Seq<u8>) -> bool {
    is_numeral(text) && (text.len() == 1 || text[0] != 48)
}

/// More digits never give a smaller number.
pub proof fn lemma_value_grows(text: Seq<u8>, k: int)
    requires
        0 <= k <= text.len(),
    ensures
        numeral_value(text.take(k)) <= numeral_value(text),
    decreases text.len(),
{
    if k == text.len() {
        assert(text.take(k) =~= text);
    } else {
        assert(text.drop_last().take(k) =~= text.take(k));
        lemma_value_grows(text.drop_last(), k);
    }
}

/// A numeral that starts with a digit other than `0` is not zero.
pub proof fn lemma_value_positive(text: Seq<u8>)
    requires
        is_numeral(text),
        text[0] != 48,
    ensures
        numeral_value(text) >= 1,
{
    lemma_value_grows(text, 1);
    let first = text.take(1);
    assert(first.drop_last() =~= Seq::<u8>::empty());
    assert(numeral_value(first.drop_last()) == 0);
    assert(first.last() == text[0]);
    assert(is_digit(text[0]));
}

/// [`decimal`] writes a canonical numeral back as it stood.
pub proof fn lemma_decimal_of_value(text: Seq<u8>)
    requires
        is_canonical(text),
    ensures
        decimal(numeral_value(text)) == text,
    decreases text.len(),
{
    let front = text.drop_last();
    assert(is_digit(text.last()));
    if text.len() == 1 {
        assert(front =~= Seq::<u8>::empty());
        assert(numeral_value(front) == 0);
        assert(decimal(numeral_value(text)) =~= text);
    } else {
        assert(front[0] == text[0]);
        assert(is_canonical(front)) by {
            assert forall|i: int| 0 <= i < front.len() implies is_digit(#[trigger] front[i]) by {
                assert(front[i] == text[i]);
            }
        }
        lemma_value_positive(front);
        lemma_decimal_of_value(front);
        let high = numeral_value(front);
        let low = digit_value(text.last());
        let value = numeral_value(text);
        assert(value == 10 * high + low);
        assert(value / 10 == high && value % 10 == low) by (nonlinear_arith)
            requires
                value == 10 * high + low,
                low < 10,
        ;
        assert(decimal(value) =~= text);
    }
}

/// [`decimal`] writes a canonical numeral whose value is the number.
pub proof fn lemma_value_of_decimal(n: nat)
    ensures
        is_canonical(decimal(n)),
        numeral_value(decimal(n)) == n,
    decreases n,
{
    let text = decimal(n);
    if n < 10 {
        assert(text.drop_last() =~= Seq::<u8>::empty());
        assert(numeral_value(text.drop_last()) == 0);
    } else {
        lemma_value_of_decimal(n / 10);
        let front = decimal(n / 10);
        assert(text.drop_last() =~= front);
        assert(text[0] == front[0]);
        assert(front.len() == 1 ==> front[0] != 48) by {
            if front.len() == 1 {
                assert(front.drop_last() =~= Seq::<u8>::empty());
                assert(numeral_value(front.drop_last()) == 0);
                assert(numeral_value(front) == digit_value(front[0]));
            }
        }
        assert forall|i: int| 0 <= i < text.len() implies is_digit(#[trigger] text[i]) by {
            if i < front.len() {
                assert(text[i] == front[i]);
            }
        }
    }
}

/// Reads the numeral `bytes[from..to]` as a count; `None` where the number
/// is above 255.
pub fn parse_count(bytes: &[u8], from: usize, to: usize) -> (count: Option<u8>)
    requires
        from < to <= bytes.len(),
        is_numeral(bytes@.subrange(from as int, to as int)),
    ensures
        count == count_of(bytes@.subrange(from as int, to as int)),
{
    let ghost text = bytes@.subrange(from as int, to as int);
    let mut value: u16 = 0;
    let mut i: usize = from;
    while i < to
        invariant
            from <= i <= to <= bytes.len(),
            text == bytes@.subrange(from as int, to as int),
            all_digits(text),
            value == numeral_value(text.take(i - from)),
            value <= MAX_COUNT,
        decreases to - i,
    {
        let byte = bytes[i];
        proof {
            let seen = text.take(i - from + 1);
            assert(seen.drop_last() =~= text.take(i - from));
            assert(seen.last() == byte);
            assert(is_digit(text[i - from]));
            lemma_value_grows(text, i - from + 1);
        }
        let next: u16 = value * 10 + (byte - 48) as u16;
        if next > 255 {
            return None;
        }
        value = next;
        i += 1;
    }
    proof {
        assert(text.take(to - from) =~= text);
    }
    Some(value as u8)
}

} // verus!
