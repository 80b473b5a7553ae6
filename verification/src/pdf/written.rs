//! How numbers may be written in a PDF file, and that they are read so.

use vstd::prelude::*;

use crate::look::worth;
use crate::pdf::number;

verus! {

/// Decimal digits only.
pub open spec fn are_digits(s: Seq<u8>) -> bool {
    forall|i: int| 0 <= i < s.len() ==> 48 <= #[trigger] s[i] <= 57
}

/// Digits with a point behind the first of them, if there is one.
pub open spec fn pointed(whole: Seq<u8>, fraction: Seq<u8>, point: bool) -> Seq<u8> {
    if point {
        whole + seq![46u8] + fraction
    } else {
        whole
    }
}

proof fn lemma_digits_end(s: Seq<u8>, i: int, end: int)
    requires
        0 <= i <= end <= s.len(),
        forall|k: int| i <= k < end ==> 48 <= #[trigger] s[k] <= 57,
        end < s.len() ==> !(48 <= s[end] <= 57),
    ensures
        number::digits_end(s, i) == end,
    decreases end - i,
{
    if i < end {
        assert(48 <= s[i] <= 57);
        lemma_digits_end(s, i + 1, end);
    }
}

proof fn lemma_leading(s: Seq<u8>, digits: Seq<u8>, whole: int, end: int, count: int)
    requires
        0 <= count <= digits.len(),
        forall|i: int|
            0 <= i < digits.len() ==> number::digit_at(s, whole, end, i) == #[trigger] digits[i]
                - 48,
    ensures
        number::leading_value(s, whole, end, count) == worth(digits.take(count)),
    decreases count,
{
    if count > 0 {
        lemma_leading(s, digits, whole, end, count - 1);
        assert(digits.take(count).drop_last() =~= digits.take(count - 1));
        assert(digits.take(count).last() == digits[count - 1]);
    }
}

proof fn lemma_plain(whole: Seq<u8>, fraction: Seq<u8>, point: bool)
    requires
        are_digits(whole),
        are_digits(fraction),
        !point ==> fraction.len() == 0,
        whole.len() + fraction.len() > 0,
    ensures
        number::decimal(pointed(whole, fraction, point)) == Some(
            number::nearest(
                worth(whole + fraction) * number::one(),
                number::tens(fraction.len() as int),
            ),
        ),
{
    let s = pointed(whole, fraction, point);
    let digits = whole + fraction;
    let w = whole.len() as int;
    assert forall|k: int| 0 <= k < w implies 48 <= #[trigger] s[k] <= 57 by {
        assert(s[k] == whole[k]);
    }
    if point {
        assert(s[w] == 46);
    }
    lemma_digits_end(s, 0, w);
    let end = s.len() as int;
    if point {
        assert forall|k: int| w + 1 <= k < end implies 48 <= #[trigger] s[k] <= 57 by {
            assert(s[k] == fraction[k - w - 1]);
        }
        lemma_digits_end(s, w + 1, end);
    }
    assert(number::fraction_end(s) == end);
    let count = number::digit_count(w, end);
    assert(count == digits.len());
    assert forall|i: int| 0 <= i < digits.len() implies number::digit_at(s, w, end, i)
        == #[trigger] digits[i] - 48 by {
        if i < w {
            assert(s[i] == whole[i]);
        } else {
            assert(s[i + 1] == fraction[i - w]);
        }
    }
    lemma_leading(s, digits, w, end, count);
    assert(digits.take(count) =~= digits);
    let n = worth(digits);
    if fraction.len() == 0 {
        assert(number::tens(0) == 1);
        assert(n * number::tens(0) * number::one() == n * number::one()) by (nonlinear_arith)
            requires
                number::tens(0) == 1,
        ;
    }
}

/// Digits are read as the number that they write, with as many places behind the
/// point as there are digits behind it, rounded to the nearest number that there
/// is. A dash before them makes the number negative; a plus sign means nothing.
pub proof fn law_decimals_are_read(
    sign: Option<bool>,
    whole: Seq<u8>,
    fraction: Seq<u8>,
    point: bool,
)
    requires
        are_digits(whole),
        are_digits(fraction),
        !point ==> fraction.len() == 0,
        whole.len() + fraction.len() > 0,
    ensures
        ({
            let size = number::nearest(
                worth(whole + fraction) * number::one(),
                number::tens(fraction.len() as int),
            );
            let plain = pointed(whole, fraction, point);
            number::number_of(
                match sign {
                    None => plain,
                    Some(true) => seq![45u8] + plain,
                    Some(false) => seq![43u8] + plain,
                },
            ) == Some(if sign == Some(true) {
                size.negated_spec()
            } else {
                size
            })
        }),
{
    let plain = pointed(whole, fraction, point);
    lemma_plain(whole, fraction, point);
    let s = match sign {
        None => plain,
        Some(true) => seq![45u8] + plain,
        Some(false) => seq![43u8] + plain,
    };
    assert(plain.len() > 0);
    assert(48 <= plain[0] <= 57 || plain[0] == 46) by {
        if whole.len() > 0 {
            assert(plain[0] == whole[0]);
        } else {
            assert(plain[0] == 46);
        }
    }
    if sign is Some {
        assert(s.skip(1) =~= plain);
    }
    assert(!number::reads(plain, 0, number::word_inf())) by {
        if number::reads(plain, 0, number::word_inf()) {
            assert(number::lower(plain[0int + 0]) == number::word_inf()[0]);
        }
    }
    assert(!number::reads(plain, 0, number::word_infinity())) by {
        if number::reads(plain, 0, number::word_infinity()) {
            assert(number::lower(plain[0int + 0]) == number::word_infinity()[0]);
        }
    }
    assert(!number::reads(plain, 0, number::word_nan())) by {
        if number::reads(plain, 0, number::word_nan()) {
            assert(number::lower(plain[0int + 0]) == number::word_nan()[0]);
        }
    }
}

} // verus!
