//! How much of a decimal has to be looked at to round it.

use vstd::arithmetic::div_mod::lemma_fundamental_div_mod_converse;
use vstd::arithmetic::power2::{
    lemma2_to64, lemma2_to64_rest, lemma_pow2_adds, lemma_pow2_pos, lemma_pow2_strictly_increases,
    lemma_pow2_unfold, pow2,
};
use vstd::prelude::*;

use crate::pdf::number::{
    digit_at, digit_count, is_digit, leading_value, lemma_place_from, lemma_rounded, magnitude,
    min, nearest, nothing, one, place_from, tenfold, tens, zeros_end, PdfNumber,
    HALF_PRECISION, LAST_PLACE, MOST_DIGITS, ONE_PLACE, PLACES,
};
use crate::rounding::PRECISION;

verus! {

/// The places of a digit string, but for the point, hold digits.
pub open spec fn are_digits(s: Seq<u8>, whole: int, end: int) -> bool {
    &&& 0 <= whole <= end <= s.len()
    &&& forall|k: int| 0 <= k < end && k != whole ==> is_digit(#[trigger] s[k])
}

/// What a digit string with an exponent is read as when all of its digits count
/// that stand within `PLACES` decimal places, and of the others only whether they
/// are zeros.
pub open spec fn shortened(s: Seq<u8>, whole: int, end: int, exponent: int) -> PdfNumber {
    let count = digit_count(whole, end);
    let first = zeros_end(s, whole, end, 0);
    let point = whole + exponent;
    if first >= count || point - first < -PLACES {
        nothing()
    } else if point - first > MOST_DIGITS {
        PdfNumber::Infinite(false)
    } else {
        let kept = min(count, point + PLACES);
        let n = leading_value(s, whole, end, kept);
        if zeros_end(s, whole, end, kept) < count {
            tenfold(n * 10 + 1, point - kept - 1)
        } else {
            tenfold(n, point - kept)
        }
    }
}

proof fn lemma_digit(s: Seq<u8>, whole: int, end: int, i: int)
    requires
        are_digits(s, whole, end),
        0 <= i,
    ensures
        0 <= digit_at(s, whole, end, i) <= 9,
{
    if i < whole {
        assert(is_digit(s[i]));
    } else if i + 1 < end {
        assert(is_digit(s[i + 1]));
    }
}

proof fn lemma_tens(a: int, b: int)
    requires
        0 <= a,
        0 <= b,
    ensures
        tens(a) > 0,
        tens(a + b) == tens(a) * tens(b),
    decreases a,
{
    if a > 0 {
        lemma_tens(a - 1, b);
        assert(10 * (tens(a - 1) * tens(b)) == (10 * tens(a - 1)) * tens(b)) by (nonlinear_arith);
    } else {
        assert(tens(0) * tens(b) == tens(b)) by (nonlinear_arith)
            requires
                tens(0) == 1,
        ;
    }
}

/// Ten is above eight.
proof fn lemma_tens_large(k: int)
    requires
        0 <= k,
    ensures
        tens(k) >= pow2((3 * k) as nat),
    decreases k,
{
    lemma2_to64();
    if k > 0 {
        lemma_tens_large(k - 1);
        lemma_pow2_adds((3 * (k - 1)) as nat, 3);
        lemma_pow2_pos((3 * (k - 1)) as nat);
    }
}

/// Five to the power of `k`.
spec fn fives(k: int) -> int
    decreases k,
{
    if k <= 0 {
        1
    } else {
        5 * fives(k - 1)
    }
}

proof fn lemma_fives(k: int)
    requires
        0 <= k,
    ensures
        fives(k) > 0,
        tens(k) == fives(k) * pow2(k as nat),
    decreases k,
{
    lemma2_to64();
    if k > 0 {
        lemma_fives(k - 1);
        lemma_pow2_unfold(k as nat);
        let less = pow2((k - 1) as nat) as int;
        assert(10 * (fives(k - 1) * less) == (5 * fives(k - 1)) * (2 * less)) by (nonlinear_arith);
    }
}

/// The first digits say how large the number is.
proof fn lemma_leading(s: Seq<u8>, whole: int, end: int, i: int, j: int)
    requires
        are_digits(s, whole, end),
        0 <= i <= j,
    ensures
        0 <= leading_value(s, whole, end, i),
        leading_value(s, whole, end, i) * tens(j - i) <= leading_value(s, whole, end, j),
        leading_value(s, whole, end, j) < (leading_value(s, whole, end, i) + 1) * tens(j - i),
    decreases j,
{
    let a = leading_value(s, whole, end, i);
    if i < j {
        lemma_leading(s, whole, end, i, j - 1);
        lemma_digit(s, whole, end, j - 1);
        let t = tens(j - 1 - i);
        assert(a * (10 * t) == 10 * (a * t)) by (nonlinear_arith);
        assert((a + 1) * (10 * t) == 10 * ((a + 1) * t)) by (nonlinear_arith);
    } else {
        if i > 0 {
            lemma_leading(s, whole, end, i - 1, i - 1);
            lemma_digit(s, whole, end, i - 1);
        }
        assert(a * tens(0) == a && (a + 1) * tens(0) == a + 1) by (nonlinear_arith)
            requires
                tens(0) == 1,
        ;
    }
}

/// Zeros add places only.
proof fn lemma_zero_places(s: Seq<u8>, whole: int, end: int, i: int)
    requires
        are_digits(s, whole, end),
        0 <= i <= digit_count(whole, end),
    ensures
        ({
            let stop = zeros_end(s, whole, end, i);
            &&& i <= stop <= digit_count(whole, end)
            &&& leading_value(s, whole, end, stop) == leading_value(s, whole, end, i) * tens(
                stop - i,
            )
            &&& stop < digit_count(whole, end) ==> digit_at(s, whole, end, stop) != 0
        }),
    decreases digit_count(whole, end) - i,
{
    let a = leading_value(s, whole, end, i);
    if i < digit_count(whole, end) && digit_at(s, whole, end, i) == 0 {
        lemma_zero_places(s, whole, end, i + 1);
        let stop = zeros_end(s, whole, end, i + 1);
        let t = tens(stop - i - 1);
        assert((a * 10) * t == a * (10 * t)) by (nonlinear_arith);
    } else {
        assert(a * tens(0) == a) by (nonlinear_arith)
            requires
                tens(0) == 1,
        ;
    }
}

/// A digit that is not zero makes the number larger.
proof fn lemma_more(s: Seq<u8>, whole: int, end: int, i: int)
    requires
        are_digits(s, whole, end),
        0 <= i,
        zeros_end(s, whole, end, i) < digit_count(whole, end),
    ensures
        ({
            let count = digit_count(whole, end);
            leading_value(s, whole, end, i) * tens(count - i) < leading_value(s, whole, end, count)
        }),
{
    let count = digit_count(whole, end);
    let stop = zeros_end(s, whole, end, i);
    let a = leading_value(s, whole, end, i);
    if i > count {
        assert(stop == i);
    }
    lemma_zero_places(s, whole, end, i);
    lemma_digit(s, whole, end, stop);
    lemma_leading(s, whole, end, stop + 1, count);
    let t = tens(stop - i);
    let rest = tens(count - stop - 1);
    let b = leading_value(s, whole, end, stop + 1);
    lemma_tens(stop - i + 1, count - stop - 1);
    lemma_tens(count - stop - 1, 0);
    assert(b >= 10 * (a * t) + 1);
    assert(a * ((10 * t) * rest) < b * rest) by (nonlinear_arith)
        requires
            b >= 10 * (a * t) + 1,
            rest > 0,
    ;
    assert(tens(stop - i + 1) == 10 * t);
}

/// Rounding goes by the ratio.
proof fn lemma_ratio(n: int, d: int, k: int)
    requires
        0 <= n,
        0 < d,
        0 < k,
    ensures
        nearest(n * k, d * k) == nearest(n, d),
{
    lemma_same_place(n, d, k, 0);
    let p = place_from(n, d, 0);
    let here = pow2(p as nat) as int;
    lemma_pow2_pos(p as nat);
    assert((d * k) * here == (d * here) * k) by (nonlinear_arith);
    assert(d * here > 0) by (nonlinear_arith)
        requires
            d > 0,
            here > 0,
    ;
    lemma_rounded(n, d * here, k);
}

proof fn lemma_same_place(n: int, d: int, k: int, p: int)
    requires
        0 <= n,
        0 < d,
        0 < k,
        0 <= p,
    ensures
        place_from(n * k, d * k, p) == place_from(n, d, p),
    decreases LAST_PLACE + 1 - p,
{
    let here = pow2(p as nat) as int;
    assert((n * k < PRECISION * ((d * k) * here)) == (n < PRECISION * (d * here)))
        by (nonlinear_arith)
        requires
            0 < k,
    ;
    if p <= LAST_PLACE && n >= PRECISION * (d * here) {
        lemma_same_place(n, d, k, p + 1);
    }
}

/// How many parts of ten to the power of -`PLACES` the step of a place has.
spec fn parts(p: int) -> int {
    fives(PLACES as int) * pow2((PLACES - ONE_PLACE + p) as nat)
}

proof fn lemma_parts(p: int)
    requires
        0 <= p,
    ensures
        parts(p) > 0,
        parts(p) % 2 == 0,
        tens(PLACES as int) * pow2(p as nat) == parts(p) * one(),
{
    let f = fives(PLACES as int);
    let more = PLACES - ONE_PLACE + p;
    lemma_fives(PLACES as int);
    lemma_pow2_unfold(more as nat);
    lemma_pow2_pos(more as nat);
    lemma_pow2_adds(PLACES as nat, p as nat);
    lemma_pow2_adds(more as nat, ONE_PLACE as nat);
    let a = pow2(PLACES as nat) as int;
    let b = pow2(p as nat) as int;
    let c = pow2(more as nat) as int;
    let less = pow2((more - 1) as nat) as int;
    assert(f * a * b == f * c * one()) by (nonlinear_arith)
        requires
            a * b == c * one(),
    ;
    assert(f * c == 2 * (f * less) && f * c > 0) by (nonlinear_arith)
        requires
            c == 2 * less,
            f > 0,
            c > 0,
    ;
}

/// What `n` and a fraction of a part are rounded to at a place.
spec fn above(n: int, p: int) -> int {
    let q = n / parts(p);
    if 2 * (n % parts(p)) < parts(p) {
        q
    } else {
        q + 1
    }
}

/// The place for `n` and a fraction of a part.
spec fn part_place(n: int, p: int) -> int
    decreases LAST_PLACE + 1 - p,
{
    if p > LAST_PLACE || n < PRECISION * parts(p) {
        p
    } else {
        part_place(n, p + 1)
    }
}

proof fn lemma_part_place(n: int, c: int, t: int, p: int)
    requires
        0 <= n,
        0 < t < c,
        0 <= p,
    ensures
        place_from((n * c + t) * one(), tens(PLACES as int) * c, p) == part_place(n, p),
    decreases LAST_PLACE + 1 - p,
{
    lemma_parts(p);
    lemma_pow2_pos(ONE_PLACE as nat);
    let here = pow2(p as nat) as int;
    let ten = tens(PLACES as int);
    let bound = PRECISION * parts(p);
    assert((ten * c) * here == (parts(p) * c) * one()) by (nonlinear_arith)
        requires
            ten * here == parts(p) * one(),
    ;
    assert(((n * c + t) * one() < PRECISION * ((parts(p) * c) * one())) == (n * c + t < bound * c))
        by (nonlinear_arith)
        requires
            one() > 0,
            bound == PRECISION * parts(p),
    ;
    assert((n * c + t < bound * c) == (n < bound)) by (nonlinear_arith)
        requires
            0 < t < c,
    ;
    if p <= LAST_PLACE && n >= bound {
        lemma_part_place(n, c, t, p + 1);
    }
}

/// What lies between two parts is rounded as all that lies there.
proof fn lemma_between(n: int, c: int, t: int)
    requires
        0 <= n,
        0 < t < c,
    ensures
        nearest((n * c + t) * one(), tens(PLACES as int) * c) == ({
            let p = part_place(n, 0);
            if p > LAST_PLACE {
                PdfNumber::Infinite(false)
            } else if above(n, p) < PRECISION {
                PdfNumber::Finite { mantissa: above(n, p) as i64, place: p as u16 }
            } else if p == LAST_PLACE {
                PdfNumber::Infinite(false)
            } else {
                PdfNumber::Finite { mantissa: HALF_PRECISION, place: (p + 1) as u16 }
            }
        }),
{
    lemma_part_place(n, c, t, 0);
    lemma_part_found(n, 0);
    let p = part_place(n, 0);
    lemma_parts(p);
    lemma_pow2_pos(ONE_PLACE as nat);
    let here = pow2(p as nat) as int;
    let ten = tens(PLACES as int);
    let unit = parts(p);
    assert((ten * c) * here == (unit * c) * one()) by (nonlinear_arith)
        requires
            ten * here == unit * one(),
    ;
    assert(unit * c > 0 && n * c + t >= 0) by (nonlinear_arith)
        requires
            unit > 0,
            0 < t < c,
            0 <= n,
    ;
    lemma_rounded(n * c + t, unit * c, one());
    let q = n / unit;
    let r = n % unit;
    assert(n == q * unit + r && 0 <= r < unit) by (nonlinear_arith)
        requires
            q == n / unit,
            r == n % unit,
            0 < unit,
    ;
    assert(n * c + t == q * (unit * c) + (r * c + t)) by (nonlinear_arith)
        requires
            n == q * unit + r,
    ;
    assert(0 <= r * c + t < unit * c) by (nonlinear_arith)
        requires
            0 <= r < unit,
            0 < t < c,
    ;
    lemma_fundamental_div_mod_converse(n * c + t, unit * c, q, r * c + t);
    let half = unit / 2;
    assert((2 * (r * c + t) < unit * c) == (2 * r < unit) && 2 * (r * c + t) != unit * c)
        by (nonlinear_arith)
        requires
            unit == 2 * half,
            0 < t < c,
    ;
}

proof fn lemma_part_found(n: int, p: int)
    requires
        0 <= p <= LAST_PLACE + 1,
    ensures
        p <= part_place(n, p) <= LAST_PLACE + 1,
    decreases LAST_PLACE + 1 - p,
{
    if p <= LAST_PLACE && n >= PRECISION * parts(p) {
        lemma_part_found(n, p + 1);
    }
}

/// What is far below a step is nothing.
proof fn lemma_tiny(n: int, d: int)
    requires
        0 <= n,
        2 * n < d,
    ensures
        nearest(n, d) == nothing(),
{
    lemma2_to64();
    assert(d * pow2(0) == d) by (nonlinear_arith)
        requires
            pow2(0) == 1,
    ;
    lemma_place_from(n, d, 0, 0);
    lemma_fundamental_div_mod_converse(n, d, 0, n);
}

/// What is above the last place is infinite.
proof fn lemma_huge(m: int, d: int)
    requires
        0 < d,
        m >= d * pow2(1200),
    ensures
        nearest(m * one(), d) == PdfNumber::Infinite(false),
{
    lemma2_to64();
    lemma2_to64_rest();
    let last = pow2(LAST_PLACE as nat) as int;
    let k = pow2(1200) as int;
    lemma_pow2_adds(1200, ONE_PLACE as nat);
    lemma_pow2_adds(53, LAST_PLACE as nat);
    lemma_pow2_strictly_increases((53 + LAST_PLACE) as nat, (1200 + ONE_PLACE) as nat);
    lemma_pow2_pos(ONE_PLACE as nat);
    assert(m * one() >= PRECISION * (d * last)) by (nonlinear_arith)
        requires
            m >= d * k,
            k * one() >= PRECISION * last,
            one() > 0,
            d > 0,
    ;
    lemma_place_from(m * one(), d, 0, LAST_PLACE + 1);
}

/// A number above the largest one is infinite, and one far below the smallest is
/// nothing.
proof fn lemma_extremes(s: Seq<u8>, whole: int, end: int, exponent: int)
    requires
        are_digits(s, whole, end),
        ({
            let first = zeros_end(s, whole, end, 0);
            let point = whole + exponent;
            first >= digit_count(whole, end) || point - first < -PLACES || point - first
                > MOST_DIGITS
        }),
    ensures
        magnitude(s, whole, end, exponent) == shortened(s, whole, end, exponent),
{
    let count = digit_count(whole, end);
    let first = zeros_end(s, whole, end, 0);
    let point = whole + exponent;
    let x = point - count;
    let l = leading_value(s, whole, end, count);
    lemma_zero_places(s, whole, end, 0);
    lemma_leading(s, whole, end, first, count);
    lemma_pow2_pos(ONE_PLACE as nat);
    lemma_tens(if x < 0 {
        -x
    } else {
        x
    }, 0);
    assert(leading_value(s, whole, end, first) == 0) by {
        assert(0 * tens(first) == 0) by (nonlinear_arith);
    }
    assert(0 * tens(count - first) == 0 && 1 * tens(count - first) == tens(count - first))
        by (nonlinear_arith);
    if first >= count {
        assert(l == 0);
        if x >= 0 {
            assert(0 * tens(x) * one() == 0) by (nonlinear_arith);
            lemma_tiny(0, 1);
        } else {
            assert(0 * one() == 0) by (nonlinear_arith);
            lemma_tiny(0, tens(-x));
        }
    } else if point - first < -PLACES {
        // the digits are below ten to the power of their number
        let gap = first - point;
        lemma_tens(count - first, gap);
        lemma_tens_large(gap);
        lemma_pow2_unfold((ONE_PLACE + 1) as nat);
        lemma_pow2_strictly_increases((ONE_PLACE + 1) as nat, (3 * gap) as nat);
        lemma_tens(gap, 0);
        assert(2 * (l * one()) < tens(count - first) * tens(gap)) by (nonlinear_arith)
            requires
                0 <= l < tens(count - first),
                2 * one() < tens(gap),
                one() > 0,
        ;
        assert(0 <= l * one()) by (nonlinear_arith)
            requires
                0 <= l,
                0 < one(),
        ;
        lemma_tiny(l * one(), tens(-x));
    } else {
        lemma_digit(s, whole, end, first);
        lemma_leading(s, whole, end, first + 1, count);
        let rest = tens(count - first - 1);
        let over = point - first - 1;
        let b = leading_value(s, whole, end, first + 1);
        lemma_tens(count - first - 1, 0);
        assert(l >= rest) by (nonlinear_arith)
            requires
                l >= b * rest,
                b >= 1,
                rest > 0,
        ;
        lemma_tens_large(over);
        if over > 400 {
            lemma_pow2_strictly_increases(1200, (3 * over) as nat);
        }
        if x >= 0 {
            lemma_tens(count - first - 1, x);
            assert(l * tens(x) >= rest * tens(x)) by (nonlinear_arith)
                requires
                    l >= rest,
                    tens(x) > 0,
            ;
            assert(1 * pow2(1200) == pow2(1200)) by (nonlinear_arith);
            lemma_huge(l * tens(x), 1);
        } else {
            lemma_tens(-x, over);
            assert(tens(-x) * tens(over) >= tens(-x) * pow2(1200)) by (nonlinear_arith)
                requires
                    tens(over) >= pow2(1200),
                    tens(-x) > 0,
            ;
            lemma_huge(l, tens(-x));
        }
    }
}

/// A digit string is the number nearest to it, however few of its digits behind
/// `PLACES` decimal places are looked at.
pub proof fn law_late_digits_do_not_matter(s: Seq<u8>, whole: int, end: int, exponent: int)
    requires
        are_digits(s, whole, end),
    ensures
        magnitude(s, whole, end, exponent) == shortened(s, whole, end, exponent),
{
    let count = digit_count(whole, end);
    let first = zeros_end(s, whole, end, 0);
    let point = whole + exponent;
    let kept = min(count, point + PLACES);
    if first >= count || point - first < -PLACES || point - first > MOST_DIGITS {
        lemma_extremes(s, whole, end, exponent);
    } else if kept < count {
        lemma_zero_places(s, whole, end, 0);
        let n = leading_value(s, whole, end, kept);
        let l = leading_value(s, whole, end, count);
        let c = tens(count - kept);
        let ten = tens(PLACES as int);
        lemma_leading(s, whole, end, kept, count);
        lemma_tens(PLACES as int, count - kept);
        lemma_tens(count - kept, 0);
        lemma_pow2_pos(ONE_PLACE as nat);
        assert(count - point == PLACES + (count - kept));
        if zeros_end(s, whole, end, kept) < count {
            lemma_more(s, whole, end, kept);
            let t = l - n * c;
            assert((n + 1) * c == n * c + c) by (nonlinear_arith);
            lemma_between(n, c, t);
            lemma_between(n, 10, 1);
            lemma_tens(PLACES as int, 1);
            assert(tens(1) == 10) by {
                reveal_with_fuel(tens, 3);
            }
        } else {
            lemma_zero_places(s, whole, end, kept);
            assert((n * c) * one() == (n * one()) * c) by (nonlinear_arith);
            assert(0 <= n * one()) by (nonlinear_arith)
                requires
                    0 <= n,
                    0 < one(),
            ;
            lemma_ratio(n * one(), ten, c);
        }
    } else {
        lemma_zero_places(s, whole, end, kept);
    }
}

} // verus!
