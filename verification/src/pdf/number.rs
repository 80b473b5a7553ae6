//! Numbers of PDF files, held in binary floating point.

use vstd::arithmetic::div_mod::lemma_fundamental_div_mod_converse;
use vstd::arithmetic::power2::{
    lemma2_to64, lemma_pow2_adds, lemma_pow2_pos, lemma_pow2_strictly_increases, lemma_pow2_unfold,
    pow2,
};
use vstd::prelude::*;

use crate::pdf::big::Big;
use crate::pdf::decimal;
use crate::rounding::{rounded, PRECISION};

verus! {

/// Numbers are counted in steps, and one whole unit is two to this power of them.
pub const ONE_PLACE: u16 = 1_074;

/// The place of the largest numbers.
pub const LAST_PLACE: u16 = 2_045;

/// The least mantissa of 53 bits.
pub const HALF_PRECISION: i64 = 0x10_0000_0000_0000;

/// Decimal places that are looked at, digit by digit, to round a number.
pub const PLACES: i128 = 1_100;

/// Digits before the point with which a number is too large to be finite.
pub const MOST_DIGITS: i128 = 400;

/// The largest exponent that a number is read with; no text is long enough for a
/// larger one to make a difference.
pub const MAX_EXPONENT: i128 = 1_000_000_000_000_000_000_000_000_000_000;

/// A number of a PDF file: `mantissa` times two to the power of `place` steps, an
/// infinity, or the value of `+nan`.
#[derive(Debug, Clone, Copy, PartialEq, Eq, Structural)]
pub enum PdfNumber {
    Finite { mantissa: i64, place: u16 },
    Infinite(bool),
    NotANumber,
}

/// The steps of one whole unit.
pub open spec fn one() -> int {
    pow2(ONE_PLACE as nat) as int
}

/// The first place from `p` on at which `n / d` has no more than 53 bits before
/// the point; the one behind the last place, if there is none.
pub open spec fn place_from(n: int, d: int, p: int) -> int
    decreases LAST_PLACE + 1 - p,
{
    if p > LAST_PLACE || n < PRECISION * (d * pow2(p as nat)) {
        p
    } else {
        place_from(n, d, p + 1)
    }
}

/// The number nearest to `n / d` steps; of two that are as near, the one that
/// ends in a zero bit.
pub open spec fn nearest(n: int, d: int) -> PdfNumber {
    let place = place_from(n, d, 0);
    let mantissa = rounded(n, d * pow2(place as nat));
    if place > LAST_PLACE {
        PdfNumber::Infinite(false)
    } else if mantissa < PRECISION {
        PdfNumber::Finite { mantissa: mantissa as i64, place: place as u16 }
    } else if place == LAST_PLACE {
        PdfNumber::Infinite(false)
    } else {
        PdfNumber::Finite { mantissa: HALF_PRECISION, place: (place + 1) as u16 }
    }
}

/// Ten to the power of `x`.
pub open spec fn tens(x: int) -> int
    decreases x,
{
    if x <= 0 {
        1
    } else {
        10 * tens(x - 1)
    }
}

/// `n` times ten to the power of `x`.
pub open spec fn tenfold(n: int, x: int) -> PdfNumber {
    if x >= 0 {
        nearest(n * tens(x) * one(), 1)
    } else {
        nearest(n * one(), tens(-x))
    }
}

pub open spec fn nothing() -> PdfNumber {
    PdfNumber::Finite { mantissa: 0, place: 0 }
}

/// Half a unit.
pub open spec fn half() -> PdfNumber {
    nearest(one(), 2)
}

/// A thousandth of a unit.
pub open spec fn thousandth() -> PdfNumber {
    nearest(one(), 1000)
}

pub open spec fn is_digit(byte: u8) -> bool {
    48 <= byte <= 57
}

/// The first position from `i` on that holds no decimal digit.
pub open spec fn digits_end(s: Seq<u8>, i: int) -> int
    decreases s.len() - i,
{
    if 0 <= i < s.len() && is_digit(s[i]) {
        digits_end(s, i + 1)
    } else {
        i
    }
}

proof fn lemma_digits_end(s: Seq<u8>, i: int)
    requires
        0 <= i <= s.len(),
    ensures
        i <= digits_end(s, i) <= s.len(),
        forall|k: int| i <= k < digits_end(s, i) ==> is_digit(#[trigger] s[k]),
    decreases s.len() - i,
{
    if i < s.len() && is_digit(s[i]) {
        lemma_digits_end(s, i + 1);
    }
}

pub open spec fn min(a: int, b: int) -> int {
    if a <= b {
        a
    } else {
        b
    }
}

/// The number that the digits `s[from..to]` write, never above `cap`.
pub open spec fn capped_value(s: Seq<u8>, from: int, to: int, cap: int) -> int
    decreases to - from,
{
    if to <= from {
        0
    } else {
        min(cap, capped_value(s, from, to - 1, cap) * 10 + (s[to - 1] - 48))
    }
}

/// The digit at `i` of a digit string that has its decimal point after
/// `whole` digits, counted without the point; zero behind its end.
pub open spec fn digit_at(s: Seq<u8>, whole: int, end: int, i: int) -> int {
    if i < whole {
        s[i] - 48
    } else if i + 1 < end {
        s[i + 1] - 48
    } else {
        0
    }
}

/// The value of the first `count` digits of that string.
pub open spec fn leading_value(s: Seq<u8>, whole: int, end: int, count: int) -> int
    decreases count,
{
    if count <= 0 {
        0
    } else {
        leading_value(s, whole, end, count - 1) * 10 + digit_at(s, whole, end, count - 1)
    }
}

/// How many digits that string has.
pub open spec fn digit_count(whole: int, end: int) -> int {
    if end > whole {
        end - 1
    } else {
        end
    }
}

/// The first digit from `i` on that is not zero; the end, if there is none.
pub open spec fn zeros_end(s: Seq<u8>, whole: int, end: int, i: int) -> int
    decreases digit_count(whole, end) - i,
{
    if i < digit_count(whole, end) && digit_at(s, whole, end, i) == 0 {
        zeros_end(s, whole, end, i + 1)
    } else {
        i
    }
}

/// A digit string with an exponent: the number nearest to it.
pub open spec fn magnitude(s: Seq<u8>, whole: int, end: int, exponent: int) -> PdfNumber {
    let count = digit_count(whole, end);
    tenfold(leading_value(s, whole, end, count), whole + exponent - count)
}

/// Where the digits of an unsigned decimal end: behind the fraction, if it
/// has one.
pub open spec fn fraction_end(s: Seq<u8>) -> int {
    let whole = digits_end(s, 0);
    if whole < s.len() && s[whole] == 46 {
        digits_end(s, whole + 1)
    } else {
        whole
    }
}

/// The exponent that stands at `end`: none is zero, and `None` is a text that
/// is no exponent.
pub open spec fn exponent_at(s: Seq<u8>, end: int) -> Option<int> {
    if end == s.len() {
        Some(0int)
    } else if s[end] != 69 && s[end] != 101 {
        None
    } else {
        let signed = end + 1 < s.len() && (s[end + 1] == 43 || s[end + 1] == 45);
        let first = if signed {
            end + 2
        } else {
            end + 1
        };
        if first >= s.len() || digits_end(s, first) != s.len() {
            None
        } else {
            let value = capped_value(s, first, s.len() as int, MAX_EXPONENT as int);
            if signed && s[end + 1] == 45 {
                Some(-value)
            } else {
                Some(value)
            }
        }
    }
}

pub open spec fn lower(byte: u8) -> u8 {
    if 65 <= byte <= 90 {
        (byte + 32) as u8
    } else {
        byte
    }
}

/// `s[from..]` reads `word`, whatever the case of its letters.
pub open spec fn reads(s: Seq<u8>, from: int, word: Seq<u8>) -> bool {
    &&& s.len() == from + word.len()
    &&& forall|i: int| 0 <= i < word.len() ==> lower(#[trigger] s[from + i]) == word[i]
}

pub open spec fn word_inf() -> Seq<u8> {
    seq![105u8, 110, 102]
}

pub open spec fn word_infinity() -> Seq<u8> {
    seq![105u8, 110, 102, 105, 110, 105, 116, 121]
}

pub open spec fn word_nan() -> Seq<u8> {
    seq![110u8, 97, 110]
}

/// The magnitude of an unsigned decimal, if `s` is one.
pub open spec fn decimal(s: Seq<u8>) -> Option<PdfNumber> {
    let whole = digits_end(s, 0);
    let end = fraction_end(s);
    if whole == 0 && end <= 1 {
        None
    } else {
        match exponent_at(s, end) {
            None => None,
            Some(exponent) => Some(magnitude(s, whole, end, exponent)),
        }
    }
}

pub open spec fn is_signed(s: Seq<u8>) -> bool {
    s.len() > 0 && (s[0] == 43 || s[0] == 45)
}

/// The number that `s` writes: an optional sign, then digits with an optional
/// point and exponent, or a word for an infinity or for no number.
pub open spec fn number_of(s: Seq<u8>) -> Option<PdfNumber> {
    let negative = s.len() > 0 && s[0] == 45;
    let body = if is_signed(s) {
        s.skip(1)
    } else {
        s
    };
    if reads(body, 0, word_inf()) || reads(body, 0, word_infinity()) {
        Some(PdfNumber::Infinite(negative))
    } else if reads(body, 0, word_nan()) {
        Some(PdfNumber::NotANumber)
    } else {
        match decimal(body) {
            None => None,
            Some(number) => Some(
                if negative {
                    number.negated_spec()
                } else {
                    number
                },
            ),
        }
    }
}

fn scan_digits(s: &[u8], from: usize) -> (r: usize)
    requires
        from <= s@.len(),
    ensures
        r == digits_end(s@, from as int),
        from <= r <= s@.len(),
{
    let mut i: usize = from;
    while i < s.len() && s[i] >= 48 && s[i] <= 57
        invariant
            from <= i <= s@.len(),
            digits_end(s@, i as int) == digits_end(s@, from as int),
        decreases s@.len() - i,
    {
        i += 1;
    }
    i
}

fn reads_word(s: &[u8], word: &[u8]) -> (r: bool)
    ensures
        r == reads(s@, 0, word@),
{
    if s.len() != word.len() {
        return false;
    }
    let mut i: usize = 0;
    while i < word.len()
        invariant
            i <= word@.len(),
            s@.len() == word@.len(),
            forall|k: int| 0 <= k < i ==> lower(#[trigger] s@[0 + k]) == word@[k],
        decreases word@.len() - i,
    {
        let byte: u8 = s[i];
        let small: u8 = if byte >= 65 && byte <= 90 {
            byte + 32
        } else {
            byte
        };
        if small != word[i] {
            assert(lower(s@[0 + i as int]) != word@[i as int]);
            return false;
        }
        i += 1;
    }
    true
}

fn read_exponent(s: &[u8], end: usize) -> (r: Option<i128>)
    requires
        end <= s@.len(),
    ensures
        r is Some <==> exponent_at(s@, end as int) is Some,
        r is Some ==> r->0 == exponent_at(s@, end as int)->0 && -MAX_EXPONENT <= r->0
            <= MAX_EXPONENT,
{
    if end == s.len() {
        return Some(0i128);
    }
    if s[end] != 69 && s[end] != 101 {
        return None;
    }
    let signed: bool = end + 1 < s.len() && (s[end + 1] == 43 || s[end + 1] == 45);
    let first: usize = if signed {
        end + 2
    } else {
        end + 1
    };
    if first >= s.len() {
        return None;
    }
    let last: usize = scan_digits(s, first);
    if last != s.len() {
        return None;
    }
    proof {
        lemma_digits_end(s@, first as int);
    }
    let mut value: i128 = 0;
    let mut i: usize = first;
    while i < s.len()
        invariant
            first <= i <= s@.len(),
            0 <= value <= MAX_EXPONENT,
            value == capped_value(s@, first as int, i as int, MAX_EXPONENT as int),
            forall|k: int| first <= k < s@.len() ==> is_digit(#[trigger] s@[k]),
        decreases s@.len() - i,
    {
        assert(is_digit(s@[i as int]));
        value = value * 10 + (s[i] - 48) as i128;
        if value > MAX_EXPONENT {
            value = MAX_EXPONENT;
        }
        i += 1;
    }
    if signed && s[end + 1] == 45 {
        Some(-value)
    } else {
        Some(value)
    }
}

fn digit_of(s: &[u8], whole: usize, end: usize, i: usize) -> (r: i128)
    requires
        whole <= end <= s@.len(),
        forall|k: int| 0 <= k < end && k != whole ==> is_digit(#[trigger] s@[k]),
    ensures
        r == digit_at(s@, whole as int, end as int, i as int),
        0 <= r <= 9,
{
    if i < whole {
        assert(is_digit(s@[i as int]));
        (s[i] - 48) as i128
    } else if i < end && i + 1 < end {
        assert(is_digit(s@[i as int + 1]));
        (s[i + 1] - 48) as i128
    } else {
        0
    }
}

/// Two to the power of `k`.
fn power_of_two(k: u32) -> (r: u64)
    requires
        k < 64,
    ensures
        r == pow2(k as nat),
{
    proof {
        lemma2_to64();
        vstd::arithmetic::power2::lemma2_to64_rest();
    }
    let mut r: u64 = 1;
    let mut i: u32 = 0;
    while i < k
        invariant
            i <= k < 64,
            r == pow2(i as nat),
            pow2(63) == 0x8000_0000_0000_0000,
        decreases k - i,
    {
        proof {
            lemma_pow2_unfold((i + 1) as nat);
            if i < 63 {
                lemma_pow2_strictly_increases(i as nat, 63);
            }
        }
        r = r * 2;
        i += 1;
    }
    r
}

/// The places before the one that is found are too fine.
pub proof fn lemma_place_from(n: int, d: int, q: int, p: int)
    requires
        0 < d,
        0 <= q <= p <= LAST_PLACE + 1,
        p > LAST_PLACE || n < PRECISION * (d * pow2(p as nat)),
        p > 0 ==> n >= PRECISION * (d * pow2((p - 1) as nat)),
    ensures
        place_from(n, d, q) == p,
    decreases p - q,
{
    if q < p {
        if q < p - 1 {
            lemma_pow2_strictly_increases(q as nat, (p - 1) as nat);
        }
        let fine = pow2(q as nat) as int;
        let coarse = pow2((p - 1) as nat) as int;
        assert(PRECISION * (d * fine) <= PRECISION * (d * coarse)) by (nonlinear_arith)
            requires
                0 < d,
                fine <= coarse,
        ;
        lemma_place_from(n, d, q + 1, p);
    }
}

/// Rounding goes by the ratio.
pub proof fn lemma_rounded(n: int, d: int, k: int)
    requires
        0 <= n,
        0 < d,
        0 < k,
    ensures
        rounded(n * k, d * k) == rounded(n, d),
{
    let q = n / d;
    let r = n % d;
    assert(n == q * d + r) by (nonlinear_arith)
        requires
            q == n / d,
            r == n % d,
            0 < d,
    ;
    assert(n * k == q * (d * k) + r * k) by (nonlinear_arith)
        requires
            n == q * d + r,
    ;
    assert(0 <= r * k < d * k) by (nonlinear_arith)
        requires
            0 <= r < d,
            0 < k,
    ;
    lemma_fundamental_div_mod_converse(n * k, d * k, q, r * k);
    assert((2 * r < d) == (2 * (r * k) < d * k)) by (nonlinear_arith)
        requires
            0 < k,
    ;
    assert((2 * r == d) == (2 * (r * k) == d * k)) by (nonlinear_arith)
        requires
            0 < k,
    ;
}

/// What lies at a place that all finer ones are too fine for is rounded there.
proof fn lemma_nearest(n: int, d: int, num: int, den: int, k: int, p: int)
    requires
        0 <= num,
        0 < d,
        0 < den,
        0 < k,
        0 <= p <= LAST_PLACE,
        n == num * k,
        d * pow2(p as nat) == den * k,
        num < PRECISION * den,
        p > 0 ==> 2 * num >= PRECISION * den,
    ensures
        nearest(n, d) == if rounded(num, den) < PRECISION {
            PdfNumber::Finite { mantissa: rounded(num, den) as i64, place: p as u16 }
        } else if p == LAST_PLACE {
            PdfNumber::Infinite(false)
        } else {
            PdfNumber::Finite { mantissa: HALF_PRECISION, place: (p + 1) as u16 }
        },
{
    let here = pow2(p as nat) as int;
    assert(n < PRECISION * (d * here)) by (nonlinear_arith)
        requires
            n == num * k,
            d * here == den * k,
            num < PRECISION * den,
            0 < k,
    ;
    if p > 0 {
        lemma_pow2_unfold(p as nat);
        let finer = pow2((p - 1) as nat) as int;
        assert(n >= PRECISION * (d * finer)) by (nonlinear_arith)
            requires
                n == num * k,
                d * here == den * k,
                here == 2 * finer,
                2 * num >= PRECISION * den,
                0 < k,
        ;
    }
    lemma_place_from(n, d, 0, p);
    lemma_rounded(num, den, k);
}

/// The number nearest to a ratio: `num` times two to the power of `start` steps,
/// divided by `den`.
fn settle(num: Big, den: &Big, start: u16) -> (r: PdfNumber)
    requires
        den@ > 0,
        start <= LAST_PLACE,
    ensures
        r == nearest(num@ * pow2(start as nat), den@),
        r.wf(),
{
    let ghost n0 = num@;
    let ghost d0 = den@;
    let ghost scale = pow2(start as nat) as int;
    let ghost total = n0 * scale;
    proof {
        num.lemma_view();
        lemma2_to64();
        vstd::arithmetic::power2::lemma2_to64_rest();
        lemma_pow2_pos(start as nat);
    }
    let mut n: Big = num;
    let mut bound: Big = den.copied();
    bound.double(53);
    let ghost mut part: int = d0;
    let ghost mut k: int = scale;
    let mut p: u16 = start;
    assert(bound@ == PRECISION * d0) by (nonlinear_arith)
        requires
            bound@ == d0 * pow2(53),
            pow2(53) == PRECISION,
    ;
    if n.is_below(&bound) {
        let mut step: u16 = 16;
        while p > 0 && step > 0
            invariant
                pow2(16) == 0x1_0000,
                pow2(1) == 2,
                0 <= n@,
                bound@ == PRECISION * d0,
                k == pow2(p as nat),
                total == n@ * k,
                n@ < bound@,
                p <= LAST_PLACE,
                step == 16 || step == 1 || step == 0,
                step == 0 ==> 2 * n@ >= bound@,
            decreases step, p,
        {
            let ghost before = n@;
            if p < step {
                step = 1;
            } else {
                let mut finer: Big = n.copied();
                finer.double(step as u32);
                if finer.is_below(&bound) {
                    n = finer;
                    p = p - step;
                    proof {
                        lemma_pow2_adds(p as nat, step as nat);
                        lemma_pow2_pos(p as nat);
                        let less = pow2(p as nat) as int;
                        let by = pow2(step as nat) as int;
                        assert(n@ * less == before * k) by (nonlinear_arith)
                            requires
                                n@ == before * by,
                                k == less * by,
                        ;
                        assert(0 <= before * by) by (nonlinear_arith)
                            requires
                                0 <= before,
                                0 <= by,
                        ;
                        k = less;
                    }
                } else if step == 16 {
                    step = 1;
                } else {
                    step = 0;
                }
            }
        }
        proof {
            lemma_pow2_pos(p as nat);
        }
    } else {
        while p <= LAST_PLACE && !n.is_below(&bound)
            invariant
                0 <= n@,
                n@ == n0,
                d0 > 0,
                start <= p <= LAST_PLACE + 1,
                part > 0,
                k == pow2(start as nat),
                k > 0,
                total == n0 * k,
                bound@ == PRECISION * part,
                d0 * pow2(p as nat) == part * k,
                p > start ==> 2 * n@ >= bound@,
                p == start ==> n@ >= bound@,
            decreases LAST_PLACE + 1 - p,
        {
            let ghost before = bound@;
            bound.double(1);
            proof {
                lemma2_to64();
                lemma_pow2_unfold((p + 1) as nat);
                let here = pow2(p as nat) as int;
                assert(d0 * (2 * here) == (2 * part) * k) by (nonlinear_arith)
                    requires
                        d0 * here == part * k,
                ;
                part = 2 * part;
            }
            p += 1;
        }
        if p > LAST_PLACE {
            proof {
                let last = pow2(LAST_PLACE as nat) as int;
                lemma_pow2_unfold((LAST_PLACE + 1) as nat);
                assert(total >= PRECISION * (d0 * last)) by (nonlinear_arith)
                    requires
                        total == n0 * k,
                        d0 * (2 * last) == part * k,
                        2 * n0 >= PRECISION * part,
                        0 < k,
                ;
                lemma_place_from(total, d0, 0, LAST_PLACE + 1);
            }
            return PdfNumber::Infinite(false);
        }
    }
    proof {
        assert(d0 * pow2(p as nat) == part * k);
        lemma_nearest(total, d0, n@, part, k, p as int);
    }
    let mantissa: u64 = divide(n, &bound, Ghost(part));
    if mantissa < PRECISION as u64 {
        PdfNumber::Finite { mantissa: mantissa as i64, place: p }
    } else if p == LAST_PLACE {
        PdfNumber::Infinite(false)
    } else {
        PdfNumber::Finite { mantissa: HALF_PRECISION, place: p + 1 }
    }
}

/// `n` divided by `den`, rounded; `bound` is `den` times two to the power of 53.
fn divide(n: Big, bound: &Big, Ghost(den): Ghost<int>) -> (r: u64)
    requires
        0 < den,
        bound@ == PRECISION * den,
        0 <= n@ < bound@,
    ensures
        r == rounded(n@, den),
        r <= PRECISION,
        2 * n@ >= bound@ ==> r >= HALF_PRECISION,
{
    let ghost n0 = n@;
    let mut rest: Big = n;
    let mut q: u64 = 0;
    let mut i: u32 = 0;
    proof {
        lemma2_to64();
        vstd::arithmetic::power2::lemma2_to64_rest();
    }
    while i < 53
        invariant
            i <= 53,
            pow2(53) == PRECISION,
            pow2(1) == 2,
            0 <= rest@ < bound@,
            n0 * pow2(i as nat) == q * bound@ + rest@,
            q < pow2(i as nat),
        decreases 53 - i,
    {
        let ghost before = rest@;
        let ghost half = q as int;
        let ghost power = pow2(i as nat) as int;
        proof {
            lemma_pow2_unfold((i + 1) as nat);
            lemma_pow2_strictly_increases(i as nat, 53);
        }
        rest.double(1);
        q = q * 2;
        assert(n0 * (2 * power) == (2 * half) * bound@ + 2 * before) by (nonlinear_arith)
            requires
                n0 * power == half * bound@ + before,
        ;
        if !rest.is_below(bound) {
            rest.subtract(bound);
            q = q + 1;
            assert((2 * half + 1) * bound@ == (2 * half) * bound@ + bound@) by (nonlinear_arith);
        }
        i += 1;
    }
    let ghost left = n0 - q * den;
    proof {
        assert(rest@ == PRECISION * left) by (nonlinear_arith)
            requires
                n0 * PRECISION == q * bound@ + rest@,
                bound@ == PRECISION * den,
                left == n0 - q * den,
        ;
        lemma_fundamental_div_mod_converse(n0, den, q as int, left);
    }
    let ghost remainder = rest@;
    rest.double(1);
    let mut r: u64 = q;
    if bound.is_below(&rest) || !rest.is_below(bound) && q % 2 == 1 {
        r = q + 1;
    }
    proof {
        if 2 * n0 >= bound@ {
            assert(q >= HALF_PRECISION) by (nonlinear_arith)
                requires
                    n0 == q * den + left,
                    left < den,
                    2 * n0 >= PRECISION * den,
                    PRECISION == 2 * HALF_PRECISION,
                    0 < den,
            ;
        }
    }
    r
}

/// Leading zeros add nothing.
proof fn lemma_zeros(s: Seq<u8>, whole: int, end: int, i: int)
    requires
        0 <= i,
        leading_value(s, whole, end, i) == 0,
    ensures
        i <= zeros_end(s, whole, end, i),
        i <= digit_count(whole, end) ==> zeros_end(s, whole, end, i) <= digit_count(whole, end),
        leading_value(s, whole, end, zeros_end(s, whole, end, i)) == 0,
    decreases digit_count(whole, end) - i,
{
    if i < digit_count(whole, end) && digit_at(s, whole, end, i) == 0 {
        lemma_zeros(s, whole, end, i + 1);
    }
}

fn skip_zeros(s: &[u8], whole: usize, end: usize, from: usize) -> (r: usize)
    requires
        whole <= end <= s@.len(),
        from <= digit_count(whole as int, end as int),
        forall|k: int| 0 <= k < end && k != whole ==> is_digit(#[trigger] s@[k]),
    ensures
        r == zeros_end(s@, whole as int, end as int, from as int),
        from <= r <= digit_count(whole as int, end as int),
{
    let count: usize = if end > whole {
        end - 1
    } else {
        end
    };
    let mut i: usize = from;
    while i < count && digit_of(s, whole, end, i) == 0
        invariant
            whole <= end <= s@.len(),
            count == digit_count(whole as int, end as int),
            from <= i <= count,
            forall|k: int| 0 <= k < end && k != whole ==> is_digit(#[trigger] s@[k]),
            zeros_end(s@, whole as int, end as int, i as int) == zeros_end(
                s@,
                whole as int,
                end as int,
                from as int,
            ),
        decreases count - i,
    {
        i += 1;
    }
    i
}

fn read_tenfold(digits: Big, x: i128) -> (r: PdfNumber)
    requires
        -PLACES - 1 <= x <= MOST_DIGITS,
    ensures
        r == tenfold(digits@, x as int),
        r.wf(),
{
    let ghost n = digits@;
    let mut num: Big = digits;
    let mut den: Big = Big::new(1);
    let mut i: i128 = 0;
    if x >= 0 {
        assert(n * tens(0) == n);
        while i < x
            invariant
                0 <= i <= x,
                num@ == n * tens(i as int),
            decreases x - i,
        {
            num.multiply_add(10, 0);
            assert(10 * (n * tens(i as int)) + 0 == n * (10 * tens(i as int)))
                by (nonlinear_arith);
            i += 1;
        }
    } else {
        while i < -x
            invariant
                -PLACES - 1 <= x,
                0 <= i <= -x,
                den@ == tens(i as int),
                den@ > 0,
            decreases -x - i,
        {
            den.multiply_add(10, 0);
            i += 1;
        }
    }
    settle(num, &den, ONE_PLACE)
}

/// The digits from `from` up to `to`, behind zeros only.
fn read_digits(s: &[u8], whole: usize, end: usize, from: usize, to: usize) -> (r: Big)
    requires
        whole <= end <= s@.len(),
        from <= to <= s@.len(),
        forall|k: int| 0 <= k < end && k != whole ==> is_digit(#[trigger] s@[k]),
        leading_value(s@, whole as int, end as int, from as int) == 0,
    ensures
        r@ == leading_value(s@, whole as int, end as int, to as int),
{
    let mut digits: Big = Big::new(0);
    let mut i: usize = from;
    while i < to
        invariant
            whole <= end <= s@.len(),
            from <= i <= to <= s@.len(),
            forall|k: int| 0 <= k < end && k != whole ==> is_digit(#[trigger] s@[k]),
            digits@ == leading_value(s@, whole as int, end as int, i as int),
        decreases to - i,
    {
        let d: i128 = digit_of(s, whole, end, i);
        digits.multiply_add(10, d as u32);
        i += 1;
    }
    digits
}

/// Digits that make a small whole number.
fn read_small(s: &[u8], whole: usize, end: usize, from: usize, to: usize) -> (r: PdfNumber)
    requires
        whole <= end <= s@.len(),
        from <= to <= s@.len(),
        to - from <= 15,
        forall|k: int| 0 <= k < end && k != whole ==> is_digit(#[trigger] s@[k]),
        leading_value(s@, whole as int, end as int, from as int) == 0,
    ensures
        r == tenfold(leading_value(s@, whole as int, end as int, to as int), 0),
        r.wf(),
{
    let mut value: u64 = 0;
    let mut most: u64 = 1;
    let mut i: usize = from;
    while i < to
        invariant
            whole <= end <= s@.len(),
            from <= i <= to <= s@.len(),
            to - from <= 15,
            forall|k: int| 0 <= k < end && k != whole ==> is_digit(#[trigger] s@[k]),
            value == leading_value(s@, whole as int, end as int, i as int),
            value < most,
            most == tens(i - from),
            most <= 1_000_000_000_000_000,
        decreases to - i,
    {
        let d: i128 = digit_of(s, whole, end, i);
        proof {
            lemma_tens(i + 1 - from);
            assert(tens(i + 1 - from) == 10 * tens(i - from));
        }
        value = value * 10 + d as u64;
        most = most * 10;
        i += 1;
    }
    assert(value * tens(0) * one() == value * one());
    PdfNumber::whole(value)
}

proof fn lemma_tens(n: int)
    requires
        n <= 15,
    ensures
        tens(n) <= 1_000_000_000_000_000,
{
    reveal_with_fuel(tens, 17);
}

fn read_decimal(s: &[u8]) -> (r: Option<PdfNumber>)
    ensures
        r == decimal(s@),
        r is Some ==> r->0.wf(),
{
    let whole: usize = scan_digits(s, 0);
    let mut end: usize = whole;
    if whole < s.len() && s[whole] == 46 {
        end = scan_digits(s, whole + 1);
    }
    if whole == 0 && end <= 1 {
        return None;
    }
    let exponent: i128 = match read_exponent(s, end) {
        None => {
            return None;
        },
        Some(e) => e,
    };
    proof {
        lemma_digits_end(s@, 0);
        if whole < s@.len() {
            lemma_digits_end(s@, whole + 1);
        }
    }
    let count: usize = if end > whole {
        end - 1
    } else {
        end
    };
    let first: usize = skip_zeros(s, whole, end, 0);
    proof {
        lemma_zeros(s@, whole as int, end as int, 0);
        decimal::law_late_digits_do_not_matter(
            s@,
            whole as int,
            end as int,
            exponent as int,
        );
    }
    let point: i128 = whole as i128 + exponent;
    if first >= count || point - (first as i128) < -PLACES {
        return Some(PdfNumber::Finite { mantissa: 0, place: 0 });
    }
    if point - first as i128 > MOST_DIGITS {
        return Some(PdfNumber::Infinite(false));
    }
    let kept: usize = if count as i128 <= point + PLACES {
        count
    } else {
        (point + PLACES) as usize
    };
    if skip_zeros(s, whole, end, kept) < count {
        let mut digits: Big = read_digits(s, whole, end, first, kept);
        digits.multiply_add(10, 1);
        Some(read_tenfold(digits, point - kept as i128 - 1))
    } else if point == kept as i128 && kept - first <= 15 {
        Some(read_small(s, whole, end, first, kept))
    } else {
        Some(read_tenfold(read_digits(s, whole, end, first, kept), point - kept as i128))
    }
}

/// Reads a number of a PDF file.
pub fn parse_number(s: &[u8]) -> (r: Option<PdfNumber>)
    ensures
        r == number_of(s@),
        r is Some ==> r->0.wf(),
{
    let negative: bool = s.len() > 0 && s[0] == 45;
    let body: &[u8] = if s.len() > 0 && (s[0] == 43 || s[0] == 45) {
        vstd::slice::slice_subrange(s, 1, s.len())
    } else {
        s
    };
    assert(is_signed(s@) ==> body@ =~= s@.skip(1));
    let inf: [u8; 3] = [105u8, 110, 102];
    let infinity: [u8; 8] = [105u8, 110, 102, 105, 110, 105, 116, 121];
    let nan: [u8; 3] = [110u8, 97, 110];
    assert(inf@ =~= word_inf());
    assert(infinity@ =~= word_infinity());
    assert(nan@ =~= word_nan());
    if reads_word(body, &inf) || reads_word(body, &infinity) {
        return Some(PdfNumber::Infinite(negative));
    }
    if reads_word(body, &nan) {
        return Some(PdfNumber::NotANumber);
    }
    match read_decimal(body) {
        None => None,
        Some(number) => Some(
            if negative {
                number.negated()
            } else {
                number
            },
        ),
    }
}

pub open spec fn abs(value: int) -> int {
    if value < 0 {
        -value
    } else {
        value
    }
}

/// A whole number that a mantissa holds is exact.
pub proof fn lemma_whole(n: int)
    requires
        0 <= n < PRECISION,
    ensures
        nearest(n * one(), 1) is Finite,
        nearest(n * one(), 1).steps() == n * one(),
        nearest(n * one(), 1).wf(),
{
    lemma_exact(n, ONE_PLACE as int);
}

/// A number of few enough bits is exact.
proof fn lemma_exact(m: int, p: int)
    requires
        0 <= m < PRECISION,
        0 <= p <= ONE_PLACE,
    ensures
        nearest(m * pow2(p as nat), 1) is Finite,
        nearest(m * pow2(p as nat), 1).steps() == m * pow2(p as nat),
        nearest(m * pow2(p as nat), 1).wf(),
    decreases p,
{
    let k = pow2(p as nat) as int;
    lemma_pow2_pos(p as nat);
    if p == 0 || 2 * m >= PRECISION {
        lemma_nearest(m * k, 1, m, 1, k, p);
    } else {
        lemma_pow2_unfold(p as nat);
        let finer = pow2((p - 1) as nat) as int;
        assert((2 * m) * finer == m * k) by (nonlinear_arith)
            requires
                k == 2 * finer,
        ;
        lemma_exact(2 * m, p - 1);
    }
}

/// Division goes by the ratio.
proof fn lemma_scaled(n: int, d: int, k: int)
    requires
        0 <= n,
        0 < d,
        0 < k,
    ensures
        (n * k) / (d * k) == n / d,
        (n * k) % (d * k) == (n % d) * k,
        ((n * k) % (d * k) == 0) == (n % d == 0),
{
    let q = n / d;
    let r = n % d;
    assert(n == q * d + r) by (nonlinear_arith)
        requires
            q == n / d,
            r == n % d,
            0 < d,
    ;
    assert(n * k == q * (d * k) + r * k) by (nonlinear_arith)
        requires
            n == q * d + r,
    ;
    assert(0 <= r * k < d * k) by (nonlinear_arith)
        requires
            0 <= r < d,
            0 < k,
    ;
    assert((r * k == 0) == (r == 0)) by (nonlinear_arith)
        requires
            0 < k,
    ;
    lemma_fundamental_div_mod_converse(n * k, d * k, q, r * k);
}

impl PdfNumber {
    /// How many steps a finite number has.
    pub open spec fn steps(self) -> int {
        match self {
            PdfNumber::Finite { mantissa, place } => mantissa * pow2(place as nat),
            _ => 0,
        }
    }

    /// A finite number's mantissa has 53 bits, and fewer only at the first place.
    pub open spec fn wf(self) -> bool {
        self matches PdfNumber::Finite { mantissa, place } ==> {
            &&& -PRECISION < mantissa < PRECISION
            &&& place <= LAST_PLACE
            &&& place > 0 ==> mantissa >= HALF_PRECISION || mantissa <= -HALF_PRECISION
        }
    }

    /// The number nearest to the whole number `value`.
    pub fn whole(value: u64) -> (r: PdfNumber)
        ensures
            r == nearest(value * one(), 1),
            r.wf(),
    {
        if value >= PRECISION as u64 {
            let num: Big = Big::new(value);
            return settle(num, &Big::new(1), ONE_PLACE);
        }
        let mut mantissa: u64 = value;
        let mut place: u16 = ONE_PLACE;
        while place > 0 && mantissa < HALF_PRECISION as u64
            invariant
                place <= ONE_PLACE,
                mantissa < PRECISION,
                mantissa * pow2(place as nat) == value * one(),
            decreases place,
        {
            proof {
                lemma_pow2_unfold(place as nat);
                let finer = pow2((place - 1) as nat) as int;
                assert((2 * mantissa) * finer == mantissa * (2 * finer)) by (nonlinear_arith);
            }
            mantissa = mantissa * 2;
            place = place - 1;
        }
        proof {
            let k = pow2(place as nat) as int;
            lemma_pow2_pos(place as nat);
            lemma_nearest(value * one(), 1, mantissa as int, 1, k, place as int);
        }
        PdfNumber::Finite { mantissa: mantissa as i64, place }
    }

    /// The sum, rounded; opposite infinities have none.
    pub open spec fn plus_spec(self, other: PdfNumber) -> PdfNumber {
        match (self, other) {
            (PdfNumber::Finite { .. }, PdfNumber::Finite { .. }) => {
                let sum = self.steps() + other.steps();
                if sum < 0 {
                    nearest(-sum, 1).negated_spec()
                } else {
                    nearest(sum, 1)
                }
            },
            (PdfNumber::Infinite(a), PdfNumber::Infinite(b)) => if a == b {
                PdfNumber::Infinite(a)
            } else {
                PdfNumber::NotANumber
            },
            (PdfNumber::Infinite(a), PdfNumber::Finite { .. }) => PdfNumber::Infinite(a),
            (PdfNumber::Finite { .. }, PdfNumber::Infinite(b)) => PdfNumber::Infinite(b),
            _ => PdfNumber::NotANumber,
        }
    }

    pub fn plus(self, other: PdfNumber) -> (r: PdfNumber)
        requires
            self.wf(),
            other.wf(),
        ensures
            r == self.plus_spec(other),
            r.wf(),
    {
        match (self, other) {
            (
                PdfNumber::Finite { mantissa: a, place: p },
                PdfNumber::Finite { mantissa: b, place: q },
            ) => {
                if p >= q {
                    finite_sum(a, p, b, q)
                } else {
                    finite_sum(b, q, a, p)
                }
            },
            (PdfNumber::Infinite(a), PdfNumber::Infinite(b)) => {
                if a == b {
                    PdfNumber::Infinite(a)
                } else {
                    PdfNumber::NotANumber
                }
            },
            (PdfNumber::Infinite(a), PdfNumber::Finite { .. }) => PdfNumber::Infinite(a),
            (PdfNumber::Finite { .. }, PdfNumber::Infinite(b)) => PdfNumber::Infinite(b),
            _ => PdfNumber::NotANumber,
        }
    }

    pub open spec fn negated_spec(self) -> PdfNumber {
        match self {
            PdfNumber::Finite { mantissa, place } => PdfNumber::Finite {
                mantissa: (-mantissa) as i64,
                place,
            },
            PdfNumber::Infinite(a) => PdfNumber::Infinite(!a),
            PdfNumber::NotANumber => PdfNumber::NotANumber,
        }
    }

    pub fn negated(self) -> (r: PdfNumber)
        requires
            self.wf(),
        ensures
            r == self.negated_spec(),
            r.wf(),
    {
        match self {
            PdfNumber::Finite { mantissa, place } => PdfNumber::Finite {
                mantissa: -mantissa,
                place,
            },
            PdfNumber::Infinite(a) => PdfNumber::Infinite(!a),
            PdfNumber::NotANumber => PdfNumber::NotANumber,
        }
    }

    /// The magnitude is above another number.
    pub open spec fn exceeds_spec(self, limit: PdfNumber) -> bool {
        match self {
            PdfNumber::Finite { .. } => abs(self.steps()) > limit.steps(),
            PdfNumber::Infinite(_) => true,
            PdfNumber::NotANumber => false,
        }
    }

    /// Whether the magnitude is above half a unit.
    pub fn exceeds_half(self) -> (r: bool)
        requires
            self.wf(),
        ensures
            r == self.exceeds_spec(half()),
    {
        proof {
            lemma_half();
        }
        self.exceeds(HALF_PRECISION, ONE_PLACE - 53)
    }

    /// Whether the magnitude is above a thousandth of a unit.
    pub fn exceeds_thousandth(self) -> (r: bool)
        requires
            self.wf(),
        ensures
            r == self.exceeds_spec(thousandth()),
    {
        proof {
            lemma_thousandth();
        }
        self.exceeds(THOUSANDTH, ONE_PLACE - 62)
    }

    fn exceeds(self, limit: i64, at: u16) -> (r: bool)
        requires
            self.wf(),
            HALF_PRECISION <= limit < PRECISION,
            0 < at <= LAST_PLACE,
        ensures
            r == self.exceeds_spec(PdfNumber::Finite { mantissa: limit, place: at }),
    {
        match self {
            PdfNumber::Finite { mantissa, place } => {
                let size: i64 = if mantissa < 0 {
                    -mantissa
                } else {
                    mantissa
                };
                proof {
                    lemma_pow2_pos(place as nat);
                    lemma_abs(mantissa as int, pow2(place as nat) as int);
                    lemma_order(size as int, place as int, limit as int, at as int);
                }
                place > at || place == at && size > limit
            },
            PdfNumber::Infinite(_) => true,
            PdfNumber::NotANumber => false,
        }
    }

    /// The whole number that this is, if it is one and not negative.
    pub open spec fn whole_spec(self) -> Option<int> {
        if self is Finite && self.steps() >= 0 && self.steps() % one() == 0 {
            Some(self.steps() / one())
        } else {
            None
        }
    }

    /// The whole number that this is, if it is one and not negative; the largest
    /// 64-bit number stands for all above it.
    pub fn whole_part(self) -> (r: Option<u64>)
        ensures
            match self.whole_spec() {
                Some(n) => r is Some && n != u64::MAX && (if n < u64::MAX {
                    r->0 == n
                } else {
                    r->0 == u64::MAX
                }),
                None => r is None,
            },
    {
        match self {
            PdfNumber::Finite { mantissa, place } => {
                let ghost k = pow2(place as nat) as int;
                proof {
                    lemma2_to64();
                    vstd::arithmetic::power2::lemma2_to64_rest();
                    lemma_pow2_pos(place as nat);
                    lemma_pow2_pos(ONE_PLACE as nat);
                    lemma_abs(mantissa as int, k);
                }
                if mantissa < 0 {
                    None
                } else if place >= ONE_PLACE {
                    Some(shifted(mantissa as u64, place))
                } else {
                    let below: u16 = ONE_PLACE - place;
                    let ghost unit = pow2(below as nat) as int;
                    proof {
                        lemma_pow2_adds(below as nat, place as nat);
                        lemma_pow2_pos(below as nat);
                        lemma_scaled(mantissa as int, unit, k);
                    }
                    if below >= 63 {
                        proof {
                            if below > 63 {
                                lemma_pow2_strictly_increases(63, below as nat);
                            }
                            lemma_fundamental_div_mod_converse(
                                mantissa as int,
                                unit,
                                0,
                                mantissa as int,
                            );
                        }
                        if mantissa == 0 {
                            Some(0)
                        } else {
                            None
                        }
                    } else {
                        let whole: u64 = power_of_two(below as u32);
                        let size: u64 = mantissa as u64;
                        proof {
                            assert(size as int / whole as int <= size) by (nonlinear_arith)
                                requires
                                    whole >= 1,
                            ;
                        }
                        if size % whole == 0 {
                            Some(size / whole)
                        } else {
                            None
                        }
                    }
                }
            },
            _ => None,
        }
    }

    /// The whole number from 0 to `max` that this is, if it is one.
    pub open spec fn bounded_spec(self, max: int) -> Option<usize> {
        match self.whole_spec() {
            Some(n) => if n <= max {
                Some(n as usize)
            } else {
                None
            },
            None => None,
        }
    }

    /// A side of a page in points: the rounded magnitude, from 1 to 2000.
    pub open spec fn page_side_spec(self) -> u32 {
        match self {
            PdfNumber::Finite { .. } => {
                let points = (2 * abs(self.steps()) + one()) / (2 * one());
                if points < 1 {
                    1u32
                } else if points > 2000 {
                    2000u32
                } else {
                    points as u32
                }
            },
            PdfNumber::Infinite(_) => 2000u32,
            PdfNumber::NotANumber => 0u32,
        }
    }

    pub fn page_side(self) -> (r: u32)
        requires
            self.wf(),
        ensures
            r == self.page_side_spec(),
    {
        match self {
            PdfNumber::Finite { mantissa, place } => {
                let ghost k = pow2(place as nat) as int;
                let size: u64 = if mantissa < 0 {
                    (-mantissa) as u64
                } else {
                    mantissa as u64
                };
                proof {
                    lemma2_to64();
                    vstd::arithmetic::power2::lemma2_to64_rest();
                    lemma_pow2_pos(place as nat);
                    lemma_pow2_pos(ONE_PLACE as nat);
                    lemma_abs(mantissa as int, k);
                }
                if place >= ONE_PLACE {
                    proof {
                        if place > ONE_PLACE {
                            lemma_pow2_strictly_increases(ONE_PLACE as nat, place as nat);
                        }
                        assert((2 * (size * k) + one()) / (2 * one()) >= 2001) by (nonlinear_arith)
                            requires
                                size >= 2001,
                                k >= one(),
                                one() > 0,
                        ;
                    }
                    return 2000;
                }
                let below: u16 = ONE_PLACE - place;
                let ghost unit = pow2(below as nat) as int;
                proof {
                    lemma_pow2_adds(below as nat, place as nat);
                    lemma_pow2_pos(below as nat);
                    assert((2 * size + unit) * k == 2 * (size * k) + one()) by (nonlinear_arith)
                        requires
                            one() == unit * k,
                    ;
                    assert((2 * unit) * k == 2 * one()) by (nonlinear_arith)
                        requires
                            one() == unit * k,
                    ;
                    lemma_scaled(2 * size + unit, 2 * unit, k);
                }
                if below >= 55 {
                    proof {
                        if below > 55 {
                            lemma_pow2_strictly_increases(55, below as nat);
                        }
                        lemma_fundamental_div_mod_converse(
                            2 * size + unit,
                            2 * unit,
                            0,
                            2 * size + unit,
                        );
                    }
                    return 1;
                }
                let whole: u64 = power_of_two(below as u32);
                proof {
                    if below < 54 {
                        lemma_pow2_strictly_increases(below as nat, 54);
                    }
                }
                let points: u64 = (2 * size + whole) / (2 * whole);
                if points < 1 {
                    1
                } else if points > 2000 {
                    2000
                } else {
                    points as u32
                }
            },
            PdfNumber::Infinite(_) => 2000,
            PdfNumber::NotANumber => 0,
        }
    }
}

/// The whole number that a mantissa makes at a place of whole numbers.
fn shifted(mantissa: u64, place: u16) -> (r: u64)
    requires
        mantissa <= i64::MAX,
        place >= ONE_PLACE,
    ensures
        ({
            let steps = mantissa * pow2(place as nat);
            &&& steps % one() == 0
            &&& steps / one() != u64::MAX
            &&& r == if steps / one() < u64::MAX {
                steps / one()
            } else {
                u64::MAX as int
            }
        }),
{
    let shift: u16 = place - ONE_PLACE;
    let ghost k = pow2(place as nat) as int;
    let ghost times = pow2(shift as nat) as int;
    proof {
        lemma2_to64();
        vstd::arithmetic::power2::lemma2_to64_rest();
        lemma_pow2_pos(ONE_PLACE as nat);
        lemma_pow2_adds(shift as nat, ONE_PLACE as nat);
        lemma_pow2_pos(shift as nat);
        assert(mantissa * k == (mantissa * times) * one()) by (nonlinear_arith)
            requires
                k == times * one(),
        ;
        assert((mantissa * times) * one() == (mantissa * times) * one() + 0);
        lemma_fundamental_div_mod_converse(mantissa * k, one(), mantissa * times, 0);
        if shift > 0 {
            lemma_pow2_unfold(shift as nat);
            let less = pow2((shift - 1) as nat) as int;
            assert(mantissa * (2 * less) == 2 * (mantissa * less)) by (nonlinear_arith);
        } else {
            assert(mantissa * times == mantissa) by (nonlinear_arith)
                requires
                    times == 1,
            ;
        }
    }
    if mantissa == 0 {
        return 0;
    }
    if shift >= 64 {
        proof {
            if shift > 64 {
                lemma_pow2_strictly_increases(64, shift as nat);
            }
            assert(mantissa * times >= times) by (nonlinear_arith)
                requires
                    mantissa >= 1,
                    times >= 0,
            ;
        }
        return u64::MAX;
    }
    let factor: u64 = power_of_two(shift as u32);
    assert(mantissa * factor <= 0xffff_ffff_ffff_ffff * 0xffff_ffff_ffff_ffff) by (nonlinear_arith)
        requires
            mantissa <= 0xffff_ffff_ffff_ffffu64,
            factor <= 0xffff_ffff_ffff_ffffu64,
    ;
    let product: u128 = mantissa as u128 * factor as u128;
    if product < u64::MAX as u128 {
        product as u64
    } else {
        u64::MAX
    }
}

/// A thousandth, rounded to 53 bits, is this many times two to the power of -62.
pub const THOUSANDTH: i64 = 4_611_686_018_427_388;

proof fn lemma_half()
    ensures
        half() == (PdfNumber::Finite {
            mantissa: HALF_PRECISION,
            place: (ONE_PLACE - 53) as u16,
        }),
{
    lemma2_to64();
    vstd::arithmetic::power2::lemma2_to64_rest();
    let p = ONE_PLACE - 53;
    let k = pow2(p as nat) as int;
    lemma_pow2_pos(p as nat);
    lemma_pow2_adds(53, p as nat);
    lemma_nearest(one(), 2, PRECISION as int, 2, k, p);
}

proof fn lemma_thousandth()
    ensures
        thousandth() == (PdfNumber::Finite {
            mantissa: THOUSANDTH,
            place: (ONE_PLACE - 62) as u16,
        }),
{
    lemma2_to64();
    vstd::arithmetic::power2::lemma2_to64_rest();
    let p = ONE_PLACE - 62;
    let k = pow2(p as nat) as int;
    lemma_pow2_pos(p as nat);
    lemma_pow2_adds(62, p as nat);
    lemma_nearest(one(), 1000, 0x4000_0000_0000_0000, 1000, k, p);
}

proof fn lemma_abs(m: int, k: int)
    requires
        0 < k,
    ensures
        abs(m * k) == abs(m) * k,
        (m * k < 0) == (m < 0),
{
    assert((m * k < 0) == (m < 0)) by (nonlinear_arith)
        requires
            0 < k,
    ;
    assert((-m) * k == -(m * k)) by (nonlinear_arith);
}

/// Numbers are ordered by their places first.
proof fn lemma_order(m: int, p: int, limit: int, at: int)
    requires
        0 <= m < PRECISION,
        0 <= p,
        p > 0 ==> m >= HALF_PRECISION,
        HALF_PRECISION <= limit < PRECISION,
        0 < at,
    ensures
        (m * pow2(p as nat) > limit * pow2(at as nat)) == (p > at || p == at && m > limit),
{
    let a = pow2(p as nat) as int;
    let b = pow2(at as nat) as int;
    lemma_pow2_pos(p as nat);
    lemma_pow2_pos(at as nat);
    if p > at {
        lemma_pow2_unfold(p as nat);
        if p - 1 > at {
            lemma_pow2_strictly_increases(at as nat, (p - 1) as nat);
        }
        assert(m * a > limit * b) by (nonlinear_arith)
            requires
                a >= 2 * b,
                2 * m > limit,
                limit > 0,
                m > 0,
                b > 0,
        ;
    } else if p < at {
        lemma_pow2_unfold(at as nat);
        if p < at - 1 {
            lemma_pow2_strictly_increases(p as nat, (at - 1) as nat);
        }
        assert(m * a <= limit * b) by (nonlinear_arith)
            requires
                b >= 2 * a,
                m <= 2 * limit,
                m >= 0,
                a > 0,
        ;
    } else {
        assert((m * a > limit * a) == (m > limit)) by (nonlinear_arith)
            requires
                a > 0,
        ;
    }
}

/// The sum of two finite numbers, the second one at a place that is not above
/// that of the first.
fn finite_sum(a: i64, p: u16, b: i64, q: u16) -> (r: PdfNumber)
    requires
        -PRECISION < a < PRECISION,
        -PRECISION < b < PRECISION,
        q <= p <= LAST_PLACE,
    ensures
        r == (PdfNumber::Finite { mantissa: a, place: p }).plus_spec(
            PdfNumber::Finite { mantissa: b, place: q },
        ),
        r == (PdfNumber::Finite { mantissa: b, place: q }).plus_spec(
            PdfNumber::Finite { mantissa: a, place: p },
        ),
        r.wf(),
{
    let ghost k = pow2(q as nat) as int;
    let ghost times = pow2((p - q) as nat) as int;
    let mut large: Big = Big::new(size_of(a));
    large.double((p - q) as u32);
    let mut small: Big = Big::new(size_of(b));
    proof {
        lemma_pow2_pos(q as nat);
        lemma_pow2_pos((p - q) as nat);
        lemma_pow2_adds((p - q) as nat, q as nat);
        assert(a * pow2(p as nat) == (a * times) * k) by (nonlinear_arith)
            requires
                pow2(p as nat) == times * k,
        ;
        lemma_abs(a as int, times);
        lemma_abs((a * times) + b, k);
        assert((a * times) * k + b * k == (a * times + b) * k) by (nonlinear_arith);
    }
    let one: Big = Big::new(1);
    if (a < 0) == (b < 0) {
        large.add_number(&small);
        let r: PdfNumber = settle(large, &one, q);
        if a < 0 {
            return r.negated();
        }
        return r;
    }
    if large.is_below(&small) {
        small.subtract(&large);
        let r: PdfNumber = settle(small, &one, q);
        if b < 0 {
            return r.negated();
        }
        return r;
    }
    large.subtract(&small);
    let ghost difference = large@;
    let r: PdfNumber = settle(large, &one, q);
    if a < 0 {
        proof {
            if difference == 0 {
                lemma_zero();
            }
        }
        return r.negated();
    }
    r
}

/// Nothing is exact.
pub proof fn lemma_zero()
    ensures
        nearest(0, 1) == nothing(),
        nearest(0 * one(), 1) == nothing(),
{
    lemma2_to64();
    lemma_nearest(0, 1, 0, 1, 1, 0);
}

fn size_of(mantissa: i64) -> (r: u64)
    requires
        -PRECISION < mantissa < PRECISION,
    ensures
        r == abs(mantissa as int),
{
    if mantissa < 0 {
        (-mantissa) as u64
    } else {
        mantissa as u64
    }
}

/// The place that is found is the first one that is coarse enough.
proof fn lemma_found(n: int, d: int, q: int)
    requires
        0 <= q <= LAST_PLACE + 1,
    ensures
        q <= place_from(n, d, q) <= LAST_PLACE + 1,
        place_from(n, d, q) <= LAST_PLACE ==> n < PRECISION * (d * pow2(
            place_from(n, d, q) as nat,
        )),
        place_from(n, d, q) > q ==> n >= PRECISION * (d * pow2(
            (place_from(n, d, q) - 1) as nat,
        )),
    decreases LAST_PLACE + 1 - q,
{
    if q <= LAST_PLACE && n >= PRECISION * (d * pow2(q as nat)) {
        lemma_found(n, d, q + 1);
    }
}

/// A rounded number is well formed.
proof fn lemma_nearest_wf(n: int, d: int)
    requires
        0 <= n,
        0 < d,
    ensures
        nearest(n, d).wf(),
{
    lemma_found(n, d, 0);
    let p = place_from(n, d, 0);
    if p <= LAST_PLACE {
        let k = pow2(p as nat) as int;
        lemma_pow2_pos(p as nat);
        assert(d * k > 0) by (nonlinear_arith)
            requires
                d > 0,
                k > 0,
        ;
        let q = n / (d * k);
        assert(0 <= q < PRECISION) by (nonlinear_arith)
            requires
                q == n / (d * k),
                d * k > 0,
                0 <= n < PRECISION * (d * k),
        ;
        if p > 0 {
            lemma_pow2_unfold(p as nat);
            let finer = pow2((p - 1) as nat) as int;
            assert(d * k == 2 * (d * finer)) by (nonlinear_arith)
                requires
                    k == 2 * finer,
            ;
            assert(q >= HALF_PRECISION) by (nonlinear_arith)
                requires
                    q == n / (d * k),
                    d * k == 2 * (d * finer),
                    d * k > 0,
                    n >= PRECISION * (d * finer),
                    PRECISION == 2 * HALF_PRECISION,
            ;
        }
    }
}

/// A sum is well formed.
pub proof fn lemma_sum_wf(a: PdfNumber, b: PdfNumber)
    ensures
        a.plus_spec(b).wf(),
{
    let sum = a.steps() + b.steps();
    if sum < 0 {
        lemma_nearest_wf(-sum, 1);
    } else {
        lemma_nearest_wf(sum, 1);
    }
}

/// Whole numbers but zero are above a thousandth.
pub proof fn lemma_above_thousandth(n: int)
    requires
        0 < n < PRECISION,
    ensures
        nearest(n * one(), 1).exceeds_spec(thousandth()),
        nearest(n * one(), 1).negated_spec().exceeds_spec(thousandth()),
{
    lemma_thousandth();
    lemma_whole(n);
    lemma2_to64();
    vstd::arithmetic::power2::lemma2_to64_rest();
    let p = ONE_PLACE - 62;
    let k = pow2(p as nat) as int;
    lemma_pow2_pos(p as nat);
    lemma_pow2_adds(62, p as nat);
    assert(n * one() > THOUSANDTH * k) by (nonlinear_arith)
        requires
            n >= 1,
            one() == 0x4000_0000_0000_0000 * k,
            k > 0,
            THOUSANDTH < 0x4000_0000_0000_0000,
    ;
    if let PdfNumber::Finite { mantissa, place } = nearest(n * one(), 1) {
        lemma_pow2_pos(place as nat);
        lemma_abs(mantissa as int, pow2(place as nat) as int);
        lemma_abs(-mantissa, pow2(place as nat) as int);
    }
}

/// The distance of a whole number from zero, as a side of a page.
pub proof fn lemma_side(n: int)
    requires
        1 <= n <= 2000,
    ensures
        nearest(n * one(), 1).plus_spec(nearest(0 * one(), 1).negated_spec()).page_side_spec() == n,
{
    lemma_zero();
    lemma_whole(n);
    lemma_pow2_pos(ONE_PLACE as nat);
    assert(0 * pow2(0) == 0) by (nonlinear_arith);
    assert(n * one() >= 0) by (nonlinear_arith)
        requires
            n >= 1,
            one() > 0,
    ;
    assert(2 * (n * one()) + one() == (2 * n + 1) * one()) by (nonlinear_arith);
    lemma_scaled(2 * n + 1, 2, one());
}

/// The number is the whole number `n`.
pub open spec fn is_whole(number: PdfNumber, n: int) -> bool {
    number is Finite && number.wf() && number.steps() == n * one()
}

proof fn lemma_negated_steps(a: PdfNumber)
    requires
        a is Finite,
        a.wf(),
    ensures
        a.negated_spec() is Finite,
        a.negated_spec().wf(),
        a.negated_spec().steps() == -a.steps(),
{
    if let PdfNumber::Finite { mantissa, place } = a {
        let k = pow2(place as nat) as int;
        assert((-mantissa) as i64 == -mantissa);
        assert((-mantissa) * k == -(mantissa * k)) by (nonlinear_arith);
    }
}

/// The distance of two whole numbers is the side of a page, from 1 to 2000.
pub proof fn law_side_is_a_distance(a: PdfNumber, b: PdfNumber, m: int, n: int)
    requires
        is_whole(a, m),
        is_whole(b, n),
        -1_000_000_000_000 < m < 1_000_000_000_000,
        -1_000_000_000_000 < n < 1_000_000_000_000,
    ensures
        ({
            let distance = if m < n {
                n - m
            } else {
                m - n
            };
            let side = b.plus_spec(a.negated_spec()).page_side_spec();
            &&& 1 <= distance <= 2000 ==> side == distance
            &&& distance < 1 ==> side == 1
            &&& distance > 2000 ==> side == 2000
        }),
{
    lemma_negated_steps(a);
    lemma_pow2_pos(ONE_PLACE as nat);
    let u = one();
    let distance = abs(n - m);
    let sum = b.steps() + a.negated_spec().steps();
    assert(sum == (n - m) * u) by (nonlinear_arith)
        requires
            sum == n * u - m * u,
    ;
    assert(abs(sum) == distance * u && (sum < 0 <==> n < m)) by (nonlinear_arith)
        requires
            sum == (n - m) * u,
            u > 0,
            distance == abs(n - m),
    ;
    lemma_whole(distance);
    let rounded = nearest(distance * u, 1);
    lemma_negated_steps(rounded);
    let number = b.plus_spec(a.negated_spec());
    assert(abs(number.steps()) == distance * u);
    assert(2 * (distance * u) + u == (2 * distance + 1) * u) by (nonlinear_arith);
    lemma_scaled(2 * distance + 1, 2, u);
}

/// A number and its opposite make nothing.
pub proof fn lemma_opposites(a: PdfNumber)
    requires
        a.wf(),
    ensures
        !a.plus_spec(a.negated_spec()).exceeds_spec(half()),
{
    lemma_half();
    lemma_zero();
    lemma_pow2_pos((ONE_PLACE - 53) as nat);
    if let PdfNumber::Finite { mantissa, place } = a {
        let k = pow2(place as nat) as int;
        assert((-mantissa) as i64 == -mantissa);
        assert(mantissa * k + (-mantissa) * k == 0) by (nonlinear_arith);
        assert(0 * pow2(0) == 0) by (nonlinear_arith);
        assert(0 <= HALF_PRECISION * pow2((ONE_PLACE - 53) as nat)) by (nonlinear_arith);
    }
}

/// The whole number from 0 to `max` that `value` is, if it is one.
pub fn bounded_pdf_integer(value: PdfNumber, max: usize) -> (r: Option<usize>)
    ensures
        r == value.bounded_spec(max as int),
        r is Some ==> r->0 <= max,
{
    match value.whole_part() {
        Some(n) => {
            if n <= max as u64 && n < u64::MAX {
                Some(n as usize)
            } else {
                None
            }
        },
        None => None,
    }
}

} // verus!
