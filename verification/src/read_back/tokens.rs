//! What the tokenizer makes of tokens that were written plainly.

use vstd::arithmetic::div_mod::lemma_fundamental_div_mod_converse;
use vstd::arithmetic::power2::lemma_pow2_pos;
use vstd::prelude::*;
use vstd::utf8::*;

use crate::bytes;
use crate::pdf::lexer;
use crate::pdf::lexer::{Lexeme, Place};
use crate::pdf::number;
use crate::pdf::number::PdfNumber;

verus! {

/// The tokenizer is at `pos` and has looked at nothing behind it.
pub open spec fn at(pos: int) -> Place {
    Place { pos, ahead: None }
}

/// The largest number that is written in digits: all up to it are exact.
pub const MOST: u128 = 9_007_199_254_740_991;

/// A byte that neither ends a word nor means anything within one.
pub open spec fn is_letter(byte: u8) -> bool {
    byte < 128 && byte != 35 && byte != 37 && !lexer::is_space(byte) && !lexer::is_delimiter_spec(
        byte,
    )
}

/// The first `n` characters of a word stand in `b` from `p` on.
pub open spec fn spells(b: Seq<u8>, p: int, word: Seq<char>, n: int) -> bool
    decreases n,
{
    n <= 0 || {
        &&& spells(b, p, word, n - 1)
        &&& 0 <= p + n - 1 < b.len()
        &&& (word[n - 1] as int) < 128
        &&& b[p + n - 1] == word[n - 1] as u8
        &&& is_letter(b[p + n - 1])
    }
}

/// A word that ends at `end` goes no further.
pub open spec fn closes(b: Seq<u8>, end: int) -> bool {
    end >= b.len() || lexer::is_space(b[end]) || lexer::is_delimiter_spec(b[end])
}

/// Only white space stands from `from` up to `to`.
pub open spec fn gap(b: Seq<u8>, from: int, to: int) -> bool {
    &&& 0 <= from <= to <= b.len()
    &&& forall|k: int| from <= k < to ==> lexer::is_space(#[trigger] b[k])
}

pub proof fn lemma_gap(b: Seq<u8>, from: int, to: int)
    requires
        gap(b, from, to),
        to < b.len() ==> !lexer::is_space(b[to]) && b[to] != 37,
    ensures
        lexer::space_end(b, from, false) == to,
    decreases to - from,
{
    if from < to {
        assert(lexer::is_space(b[from]));
        lemma_gap(b, from + 1, to);
    }
}

proof fn lemma_word(b: Seq<u8>, from: int, to: int)
    requires
        0 <= from <= to <= b.len(),
        forall|k: int|
            from <= k < to ==> !lexer::is_space(#[trigger] b[k]) && !lexer::is_delimiter_spec(
                b[k],
            ),
        closes(b, to),
    ensures
        lexer::word_end(b, from) == to,
    decreases to - from,
{
    if from < to {
        assert(!lexer::is_space(b[from]));
        lemma_word(b, from + 1, to);
    }
}

proof fn lemma_char(c: char)
    ensures
        0 <= c as int,
{
}

pub proof fn lemma_spells(b: Seq<u8>, p: int, word: Seq<char>, n: int)
    requires
        0 <= p <= b.len(),
        0 <= n <= word.len(),
        spells(b, p, word, n),
    ensures
        p + n <= b.len(),
        forall|k: int|
            0 <= k < n ==> {
                &&& (#[trigger] word[k] as int) < 128
                &&& b[p + k] == word[k] as u8
                &&& is_letter(b[p + k])
            },
        b.subrange(p, p + n) == encode_utf8(word.take(n)),
    decreases n,
{
    if n > 0 {
        lemma_spells(b, p, word, n - 1);
    }
    assert forall|k: int| 0 <= k < n implies {
        &&& (#[trigger] word[k] as int) < 128
        &&& b[p + k] == word[k] as u8
        &&& is_letter(b[p + k])
    } by {
        if k == n - 1 {
            assert(p + n - 1 == p + k);
        }
    }
    let part = word.take(n);
    assert forall|k: int| 0 <= k < part.len() implies '\0' <= #[trigger] part[k] <= '\u{7f}' by {
        let c: char = word[k];
        assert(part[k] == c);
        assert((c as int) < 128);
        lemma_char(c);
    }
    assert(is_ascii_chars(part));
    is_ascii_chars_encode_utf8(part);
    assert forall|k: int| 0 <= k < n implies b.subrange(p, p + n)[k] == encode_utf8(part)[k] by {
        assert(part[k] == word[k]);
        assert(b[p + k] == word[k] as u8);
    }
    assert(b.subrange(p, p + n) =~= encode_utf8(part));
}

/// The letters of a text that stands in `b`.
pub proof fn lemma_letters(b: Seq<u8>, pos: int, s: Seq<char>)
    requires
        bytes::occurs(b, pos, encode_utf8(s)),
        is_ascii_chars(s),
    ensures
        encode_utf8(s).len() == s.len(),
        pos + s.len() <= b.len(),
        forall|k: int| 0 <= k < s.len() ==> b[pos + k] == (#[trigger] s[k]) as u8,
{
    is_ascii_chars_encode_utf8(s);
    assert forall|k: int| 0 <= k < s.len() implies b[pos + k] == (#[trigger] s[k]) as u8 by {
        assert(b.subrange(pos, pos + s.len())[k] == encode_utf8(s)[k]);
    }
}

/// A keyword.
pub proof fn lemma_keyword(b: Seq<u8>, from: int, p: int, word: Seq<char>)
    requires
        gap(b, from, p),
        word.len() > 0,
        spells(b, p, word, word.len() as int),
        !lexer::is_number_start(word[0] as u8),
        closes(b, p + word.len()),
    ensures
        p + word.len() <= b.len(),
        lexer::token_at(b, from) == (Some(Lexeme::Keyword(word)), p + word.len()),
{
    let end = p + word.len();
    lemma_spells(b, p, word, word.len() as int);
    assert(word.take(word.len() as int) =~= word);
    assert(b[p + 0] == word[0] as u8);
    assert forall|k: int| p <= k < end implies !lexer::is_space(#[trigger] b[k])
        && !lexer::is_delimiter_spec(b[k]) by {
        assert((word[k - p] as int) < 128);
        assert(b[p + (k - p)] == b[k]);
    }
    lemma_gap(b, from, p);
    lemma_word(b, p, end);
    encode_utf8_valid_utf8(word);
    encode_utf8_decode_utf8(word);
    reveal(lexer::token_at);
}

proof fn lemma_unescaped(s: Seq<u8>, i: int)
    requires
        0 <= i <= s.len(),
        forall|k: int| 0 <= k < s.len() ==> #[trigger] s[k] != 35,
    ensures
        lexer::unescape(s, i) == s.skip(i),
    decreases s.len() - i,
{
    if i < s.len() {
        lemma_unescaped(s, i + 1);
        assert(s.skip(i) =~= seq![s[i]] + s.skip(i + 1));
    } else {
        assert(s.skip(i) =~= Seq::<u8>::empty());
    }
}

/// A name; its slash is at `p`.
pub proof fn lemma_name(b: Seq<u8>, from: int, p: int, word: Seq<char>)
    requires
        gap(b, from, p),
        p < b.len(),
        b[p] == 47,
        spells(b, p + 1, word, word.len() as int),
        closes(b, p + 1 + word.len()),
    ensures
        p + 1 + word.len() <= b.len(),
        lexer::token_at(b, from) == (Some(Lexeme::Name(word)), p + 1 + word.len()),
{
    let start = p + 1;
    let end = start + word.len();
    lemma_spells(b, start, word, word.len() as int);
    assert(word.take(word.len() as int) =~= word);
    assert forall|k: int| start <= k < end implies !lexer::is_space(#[trigger] b[k])
        && !lexer::is_delimiter_spec(b[k]) by {
        assert((word[k - start] as int) < 128);
        assert(b[start + (k - start)] == b[k]);
    }
    lemma_gap(b, from, p);
    lemma_word(b, start, end);
    let s = b.subrange(start, end);
    assert forall|k: int| 0 <= k < s.len() implies #[trigger] s[k] != 35 by {
        assert((word[k] as int) < 128);
        assert(is_letter(b[start + k]));
    }
    lemma_unescaped(s, 0);
    assert(s.skip(0) =~= s);
    encode_utf8_valid_utf8(word);
    encode_utf8_decode_utf8(word);
    reveal(lexer::token_at);
}

/// The marks around arrays and dictionaries.
pub proof fn lemma_mark(b: Seq<u8>, from: int, p: int)
    requires
        gap(b, from, p),
        p < b.len(),
    ensures
        b[p] == 91 ==> lexer::token_at(b, from) == (Some(Lexeme::StartArray), p + 1),
        b[p] == 93 ==> lexer::token_at(b, from) == (Some(Lexeme::EndArray), p + 1),
        p + 1 < b.len() && b[p] == 60 && b[p + 1] == 60 ==> lexer::token_at(b, from) == (
            Some(Lexeme::StartDictionary),
            p + 2,
        ),
        p + 1 < b.len() && b[p] == 62 && b[p + 1] == 62 ==> lexer::token_at(b, from) == (
            Some(Lexeme::EndDictionary),
            p + 2,
        ),
{
    reveal(lexer::token_at);
    if !lexer::is_space(b[p]) && b[p] != 37 {
        lemma_gap(b, from, p);
    }
}

/// Digits are the number that they are the value of.
proof fn lemma_leading(s: Seq<u8>, n: int)
    requires
        0 <= n <= s.len(),
        forall|k: int| 0 <= k < s.len() ==> number::is_digit(#[trigger] s[k]),
        bytes::decimal_value(s.take(n)) <= MOST,
    ensures
        number::leading_value(s, s.len() as int, s.len() as int, n) == bytes::decimal_value(
            s.take(n),
        ),
        0 <= bytes::decimal_value(s.take(n)),
    decreases n,
{
    if n > 0 {
        assert(s.take(n).drop_last() =~= s.take(n - 1));
        assert(s.take(n).last() == s[n - 1]);
        lemma_value_grows(s, n - 1);
        lemma_leading(s, n - 1);
    }
}

proof fn lemma_value_grows(s: Seq<u8>, n: int)
    requires
        0 <= n < s.len(),
        forall|k: int| 0 <= k < s.len() ==> number::is_digit(#[trigger] s[k]),
    ensures
        0 <= bytes::decimal_value(s.take(n)) <= bytes::decimal_value(s.take(n + 1)),
    decreases n,
{
    assert(s.take(n + 1).drop_last() =~= s.take(n));
    assert(s.take(n + 1).last() == s[n]);
    if n > 0 {
        lemma_value_grows(s, n - 1);
    } else {
        assert(s.take(0) =~= Seq::<u8>::empty());
    }
}

proof fn lemma_digits_end(s: Seq<u8>, i: int)
    requires
        0 <= i <= s.len(),
        forall|k: int| 0 <= k < s.len() ==> number::is_digit(#[trigger] s[k]),
    ensures
        number::digits_end(s, i) == s.len(),
    decreases s.len() - i,
{
    if i < s.len() {
        lemma_digits_end(s, i + 1);
    }
}

/// What digits read as: the whole number that they write.
pub proof fn lemma_whole(s: Seq<u8>)
    requires
        0 < s.len(),
        forall|k: int| 0 <= k < s.len() ==> number::is_digit(#[trigger] s[k]),
        bytes::decimal_value(s) <= MOST,
    ensures
        0 <= bytes::decimal_value(s),
        number::decimal(s) == Some(whole(bytes::decimal_value(s))),
        !number::reads(s, 0, number::word_inf()),
        !number::reads(s, 0, number::word_infinity()),
        !number::reads(s, 0, number::word_nan()),
        !number::is_signed(s),
{
    let n = s.len() as int;
    let v = bytes::decimal_value(s);
    assert(s.take(n) =~= s);
    lemma_leading(s, n);
    lemma_digits_end(s, 0);
    assert(number::is_digit(s[0]));
    assert(number::lower(s[0int + 0int]) == s[0]);
    assert(number::word_inf()[0] == 105);
    assert(number::word_infinity()[0] == 105);
    assert(number::word_nan()[0] == 110);
    assert(v * number::tens(0) * number::one() == v * number::one());
    reveal(whole);
}

/// The whole number `n`.
#[verifier::opaque]
pub open spec fn whole(n: int) -> PdfNumber {
    if n < 0 {
        number::nearest(-n * number::one(), 1).negated_spec()
    } else {
        number::nearest(n * number::one(), 1)
    }
}

/// A whole number is within a bound as it is.
pub proof fn lemma_bounded(n: int, max: int)
    requires
        0 <= n <= MOST,
        n <= usize::MAX,
    ensures
        whole(n).bounded_spec(max) == (if n <= max {
            Some(n as usize)
        } else {
            None
        }),
{
    reveal(whole);
    number::lemma_whole(n);
    lemma_pow2_pos(number::ONE_PLACE as nat);
    assert(n * number::one() >= 0) by (nonlinear_arith)
        requires
            n >= 0,
            number::one() > 0,
    ;
    lemma_fundamental_div_mod_converse(n * number::one(), number::one(), n, 0);
}

/// A run of digits.
pub proof fn lemma_number(b: Seq<u8>, from: int, p: int, end: int)
    requires
        gap(b, from, p),
        p < end <= b.len(),
        forall|k: int| p <= k < end ==> number::is_digit(#[trigger] b[k]),
        closes(b, end),
        bytes::decimal_value(b.subrange(p, end)) <= MOST,
    ensures
        lexer::token_at(b, from) == (
            Some(Lexeme::Number(whole(bytes::decimal_value(b.subrange(p, end))))),
            end,
        ),
{
    let s = b.subrange(p, end);
    assert forall|k: int| 0 <= k < s.len() implies number::is_digit(#[trigger] s[k]) by {
        assert(number::is_digit(b[p + k]));
    }
    lemma_whole(s);
    assert(number::is_digit(b[p]));
    lemma_gap(b, from, p);
    lemma_word(b, p, end);
    lemma_ascii(s);
    reveal(lexer::token_at);
}

/// ASCII bytes are UTF-8.
pub proof fn lemma_ascii(s: Seq<u8>)
    requires
        forall|k: int| 0 <= k < s.len() ==> (#[trigger] s[k]) < 128,
    ensures
        valid_utf8(s),
{
    let chars = Seq::new(s.len(), |k: int| s[k] as char);
    assert(is_ascii_chars(chars));
    is_ascii_chars_encode_utf8(chars);
    assert(encode_utf8(chars) =~= s);
    encode_utf8_valid_utf8(chars);
}

/// A number that was written in decimal digits.
pub proof fn lemma_decimal(b: Seq<u8>, from: int, p: int, n: nat)
    requires
        gap(b, from, p),
        bytes::occurs(b, p, bytes::decimal(n)),
        n <= MOST,
        closes(b, p + bytes::decimal(n).len()),
    ensures
        bytes::decimal(n).len() > 0,
        number::is_digit(b[p]),
        lexer::token_at(b, from) == (
            Some(Lexeme::Number(whole(n as int))),
            p + bytes::decimal(n).len(),
        ),
{
    let digits = bytes::decimal(n);
    bytes::law_decimal_round_trip(n);
    let end = p + digits.len();
    assert forall|k: int| p <= k < end implies number::is_digit(#[trigger] b[k]) by {
        assert(b.subrange(p, end)[k - p] == digits[k - p]);
    }
    assert(number::is_digit(b[p]));
    lemma_number(b, from, p, end);
}

} // verus!
