//! What is read of values that were written plainly.

use vstd::prelude::*;
use vstd::utf8::*;

use crate::bytes;
use crate::pdf::lexer;
use crate::pdf::lexer::Lexeme;
use crate::pdf::number;
use crate::pdf::number::PdfNumber;
use crate::pdf::value;
use crate::pdf::value::{Datum, PdfRef, MAX_VALUE_DEPTH};
use crate::read_back::tokens;
use crate::read_back::tokens::{at, whole, MOST};
use crate::table;

verus! {

/// The text `s` stands in `b` at `pos`.
pub open spec fn stands(b: Seq<u8>, pos: int, s: Seq<char>) -> bool {
    bytes::occurs(b, pos, encode_utf8(s)) && is_ascii_chars(s)
}

/// A character that neither ends a word nor means anything within one.
pub open spec fn is_letters(word: Seq<char>) -> bool {
    forall|k: int|
        0 <= k < word.len() ==> (#[trigger] word[k] as int) < 128 && tokens::is_letter(
            word[k] as u8,
        )
}

pub open spec fn is_space_char(c: char) -> bool {
    c == ' ' || c == '\n'
}

/// A character that no word goes beyond.
pub open spec fn is_stop_char(c: char) -> bool {
    c == ' ' || c == '\n' || c == '/' || c == '<' || c == '>' || c == '[' || c == ']' || c == '('
}

pub proof fn lemma_spells_in(b: Seq<u8>, pos: int, s: Seq<char>, k: int, word: Seq<char>, n: int)
    requires
        stands(b, pos, s),
        0 <= k,
        k + word.len() <= s.len(),
        s.subrange(k, k + word.len()) == word,
        is_letters(word),
        0 <= n <= word.len(),
    ensures
        tokens::spells(b, pos + k, word, n),
    decreases n,
{
    if n > 0 {
        lemma_spells_in(b, pos, s, k, word, n - 1);
        tokens::lemma_letters(b, pos, s);
        assert(s.subrange(k, k + word.len())[n - 1] == s[k + n - 1]);
        assert(b[pos + (k + n - 1)] == s[k + n - 1] as u8);
        assert((word[n - 1] as int) < 128);
    }
}

/// A name within a text; one character of white space may come before it.
pub proof fn lemma_name_in(b: Seq<u8>, pos: int, s: Seq<char>, g: int, k: int, word: Seq<char>)
    requires
        stands(b, pos, s),
        0 <= g <= k <= g + 1,
        g < k ==> is_space_char(s[g]),
        k + 1 + word.len() < s.len(),
        s[k] == '/',
        s.subrange(k + 1, k + 1 + word.len()) == word,
        is_letters(word),
        is_stop_char(s[k + 1 + word.len()]),
    ensures
        lexer::token_at(b, pos + g) == (Some(Lexeme::Name(word)), pos + k + 1 + word.len()),
        pos + k + 1 + word.len() <= b.len(),
{
    lemma_spells_in(b, pos, s, k + 1, word, word.len() as int);
    tokens::lemma_letters(b, pos, s);
    let end = k + 1 + word.len();
    assert(b[pos + k] == s[k] as u8);
    assert(b[pos + end] == s[end] as u8);
    assert(b[pos + g] == s[g] as u8);
    tokens::lemma_name(b, pos + g, pos + k, word);
}

/// A keyword within a text.
pub proof fn lemma_keyword_in(b: Seq<u8>, pos: int, s: Seq<char>, g: int, k: int, word: Seq<char>)
    requires
        stands(b, pos, s),
        0 <= g <= k <= g + 1,
        g < k ==> is_space_char(s[g]),
        0 < word.len(),
        k + word.len() < s.len(),
        s.subrange(k, k + word.len()) == word,
        is_letters(word),
        'a' <= word[0] || 'A' <= word[0] <= 'Z',
        is_stop_char(s[k + word.len()]),
    ensures
        lexer::token_at(b, pos + g) == (Some(Lexeme::Keyword(word)), pos + k + word.len()),
        pos + k + word.len() <= b.len(),
{
    lemma_spells_in(b, pos, s, k, word, word.len() as int);
    tokens::lemma_letters(b, pos, s);
    let end = k + word.len();
    assert((word[0] as int) < 128);
    assert(b[pos + end] == s[end] as u8);
    assert(b[pos + g] == s[g] as u8);
    tokens::lemma_keyword(b, pos + g, pos + k, word);
}

/// One of the marks around arrays and dictionaries within a text.
pub proof fn lemma_mark_in(b: Seq<u8>, pos: int, s: Seq<char>, g: int, k: int)
    requires
        stands(b, pos, s),
        0 <= g <= k <= g + 1,
        g < k ==> is_space_char(s[g]),
        k < s.len(),
    ensures
        s[k] == '[' ==> lexer::token_at(b, pos + g) == (Some(Lexeme::StartArray), pos + k + 1),
        s[k] == ']' ==> lexer::token_at(b, pos + g) == (Some(Lexeme::EndArray), pos + k + 1),
        k + 1 < s.len() && s[k] == '<' && s[k + 1] == '<' ==> lexer::token_at(b, pos + g) == (
            Some(Lexeme::StartDictionary),
            pos + k + 2,
        ),
        k + 1 < s.len() && s[k] == '>' && s[k + 1] == '>' ==> lexer::token_at(b, pos + g) == (
            Some(Lexeme::EndDictionary),
            pos + k + 2,
        ),
        pos + k + 1 <= b.len(),
        k + 1 < s.len() ==> pos + k + 2 <= b.len(),
{
    tokens::lemma_letters(b, pos, s);
    assert(b[pos + g] == s[g] as u8);
    assert(b[pos + k] == s[k] as u8);
    if k + 1 < s.len() {
        assert(b[pos + (k + 1)] == s[k + 1] as u8);
    }
    tokens::lemma_mark(b, pos + g, pos + k);
}

/// The value of `n` digits of a text from `k` on.
pub open spec fn digits_value(s: Seq<char>, k: int, n: int) -> int
    decreases n,
{
    if n <= 0 {
        0
    } else {
        10 * digits_value(s, k, n - 1) + (s[k + n - 1] as int - 48)
    }
}

/// There are `n` digits from `k` on.
pub open spec fn are_digits(s: Seq<char>, k: int, n: int) -> bool
    decreases n,
{
    n <= 0 || (are_digits(s, k, n - 1) && '0' <= s[k + n - 1] <= '9')
}

proof fn lemma_digits_in(b: Seq<u8>, pos: int, s: Seq<char>, k: int, n: int)
    requires
        stands(b, pos, s),
        0 <= k,
        0 <= n,
        k + n <= s.len(),
        are_digits(s, k, n),
    ensures
        forall|i: int| pos + k <= i < pos + k + n ==> number::is_digit(#[trigger] b[i]),
        bytes::decimal_value(b.subrange(pos + k, pos + k + n)) == digits_value(s, k, n),
    decreases n,
{
    tokens::lemma_letters(b, pos, s);
    if n > 0 {
        lemma_digits_in(b, pos, s, k, n - 1);
        let w = b.subrange(pos + k, pos + k + n);
        assert(w.drop_last() =~= b.subrange(pos + k, pos + k + n - 1));
        assert(b[pos + (k + n - 1)] == s[k + n - 1] as u8);
        assert(w.last() == b[pos + k + n - 1]);
    }
}

/// A number within a text.
pub proof fn lemma_number_in(b: Seq<u8>, pos: int, s: Seq<char>, g: int, k: int, n: int)
    requires
        stands(b, pos, s),
        0 <= g <= k <= g + 1,
        g < k ==> is_space_char(s[g]),
        0 < n,
        k + n < s.len(),
        are_digits(s, k, n),
        digits_value(s, k, n) <= MOST,
        is_stop_char(s[k + n]),
    ensures
        lexer::token_at(b, pos + g) == (
            Some(Lexeme::Number(whole(digits_value(s, k, n)))),
            pos + k + n,
        ),
        pos + k + n <= b.len(),
{
    tokens::lemma_letters(b, pos, s);
    lemma_digits_in(b, pos, s, k, n);
    assert(b[pos + (k + n)] == s[k + n] as u8);
    assert(b[pos + g] == s[g] as u8);
    tokens::lemma_number(b, pos + g, pos + k, pos + k + n);
}

/// A string in parentheses within a text.
pub proof fn lemma_string_in(b: Seq<u8>, pos: int, s: Seq<char>, g: int, k: int, word: Seq<char>)
    requires
        stands(b, pos, s),
        0 <= g <= k <= g + 1,
        g < k ==> is_space_char(s[g]),
        k + 1 + word.len() < s.len(),
        s[k] == '(',
        s.subrange(k + 1, k + 1 + word.len()) == word,
        forall|i: int| 0 <= i < word.len() ==> 'A' <= #[trigger] word[i] <= 'Z' || 'a' <= word[i]
            <= 'z' || '0' <= word[i] <= '9',
        s[k + 1 + word.len()] == ')',
    ensures
        lexer::token_at(b, pos + g) == (
            Some(Lexeme::LiteralString(encode_utf8(word))),
            pos + k + 2 + word.len(),
        ),
        pos + k + 2 + word.len() <= b.len(),
{
    tokens::lemma_letters(b, pos, s);
    let end = k + 1 + word.len();
    assert(b[pos + k] == s[k] as u8);
    assert(b[pos + end] == s[end] as u8);
    assert(b[pos + g] == s[g] as u8);
    assert forall|i: int| pos + k + 1 <= i < pos + end implies {
        &&& #[trigger] b[i] != 40
        &&& b[i] != 41
        &&& b[i] != 92
    } by {
        let m = i - pos - k - 1;
        assert(s.subrange(k + 1, k + 1 + word.len())[m] == s[k + 1 + m]);
        assert(b[pos + (k + 1 + m)] == s[k + 1 + m] as u8);
    }
    lemma_literal(b, pos + k + 1, pos + end, Seq::empty());
    let w = b.subrange(pos + k + 1, pos + end);
    assert(Seq::<u8>::empty() + w =~= w);
    assert forall|i: int| 0 <= i < word.len() implies '\0' <= #[trigger] word[i] <= '\u{7f}' by {
    }
    is_ascii_chars_encode_utf8(word);
    assert forall|i: int| 0 <= i < word.len() implies w[i] == encode_utf8(word)[i] by {
        assert(s.subrange(k + 1, k + 1 + word.len())[i] == s[k + 1 + i]);
        assert(b[pos + (k + 1 + i)] == s[k + 1 + i] as u8);
        assert(word[i] as u8 == encode_utf8(word)[i]);
    }
    assert(w =~= encode_utf8(word));
    tokens::lemma_gap(b, pos + g, pos + k);
    reveal(lexer::token_at);
}

proof fn lemma_literal(b: Seq<u8>, p: int, end: int, out: Seq<u8>)
    requires
        0 <= p <= end < b.len(),
        b[end] == 41,
        forall|i: int| p <= i < end ==> #[trigger] b[i] != 40 && b[i] != 41 && b[i] != 92,
    ensures
        lexer::literal(b, p, 1, out) == (Some(out + b.subrange(p, end)), end + 1),
    decreases end - p,
{
    if p < end {
        assert(b[p] != 40);
        lemma_literal(b, p + 1, end, out.push(b[p]));
        assert(out.push(b[p]) + b.subrange(p + 1, end) =~= out + b.subrange(p, end));
    } else {
        assert(out + b.subrange(p, end) =~= out);
    }
}

/// The value `d` stands from `from` up to `to`.
pub open spec fn is_value(b: Seq<u8>, from: int, to: int, d: Datum, depth: int) -> bool {
    &&& 0 <= from < to <= b.len()
    &&& value::value_at(b, at(from), depth) == Some((d, at(to)))
}

pub open spec fn is_token(b: Seq<u8>, from: int, token: Lexeme, to: int) -> bool {
    &&& 0 <= from < to <= b.len()
    &&& lexer::token_at(b, from) == (Some(token), to)
}

pub proof fn lemma_name_value(b: Seq<u8>, from: int, to: int, name: Seq<char>, depth: int)
    requires
        is_token(b, from, Lexeme::Name(name), to),
        0 <= depth <= MAX_VALUE_DEPTH,
    ensures
        is_value(b, from, to, Datum::Name(name), depth),
{
}

pub proof fn lemma_string_value(b: Seq<u8>, from: int, to: int, s: Seq<u8>, depth: int)
    requires
        is_token(b, from, Lexeme::LiteralString(s), to),
        0 <= depth <= MAX_VALUE_DEPTH,
    ensures
        is_value(b, from, to, Datum::String(s), depth),
{
}

/// A reference to object `n`.
pub open spec fn object_ref(n: int) -> Datum {
    Datum::Ref(PdfRef { object: n as u32, generation: 0 })
}

pub proof fn lemma_ref_value(b: Seq<u8>, from: int, p1: int, p2: int, to: int, n: int, depth: int)
    requires
        is_token(b, from, Lexeme::Number(whole(n)), p1),
        is_token(b, p1, Lexeme::Number(whole(0)), p2),
        is_token(b, p2, Lexeme::Keyword("R"@), to),
        0 <= n <= u32::MAX,
        0 <= depth <= MAX_VALUE_DEPTH,
    ensures
        is_value(b, from, to, object_ref(n), depth),
{
    tokens::lemma_bounded(n, u32::MAX as int);
    tokens::lemma_bounded(0, u16::MAX as int);
}

/// A number that no reference begins with.
pub proof fn lemma_number_value(b: Seq<u8>, from: int, to: int, n: PdfNumber, depth: int)
    requires
        is_token(b, from, Lexeme::Number(n), to),
        lexer::token_at(b, to).0 is Some ==> !(lexer::token_at(b, to).0->0 is Number)
            || lexer::token_at(b, lexer::token_at(b, to).1).0 != Some(Lexeme::Keyword("R"@)),
        0 <= depth <= MAX_VALUE_DEPTH,
    ensures
        is_value(b, from, to, Datum::Number(n), depth),
{
}

/// The entries of a dictionary in the order in which they are written.
pub open spec fn filled(entries: Seq<(Seq<char>, Datum)>, n: int) -> Seq<(Seq<u8>, Datum)>
    decreases n,
{
    if n <= 0 {
        Seq::empty()
    } else {
        table::put::<Vec<u8>, Datum>(
            filled(entries, n - 1),
            encode_utf8(entries[n - 1].0),
            entries[n - 1].1,
        )
    }
}

pub open spec fn dict(entries: Seq<(Seq<char>, Datum)>) -> Datum {
    Datum::Dict(filled(entries, entries.len() as int))
}

/// One more entry of a dictionary is read.
pub proof fn lemma_entry(
    b: Seq<u8>,
    from: int,
    p: int,
    to: int,
    depth: int,
    entries: Seq<(Seq<char>, Datum)>,
    k: int,
)
    requires
        0 <= k < entries.len(),
        is_token(b, from, Lexeme::Name(entries[k].0), p),
        is_value(b, p, to, entries[k].1, depth),
    ensures
        value::dictionary_at(b, at(from), depth, filled(entries, k)) == value::dictionary_at(
            b,
            at(to),
            depth,
            filled(entries, k + 1),
        ),
{
}

pub proof fn lemma_dict_end(b: Seq<u8>, from: int, to: int, depth: int, entries: Seq<(Seq<char>, Datum)>)
    requires
        is_token(b, from, Lexeme::EndDictionary, to),
    ensures
        value::dictionary_at(b, at(from), depth, filled(entries, entries.len() as int)) == Some(
            (dict(entries), at(to)),
        ),
{
}

pub proof fn lemma_dict_value(
    b: Seq<u8>,
    from: int,
    p: int,
    to: int,
    depth: int,
    entries: Seq<(Seq<char>, Datum)>,
)
    requires
        is_token(b, from, Lexeme::StartDictionary, p),
        p < to <= b.len(),
        0 <= depth < MAX_VALUE_DEPTH,
        value::dictionary_at(b, at(p), depth + 1, filled(entries, 0)) == Some(
            (dict(entries), at(to)),
        ),
    ensures
        is_value(b, from, to, dict(entries), depth),
{
    assert(filled(entries, 0) =~= Seq::empty());
}

/// One more item of an array is read.
pub proof fn lemma_item(b: Seq<u8>, from: int, to: int, depth: int, items: Seq<Datum>, item: Datum)
    requires
        is_value(b, from, to, item, depth),
        lexer::token_at(b, from).0 is Some,
        !(lexer::token_at(b, from).0->0 is EndArray),
        from < lexer::token_at(b, from).1 <= b.len(),
    ensures
        value::array_at(b, at(from), depth, items) == value::array_at(
            b,
            at(to),
            depth,
            items.push(item),
        ),
{
    let ahead = lexer::look(b, at(from));
    assert(value::value_at(b, ahead, depth) == value::value_at(b, at(from), depth));
}

pub proof fn lemma_array_value(b: Seq<u8>, from: int, p: int, to: int, depth: int, items: Seq<Datum>)
    requires
        is_token(b, from, Lexeme::StartArray, p),
        p < to <= b.len(),
        0 <= depth < MAX_VALUE_DEPTH,
        value::array_at(b, at(p), depth + 1, Seq::empty()) == Some((Datum::Array(items), at(to))),
    ensures
        is_value(b, from, to, Datum::Array(items), depth),
{
}

pub proof fn lemma_array_end(b: Seq<u8>, from: int, to: int, depth: int, items: Seq<Datum>)
    requires
        is_token(b, from, Lexeme::EndArray, to),
    ensures
        value::array_at(b, at(from), depth, items) == Some((Datum::Array(items), at(to))),
{
}

proof fn lemma_filled(entries: Seq<(Seq<char>, Datum)>, n: int)
    requires
        0 <= n <= entries.len(),
    ensures
        table::ascending::<Vec<u8>, Datum>(filled(entries, n)),
    decreases n,
{
    if n > 0 {
        lemma_filled(entries, n - 1);
        table::law_put_keeps_order::<Vec<u8>, Datum>(
            filled(entries, n - 1),
            encode_utf8(entries[n - 1].0),
            entries[n - 1].1,
        );
    }
}

proof fn lemma_same_name(a: Seq<char>, b: Seq<char>)
    requires
        encode_utf8(a) == encode_utf8(b),
    ensures
        a == b,
{
    encode_utf8_decode_utf8(a);
    encode_utf8_decode_utf8(b);
}

/// What the first `n` entries hold under a name.
pub open spec fn sought(entries: Seq<(Seq<char>, Datum)>, n: int, name: Seq<char>) -> Option<Datum>
    decreases n,
{
    if n <= 0 {
        None
    } else if entries[n - 1].0 == name {
        Some(entries[n - 1].1)
    } else {
        sought(entries, n - 1, name)
    }
}

/// A dictionary holds what was written into it.
pub proof fn lemma_sought(entries: Seq<(Seq<char>, Datum)>, n: int, name: Seq<char>)
    requires
        0 <= n <= entries.len(),
    ensures
        value::entry(filled(entries, n), name) == sought(entries, n, name),
    decreases n,
{
    if n > 0 {
        lemma_filled(entries, n - 1);
        lemma_sought(entries, n - 1, name);
        let last = entries[n - 1].0;
        if last != name && encode_utf8(last) == encode_utf8(name) {
            lemma_same_name(last, name);
        }
        table::law_find_after_put::<Vec<u8>, Datum>(
            filled(entries, n - 1),
            encode_utf8(last),
            entries[n - 1].1,
            encode_utf8(name),
        );
    }
}

} // verus!
