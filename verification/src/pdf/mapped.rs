//! What the map of a font says of codes.

use vstd::prelude::*;

use crate::pdf::cmap;
use crate::pdf::cmap::{Glyphs, Progress};
use crate::pdf::font_text;
use crate::pdf::xref_stream::{be_value, pow256};
use crate::table;
use crate::text;

verus! {

/// The number that bytes write, the highest first.
pub open spec fn big(b: Seq<u8>) -> int
    decreases b.len(),
{
    if b.len() == 0 {
        0
    } else {
        256 * big(b.drop_last()) + b.last()
    }
}

/// The text `k` places behind `value` in a range.
pub open spec fn counted(value: Seq<char>, k: int) -> Seq<char> {
    if k == 0 {
        value
    } else {
        seq![(value[0] as int + k) as char]
    }
}

/// There are characters for the `k` places behind `value`.
pub open spec fn can_count(value: Seq<char>, k: int) -> bool {
    &&& value.len() > 0
    &&& 0 <= k
    &&& value[0] as int + k <= 0xd7ff || (value[0] as int >= 0xe000 && value[0] as int + k
        <= 0x10ffff)
}

/// The text that a map holds for a code.
pub open spec fn mapped(glyphs: Glyphs, code: Seq<u8>) -> Option<Seq<char>> {
    table::find::<Vec<u8>, Seq<char>>(glyphs.values, code)
}

/// Bytes write a number that fits in them.
pub proof fn lemma_big(b: Seq<u8>)
    ensures
        big(b) == be_value(b),
        0 <= big(b) < pow256(b.len() as int),
        cmap::be_bytes(big(b), b.len() as int) == b,
    decreases b.len(),
{
    if b.len() > 0 {
        lemma_big(b.drop_last());
        let high = big(b.drop_last());
        assert(big(b) / 256 == high);
        assert(big(b) % 256 == b.last());
        assert(cmap::be_bytes(big(b), b.len() as int) =~= b);
    } else {
        assert(cmap::be_bytes(big(b), b.len() as int) =~= b);
    }
}

proof fn lemma_char(c: char)
    ensures
        0 <= c as int,
        text::scalar(c as int) == Some(c),
{
}

proof fn lemma_expanded(
    from: int,
    end: int,
    width: int,
    value: Seq<char>,
    p: Progress,
    code: Seq<u8>,
)
    requires
        0 <= from,
        end < pow256(width),
        width > 0,
        table::ascending::<Vec<u8>, Seq<char>>(p.glyphs.values),
        cmap::expanded(from, end, width, value, p) is Some,
    ensures
        ({
            let q = cmap::expanded(from, end, width, value, p)->0;
            &&& code.len() == width && from <= big(code) <= end && can_count(
                value,
                big(code) - from,
            ) ==> mapped(q.glyphs, code) == Some(counted(value, big(code) - from))
            &&& !(code.len() == width && from <= big(code) <= end) ==> mapped(q.glyphs, code)
                == mapped(p.glyphs, code)
            &&& table::ascending::<Vec<u8>, Seq<char>>(q.glyphs.values)
            &&& from <= end ==> q.glyphs.width >= width
            &&& q.glyphs.width >= p.glyphs.width
        }),
    decreases end - from + 1,
{
    if from <= end {
        let key = cmap::be_bytes(from, width);
        cmap::law_bytes_write_the_number(from, width);
        let next = cmap::inserted(p, key, value)->0;
        table::law_put_keeps_order::<Vec<u8>, Seq<char>>(p.glyphs.values, key, value);
        table::law_find_after_put::<Vec<u8>, Seq<char>>(p.glyphs.values, key, value, code);
        lemma_expanded(from + 1, end, width, cmap::next_text(value), next, code);
        lemma_big(code);
        lemma_big(key);
        if code.len() == width && from < big(code) <= end && can_count(value, big(code) - from) {
            let k = big(code) - from;
            let following = cmap::next_text(value);
            lemma_char(value[0]);
            assert(text::scalar(value[0] as int + 1) is Some);
            let c = (value[0] as int + 1) as char;
            assert(following =~= seq![c]);
            assert(c as int == value[0] as int + 1);
            assert(counted(following, k - 1) =~= counted(value, k));
        }
        if code.len() == width && big(code) == from {
            assert(code == key);
        } else {
            assert(code != key);
        }
    }
}

/// A range gives its first code the text that is written for it, and each
/// further code the character as many places on. What a map says of codes
/// outside the range stays as it was.
pub proof fn law_ranges_count_on(
    first: Seq<u8>,
    last: Seq<u8>,
    target: Seq<u8>,
    value: Seq<char>,
    p: Progress,
    code: Seq<u8>,
)
    requires
        0 < first.len() == last.len(),
        target.len() > 0,
        big(first) <= big(last),
        cmap::unicode_text(target) == Some(value),
        table::ascending::<Vec<u8>, Seq<char>>(p.glyphs.values),
        cmap::with_range(first, last, target, p) is Some,
    ensures
        ({
            let q = cmap::with_range(first, last, target, p)->0;
            let inside = code.len() == first.len() && big(first) <= big(code) <= big(last);
            &&& inside && can_count(value, big(code) - big(first)) ==> mapped(q.glyphs, code)
                == Some(counted(value, big(code) - big(first)))
            &&& !inside ==> mapped(q.glyphs, code) == mapped(p.glyphs, code)
            &&& q.glyphs.width >= first.len()
        }),
{
    lemma_big(first);
    lemma_big(last);
    lemma_expanded(big(first), big(last), first.len() as int, value, p, code);
}

/// Characters as pairs of bytes, the higher byte first.
pub open spec fn pairs(s: Seq<char>) -> Seq<u8> {
    Seq::new(
        2 * s.len(),
        |i: int|
            if i % 2 == 0 {
                (s[i / 2] as int / 256) as u8
            } else {
                (s[i / 2] as int % 256) as u8
            },
    )
}

proof fn lemma_pair(s: Seq<char>, i: int)
    requires
        0 <= i < s.len(),
        (s[i] as int) < 0x10000,
    ensures
        cmap::pair_code(pairs(s), i) == s[i] as int,
{
    assert((2 * i) / 2 == i && (2 * i) % 2 == 0);
    assert((2 * i + 1) / 2 == i && (2 * i + 1) % 2 == 1);
    lemma_char(s[i]);
    let c = s[i] as int;
    let b = pairs(s);
    assert(b[2 * i] == (c / 256) as u8);
    assert(b[2 * i + 1] == (c % 256) as u8);
    assert(c == 256 * (c / 256) + c % 256);
}

/// Pairs of bytes write the characters that they are the codes of.
pub proof fn law_pairs_write_characters(s: Seq<char>)
    requires
        s.len() > 0,
        forall|i: int| 0 <= i < s.len() ==> (#[trigger] s[i] as int) < 0x10000,
    ensures
        cmap::unicode_text(pairs(s)) == Some(s),
{
    let b = pairs(s);
    assert(b.len() % 2 == 0 && b.len() / 2 == s.len());
    assert forall|i: int| 0 <= i < s.len() implies text::scalar(#[trigger] cmap::pair_code(b, i))
        == Some(s[i]) by {
        lemma_pair(s, i);
        lemma_char(s[i]);
    }
    assert(cmap::unicode_text(b)->0 =~= s);
}

/// Codes one behind the other.
pub open spec fn in_a_row<T>(codes: Seq<Seq<T>>) -> Seq<T>
    decreases codes.len(),
{
    if codes.len() == 0 {
        Seq::empty()
    } else {
        codes[0] + in_a_row(codes.skip(1))
    }
}

proof fn lemma_codes(
    before: Seq<u8>,
    codes: Seq<Seq<u8>>,
    values: Seq<Seq<char>>,
    glyphs: Glyphs,
)
    requires
        codes.len() == values.len(),
        glyphs.width > 0,
        forall|k: int|
            0 <= k < codes.len() ==> (#[trigger] codes[k]).len() == glyphs.width && mapped(
                glyphs,
                codes[k],
            ) == Some(values[k]),
    ensures
        font_text::mapped_text(before + in_a_row(codes), before.len() as int, glyphs) == in_a_row(
            values,
        ),
        codes.len() > 0 ==> in_a_row(codes).len() >= glyphs.width,
    decreases codes.len(),
{
    let b = before + in_a_row(codes);
    if codes.len() > 0 {
        let rest = codes.skip(1);
        let from = before.len() as int;
        assert(codes[0].len() == glyphs.width);
        assert forall|k: int| 0 <= k < rest.len() implies (#[trigger] rest[k]).len()
            == glyphs.width && mapped(glyphs, rest[k]) == Some(values.skip(1)[k]) by {
            assert(rest[k] == codes[k + 1]);
        }
        let head = before + codes[0];
        lemma_codes(head, rest, values.skip(1), glyphs);
        assert(head + in_a_row(rest) =~= b);
        assert(b.subrange(from, from + glyphs.width) =~= codes[0]);
    } else {
        assert(font_text::mapped_text(b, before.len() as int, glyphs) =~= in_a_row(values));
    }
}

/// A string of whole codes shows the texts that the map holds for them, one
/// behind the other.
pub proof fn law_codes_show_their_texts(
    codes: Seq<Seq<u8>>,
    values: Seq<Seq<char>>,
    glyphs: Glyphs,
)
    requires
        0 < codes.len() == values.len(),
        glyphs.width > 0,
        forall|k: int|
            0 <= k < codes.len() ==> (#[trigger] codes[k]).len() == glyphs.width && mapped(
                glyphs,
                codes[k],
            ) == Some(values[k]),
    ensures
        font_text::font_text(in_a_row(codes), glyphs) == in_a_row(values),
{
    lemma_codes(Seq::empty(), codes, values, glyphs);
    assert(Seq::<u8>::empty() + in_a_row(codes) =~= in_a_row(codes));
}

} // verus!
