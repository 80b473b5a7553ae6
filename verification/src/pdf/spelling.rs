//! How strings may be written in a PDF file, and that they are read so.

use vstd::prelude::*;

use crate::pdf::error::Failure;
use crate::pdf::filter;
use crate::pdf::lexer;
use crate::pdf::lexer::Lexeme;
use crate::pdf::object::{Thing, MAX_STREAM_BYTES};
use crate::pdf::value;
use crate::pdf::value::Datum;

verus! {

/// A piece of a string in parentheses.
pub enum Stroke {
    /// A byte that stands for itself.
    Plain(u8),
    /// A byte behind a backslash, by its letter or by itself.
    Named(u8),
    /// A byte in three octal digits behind a backslash.
    Octal(u8),
    /// A backslash at the end of a line, which means nothing.
    Fold,
    /// The same, where a carriage return and a line feed end the line.
    WideFold,
}

/// A piece that may be written so.
pub open spec fn is_stroke(stroke: Stroke) -> bool {
    match stroke {
        Stroke::Plain(byte) => byte != 40 && byte != 41 && byte != 92,
        Stroke::Named(byte) => byte == 10 || byte == 13 || byte == 9 || byte == 8 || byte == 12
            || byte == 40 || byte == 41 || byte == 92,
        _ => true,
    }
}

/// The letter that a byte has behind a backslash.
pub open spec fn letter(byte: u8) -> u8 {
    match byte {
        10 => 110,
        13 => 114,
        9 => 116,
        8 => 98,
        12 => 102,
        _ => byte,
    }
}

/// How a piece is written.
pub open spec fn stroke_bytes(stroke: Stroke) -> Seq<u8> {
    match stroke {
        Stroke::Plain(byte) => seq![byte],
        Stroke::Named(byte) => seq![92u8, letter(byte)],
        Stroke::Octal(byte) => seq![
            92u8,
            (48 + byte / 64) as u8,
            (48 + byte / 8 % 8) as u8,
            (48 + byte % 8) as u8,
        ],
        Stroke::Fold => seq![92u8, 10u8],
        Stroke::WideFold => seq![92u8, 13u8, 10u8],
    }
}

/// What a piece stands for.
pub open spec fn stroke_value(stroke: Stroke) -> Seq<u8> {
    match stroke {
        Stroke::Plain(byte) | Stroke::Named(byte) | Stroke::Octal(byte) => seq![byte],
        _ => Seq::empty(),
    }
}

/// The pieces from `i` on, as they are written.
pub open spec fn written(strokes: Seq<Stroke>, i: int) -> Seq<u8>
    decreases strokes.len() - i,
{
    if i < 0 || i >= strokes.len() {
        Seq::empty()
    } else {
        stroke_bytes(strokes[i]) + written(strokes, i + 1)
    }
}

/// What the pieces from `i` on stand for.
pub open spec fn meant(strokes: Seq<Stroke>, i: int) -> Seq<u8>
    decreases strokes.len() - i,
{
    if i < 0 || i >= strokes.len() {
        Seq::empty()
    } else {
        stroke_value(strokes[i]) + meant(strokes, i + 1)
    }
}

proof fn lemma_written(b: Seq<u8>, pos: int, strokes: Seq<Stroke>, i: int, out: Seq<u8>)
    requires
        0 <= i <= strokes.len(),
        0 <= pos,
        pos + written(strokes, i).len() < b.len(),
        b.subrange(pos, pos + written(strokes, i).len()) == written(strokes, i),
        b[pos + written(strokes, i).len()] == 41,
        forall|k: int| 0 <= k < strokes.len() ==> is_stroke(#[trigger] strokes[k]),
    ensures
        lexer::literal(b, pos, 1, out) == (
            Some(out + meant(strokes, i)),
            pos + written(strokes, i).len() + 1,
        ),
    decreases strokes.len() - i,
{
    let all = written(strokes, i);
    if i == strokes.len() {
        assert(out + meant(strokes, i) =~= out);
    } else {
        let stroke = strokes[i];
        let first = stroke_bytes(stroke);
        let rest = written(strokes, i + 1);
        let n = first.len() as int;
        assert(all == first + rest);
        assert forall|k: int| 0 <= k < n implies b[pos + k] == #[trigger] first[k] by {
            assert(b.subrange(pos, pos + all.len())[k] == all[k]);
        }
        assert(b.subrange(pos + n, pos + n + rest.len()) =~= rest) by {
            assert forall|k: int| 0 <= k < rest.len() implies b[pos + n + k] == rest[k] by {
                assert(b.subrange(pos, pos + all.len())[n + k] == all[n + k]);
            }
        }
        let next = out + stroke_value(stroke);
        lemma_written(b, pos + n, strokes, i + 1, next);
        assert(next + meant(strokes, i + 1) =~= out + meant(strokes, i));
        assert(b[pos + 0] == first[0]);
        assert(b[pos] == first[0]);
        match stroke {
            Stroke::Plain(byte) => {
                assert(out.push(byte) =~= next);
            },
            Stroke::Named(byte) => {
                assert(b[pos + 1] == first[1]);
                assert(out.push(byte) =~= next);
            },
            Stroke::Octal(byte) => {
                assert(b[pos + 1] == first[1] && b[pos + 2] == first[2] && b[pos + 3] == first[3]);
                assert(out.push(byte) =~= next);
                assert(byte / 64 < 8 && byte / 8 % 8 < 8 && byte % 8 < 8);
                assert(byte == byte / 64 * 64 + byte / 8 % 8 * 8 + byte % 8);
                assert(lexer::octal_len(b, pos + 1) == 3);
                assert(lexer::octal_value(b, pos + 1) == byte);
            },
            Stroke::Fold => {
                assert(b[pos + 1] == 10);
                assert(out =~= next);
            },
            Stroke::WideFold => {
                assert(b[pos + 1] == 13 && b[pos + 2] == 10);
                assert(out =~= next);
            },
        }
    }
}

/// A string in parentheses is read as the bytes that its pieces stand for,
/// however each of them is written.
pub proof fn law_strings_in_parentheses_are_read(strokes: Seq<Stroke>, rest: Seq<u8>)
    requires
        forall|k: int| 0 <= k < strokes.len() ==> is_stroke(#[trigger] strokes[k]),
    ensures
        lexer::token_at(seq![40u8] + written(strokes, 0) + seq![41u8] + rest, 0) == (
            Some(Lexeme::LiteralString(meant(strokes, 0))),
            written(strokes, 0).len() as int + 2,
        ),
{
    reveal(lexer::token_at);
    let all = written(strokes, 0);
    let b = seq![40u8] + all + seq![41u8] + rest;
    assert(b[0] == 40);
    assert(b.subrange(1, 1 + all.len() as int) =~= all);
    lemma_written(b, 1, strokes, 0, Seq::empty());
    assert(Seq::<u8>::empty() + meant(strokes, 0) =~= meant(strokes, 0));
    assert(lexer::space_end(b, 0, false) == 0);
}

/// A hexadecimal digit, with large letters or with small ones.
pub open spec fn hex_digit(value: int, small: bool) -> u8 {
    if value < 10 {
        (48 + value) as u8
    } else if small {
        (97 + value - 10) as u8
    } else {
        (65 + value - 10) as u8
    }
}

/// The bytes from `i` on in hexadecimal digits, with a space behind each pair if
/// that is wanted.
pub open spec fn hexed(s: Seq<u8>, small: bool, spaced: bool, i: int) -> Seq<u8>
    decreases s.len() - i,
{
    if i < 0 || i >= s.len() {
        Seq::empty()
    } else {
        seq![hex_digit(s[i] as int / 16, small), hex_digit(s[i] as int % 16, small)] + (if spaced {
            seq![32u8]
        } else {
            Seq::empty()
        }) + hexed(s, small, spaced, i + 1)
    }
}

/// The halves of the bytes from `i` on.
spec fn halves(s: Seq<u8>, i: int) -> Seq<u8>
    decreases s.len() - i,
{
    if i < 0 || i >= s.len() {
        Seq::empty()
    } else {
        seq![s[i] / 16, s[i] % 16] + halves(s, i + 1)
    }
}

proof fn lemma_digit(value: u8, small: bool)
    requires
        value < 16,
    ensures
        lexer::hex_value(hex_digit(value as int, small)) == Some(value),
        hex_digit(value as int, small) != 62,
        !lexer::is_space(hex_digit(value as int, small)),
        hex_digit(value as int, small) != 60,
{
}

proof fn lemma_hexed(
    b: Seq<u8>,
    pos: int,
    s: Seq<u8>,
    small: bool,
    spaced: bool,
    i: int,
    out: Seq<u8>,
)
    requires
        0 <= i <= s.len(),
        0 <= pos,
        pos + hexed(s, small, spaced, i).len() < b.len(),
        b.subrange(pos, pos + hexed(s, small, spaced, i).len()) == hexed(s, small, spaced, i),
        b[pos + hexed(s, small, spaced, i).len()] == 62,
    ensures
        lexer::hex_digits(b, pos, out) == (
            Some(out + halves(s, i)),
            pos + hexed(s, small, spaced, i).len() + 1,
        ),
    decreases s.len() - i,
{
    let all = hexed(s, small, spaced, i);
    if i == s.len() {
        assert(out + halves(s, i) =~= out);
    } else {
        let rest = hexed(s, small, spaced, i + 1);
        let n = (all.len() - rest.len()) as int;
        let high: u8 = s[i] / 16;
        let low: u8 = s[i] % 16;
        lemma_digit(high, small);
        lemma_digit(low, small);
        assert forall|k: int| 0 <= k < all.len() implies b[pos + k] == #[trigger] all[k] by {
            assert(b.subrange(pos, pos + all.len())[k] == all[k]);
        }
        assert(b.subrange(pos + n, pos + n + rest.len()) =~= rest) by {
            assert forall|k: int| 0 <= k < rest.len() implies b[pos + n + k] == rest[k] by {
                assert(b[pos + (n + k)] == all[n + k]);
            }
        }
        assert(b[pos + 0] == all[0] && b[pos + 1] == all[1]);
        assert(spaced ==> b[pos + 2] == all[2] && all[2] == 32);
        let two = out.push(high).push(low);
        lemma_hexed(b, pos + n, s, small, spaced, i + 1, two);
        assert(two + halves(s, i + 1) =~= out + halves(s, i));
        reveal_with_fuel(lexer::hex_digits, 4);
    }
}

proof fn lemma_unhexed(
    b: Seq<u8>,
    pos: int,
    s: Seq<u8>,
    small: bool,
    spaced: bool,
    i: int,
    out: Seq<u8>,
    limit: int,
)
    requires
        0 <= i <= s.len(),
        0 <= pos,
        pos + hexed(s, small, spaced, i).len() < b.len(),
        b.subrange(pos, pos + hexed(s, small, spaced, i).len()) == hexed(s, small, spaced, i),
        b[pos + hexed(s, small, spaced, i).len()] == 62,
        out.len() + (s.len() - i) <= limit,
    ensures
        filter::unhexed(b, pos, None, out, limit) == Ok::<Seq<u8>, Failure>(out + s.skip(i)),
    decreases s.len() - i,
{
    let all = hexed(s, small, spaced, i);
    if i == s.len() {
        assert(out + s.skip(i) =~= out);
    } else {
        let rest = hexed(s, small, spaced, i + 1);
        let n = (all.len() - rest.len()) as int;
        let high: u8 = s[i] / 16;
        let low: u8 = s[i] % 16;
        lemma_digit(high, small);
        lemma_digit(low, small);
        assert forall|k: int| 0 <= k < all.len() implies b[pos + k] == #[trigger] all[k] by {
            assert(b.subrange(pos, pos + all.len())[k] == all[k]);
        }
        assert(b.subrange(pos + n, pos + n + rest.len()) =~= rest) by {
            assert forall|k: int| 0 <= k < rest.len() implies b[pos + n + k] == rest[k] by {
                assert(b[pos + (n + k)] == all[n + k]);
            }
        }
        assert(b[pos + 0] == all[0] && b[pos + 1] == all[1]);
        let one = out.push(s[i]);
        lemma_unhexed(b, pos + n, s, small, spaced, i + 1, one, limit);
        assert(one + s.skip(i + 1) =~= out + s.skip(i));
        assert((high * 16 + low) as u8 == s[i]);
        assert(filter::unhexed(b, pos + 1, Some(high), out, limit) == filter::unhexed(
            b,
            pos + 2,
            None,
            one,
            limit,
        ));
        if spaced {
            assert(b[pos + 2] == all[2] && all[2] == 32);
            assert(filter::unhexed(b, pos + 2, None, one, limit) == filter::unhexed(
                b,
                pos + 3,
                None,
                one,
                limit,
            ));
        }
    }
}

proof fn lemma_halves(s: Seq<u8>, i: int, k: int)
    requires
        0 <= i <= s.len(),
        0 <= k <= s.len() - i,
    ensures
        halves(s, i).len() == 2 * (s.len() - i),
        k < s.len() - i ==> halves(s, i)[2 * k] == s[i + k] / 16 && halves(s, i)[2 * k + 1] == s[i
            + k] % 16,
    decreases s.len() - i,
{
    if i < s.len() {
        let all = halves(s, i);
        let rest = halves(s, i + 1);
        if k > 0 {
            lemma_halves(s, i + 1, k - 1);
            if k < s.len() - i {
                assert(all[2 * k] == rest[2 * k - 2]);
                assert(all[2 * k + 1] == rest[2 * k - 1]);
                assert(2 * (k - 1) == 2 * k - 2);
            }
        } else {
            lemma_halves(s, i + 1, 0);
        }
    }
}

/// A string in hexadecimal digits is read as the bytes that they write.
pub proof fn law_strings_in_digits_are_read(
    s: Seq<u8>,
    small: bool,
    spaced: bool,
    rest: Seq<u8>,
)
    ensures
        lexer::token_at(seq![60u8] + hexed(s, small, spaced, 0) + seq![62u8] + rest, 0) == (
            Some(Lexeme::HexString(s)),
            hexed(s, small, spaced, 0).len() as int + 2,
        ),
{
    reveal(lexer::token_at);
    let all = hexed(s, small, spaced, 0);
    let b = seq![60u8] + all + seq![62u8] + rest;
    assert(b[0] == 60);
    assert(b.subrange(1, 1 + all.len() as int) =~= all);
    lemma_hexed(b, 1, s, small, spaced, 0, Seq::empty());
    lemma_halves(s, 0, 0);
    assert(Seq::<u8>::empty() + halves(s, 0) =~= halves(s, 0));
    assert(lexer::space_end(b, 0, false) == 0);
    if s.len() > 0 {
        let high: u8 = s[0] / 16;
        lemma_digit(high, small);
        assert(b[1] == all[0]);
    } else {
        assert(b[1] == 62);
    }
    let paired = lexer::pair_up(halves(s, 0));
    assert forall|i: int| 0 <= i < s.len() implies paired[i] == s[i] by {
        lemma_halves(s, 0, i);
        assert(s[i] / 16 * 16 + s[i] % 16 == s[i]);
    }
    assert(paired =~= s);
}

/// A stream of hexadecimal digits decodes to the bytes that they write.
pub proof fn law_streams_in_digits_are_decoded(
    s: Seq<u8>,
    small: bool,
    spaced: bool,
    rest: Seq<u8>,
    limit: int,
)
    requires
        s.len() <= limit <= usize::MAX,
    ensures
        filter::unhexed(
            hexed(s, small, spaced, 0) + seq![62u8] + rest,
            0,
            None,
            Seq::empty(),
            limit,
        ) == Ok::<Seq<u8>, Failure>(s),
{
    let all = hexed(s, small, spaced, 0);
    let b = all + seq![62u8] + rest;
    assert(b.subrange(0, 0 + all.len() as int) =~= all);
    lemma_unhexed(b, 0, s, small, spaced, 0, Seq::empty(), limit);
    assert(Seq::<u8>::empty() + s.skip(0) =~= s);
}

/// A name, with those of its bytes behind a number sign in hexadecimal digits
/// for which `marked` says so, from `i` on.
pub open spec fn marked_name(name: Seq<u8>, marked: Seq<bool>, small: bool, i: int) -> Seq<u8>
    decreases name.len() - i,
{
    if i < 0 || i >= name.len() {
        Seq::empty()
    } else {
        (if marked[i] {
            seq![
                35u8,
                hex_digit(name[i] as int / 16, small),
                hex_digit(name[i] as int % 16, small),
            ]
        } else {
            seq![name[i]]
        }) + marked_name(name, marked, small, i + 1)
    }
}

proof fn lemma_marked(before: Seq<u8>, name: Seq<u8>, marked: Seq<bool>, small: bool, i: int)
    requires
        0 <= i <= name.len() == marked.len(),
        forall|k: int| 0 <= k < name.len() && !marked[k] ==> #[trigger] name[k] != 35,
    ensures
        lexer::unescape(before + marked_name(name, marked, small, i), before.len() as int)
            == name.skip(i),
    decreases name.len() - i,
{
    let s = before + marked_name(name, marked, small, i);
    let at = before.len() as int;
    if i < name.len() {
        let byte: u8 = name[i];
        let rest = marked_name(name, marked, small, i + 1);
        if marked[i] {
            let high: u8 = byte / 16;
            let low: u8 = byte % 16;
            lemma_digit(high, small);
            lemma_digit(low, small);
            let piece = seq![35u8, hex_digit(byte as int / 16, small), hex_digit(byte as int % 16, small)];
            let head = before + piece;
            assert(head + rest =~= s);
            lemma_marked(head, name, marked, small, i + 1);
            assert(s[at] == 35 && s[at + 1] == piece[1] && s[at + 2] == piece[2]);
            assert(high * 16 + low == byte);
            assert(seq![byte] + name.skip(i + 1) =~= name.skip(i));
        } else {
            let head = before.push(byte);
            assert(head + rest =~= s);
            lemma_marked(head, name, marked, small, i + 1);
            assert(s[at] == byte);
            assert(seq![byte] + name.skip(i + 1) =~= name.skip(i));
        }
    } else {
        assert(name.skip(i) =~= Seq::<u8>::empty());
    }
}

/// A name is read as the bytes that it writes, by themselves or behind a number
/// sign.
pub proof fn law_names_are_read(name: Seq<u8>, marked: Seq<bool>, small: bool)
    requires
        name.len() == marked.len(),
        forall|k: int| 0 <= k < name.len() && !marked[k] ==> #[trigger] name[k] != 35,
    ensures
        lexer::unescape(marked_name(name, marked, small, 0), 0) == name,
{
    lemma_marked(Seq::empty(), name, marked, small, 0);
    assert(Seq::<u8>::empty() + marked_name(name, marked, small, 0) =~= marked_name(
        name,
        marked,
        small,
        0,
    ));
    assert(name.skip(0) =~= name);
}

proof fn lemma_filter_names(names: Seq<Seq<char>>)
    ensures
        filter::names_in(names.map_values(|name: Seq<char>| Datum::Name(name))) == Some(names),
    decreases names.len(),
{
    let items = names.map_values(|name: Seq<char>| Datum::Name(name));
    if names.len() > 0 {
        lemma_filter_names(names.drop_last());
        assert(items.drop_last() =~= names.drop_last().map_values(
            |name: Seq<char>| Datum::Name(name),
        ));
        assert(names.drop_last().push(names.last()) =~= names);
    } else {
        assert(names =~= Seq::<Seq<char>>::empty());
    }
}

/// A stream decodes to what undoing its filters gives, from the first of the
/// list to the last: `steps[0]` is what it holds, and the `k`-th filter makes
/// `steps[k + 1]` of `steps[k]`.
pub proof fn law_filters_are_undone_in_order(
    dict: Seq<(Seq<u8>, Datum)>,
    names: Seq<Seq<char>>,
    steps: Seq<Seq<u8>>,
)
    requires
        steps.len() == names.len() + 1,
        steps[0].len() <= MAX_STREAM_BYTES,
        value::entry(dict, "Filter"@) == Some(
            Datum::Array(names.map_values(|name: Seq<char>| Datum::Name(name))),
        ),
        forall|k: int|
            0 <= k < names.len() ==> #[trigger] filter::unfiltered(steps[k], names[k]) == Ok::<
                Seq<u8>,
                Failure,
            >(steps[k + 1]),
    ensures
        filter::decoded(Thing { value: Datum::Dict(dict), stream: Some(steps[0]) }) == Ok::<
            Seq<u8>,
            Failure,
        >(steps.last()),
{
    lemma_filter_names(names);
    lemma_steps(names, steps, 0);
}

proof fn lemma_steps(names: Seq<Seq<char>>, steps: Seq<Seq<u8>>, i: int)
    requires
        0 <= i <= names.len(),
        steps.len() == names.len() + 1,
        forall|k: int|
            0 <= k < names.len() ==> #[trigger] filter::unfiltered(steps[k], names[k]) == Ok::<
                Seq<u8>,
                Failure,
            >(steps[k + 1]),
    ensures
        filter::all_unfiltered(steps[i], names, i) == Ok::<Seq<u8>, Failure>(steps.last()),
    decreases names.len() - i,
{
    if i < names.len() {
        assert(filter::unfiltered(steps[i], names[i]) is Ok);
        lemma_steps(names, steps, i + 1);
    }
}

proof fn lemma_filters()
    ensures
        "AHx"@ != "Fl"@,
        "AHx"@ != "FlateDecode"@,
        "ASCIIHexDecode"@ != "Fl"@,
        "ASCIIHexDecode"@ != "FlateDecode"@,
{
    reveal_strlit("AHx");
    reveal_strlit("Fl");
    reveal_strlit("FlateDecode");
    reveal_strlit("ASCIIHexDecode");
    assert("AHx"@.len() == 3 && "Fl"@.len() == 2 && "FlateDecode"@.len() == 11
        && "ASCIIHexDecode"@.len() == 14);
}

/// Each filter is known by two names. The one reads hexadecimal digits, the
/// other zlib data, as long as there is not too much of them; any other filter
/// is refused.
pub proof fn law_filters_have_two_names(
    s: Seq<u8>,
    small: bool,
    spaced: bool,
    rest: Seq<u8>,
    data: Seq<u8>,
    other: Seq<char>,
)
    requires
        s.len() <= MAX_STREAM_BYTES,
    ensures
        ({
            let digits = hexed(s, small, spaced, 0) + seq![62u8] + rest;
            let plain = filter::zlib_prefix(data, (MAX_STREAM_BYTES + 1) as nat);
            &&& filter::unfiltered(digits, "ASCIIHexDecode"@) == Ok::<Seq<u8>, Failure>(s)
            &&& filter::unfiltered(digits, "AHx"@) == Ok::<Seq<u8>, Failure>(s)
            &&& plain is Some && plain->0.len() <= MAX_STREAM_BYTES ==> filter::unfiltered(
                data,
                "FlateDecode"@,
            ) == Ok::<Seq<u8>, Failure>(plain->0) && filter::unfiltered(data, "Fl"@) == Ok::<
                Seq<u8>,
                Failure,
            >(plain->0)
        }),
        other != "ASCIIHexDecode"@ && other != "AHx"@ && other != "FlateDecode"@ && other != "Fl"@
            ==> filter::unfiltered(data, other) == Err::<Seq<u8>, Failure>(
            Failure::UnsupportedFilter(other),
        ),
{
    lemma_filters();
    law_streams_in_digits_are_decoded(s, small, spaced, rest, MAX_STREAM_BYTES as int);
}

} // verus!
