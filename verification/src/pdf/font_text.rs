//! The text that strings of a content stream show.

use vstd::prelude::*;

use crate::pdf::cmap::{FontMap, Glyphs};
use crate::pdf::number::min;
use crate::table;
use crate::text;

verus! {

/// The character of a byte in the encoding that strings without a font map
/// have.
pub open spec fn ansi(byte: u8) -> char {
    if byte == 0x80 {
        '€'
    } else if byte == 0x82 {
        '‚'
    } else if byte == 0x83 {
        'ƒ'
    } else if byte == 0x84 {
        '„'
    } else if byte == 0x85 {
        '…'
    } else if byte == 0x86 {
        '†'
    } else if byte == 0x87 {
        '‡'
    } else if byte == 0x88 {
        'ˆ'
    } else if byte == 0x89 {
        '‰'
    } else if byte == 0x8a {
        'Š'
    } else if byte == 0x8b {
        '‹'
    } else if byte == 0x8c {
        'Œ'
    } else if byte == 0x8e {
        'Ž'
    } else if byte == 0x91 {
        '‘'
    } else if byte == 0x92 {
        '’'
    } else if byte == 0x93 {
        '“'
    } else if byte == 0x94 {
        '”'
    } else if byte == 0x95 {
        '•'
    } else if byte == 0x96 {
        '–'
    } else if byte == 0x97 {
        '—'
    } else if byte == 0x98 {
        '˜'
    } else if byte == 0x99 {
        '™'
    } else if byte == 0x9a {
        'š'
    } else if byte == 0x9b {
        '›'
    } else if byte == 0x9c {
        'œ'
    } else if byte == 0x9e {
        'ž'
    } else if byte == 0x9f {
        'Ÿ'
    } else {
        byte as char
    }
}

fn ansi_char(byte: u8) -> (r: char)
    ensures
        r == ansi(byte),
{
    match byte {
        0x80 => '€',
        0x82 => '‚',
        0x83 => 'ƒ',
        0x84 => '„',
        0x85 => '…',
        0x86 => '†',
        0x87 => '‡',
        0x88 => 'ˆ',
        0x89 => '‰',
        0x8a => 'Š',
        0x8b => '‹',
        0x8c => 'Œ',
        0x8e => 'Ž',
        0x91 => '‘',
        0x92 => '’',
        0x93 => '“',
        0x94 => '”',
        0x95 => '•',
        0x96 => '–',
        0x97 => '—',
        0x98 => '˜',
        0x99 => '™',
        0x9a => 'š',
        0x9b => '›',
        0x9c => 'œ',
        0x9e => 'ž',
        0x9f => 'Ÿ',
        _ => byte as char,
    }
}

/// The characters of the bytes up to `n`, without those for zero.
pub open spec fn ansi_text(b: Seq<u8>, n: int) -> Seq<char>
    decreases n,
{
    if n <= 0 {
        Seq::empty()
    } else if b[n - 1] == 0 {
        ansi_text(b, n - 1)
    } else {
        ansi_text(b, n - 1).push(ansi(b[n - 1]))
    }
}

/// The bytes begin with a mark that big-endian pairs follow.
pub open spec fn is_utf16(b: Seq<u8>) -> bool {
    b.len() >= 2 && b[0] == 0xfe && b[1] == 0xff
}

/// The scalar value of the `i`-th pair behind the mark, or a replacement.
pub open spec fn utf16_char(b: Seq<u8>, i: int) -> char {
    match text::scalar(b[2 * i + 2] * 256 + b[2 * i + 3]) {
        Some(c) => c,
        None => '\u{fffd}',
    }
}

/// The text that a string without a font map shows.
pub open spec fn plain_text(b: Seq<u8>) -> Seq<char> {
    if is_utf16(b) {
        Seq::new(((b.len() - 2) / 2) as nat, |i: int| utf16_char(b, i))
    } else {
        ansi_text(b, b.len() as int)
    }
}

/// Appends the text that a string without a font map shows.
fn push_plain_text(bytes: &[u8], out: &mut Vec<char>)
    ensures
        final(out)@ == old(out)@ + plain_text(bytes@),
{
    let ghost before = out@;
    if bytes.len() >= 2 && bytes[0] == 0xfe && bytes[1] == 0xff {
        let mut i: usize = 2;
        while bytes.len() - i >= 2
            invariant
                2 <= i <= bytes@.len(),
                i % 2 == 0,
                out@.len() == before.len() + (i - 2) / 2,
                is_utf16(bytes@),
                out@ == before + Seq::new(
                    ((i - 2) / 2) as nat,
                    |k: int| utf16_char(bytes@, k),
                ),
            decreases bytes@.len() - i,
        {
            let code: u32 = bytes[i] as u32 * 256 + bytes[i + 1] as u32;
            let c: char = match text::char_from_u32(code) {
                Some(c) => c,
                None => '\u{fffd}',
            };
            assert(c == utf16_char(bytes@, (i - 2) / 2));
            out.push(c);
            i += 2;
            assert(out@ =~= before + Seq::new(
                ((i - 2) / 2) as nat,
                |k: int| utf16_char(bytes@, k),
            ));
        }
        assert(out@ =~= before + plain_text(bytes@));
        return;
    }
    let mut i: usize = 0;
    assert(out@ =~= before + ansi_text(bytes@, 0));
    while i < bytes.len()
        invariant
            i <= bytes@.len(),
            out@ == before + ansi_text(bytes@, i as int),
        decreases bytes@.len() - i,
    {
        let byte: u8 = bytes[i];
        if byte != 0 {
            out.push(ansi_char(byte));
        }
        i += 1;
        assert(out@ =~= before + ansi_text(bytes@, i as int));
    }
}

/// The characters that a string without a font map shows.
pub fn plain_chars(bytes: &[u8]) -> (r: Vec<char>)
    ensures
        r@ == plain_text(bytes@),
{
    let mut out: Vec<char> = Vec::new();
    push_plain_text(bytes, &mut out);
    assert(out@ =~= plain_text(bytes@));
    out
}

/// The text of one code: what the map says, or what it would show without one.
pub open spec fn code_text(chunk: Seq<u8>, glyphs: Glyphs) -> Seq<char> {
    match table::find::<Vec<u8>, Seq<char>>(glyphs.values, chunk) {
        Some(value) => if chunk.len() == glyphs.width {
            value
        } else {
            plain_text(chunk)
        },
        None => plain_text(chunk),
    }
}

/// The text of the codes from `i` on.
pub open spec fn mapped_text(b: Seq<u8>, i: int, glyphs: Glyphs) -> Seq<char>
    decreases b.len() - i,
{
    if i < 0 || i >= b.len() || glyphs.width <= 0 {
        Seq::empty()
    } else {
        let end = min(i + glyphs.width, b.len() as int);
        code_text(b.subrange(i, end), glyphs) + mapped_text(b, end, glyphs)
    }
}

/// The text that a string shows with a font map.
pub open spec fn font_text(b: Seq<u8>, glyphs: Glyphs) -> Seq<char> {
    if glyphs.width == 0 || b.len() < glyphs.width {
        plain_text(b)
    } else {
        mapped_text(b, 0, glyphs)
    }
}

/// The characters that a string shows with a font map.
pub fn font_chars(bytes: &[u8], map: &FontMap) -> (r: Vec<char>)
    requires
        map.wf(),
    ensures
        r@ == font_text(bytes@, map@),
{
    if map.code_width == 0 || bytes.len() < map.code_width {
        return plain_chars(bytes);
    }
    let mut out: Vec<char> = Vec::new();
    let mut i: usize = 0;
    assert(out@ + mapped_text(bytes@, 0, map@) =~= mapped_text(bytes@, 0, map@));
    while i < bytes.len()
        invariant
            map.wf(),
            map.code_width > 0,
            i <= bytes@.len(),
            out@ + mapped_text(bytes@, i as int, map@) == mapped_text(bytes@, 0, map@),
        decreases bytes@.len() - i,
    {
        let end: usize = if bytes.len() - i < map.code_width {
            bytes.len()
        } else {
            i + map.code_width
        };
        let chunk = vstd::slice::slice_subrange(bytes, i, end);
        let key: Vec<u8> = vstd::slice::slice_to_vec(chunk);
        let ghost before = out@;
        let ghost rest = mapped_text(bytes@, end as int, map@);
        match map.values.get(&key) {
            Some(value) => {
                if chunk.len() == map.code_width {
                    text::push_string(&mut out, value.as_str());
                } else {
                    push_plain_text(chunk, &mut out);
                }
            },
            None => {
                push_plain_text(chunk, &mut out);
            },
        }
        assert(out@ + rest =~= before + (code_text(chunk@, map@) + rest));
        i = end;
    }
    assert(out@ =~= mapped_text(bytes@, 0, map@));
    out
}

/// The text that a string without a font map shows.
pub fn decode_text(bytes: &[u8]) -> (r: String)
    ensures
        r@ == plain_text(bytes@),
{
    text::string_of(plain_chars(bytes).as_slice())
}

/// The text that a string shows with a font map.
pub fn decode_font_text(bytes: &[u8], map: &FontMap) -> (r: String)
    requires
        map.wf(),
    ensures
        r@ == font_text(bytes@, map@),
{
    text::string_of(font_chars(bytes, map).as_slice())
}

proof fn lemma_ansi_text(b: Seq<u8>, n: int)
    requires
        0 <= n <= b.len(),
        forall|i: int| 0 <= i < b.len() ==> #[trigger] b[i] != 0,
    ensures
        ansi_text(b, n).len() == n,
        forall|i: int| 0 <= i < n ==> #[trigger] ansi_text(b, n)[i] == ansi(b[i]),
    decreases n,
{
    if n > 0 {
        lemma_ansi_text(b, n - 1);
        assert forall|i: int| 0 <= i < n implies #[trigger] ansi_text(b, n)[i] == ansi(b[i]) by {
            if i < n - 1 {
                assert(ansi_text(b, n)[i] == ansi_text(b, n - 1)[i]);
            }
        }
    }
}

/// A string without a font map, without the mark of big-endian pairs and without
/// zeros is text in code page 1252: as many characters as bytes; a byte of ASCII
/// or of the upper half of Latin-1 is the character with that code point, and so
/// are the five bytes that the code page leaves open; the others are the
/// typographic characters of the code page.
pub proof fn law_plain_strings_are_code_page_1252(b: Seq<u8>)
    requires
        !(b.len() >= 2 && b[0] == 0xfe && b[1] == 0xff),
        forall|i: int| 0 <= i < b.len() ==> #[trigger] b[i] != 0,
    ensures
        plain_text(b).len() == b.len(),
        forall|i: int|
            0 <= i < b.len() && (b[i] < 0x80 || b[i] >= 0xa0 || b[i] == 0x81 || b[i] == 0x8d || b[i]
                == 0x8f || b[i] == 0x90 || b[i] == 0x9d) ==> #[trigger] plain_text(b)[i] as int
                == b[i] as int,
        forall|i: int|
            0 <= i < b.len() && 0x80 <= b[i] <= 0x9f ==> #[trigger] plain_text(b)[i] as int == seq![
                0x20acint, 0x81, 0x201a, 0x192, 0x201e, 0x2026, 0x2020, 0x2021, 0x2c6, 0x2030, 0x160,
                0x2039, 0x152, 0x8d, 0x17d, 0x8f, 0x90, 0x2018, 0x2019, 0x201c, 0x201d, 0x2022, 0x2013,
                0x2014, 0x2dc, 0x2122, 0x161, 0x203a, 0x153, 0x9d, 0x17e, 0x178,
            ][b[i] - 0x80],
{
    lemma_ansi_text(b, b.len() as int);
}

proof fn lemma_ansi_differs(a: u8, b: u8)
    requires
        ansi(a) == ansi(b),
    ensures
        a == b,
{
    assert(ansi(a) as int == ansi(b) as int);
}

/// Different strings without a font map, without the mark of big-endian pairs and
/// without zeros show different texts.
pub proof fn law_plain_strings_differ(a: Seq<u8>, b: Seq<u8>)
    requires
        !(a.len() >= 2 && a[0] == 0xfe && a[1] == 0xff),
        !(b.len() >= 2 && b[0] == 0xfe && b[1] == 0xff),
        forall|i: int| 0 <= i < a.len() ==> #[trigger] a[i] != 0,
        forall|i: int| 0 <= i < b.len() ==> #[trigger] b[i] != 0,
        plain_text(a) == plain_text(b),
    ensures
        a == b,
{
    lemma_ansi_text(a, a.len() as int);
    lemma_ansi_text(b, b.len() as int);
    assert forall|i: int| 0 <= i < a.len() implies a[i] == b[i] by {
        assert(plain_text(a)[i] == ansi(a[i]));
        assert(plain_text(b)[i] == ansi(b[i]));
        lemma_ansi_differs(a[i], b[i]);
    }
    assert(a =~= b);
}

proof fn lemma_ansi_parts(a: Seq<u8>, b: Seq<u8>, n: int)
    requires
        0 <= n <= b.len(),
    ensures
        ansi_text(a + b, a.len() + n) == ansi_text(a, a.len() as int) + ansi_text(b, n),
    decreases n,
{
    if n > 0 {
        lemma_ansi_parts(a, b, n - 1);
        assert((a + b)[a.len() + n - 1] == b[n - 1]);
    } else {
        lemma_ansi_prefix(a, b, a.len() as int);
    }
    assert(ansi_text(a + b, a.len() + n) =~= ansi_text(a, a.len() as int) + ansi_text(b, n));
}

proof fn lemma_ansi_prefix(a: Seq<u8>, b: Seq<u8>, n: int)
    requires
        0 <= n <= a.len(),
    ensures
        ansi_text(a + b, n) == ansi_text(a, n),
    decreases n,
{
    if n > 0 {
        lemma_ansi_prefix(a, b, n - 1);
        assert((a + b)[n - 1] == a[n - 1]);
    }
}

/// What a string without a font map shows does not depend on how it is cut, as
/// long as no piece begins with the mark of big-endian pairs; zeros show nothing.
pub proof fn law_plain_strings_join(a: Seq<u8>, b: Seq<u8>, zeros: nat)
    requires
        !((a + b).len() >= 2 && (a + b)[0] == 0xfe && (a + b)[1] == 0xff),
        !(a.len() >= 2 && a[0] == 0xfe && a[1] == 0xff),
        !(b.len() >= 2 && b[0] == 0xfe && b[1] == 0xff),
    ensures
        plain_text(a + b) == plain_text(a) + plain_text(b),
        plain_text(Seq::new(zeros, |i: int| 0u8)) == Seq::<char>::empty(),
    decreases zeros,
{
    lemma_ansi_parts(a, b, b.len() as int);
    let none = Seq::new(zeros, |i: int| 0u8);
    if zeros > 0 {
        let fewer = Seq::new((zeros - 1) as nat, |i: int| 0u8);
        law_plain_strings_join(a, b, (zeros - 1) as nat);
        assert(none =~= fewer + seq![0u8]);
        lemma_ansi_prefix(fewer, seq![0u8], zeros - 1);
        assert(none[zeros - 1] == 0);
    }
}

proof fn lemma_scalar(c: char)
    ensures
        0 <= c as int,
        text::scalar(c as int) == Some(c),
{
}

/// A string that begins with the mark of big-endian pairs shows the text whose
/// characters the pairs hold, one each.
pub proof fn law_pairs_show_their_text(s: Seq<char>)
    requires
        forall|i: int| 0 <= i < s.len() ==> (#[trigger] s[i] as int) < 0x10000,
    ensures
        plain_text(
            seq![0xfeu8, 0xffu8] + Seq::new(
                2 * s.len(),
                |k: int|
                    if k % 2 == 0 {
                        (s[k / 2] as int / 256) as u8
                    } else {
                        (s[k / 2] as int % 256) as u8
                    },
            ),
        ) == s,
{
    let b = seq![0xfeu8, 0xffu8] + Seq::new(
        2 * s.len(),
        |k: int|
            if k % 2 == 0 {
                (s[k / 2] as int / 256) as u8
            } else {
                (s[k / 2] as int % 256) as u8
            },
    );
    assert(b[0] == 0xfe && b[1] == 0xff);
    assert forall|i: int| 0 <= i < s.len() implies utf16_char(b, i) == s[i] by {
        let c: char = s[i];
        let code = c as int;
        lemma_scalar(c);
        assert((2 * i) / 2 == i && (2 * i + 1) / 2 == i);
        assert(b[2 * i + 2] == (code / 256) as u8);
        assert(b[2 * i + 3] == (code % 256) as u8);
        assert(b[2 * i + 2] * 256 + b[2 * i + 3] == code);
    }
    assert((b.len() - 2) / 2 == s.len());
    assert(plain_text(b) =~= s);
}

} // verus!
