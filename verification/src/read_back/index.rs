//! Reading the cross-reference table of written texts.

use vstd::prelude::*;
use vstd::utf8::*;

use crate::bytes;
use crate::pdf::document;
use crate::pdf::error::Failure;
use crate::pdf::lexer;
use crate::pdf::lexer::Lexeme;
use crate::pdf::number;
use crate::pdf::object;
use crate::pdf::object::{Thing, XrefEntry};
use crate::pdf::value;
use crate::pdf::value::Datum;
use crate::pdf::xref;
use crate::pdf::xref::{Revision, XrefLocation, MAX_XREF_ENTRIES};
use crate::pdf_out;
use crate::pdf_out::Draft;
use crate::read_back::page_text::lemma_parts;
use crate::read_back::tokens;
use crate::read_back::tokens::{at, closes, gap, whole, MOST};
use crate::read_back::values;
use crate::read_back::values::{dict, is_token, is_value, object_ref};
use crate::table;

verus! {

proof fn lemma_zeros(k: int, s: Seq<u8>)
    requires
        0 <= k,
    ensures
        bytes::decimal_value(bytes::zeros(k) + s) == bytes::decimal_value(s),
    decreases k + s.len(),
{
    let both = bytes::zeros(k) + s;
    if s.len() > 0 {
        lemma_zeros(k, s.drop_last());
        assert(both.drop_last() =~= bytes::zeros(k) + s.drop_last());
        assert(both.last() == s.last());
    } else if k > 0 {
        lemma_zeros(k - 1, s);
        assert(both.drop_last() =~= bytes::zeros(k - 1) + s);
        assert(both.last() == 48);
    } else {
        assert(both =~= s);
    }
}

/// A padded number that stands at `p`.
proof fn lemma_padded(b: Seq<u8>, from: int, p: int, n: nat, width: int)
    requires
        gap(b, from, p),
        bytes::occurs(b, p, bytes::padded(n, width)),
        n <= MOST,
        closes(b, p + bytes::padded(n, width).len()),
    ensures
        bytes::padded(n, width).len() > 0,
        is_token(
            b,
            from,
            Lexeme::Number(whole(n as int)),
            p + bytes::padded(n, width).len(),
        ),
{
    let digits = bytes::decimal(n);
    let k = if width - digits.len() < 0 {
        0
    } else {
        width - digits.len()
    };
    let s = bytes::padded(n, width);
    bytes::law_decimal_round_trip(n);
    assert(bytes::zeros(width - digits.len()) =~= bytes::zeros(k));
    lemma_zeros(k, digits);
    let end = p + s.len();
    assert forall|i: int| p <= i < end implies number::is_digit(#[trigger] b[i]) by {
        assert(b.subrange(p, end)[i - p] == s[i - p]);
        if i - p >= k {
            assert(s[i - p] == digits[i - p - k]);
        }
    }
    tokens::lemma_number(b, from, p, end);
}

/// The row of a table for an object.
pub open spec fn row_text(offset: int) -> Seq<u8> {
    bytes::padded(offset as nat, 10) + encode_utf8(" 00000 n \n"@)
}

/// The words of a row.
proof fn lemma_row(b: Seq<u8>, from: int, r: int, offset: int)
    requires
        gap(b, from, r),
        bytes::occurs(b, r, row_text(offset)),
        0 <= offset <= MOST,
    ensures
        ({
            let w = bytes::padded(offset as nat, 10).len();
            &&& row_text(offset).len() == w + 10
            &&& is_token(b, from, Lexeme::Number(whole(offset)), r + w)
            &&& is_token(b, r + w, Lexeme::Number(whole(0)), r + w + 6)
            &&& is_token(b, r + w + 6, Lexeme::Keyword("n"@), r + w + 8)
            &&& gap(b, r + w + 8, r + w + 10)
        }),
{
    let digits = bytes::padded(offset as nat, 10);
    let s = " 00000 n \n"@;
    reveal_strlit(" 00000 n \n");
    reveal_strlit("n");
    is_ascii_chars_encode_utf8(s);
    lemma_parts(b, r, digits, encode_utf8(s));
    let e = r + digits.len();
    tokens::lemma_letters(b, e, s);
    assert(s[0] == ' ' && s[6] == ' ' && s[8] == ' ' && s[9] == '\n');
    lemma_padded(b, from, r, offset as nat, 10);
    assert(values::are_digits(s, 1, 5) && values::digits_value(s, 1, 5) == 0) by {
        reveal_with_fuel(values::are_digits, 6);
        reveal_with_fuel(values::digits_value, 6);
    }
    values::lemma_number_in(b, e, s, 0, 1, 5);
    assert(s.subrange(7, 8) =~= "n"@);
    values::lemma_keyword_in(b, e, s, 6, 7, "n"@);
}

/// The words of the first lines of a table.
proof fn lemma_top(b: Seq<u8>, from: int, x: int, size: nat)
    requires
        gap(b, from, x),
        size <= MOST,
        bytes::occurs(
            b,
            x,
            encode_utf8("xref\n0 "@) + (bytes::decimal(size) + encode_utf8(
                "\n0000000000 65535 f \n"@,
            )),
        ),
    ensures
        encode_utf8("xref\n0 "@).len() == 7,
        encode_utf8("\n0000000000 65535 f \n"@).len() == 21,
        ({
            let y = x + 7 + bytes::decimal(size).len();
            &&& is_token(b, from, Lexeme::Keyword("xref"@), x + 4)
            &&& is_token(b, x, Lexeme::Keyword("xref"@), x + 4)
            &&& lexer::is_space(b[x + 4])
            &&& bytes::occurs(b, x, encode_utf8("xref"@))
            &&& is_token(b, x + 4, Lexeme::Number(whole(0)), x + 6)
            &&& is_token(b, x + 6, Lexeme::Number(whole(size as int)), y)
            &&& is_token(b, y, Lexeme::Number(whole(0)), y + 11)
            &&& is_token(b, y + 11, Lexeme::Number(whole(65535)), y + 17)
            &&& is_token(b, y + 17, Lexeme::Keyword("f"@), y + 19)
            &&& gap(b, y + 19, y + 21)
        }),
{
    let s = "xref\n0 "@;
    let t = "\n0000000000 65535 f \n"@;
    let digits = bytes::decimal(size);
    reveal_strlit("xref\n0 ");
    reveal_strlit("\n0000000000 65535 f \n");
    reveal_strlit("xref");
    reveal_strlit("f");
    is_ascii_chars_encode_utf8(s);
    is_ascii_chars_encode_utf8(t);
    is_ascii_chars_encode_utf8("xref"@);
    lemma_parts(b, x, encode_utf8(s), digits + encode_utf8(t));
    lemma_parts(b, x + 7, digits, encode_utf8(t));
    let y = x + 7 + digits.len();
    tokens::lemma_letters(b, x, s);
    tokens::lemma_letters(b, y, t);
    assert(s[0] == 'x' && s[1] == 'r' && s[2] == 'e' && s[3] == 'f' && s[4] == '\n' && s[5] == '0'
        && s[6] == ' ');
    assert(t[0] == '\n' && t[11] == ' ' && t[17] == ' ' && t[19] == ' ' && t[20] == '\n');
    assert(s.subrange(0, 4) =~= "xref"@);
    values::lemma_keyword_in(b, x, s, 0, 0, "xref"@);
    values::lemma_spells_in(b, x, s, 0, "xref"@, 4);
    tokens::lemma_keyword(b, from, x, "xref"@);
    tokens::lemma_spells(b, x, "xref"@, 4);
    assert("xref"@.take(4) =~= "xref"@);
    assert(values::are_digits(s, 5, 1) && values::digits_value(s, 5, 1) == 0) by {
        reveal_with_fuel(values::are_digits, 2);
        reveal_with_fuel(values::digits_value, 2);
    }
    values::lemma_number_in(b, x, s, 4, 5, 1);
    tokens::lemma_decimal(b, x + 6, x + 7, size);
    assert(values::are_digits(t, 1, 10) && values::digits_value(t, 1, 10) == 0) by {
        reveal_with_fuel(values::are_digits, 11);
        reveal_with_fuel(values::digits_value, 11);
    }
    values::lemma_number_in(b, y, t, 0, 1, 10);
    assert(values::are_digits(t, 12, 5) && values::digits_value(t, 12, 5) == 65535) by {
        reveal_with_fuel(values::are_digits, 6);
        reveal_with_fuel(values::digits_value, 6);
    }
    values::lemma_number_in(b, y, t, 11, 12, 5);
    assert(t.subrange(18, 19) =~= "f"@);
    values::lemma_keyword_in(b, y, t, 17, 18, "f"@);
}

/// What a written trailer holds.
pub open spec fn trailer_entries(size: int) -> Seq<(Seq<char>, Datum)> {
    seq![("Size"@, Datum::Number(whole(size))), ("Root"@, object_ref(1))]
}

/// The words of what follows the rows.
proof fn lemma_bottom(b: Seq<u8>, from: int, z: int, size: nat, offset: nat)
    requires
        gap(b, from, z),
        size <= MOST,
        offset <= MOST,
        bytes::occurs(
            b,
            z,
            encode_utf8("trailer << /Size "@) + bytes::decimal(size) + encode_utf8(
                " /Root 1 0 R >>\nstartxref\n"@,
            ) + bytes::decimal(offset) + encode_utf8("\n%%EOF\n"@),
        ),
        b.len() == z + 17 + bytes::decimal(size).len() + 26 + bytes::decimal(offset).len() + 7,
    ensures
        ({
            let u = z + 17 + bytes::decimal(size).len();
            let v = u + 26;
            let w = v + bytes::decimal(offset).len();
            &&& is_token(b, from, Lexeme::Keyword("trailer"@), z + 7)
            &&& is_token(b, z + 7, Lexeme::StartDictionary, z + 10)
            &&& is_token(b, z + 10, Lexeme::Name("Size"@), z + 16)
            &&& is_token(b, z + 16, Lexeme::Number(whole(size as int)), u)
            &&& is_token(b, u, Lexeme::Name("Root"@), u + 6)
            &&& is_token(b, u + 6, Lexeme::Number(whole(1)), u + 8)
            &&& is_token(b, u + 8, Lexeme::Number(whole(0)), u + 10)
            &&& is_token(b, u + 10, Lexeme::Keyword("R"@), u + 12)
            &&& is_token(b, u + 12, Lexeme::EndDictionary, u + 15)
            &&& is_token(b, u + 15, Lexeme::Keyword("startxref"@), u + 25)
            &&& is_token(b, u + 25, Lexeme::Number(whole(offset as int)), w)
            &&& lexer::token_at(b, w) == (None::<Lexeme>, b.len() as int)
            &&& bytes::occurs(b, u + 16, encode_utf8("startxref"@))
            &&& encode_utf8("startxref"@).len() == 9
            &&& b[u + 15] == 10
            &&& b[u + 24] == 102
            &&& b[u + 25] == 10
            &&& bytes::occurs(b, v, bytes::decimal(offset))
            &&& bytes::occurs(b, w, encode_utf8("\n%%EOF\n"@))
            &&& encode_utf8("\n%%EOF\n"@).len() == 7
        }),
{
    let s = "trailer << /Size "@;
    let t = " /Root 1 0 R >>\nstartxref\n"@;
    let e = "\n%%EOF\n"@;
    reveal_strlit("trailer << /Size ");
    reveal_strlit(" /Root 1 0 R >>\nstartxref\n");
    reveal_strlit("\n%%EOF\n");
    reveal_strlit("trailer");
    reveal_strlit("Size");
    reveal_strlit("Root");
    reveal_strlit("R");
    reveal_strlit("startxref");
    is_ascii_chars_encode_utf8(s);
    is_ascii_chars_encode_utf8(t);
    is_ascii_chars_encode_utf8(e);
    is_ascii_chars_encode_utf8("startxref"@);
    let d1 = bytes::decimal(size);
    let d2 = bytes::decimal(offset);
    let a1 = encode_utf8(s) + d1;
    let a2 = a1 + encode_utf8(t);
    let a3 = a2 + d2;
    lemma_parts(b, z, a3, encode_utf8(e));
    lemma_parts(b, z, a2, d2);
    lemma_parts(b, z, a1, encode_utf8(t));
    lemma_parts(b, z, encode_utf8(s), d1);
    let u = z + 17 + d1.len();
    let v = u + 26;
    let w = v + d2.len();
    tokens::lemma_letters(b, z, s);
    tokens::lemma_letters(b, u, t);
    tokens::lemma_letters(b, w, e);
    assert(s[0] == 't' && s[7] == ' ' && s[8] == '<' && s[9] == '<' && s[10] == ' ' && s[11] == '/'
        && s[16] == ' ');
    assert(t[0] == ' ' && t[1] == '/' && t[6] == ' ' && t[8] == ' ' && t[10] == ' ' && t[12] == ' '
        && t[13] == '>' && t[14] == '>' && t[15] == '\n' && t[24] == 'f' && t[25] == '\n');
    assert(e[0] == '\n' && e[1] == '%' && e[2] == '%' && e[3] == 'E' && e[4] == 'O' && e[5] == 'F'
        && e[6] == '\n');
    assert(s.subrange(0, 7) =~= "trailer"@);
    values::lemma_spells_in(b, z, s, 0, "trailer"@, 7);
    tokens::lemma_keyword(b, from, z, "trailer"@);
    values::lemma_mark_in(b, z, s, 7, 8);
    assert(s.subrange(12, 16) =~= "Size"@);
    values::lemma_name_in(b, z, s, 10, 11, "Size"@);
    tokens::lemma_decimal(b, z + 16, z + 17, size);
    assert(t.subrange(2, 6) =~= "Root"@);
    values::lemma_name_in(b, u, t, 0, 1, "Root"@);
    assert(values::are_digits(t, 7, 1) && values::digits_value(t, 7, 1) == 1) by {
        reveal_with_fuel(values::are_digits, 2);
        reveal_with_fuel(values::digits_value, 2);
    }
    values::lemma_number_in(b, u, t, 6, 7, 1);
    assert(values::are_digits(t, 9, 1) && values::digits_value(t, 9, 1) == 0) by {
        reveal_with_fuel(values::are_digits, 2);
        reveal_with_fuel(values::digits_value, 2);
    }
    values::lemma_number_in(b, u, t, 8, 9, 1);
    assert(t.subrange(11, 12) =~= "R"@);
    values::lemma_keyword_in(b, u, t, 10, 11, "R"@);
    values::lemma_mark_in(b, u, t, 12, 13);
    assert(t.subrange(16, 25) =~= "startxref"@);
    values::lemma_keyword_in(b, u, t, 15, 16, "startxref"@);
    values::lemma_spells_in(b, u, t, 16, "startxref"@, 9);
    tokens::lemma_spells(b, u + 16, "startxref"@, 9);
    assert("startxref"@.take(9) =~= "startxref"@);
    tokens::lemma_decimal(b, u + 25, v, offset);
    assert(b.len() == w + 7);
    assert(lexer::space_end(b, w, false) == w + 7) by {
        reveal_with_fuel(lexer::space_end, 12);
    }
    assert(lexer::token_at(b, w) == (None::<Lexeme>, b.len() as int)) by {
        reveal(lexer::token_at);
    }
}

/// A draft that can be finished: its objects stand within it, at places that a
/// number holds exactly.
pub open spec fn is_draft(draft: Draft) -> bool {
    &&& 0 < draft.offsets.len() <= 50_000
    &&& draft.bytes.len() <= usize::MAX
    &&& draft.bytes.len() <= MOST
    &&& forall|i: int|
        0 <= i < draft.offsets.len() ==> 0 < #[trigger] draft.offsets[i] < draft.bytes.len()
}

pub open spec fn size_of_table(draft: Draft) -> nat {
    (draft.offsets.len() + 1) as nat
}

/// Where the rows for objects begin.
pub open spec fn rows_start(draft: Draft) -> int {
    draft.bytes.len() as int + 28 + bytes::decimal(size_of_table(draft)).len()
}

/// Where the row for the object behind the first `k` begins.
pub open spec fn row_start(draft: Draft, k: int) -> int {
    rows_start(draft) + pdf_out::table_rows(draft.offsets, k).len()
}

/// Where the trailer begins.
pub open spec fn trailer_start(draft: Draft) -> int {
    row_start(draft, draft.offsets.len() as int)
}

/// Where the parts of a finished file stand.
pub proof fn lemma_finished(draft: Draft)
    ensures
        ({
            let b = draft.finished();
            let x = draft.bytes.len() as int;
            let size = bytes::decimal(size_of_table(draft));
            let n = draft.offsets.len() as int;
            &&& bytes::occurs(b, 0, draft.bytes)
            &&& bytes::occurs(
                b,
                x,
                encode_utf8("xref\n0 "@) + (size + encode_utf8("\n0000000000 65535 f \n"@)),
            )
            &&& bytes::occurs(b, rows_start(draft), pdf_out::table_rows(draft.offsets, n))
            &&& bytes::occurs(
                b,
                trailer_start(draft),
                encode_utf8("trailer << /Size "@) + size + encode_utf8(
                    " /Root 1 0 R >>\nstartxref\n"@,
                ) + bytes::decimal(draft.bytes.len()) + encode_utf8("\n%%EOF\n"@),
            )
            &&& b.len() == trailer_start(draft) + 17 + size.len() + 26 + bytes::decimal(
                draft.bytes.len(),
            ).len() + 7
        }),
{
    let b = draft.finished();
    let x = draft.bytes.len() as int;
    let size = bytes::decimal(size_of_table(draft));
    let n = draft.offsets.len() as int;
    let p = encode_utf8("xref\n0 "@);
    let a = encode_utf8("\n0000000000 65535 f \n"@);
    let rows = pdf_out::table_rows(draft.offsets, n);
    let t = encode_utf8("trailer << /Size "@);
    let r = encode_utf8(" /Root 1 0 R >>\nstartxref\n"@);
    let d = bytes::decimal(draft.bytes.len());
    let e = encode_utf8("\n%%EOF\n"@);
    reveal_strlit("xref\n0 ");
    reveal_strlit("\n0000000000 65535 f \n");
    reveal_strlit("trailer << /Size ");
    reveal_strlit(" /Root 1 0 R >>\nstartxref\n");
    reveal_strlit("\n%%EOF\n");
    is_ascii_chars_encode_utf8("xref\n0 "@);
    is_ascii_chars_encode_utf8("\n0000000000 65535 f \n"@);
    is_ascii_chars_encode_utf8("trailer << /Size "@);
    is_ascii_chars_encode_utf8(" /Root 1 0 R >>\nstartxref\n"@);
    is_ascii_chars_encode_utf8("\n%%EOF\n"@);
    let top = p + (size + a);
    let bottom = t + size + r + d + e;
    assert(draft.table() == size + a + rows + t + size + r + d + e);
    assert(p + draft.table() =~= top + (rows + bottom));
    assert(b.subrange(0, b.len() as int) =~= b);
    assert(b =~= draft.bytes + (top + (rows + bottom)));
    lemma_parts(b, 0, draft.bytes, top + (rows + bottom));
    lemma_parts(b, x, top, rows + bottom);
    lemma_parts(b, x + top.len(), rows, bottom);
}

/// The row for the object behind the first `k`.
proof fn lemma_row_at(b: Seq<u8>, r: int, offsets: Seq<int>, k: int, n: int)
    requires
        0 <= k < n <= offsets.len(),
        bytes::occurs(b, r, pdf_out::table_rows(offsets, n)),
    ensures
        bytes::occurs(b, r + pdf_out::table_rows(offsets, k).len(), row_text(offsets[k])),
        pdf_out::table_rows(offsets, k + 1).len() == pdf_out::table_rows(offsets, k).len()
            + row_text(offsets[k]).len(),
    decreases n,
{
    let before = pdf_out::table_rows(offsets, n - 1);
    let row = row_text(offsets[n - 1]);
    assert(pdf_out::table_rows(offsets, n) =~= before + row);
    lemma_parts(b, r, before, row);
    if k < n - 1 {
        lemma_row_at(b, r, offsets, k, n - 1);
    }
}

/// The entries for the first `k` numbers.
pub open spec fn entries(offsets: Seq<int>, k: int) -> Seq<(u32, XrefEntry)> {
    Seq::new(
        k as nat,
        |j: int|
            (
                j as u32,
                if j == 0 {
                    XrefEntry::Free
                } else {
                    XrefEntry::Direct { offset: offsets[j - 1] as usize, generation: 0 }
                },
            ),
    )
}

proof fn lemma_rank(list: Seq<(u32, XrefEntry)>, key: u32, i: int)
    requires
        0 <= i <= list.len() == key,
        forall|k: int| 0 <= k < list.len() ==> (#[trigger] list[k]).0 == k,
    ensures
        table::rank::<u32, XrefEntry>(list, key, i) == list.len(),
    decreases list.len() - i,
{
    if i < list.len() {
        assert(list[i].0 == i);
        lemma_rank(list, key, i + 1);
    }
}

proof fn lemma_entries(offsets: Seq<int>, k: int)
    requires
        0 <= k <= offsets.len() <= 50_000,
    ensures
        object::entry_of(entries(offsets, k), k as u32) is None,
        table::put::<u32, XrefEntry>(
            entries(offsets, k),
            k as u32,
            entries(offsets, k + 1)[k].1,
        ) == entries(offsets, k + 1),
{
    let list = entries(offsets, k);
    lemma_rank(list, k as u32, 0);
    let more = entries(offsets, k + 1);
    assert(more[k].0 == k as u32);
    assert(table::put::<u32, XrefEntry>(list, k as u32, more[k].1) =~= more);
}

/// Reading stands before row `k`.
spec fn before_row(draft: Draft, k: int) -> int {
    row_start(draft, k) - 2
}

proof fn lemma_one_row(draft: Draft, k: int)
    requires
        is_draft(draft),
        0 <= k < draft.offsets.len(),
        gap(draft.finished(), before_row(draft, k), row_start(draft, k)),
    ensures
        ({
            let b = draft.finished();
            let from = before_row(draft, k);
            let w = row_start(draft, k) + bytes::padded(draft.offsets[k] as nat, 10).len();
            &&& is_token(b, from, Lexeme::Number(whole(draft.offsets[k])), w)
            &&& is_token(b, w, Lexeme::Number(whole(0)), w + 6)
            &&& is_token(b, w + 6, Lexeme::Keyword("n"@), w + 8)
            &&& before_row(draft, k + 1) == w + 8
            &&& gap(b, before_row(draft, k + 1), row_start(draft, k + 1))
        }),
{
    let b = draft.finished();
    lemma_finished(draft);
    lemma_row_at(b, rows_start(draft), draft.offsets, k, draft.offsets.len() as int);
    assert(0 < draft.offsets[k] < draft.bytes.len());
    lemma_row(b, before_row(draft, k), row_start(draft, k), draft.offsets[k]);
}

/// The rows from the `k`-th on are read.
proof fn lemma_rows_read(draft: Draft, k: int)
    requires
        is_draft(draft),
        0 <= k <= draft.offsets.len(),
        gap(draft.finished(), before_row(draft, k), row_start(draft, k)),
    ensures
        xref::table_rows(
            draft.finished(),
            draft.bytes.len() as int,
            at(before_row(draft, k)),
            entries(draft.offsets, k + 1),
            1,
            k + 1,
            draft.offsets.len() as int + 1,
        ) == xref::table_sections(
            draft.finished(),
            draft.bytes.len() as int,
            at(before_row(draft, draft.offsets.len() as int)),
            entries(draft.offsets, draft.offsets.len() as int + 1),
            1,
        ),
        gap(
            draft.finished(),
            before_row(draft, draft.offsets.len() as int),
            trailer_start(draft),
        ),
    decreases draft.offsets.len() - k,
{
    if k < draft.offsets.len() {
        let b = draft.finished();
        let x = draft.bytes.len() as int;
        let offset = draft.offsets[k];
        lemma_one_row(draft, k);
        lemma_finished(draft);
        assert(0 < offset < x);
        lemma_entries(draft.offsets, k + 1);
        tokens::lemma_bounded(offset, xref::max(b.len() as int, MAX_XREF_ENTRIES as int));
        tokens::lemma_bounded(0, u16::MAX as int);
        reveal_strlit("n");
        reveal_strlit("f");
        assert("n"@[0] == 'n' && "f"@[0] == 'f');
        lemma_rows_read(draft, k + 1);
    }
}

/// What a written trailer holds under the names that are looked for.
proof fn lemma_trailer_holds(size: int)
    ensures
        ({
            let held = values::filled(trailer_entries(size), 2);
            &&& value::entry(held, "Size"@) == Some(Datum::Number(whole(size)))
            &&& value::entry(held, "XRefStm"@) is None
            &&& value::entry(held, "Encrypt"@) is None
            &&& value::entry(held, "Prev"@) is None
        }),
{
    let d = trailer_entries(size);
    reveal_strlit("Size");
    reveal_strlit("Root");
    reveal_strlit("Prev");
    reveal_strlit("XRefStm");
    reveal_strlit("Encrypt");
    assert("Size"@[0] == 'S' && "Root"@[0] == 'R' && "Prev"@[0] == 'P' && "XRefStm"@[0] == 'X'
        && "Encrypt"@[0] == 'E');
    values::lemma_sought(d, 2, "Size"@);
    values::lemma_sought(d, 2, "XRefStm"@);
    values::lemma_sought(d, 2, "Encrypt"@);
    values::lemma_sought(d, 2, "Prev"@);
    reveal_with_fuel(values::sought, 3);
}

/// Where the number of the table's size ends in the trailer.
spec fn size_end(draft: Draft) -> int {
    trailer_start(draft) + 17 + bytes::decimal(size_of_table(draft)).len()
}

/// The trailer's dictionary.
proof fn lemma_trailer_value(draft: Draft)
    requires
        is_draft(draft),
        gap(
            draft.finished(),
            before_row(draft, draft.offsets.len() as int),
            trailer_start(draft),
        ),
    ensures
        is_value(
            draft.finished(),
            trailer_start(draft) + 7,
            size_end(draft) + 15,
            dict(trailer_entries(size_of_table(draft) as int)),
            0,
        ),
        is_token(
            draft.finished(),
            before_row(draft, draft.offsets.len() as int),
            Lexeme::Keyword("trailer"@),
            trailer_start(draft) + 7,
        ),
        is_token(
            draft.finished(),
            trailer_start(draft) + 7,
            Lexeme::StartDictionary,
            trailer_start(draft) + 10,
        ),
{
    let b = draft.finished();
    let z = trailer_start(draft);
    let u = size_end(draft);
    let size = size_of_table(draft);
    lemma_finished(draft);
    lemma_bottom(
        b,
        before_row(draft, draft.offsets.len() as int),
        z,
        size,
        draft.bytes.len(),
    );
    values::lemma_number_value(b, z + 16, u, whole(size as int), 1);
    values::lemma_ref_value(b, u + 6, u + 8, u + 10, u + 12, 1, 1);
    let d = trailer_entries(size as int);
    values::lemma_entry(b, z + 10, z + 16, u, 1, d, 0);
    values::lemma_entry(b, u, u + 6, u + 12, 1, d, 1);
    values::lemma_dict_end(b, u + 12, u + 15, 1, d);
    values::lemma_dict_value(b, z + 7, z + 10, u + 15, 0, d);
}

/// The words before the rows.
proof fn lemma_start(draft: Draft, from: int)
    requires
        is_draft(draft),
        gap(draft.finished(), from, draft.bytes.len() as int),
    ensures
        ({
            let b = draft.finished();
            let x = draft.bytes.len() as int;
            let y = x + 7 + bytes::decimal(size_of_table(draft)).len();
            &&& is_token(b, from, Lexeme::Keyword("xref"@), x + 4)
            &&& is_token(b, x, Lexeme::Keyword("xref"@), x + 4)
            &&& lexer::is_space(b[x + 4])
            &&& bytes::occurs(b, x, encode_utf8("xref"@))
            &&& encode_utf8("xref"@).len() == 4
            &&& is_token(b, x + 4, Lexeme::Number(whole(0)), x + 6)
            &&& is_token(b, x + 6, Lexeme::Number(whole(size_of_table(draft) as int)), y)
            &&& is_token(b, y, Lexeme::Number(whole(0)), y + 11)
            &&& is_token(b, y + 11, Lexeme::Number(whole(65535)), y + 17)
            &&& is_token(b, y + 17, Lexeme::Keyword("f"@), y + 19)
            &&& y + 19 == before_row(draft, 0)
            &&& gap(b, before_row(draft, 0), row_start(draft, 0))
        }),
{
    let b = draft.finished();
    let x = draft.bytes.len() as int;
    lemma_finished(draft);
    lemma_top(b, from, x, size_of_table(draft));
    reveal_strlit("xref");
    is_ascii_chars_encode_utf8("xref"@);
    assert(pdf_out::table_rows(draft.offsets, 0).len() == 0);
}

/// The table's head and the row of number zero.
proof fn lemma_head_read(draft: Draft)
    requires
        is_draft(draft),
    ensures
        gap(draft.finished(), before_row(draft, 0), row_start(draft, 0)),
        ({
            let b = draft.finished();
            let x = draft.bytes.len() as int;
            &&& is_token(b, x, Lexeme::Keyword("xref"@), x + 4)
            &&& xref::table_sections(b, x, at(x + 4), Seq::empty(), 0) == xref::table_rows(
                b,
                x,
                at(before_row(draft, 0)),
                entries(draft.offsets, 1),
                1,
                1,
                draft.offsets.len() as int + 1,
            )
        }),
{
    let b = draft.finished();
    let x = draft.bytes.len() as int;
    let size = size_of_table(draft) as int;
    let y = x + 7 + bytes::decimal(size_of_table(draft)).len();
    lemma_finished(draft);
    lemma_start(draft, x);
    tokens::lemma_bounded(0, MAX_XREF_ENTRIES as int);
    tokens::lemma_bounded(size, MAX_XREF_ENTRIES as int);
    tokens::lemma_bounded(0, xref::max(b.len() as int, MAX_XREF_ENTRIES as int));
    tokens::lemma_bounded(65535, u16::MAX as int);
    lemma_entries(draft.offsets, 0);
    assert(entries(draft.offsets, 0) =~= Seq::empty());
    assert(xref::table_sections(b, x, at(x + 4), Seq::empty(), 0) == xref::table_rows(
        b,
        x,
        at(y),
        Seq::empty(),
        1,
        0,
        size,
    ));
}

/// The table is read as it was written.
pub proof fn lemma_revision(draft: Draft)
    requires
        is_draft(draft),
    ensures
        xref::revision_at(draft.finished(), draft.bytes.len() as int) == Ok::<Revision, Failure>(
            Revision {
                rows: entries(draft.offsets, draft.offsets.len() as int + 1),
                trailer: values::filled(trailer_entries(size_of_table(draft) as int), 2),
            },
        ),
        value::entry(
            values::filled(trailer_entries(size_of_table(draft) as int), 2),
            "Prev"@,
        ) is None,
        !xref::is_unsupported(values::filled(trailer_entries(size_of_table(draft) as int), 2)),
{
    let b = draft.finished();
    let x = draft.bytes.len() as int;
    let n = draft.offsets.len() as int;
    let size = size_of_table(draft) as int;
    lemma_finished(draft);
    lemma_head_read(draft);
    lemma_rows_read(draft, 0);
    lemma_trailer_value(draft);
    lemma_trailer_holds(size);
    tokens::lemma_bounded(size, MAX_XREF_ENTRIES as int);
    let rows = entries(draft.offsets, n + 1);
    assert(xref::table_sections(b, x, at(before_row(draft, n)), rows, 1) == Some(
        (rows, at(trailer_start(draft) + 7)),
    ));
    assert forall|i: int| 0 <= i < rows.len() implies (#[trigger] rows[i]).0 < size by {
    }
}

proof fn lemma_capped(b: Seq<u8>, from: int, to: int, cap: int)
    requires
        0 <= from <= to <= b.len(),
        forall|k: int| from <= k < to ==> number::is_digit(#[trigger] b[k]),
        bytes::decimal_value(b.subrange(from, to)) < cap,
    ensures
        number::capped_value(b, from, to, cap) == bytes::decimal_value(b.subrange(from, to)),
        0 <= bytes::decimal_value(b.subrange(from, to)),
    decreases to - from,
{
    let s = b.subrange(from, to);
    if from < to {
        let before = b.subrange(from, to - 1);
        assert(s.drop_last() =~= before);
        assert(s.last() == b[to - 1]);
        assert(number::is_digit(b[to - 1]));
        lemma_capped_sign(b, from, to - 1);
        lemma_capped(b, from, to - 1, cap);
    }
}

proof fn lemma_capped_sign(b: Seq<u8>, from: int, to: int)
    requires
        0 <= from <= to <= b.len(),
        forall|k: int| from <= k < to ==> number::is_digit(#[trigger] b[k]),
    ensures
        0 <= bytes::decimal_value(b.subrange(from, to)),
    decreases to - from,
{
    let s = b.subrange(from, to);
    if from < to {
        assert(s.drop_last() =~= b.subrange(from, to - 1));
        assert(s.last() == b[to - 1]);
        lemma_capped_sign(b, from, to - 1);
    }
}

proof fn lemma_digits_back(b: Seq<u8>, from: int, to: int)
    requires
        0 < from <= to <= b.len(),
        forall|k: int| from <= k < to ==> number::is_digit(#[trigger] b[k]),
        !number::is_digit(b[from - 1]),
    ensures
        xref::digits_start(b, to) == from,
    decreases to - from,
{
    if from < to {
        assert(number::is_digit(b[to - 1]));
        lemma_digits_back(b, from, to - 1);
    }
}

/// The mark at the end of a file.
proof fn lemma_eof(b: Seq<u8>, w: int)
    requires
        bytes::occurs(b, w, encode_utf8("\n%%EOF\n"@)),
        b.len() == w + 7,
    ensures
        encode_utf8("%%EOF"@).len() == 5,
        bytes::last_at(b, b.len() - 5, encode_utf8("%%EOF"@)) == Some(w + 1),
        b[w] == 10,
{
    let tail = "\n%%EOF\n"@;
    let eof = encode_utf8("%%EOF"@);
    reveal_strlit("\n%%EOF\n");
    reveal_strlit("%%EOF");
    is_ascii_chars_encode_utf8(tail);
    is_ascii_chars_encode_utf8("%%EOF"@);
    tokens::lemma_letters(b, w, tail);
    assert(tail[0] == '\n' && tail[1] == '%' && tail[2] == '%' && tail[3] == 'E' && tail[4] == 'O'
        && tail[5] == 'F' && tail[6] == '\n');
    assert("%%EOF"@[0] == '%' && "%%EOF"@[1] == '%' && "%%EOF"@[2] == 'E' && "%%EOF"@[3] == 'O'
        && "%%EOF"@[4] == 'F');
    assert("%%EOF"@[0] as u8 == eof[0] && "%%EOF"@[1] as u8 == eof[1] && "%%EOF"@[2] as u8 == eof[2]
        && "%%EOF"@[3] as u8 == eof[3] && "%%EOF"@[4] as u8 == eof[4]);
    assert(b.subrange(w + 1, w + 6) =~= eof);
    assert(!bytes::occurs(b, w + 2, eof)) by {
        if bytes::occurs(b, w + 2, eof) {
            assert(b.subrange(w + 2, w + 7)[1] == eof[1]);
        }
    }
    assert(bytes::last_at(b, w + 2, eof) == Some(w + 1)) by {
        reveal_with_fuel(bytes::last_at, 3);
    }
}

/// The number before that mark.
proof fn lemma_number_back(b: Seq<u8>, v: int, w: int, n: nat)
    requires
        1 < v,
        bytes::occurs(b, v, bytes::decimal(n)),
        w == v + bytes::decimal(n).len(),
        w < b.len(),
        b[w] == 10,
        b[v - 1] == 10,
        b[v - 2] == 102,
        n <= usize::MAX,
    ensures
        v < w,
        xref::trimmed(b, w + 1) == w,
        xref::digits_start(b, w) == v,
        xref::trimmed(b, v) == v - 1,
        number::capped_value(b, v, w, usize::MAX + 1) == n,
{
    let digits = bytes::decimal(n);
    bytes::law_decimal_round_trip(n);
    assert forall|k: int| v <= k < w implies number::is_digit(#[trigger] b[k]) by {
        assert(b.subrange(v, w)[k - v] == digits[k - v]);
    }
    assert(number::is_digit(b[w - 1]));
    assert(xref::trimmed(b, w) == w);
    assert(xref::trimmed(b, w + 1) == w);
    lemma_digits_back(b, v, w);
    assert(xref::trimmed(b, v - 1) == v - 1);
    assert(xref::trimmed(b, v) == v - 1);
    lemma_capped(b, v, w, usize::MAX + 1);
}

/// The words behind the rows.
proof fn lemma_stop(draft: Draft)
    requires
        is_draft(draft),
    ensures
        ({
            let b = draft.finished();
            let n = draft.offsets.len() as int;
            let z = trailer_start(draft);
            let u = size_end(draft);
            let v = u + 26;
            let w = v + bytes::decimal(draft.bytes.len()).len();
            &&& gap(b, before_row(draft, n), z)
            &&& is_token(b, before_row(draft, n), Lexeme::Keyword("trailer"@), z + 7)
            &&& is_token(b, z + 7, Lexeme::StartDictionary, z + 10)
            &&& is_token(b, z + 10, Lexeme::Name("Size"@), z + 16)
            &&& is_token(b, z + 16, Lexeme::Number(whole(size_of_table(draft) as int)), u)
            &&& is_token(b, u, Lexeme::Name("Root"@), u + 6)
            &&& is_token(b, u + 6, Lexeme::Number(whole(1)), u + 8)
            &&& is_token(b, u + 8, Lexeme::Number(whole(0)), u + 10)
            &&& is_token(b, u + 10, Lexeme::Keyword("R"@), u + 12)
            &&& is_token(b, u + 12, Lexeme::EndDictionary, u + 15)
            &&& is_token(b, u + 15, Lexeme::Keyword("startxref"@), u + 25)
            &&& is_token(b, u + 25, Lexeme::Number(whole(draft.bytes.len() as int)), w)
            &&& lexer::token_at(b, w) == (None::<Lexeme>, b.len() as int)
            &&& bytes::occurs(b, u + 16, encode_utf8("startxref"@))
            &&& encode_utf8("startxref"@).len() == 9
            &&& b[u + 15] == 10
            &&& b[u + 24] == 102
            &&& b[u + 25] == 10
            &&& bytes::occurs(b, v, bytes::decimal(draft.bytes.len()))
            &&& bytes::occurs(b, w, encode_utf8("\n%%EOF\n"@))
            &&& b.len() == w + 7
        }),
{
    lemma_finished(draft);
    lemma_head_read(draft);
    lemma_rows_read(draft, 0);
    lemma_bottom(
        draft.finished(),
        before_row(draft, draft.offsets.len() as int),
        trailer_start(draft),
        size_of_table(draft),
        draft.bytes.len(),
    );
}

/// The bytes that end a file.
proof fn lemma_last_bytes(draft: Draft)
    requires
        is_draft(draft),
    ensures
        ({
            let b = draft.finished();
            let u = size_end(draft);
            let v = u + 26;
            let w = v + bytes::decimal(draft.bytes.len()).len();
            &&& 0 < u
            &&& bytes::occurs(b, u + 16, encode_utf8("startxref"@))
            &&& encode_utf8("startxref"@).len() == 9
            &&& b[u + 15] == 10
            &&& b[u + 24] == 102
            &&& b[u + 25] == 10
            &&& bytes::occurs(b, v, bytes::decimal(draft.bytes.len()))
            &&& bytes::occurs(b, w, encode_utf8("\n%%EOF\n"@))
            &&& b.len() == w + 7
        }),
{
    lemma_stop(draft);
}

/// The table begins with its word.
proof fn lemma_table_here(draft: Draft)
    requires
        is_draft(draft),
    ensures
        xref::is_table_at(draft.finished(), draft.bytes.len() as int),
        draft.bytes.len() <= draft.finished().len(),
{
    lemma_start(draft, draft.bytes.len() as int);
}

/// A table that a file points to is found.
proof fn lemma_pointed_at(b: Seq<u8>, u: int, n: nat)
    requires
        0 < u,
        bytes::occurs(b, u + 16, encode_utf8("startxref"@)),
        encode_utf8("startxref"@).len() == 9,
        b[u + 15] == 10,
        b[u + 24] == 102,
        b[u + 25] == 10,
        bytes::occurs(b, u + 26, bytes::decimal(n)),
        bytes::occurs(b, u + 26 + bytes::decimal(n).len(), encode_utf8("\n%%EOF\n"@)),
        b.len() == u + 26 + bytes::decimal(n).len() + 7,
        n <= usize::MAX,
        n <= b.len(),
        xref::is_table_at(b, n as int),
    ensures
        xref::location(b) == Ok::<XrefLocation, Failure>(XrefLocation::Table(n as usize)),
{
    let v = u + 26;
    let w = v + bytes::decimal(n).len();
    lemma_eof(b, w);
    lemma_number_back(b, v, w, n);
}

/// The end of a file says where its table is.
pub proof fn lemma_location(draft: Draft)
    requires
        is_draft(draft),
    ensures
        xref::location(draft.finished()) == Ok::<XrefLocation, Failure>(
            XrefLocation::Table(draft.bytes.len() as usize),
        ),
{
    lemma_last_bytes(draft);
    lemma_table_here(draft);
    lemma_pointed_at(draft.finished(), size_end(draft), draft.bytes.len());
}

/// A token that begins no object is passed over.
proof fn lemma_scan_word(
    b: Seq<u8>,
    from: int,
    token: Lexeme,
    to: int,
    table: Option<usize>,
    objects: Seq<(u32, Thing)>,
)
    requires
        is_token(b, from, token, to),
        !(token is Number),
        token != Lexeme::Keyword("trailer"@),
    ensures
        document::scan(b, at(from), table, objects) == document::scan(b, at(to), table, objects),
{
    lexer::lemma_token_at(b, to);
    lexer::lemma_token_at(b, lexer::token_at(b, to).1);
}

/// A number that no other follows is passed over, with what follows it.
proof fn lemma_scan_number(
    b: Seq<u8>,
    from: int,
    n: int,
    p: int,
    table: Option<usize>,
    objects: Seq<(u32, Thing)>,
)
    requires
        is_token(b, from, Lexeme::Number(whole(n)), p),
        lexer::token_at(b, p).0 is Some ==> !(lexer::token_at(b, p).0->0 is Number),
    ensures
        document::scan(b, at(from), table, objects) == document::scan(
            b,
            at(lexer::token_at(b, p).1),
            table,
            objects,
        ),
{
    lexer::lemma_token_at(b, p);
    lexer::lemma_token_at(b, lexer::token_at(b, p).1);
}

/// Two numbers that begin no object are passed over, with what follows them.
proof fn lemma_scan_numbers(
    b: Seq<u8>,
    from: int,
    n: int,
    p: int,
    m: int,
    q: int,
    to: int,
    table: Option<usize>,
    objects: Seq<(u32, Thing)>,
)
    requires
        is_token(b, from, Lexeme::Number(whole(n)), p),
        is_token(b, p, Lexeme::Number(whole(m)), q),
        lexer::token_at(b, q).0 != Some(Lexeme::Keyword("obj"@)),
        lexer::token_at(b, q).1 == to,
    ensures
        document::scan(b, at(from), table, objects) == document::scan(b, at(to), table, objects),
{
    lexer::lemma_token_at(b, q);
}

/// The rows from the `k`-th on are passed over.
proof fn lemma_scan_rows(
    draft: Draft,
    k: int,
    table: Option<usize>,
    objects: Seq<(u32, Thing)>,
)
    requires
        is_draft(draft),
        0 <= k <= draft.offsets.len(),
        gap(draft.finished(), before_row(draft, k), row_start(draft, k)),
    ensures
        document::scan(draft.finished(), at(before_row(draft, k)), table, objects)
            == document::scan(
            draft.finished(),
            at(before_row(draft, draft.offsets.len() as int)),
            table,
            objects,
        ),
    decreases draft.offsets.len() - k,
{
    if k < draft.offsets.len() {
        let b = draft.finished();
        lemma_one_row(draft, k);
        let w = row_start(draft, k) + bytes::padded(draft.offsets[k] as nat, 10).len();
        reveal_strlit("n");
        reveal_strlit("obj");
        assert("n"@.len() == 1 && "obj"@.len() == 3);
        lemma_scan_numbers(
            b,
            before_row(draft, k),
            draft.offsets[k],
            w,
            0,
            w + 6,
            w + 8,
            table,
            objects,
        );
        lemma_scan_rows(draft, k + 1, table, objects);
    }
}

/// What precedes the rows is passed over.
proof fn lemma_scan_start(
    draft: Draft,
    from: int,
    table: Option<usize>,
    objects: Seq<(u32, Thing)>,
)
    requires
        is_draft(draft),
        gap(draft.finished(), from, draft.bytes.len() as int),
    ensures
        document::scan(draft.finished(), at(from), table, objects) == document::scan(
            draft.finished(),
            at(before_row(draft, 0)),
            table,
            objects,
        ),
        gap(draft.finished(), before_row(draft, 0), row_start(draft, 0)),
{
    let b = draft.finished();
    let x = draft.bytes.len() as int;
    let size = size_of_table(draft);
    let y = x + 7 + bytes::decimal(size).len();
    lemma_start(draft, from);
    reveal_strlit("xref");
    reveal_strlit("trailer");
    assert("xref"@.len() == 4 && "trailer"@.len() == 7);
    lemma_scan_word(b, from, Lexeme::Keyword("xref"@), x + 4, table, objects);
    lemma_scan_numbers(b, x + 4, 0, x + 6, size as int, y, y + 11, table, objects);
    lemma_scan_number(b, y + 11, 65535, y + 17, table, objects);
}

/// The trailer is passed over.
proof fn lemma_scan_trailer(draft: Draft, table: Option<usize>, objects: Seq<(u32, Thing)>)
    requires
        is_draft(draft),
    ensures
        document::scan(
            draft.finished(),
            at(before_row(draft, draft.offsets.len() as int)),
            table,
            objects,
        ) == document::scan(draft.finished(), at(trailer_start(draft) + 7), table, objects),
{
    let b = draft.finished();
    let z = trailer_start(draft);
    let size = size_of_table(draft) as int;
    lemma_stop(draft);
    lemma_trailer_value(draft);
    lemma_trailer_holds(size);
    let ahead = lexer::look(b, at(z + 7));
    assert(value::value_at(b, ahead, 0) == value::value_at(b, at(z + 7), 0));
    assert(document::trailer_at(b, at(z + 7)) is None);
    lexer::lemma_token_at(b, z + 7);
    lexer::lemma_token_at(b, z + 10);
}

/// What follows the trailer's keyword is passed over.
proof fn lemma_scan_end(draft: Draft, table: Option<usize>, objects: Seq<(u32, Thing)>)
    requires
        is_draft(draft),
        objects.len() > 0,
    ensures
        document::scan(draft.finished(), at(trailer_start(draft) + 7), table, objects) == Ok::<
            Seq<(u32, Thing)>,
            Failure,
        >(objects),
{
    let b = draft.finished();
    let z = trailer_start(draft);
    let u = size_end(draft);
    let w = u + 26 + bytes::decimal(draft.bytes.len()).len();
    lemma_stop(draft);
    reveal_strlit("startxref");
    reveal_strlit("trailer");
    reveal_strlit("R");
    reveal_strlit("obj");
    assert("startxref"@.len() == 9 && "trailer"@.len() == 7 && "R"@.len() == 1 && "obj"@.len() == 3);
    lemma_scan_word(b, z + 7, Lexeme::StartDictionary, z + 10, table, objects);
    lemma_scan_word(b, z + 10, Lexeme::Name("Size"@), z + 16, table, objects);
    lemma_scan_number(b, z + 16, size_of_table(draft) as int, u, table, objects);
    lemma_scan_numbers(b, u + 6, 1, u + 8, 0, u + 10, u + 12, table, objects);
    lemma_scan_word(b, u + 12, Lexeme::EndDictionary, u + 15, table, objects);
    lemma_scan_word(b, u + 15, Lexeme::Keyword("startxref"@), u + 25, table, objects);
    lemma_scan_number(b, u + 25, draft.bytes.len() as int, w, table, objects);
    lemma_scan_none(b, table, objects);
}

proof fn lemma_scan_none(b: Seq<u8>, table: Option<usize>, objects: Seq<(u32, Thing)>)
    requires
        objects.len() > 0,
    ensures
        document::scan(b, at(b.len() as int), table, objects) == Ok::<
            Seq<(u32, Thing)>,
            Failure,
        >(objects),
{
    reveal(lexer::token_at);
}

/// Behind the objects of a file no other is found.
pub proof fn lemma_scan_table(
    draft: Draft,
    from: int,
    table: Option<usize>,
    objects: Seq<(u32, Thing)>,
)
    requires
        is_draft(draft),
        gap(draft.finished(), from, draft.bytes.len() as int),
        objects.len() > 0,
    ensures
        document::scan(draft.finished(), at(from), table, objects) == Ok::<
            Seq<(u32, Thing)>,
            Failure,
        >(objects),
{
    lemma_scan_start(draft, from, table, objects);
    lemma_scan_rows(draft, 0, table, objects);
    lemma_scan_trailer(draft, table, objects);
    lemma_scan_end(draft, table, objects);
}

} // verus!
