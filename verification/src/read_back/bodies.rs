//! What is read of the objects that written texts are made of.

use vstd::prelude::*;
use vstd::utf8::*;

use crate::bytes;
use crate::pdf::lexer::Lexeme;
use crate::pdf::value;
use crate::pdf::value::Datum;
use crate::pdf_writer;
use crate::pdf_writer::{page_number, DESCENDANT_FONT, LATIN_FONT};
use crate::read_back::page_text::lemma_parts;
use crate::read_back::tokens;
use crate::read_back::tokens::{at, closes, gap, whole};
use crate::read_back::values::{
    are_digits, dict, digits_value, is_space_char, is_token, is_value, lemma_array_end,
    lemma_array_value, lemma_dict_end, lemma_dict_value, lemma_entry, lemma_item,
    lemma_keyword_in, lemma_mark_in, lemma_name_in, lemma_name_value, lemma_number_in,
    lemma_number_value, lemma_ref_value, lemma_string_in, lemma_string_value, object_ref, stands,
};

verus! {

/// The references to the first `n` pages.
pub open spec fn kid_refs(n: int) -> Seq<Datum> {
    Seq::new(n as nat, |i: int| object_ref(page_number(i)))
}

/// A reference that ends the text it stands in.
proof fn lemma_last_ref(b: Seq<u8>, from: int, q: int, n: int, depth: int)
    requires
        gap(b, from, q),
        0 <= n <= 100_000,
        bytes::occurs(b, q, bytes::decimal(n as nat) + encode_utf8(" 0 R"@)),
        closes(b, q + bytes::decimal(n as nat).len() + 4),
        0 <= depth <= value::MAX_VALUE_DEPTH,
    ensures
        encode_utf8(" 0 R"@).len() == 4,
        is_value(b, from, q + bytes::decimal(n as nat).len() + 4, object_ref(n), depth),
        is_token(b, from, Lexeme::Number(whole(n)), q + bytes::decimal(n as nat).len()),
{
    let digits = bytes::decimal(n as nat);
    let s = " 0 R"@;
    let e = q + digits.len();
    reveal_strlit(" 0 R");
    reveal_strlit("R");
    lemma_parts(b, q, digits, encode_utf8(s));
    is_ascii_chars_encode_utf8(s);
    assert(stands(b, e, s));
    tokens::lemma_letters(b, e, s);
    assert(s[0] == ' ' && s[1] == '0' && s[2] == ' ' && s[3] == 'R');
    tokens::lemma_decimal(b, from, q, n as nat);
    assert(are_digits(s, 1, 1) && digits_value(s, 1, 1) == 0) by {
        reveal_with_fuel(are_digits, 2);
        reveal_with_fuel(digits_value, 2);
    }
    lemma_number_in(b, e, s, 0, 1, 1);
    reveal_with_fuel(tokens::spells, 2);
    assert("R"@[0] == 'R');
    assert(tokens::spells(b, e + 3, "R"@, 1));
    tokens::lemma_keyword(b, e + 2, e + 3, "R"@);
    lemma_ref_value(b, from, e, e + 2, e + 4, n, depth);
}

/// The references to the first `n` pages are read.
proof fn lemma_kids(b: Seq<u8>, q: int, n: int, depth: int)
    requires
        0 <= n <= 10_000,
        bytes::occurs(b, q, pdf_writer::kids(n)),
        closes(b, q + pdf_writer::kids(n).len()),
        0 <= depth <= value::MAX_VALUE_DEPTH,
    ensures
        value::array_at(b, at(q), depth, Seq::empty()) == value::array_at(
            b,
            at(q + pdf_writer::kids(n).len()),
            depth,
            kid_refs(n),
        ),
    decreases n,
{
    if n <= 0 {
        assert(kid_refs(n) =~= Seq::<Datum>::empty());
    } else {
        let number = page_number(n - 1);
        let digits = bytes::decimal(number as nat);
        let tail = encode_utf8(" 0 R"@);
        reveal_strlit(" 0 R");
        is_ascii_chars_encode_utf8(" 0 R"@);
        assert(kid_refs(n - 1).push(object_ref(number)) =~= kid_refs(n));
        if n == 1 {
            lemma_last_ref(b, q, q, number, depth);
            lemma_item(b, q, q + digits.len() + 4, depth, Seq::empty(), object_ref(number));
            assert(kid_refs(0) =~= Seq::<Datum>::empty());
        } else {
            let before = pdf_writer::kids(n - 1);
            let space = encode_utf8(" "@);
            reveal_strlit(" ");
            is_ascii_chars_encode_utf8(" "@);
            let e = q + before.len();
            lemma_parts(b, q, before + space + digits, tail);
            assert(before + space + digits + tail =~= before + space + (digits + tail));
            lemma_parts(b, q, before + space, digits + tail);
            lemma_parts(b, q, before, space);
            tokens::lemma_letters(b, e, " "@);
            assert(" "@[0] == ' ');
            lemma_kids(b, q, n - 1, depth);
            lemma_last_ref(b, e, e + 1, number, depth);
            lemma_item(
                b,
                e,
                e + 1 + digits.len() + 4,
                depth,
                kid_refs(n - 1),
                object_ref(number),
            );
        }
    }
}

/// The entries of the catalog.
pub open spec fn catalog_entries() -> Seq<(Seq<char>, Datum)> {
    seq![("Type"@, Datum::Name("Catalog"@)), ("Pages"@, object_ref(2))]
}

pub proof fn lemma_catalog(b: Seq<u8>, from: int, p: int)
    requires
        gap(b, from, p),
        bytes::occurs(b, p, encode_utf8("<< /Type /Catalog /Pages 2 0 R >>"@)),
    ensures
        is_value(b, from, p + encode_utf8("<< /Type /Catalog /Pages 2 0 R >>"@).len(), dict(catalog_entries()), 0),
{
    reveal_strlit("Catalog");
    reveal_strlit("Pages");
    reveal_strlit("R");
    reveal_strlit("Type");
    let e0 = encode_utf8("<< /Type /Catalog /Pages 2 0 R >>"@);
    let q0 = p;
    let q1 = q0 + e0.len();
    let s0 = "<< /Type /Catalog /Pages 2 0 R >>"@;
    reveal_strlit("<< /Type /Catalog /Pages 2 0 R >>");
    is_ascii_chars_encode_utf8(s0);
    assert(stands(b, q0, s0));
    tokens::lemma_letters(b, q0, s0);
    assert(s0[0] == '<' && s0[1] == '<');
    tokens::lemma_mark(b, from, p);
    assert(s0.subrange(4, 8) =~= "Type"@);
    lemma_name_in(b, q0, s0, 2, 3, "Type"@);
    assert(s0.subrange(10, 17) =~= "Catalog"@);
    lemma_name_in(b, q0, s0, 8, 9, "Catalog"@);
    assert(s0.subrange(19, 24) =~= "Pages"@);
    lemma_name_in(b, q0, s0, 17, 18, "Pages"@);
    assert(are_digits(s0, 25, 1) && digits_value(s0, 25, 1) == 2) by {
        reveal_with_fuel(are_digits, 2);
        reveal_with_fuel(digits_value, 2);
    }
    lemma_number_in(b, q0, s0, 24, 25, 1);
    assert(are_digits(s0, 27, 1) && digits_value(s0, 27, 1) == 0) by {
        reveal_with_fuel(are_digits, 2);
        reveal_with_fuel(digits_value, 2);
    }
    lemma_number_in(b, q0, s0, 26, 27, 1);
    assert(s0.subrange(29, 30) =~= "R"@);
    lemma_keyword_in(b, q0, s0, 28, 29, "R"@);
    assert(s0[31] == '>' && s0[32] == '>');
    assert(is_space_char(s0[30]));
    lemma_mark_in(b, q0, s0, 30, 31);
    lemma_name_value(b, q0 + 8, q0 + 17, "Catalog"@, 1);
    lemma_ref_value(b, q0 + 24, q0 + 26, q0 + 28, q0 + 30, 2, 1);
    let d1 = seq![("Type"@, Datum::Name("Catalog"@)), ("Pages"@, object_ref(2))];
    lemma_entry(b, q0 + 2, q0 + 8, q0 + 17, 1, d1, 0);
    lemma_entry(b, q0 + 17, q0 + 24, q0 + 30, 1, d1, 1);
    lemma_dict_end(b, q0 + 30, q0 + 33, 1, d1);
    lemma_dict_value(b, from, q0 + 2, q0 + 33, 0, d1);
}

/// The entries of page `index` of a file with `count` pages.
pub open spec fn page_entries(count: int, index: int) -> Seq<(Seq<char>, Datum)> {
    seq![("Type"@, Datum::Name("Page"@)), ("Parent"@, object_ref(2)), ("MediaBox"@, Datum::Array(seq![Datum::Number(whole(0)), Datum::Number(whole(0)), Datum::Number(whole(612)), Datum::Number(whole(792))])), ("Resources"@, dict(seq![("Font"@, dict(seq![("F1"@, object_ref(page_number(count))), ("F2"@, object_ref(page_number(count) + 3))]))])), ("Contents"@, object_ref(page_number(index) + 1))]
}

proof fn lemma_page_words_0(b: Seq<u8>, q: int)
    requires
        stands(b, q, "<< /Type /Page /Parent 2 0 R /MediaBox [0 0 612 792] /Resources << /Font << /F1 "@),
    ensures
        is_token(b, q + 2, Lexeme::Name("Type"@), q + 8),
        is_token(b, q + 8, Lexeme::Name("Page"@), q + 14),
        is_token(b, q + 14, Lexeme::Name("Parent"@), q + 22),
        is_token(b, q + 22, Lexeme::Number(whole(2)), q + 24),
        is_token(b, q + 24, Lexeme::Number(whole(0)), q + 26),
        is_token(b, q + 26, Lexeme::Keyword("R"@), q + 28),
        is_token(b, q + 28, Lexeme::Name("MediaBox"@), q + 38),
        is_token(b, q + 38, Lexeme::StartArray, q + 40),
        is_token(b, q + 40, Lexeme::Number(whole(0)), q + 41),
        is_token(b, q + 41, Lexeme::Number(whole(0)), q + 43),
        is_token(b, q + 43, Lexeme::Number(whole(612)), q + 47),
        is_token(b, q + 47, Lexeme::Number(whole(792)), q + 51),
        is_token(b, q + 51, Lexeme::EndArray, q + 52),
        is_token(b, q + 52, Lexeme::Name("Resources"@), q + 63),
        is_token(b, q + 63, Lexeme::StartDictionary, q + 66),
        is_token(b, q + 66, Lexeme::Name("Font"@), q + 72),
        is_token(b, q + 72, Lexeme::StartDictionary, q + 75),
        is_token(b, q + 75, Lexeme::Name("F1"@), q + 79),
{
    let s = "<< /Type /Page /Parent 2 0 R /MediaBox [0 0 612 792] /Resources << /Font << /F1 "@;
    reveal_strlit("<< /Type /Page /Parent 2 0 R /MediaBox [0 0 612 792] /Resources << /Font << /F1 ");
    reveal_strlit("F1");
    reveal_strlit("Font");
    reveal_strlit("MediaBox");
    reveal_strlit("Page");
    reveal_strlit("Parent");
    reveal_strlit("R");
    reveal_strlit("Resources");
    reveal_strlit("Type");
    tokens::lemma_letters(b, q, s);
    assert(s.subrange(4, 8) =~= "Type"@);
    lemma_name_in(b, q, s, 2, 3, "Type"@);
    assert(s.subrange(10, 14) =~= "Page"@);
    lemma_name_in(b, q, s, 8, 9, "Page"@);
    assert(s.subrange(16, 22) =~= "Parent"@);
    lemma_name_in(b, q, s, 14, 15, "Parent"@);
    assert(are_digits(s, 23, 1) && digits_value(s, 23, 1) == 2) by {
        reveal_with_fuel(are_digits, 2);
        reveal_with_fuel(digits_value, 2);
    }
    lemma_number_in(b, q, s, 22, 23, 1);
    assert(are_digits(s, 25, 1) && digits_value(s, 25, 1) == 0) by {
        reveal_with_fuel(are_digits, 2);
        reveal_with_fuel(digits_value, 2);
    }
    lemma_number_in(b, q, s, 24, 25, 1);
    assert(s.subrange(27, 28) =~= "R"@);
    lemma_keyword_in(b, q, s, 26, 27, "R"@);
    assert(s.subrange(30, 38) =~= "MediaBox"@);
    lemma_name_in(b, q, s, 28, 29, "MediaBox"@);
    assert(s[39] == '[');
    assert(is_space_char(s[38]));
    lemma_mark_in(b, q, s, 38, 39);
    assert(are_digits(s, 40, 1) && digits_value(s, 40, 1) == 0) by {
        reveal_with_fuel(are_digits, 2);
        reveal_with_fuel(digits_value, 2);
    }
    lemma_number_in(b, q, s, 40, 40, 1);
    assert(are_digits(s, 42, 1) && digits_value(s, 42, 1) == 0) by {
        reveal_with_fuel(are_digits, 2);
        reveal_with_fuel(digits_value, 2);
    }
    lemma_number_in(b, q, s, 41, 42, 1);
    assert(are_digits(s, 44, 3) && digits_value(s, 44, 3) == 612) by {
        reveal_with_fuel(are_digits, 4);
        reveal_with_fuel(digits_value, 4);
    }
    lemma_number_in(b, q, s, 43, 44, 3);
    assert(are_digits(s, 48, 3) && digits_value(s, 48, 3) == 792) by {
        reveal_with_fuel(are_digits, 4);
        reveal_with_fuel(digits_value, 4);
    }
    lemma_number_in(b, q, s, 47, 48, 3);
    assert(s[51] == ']');
    lemma_mark_in(b, q, s, 51, 51);
    assert(s.subrange(54, 63) =~= "Resources"@);
    lemma_name_in(b, q, s, 52, 53, "Resources"@);
    assert(s[64] == '<' && s[65] == '<');
    assert(is_space_char(s[63]));
    lemma_mark_in(b, q, s, 63, 64);
    assert(s.subrange(68, 72) =~= "Font"@);
    lemma_name_in(b, q, s, 66, 67, "Font"@);
    assert(s[73] == '<' && s[74] == '<');
    assert(is_space_char(s[72]));
    lemma_mark_in(b, q, s, 72, 73);
    assert(s.subrange(77, 79) =~= "F1"@);
    lemma_name_in(b, q, s, 75, 76, "F1"@);
}

proof fn lemma_page_words_2(b: Seq<u8>, q: int)
    requires
        stands(b, q, " 0 R /F2 "@),
    ensures
        is_token(b, q + 0, Lexeme::Number(whole(0)), q + 2),
        is_token(b, q + 2, Lexeme::Keyword("R"@), q + 4),
        is_token(b, q + 4, Lexeme::Name("F2"@), q + 8),
{
    let s = " 0 R /F2 "@;
    reveal_strlit(" 0 R /F2 ");
    reveal_strlit("F2");
    reveal_strlit("R");
    tokens::lemma_letters(b, q, s);
    assert(are_digits(s, 1, 1) && digits_value(s, 1, 1) == 0) by {
        reveal_with_fuel(are_digits, 2);
        reveal_with_fuel(digits_value, 2);
    }
    lemma_number_in(b, q, s, 0, 1, 1);
    assert(s.subrange(3, 4) =~= "R"@);
    lemma_keyword_in(b, q, s, 2, 3, "R"@);
    assert(s.subrange(6, 8) =~= "F2"@);
    lemma_name_in(b, q, s, 4, 5, "F2"@);
}

proof fn lemma_page_words_4(b: Seq<u8>, q: int)
    requires
        stands(b, q, " 0 R >> >> /Contents "@),
    ensures
        is_token(b, q + 0, Lexeme::Number(whole(0)), q + 2),
        is_token(b, q + 2, Lexeme::Keyword("R"@), q + 4),
        is_token(b, q + 4, Lexeme::EndDictionary, q + 7),
        is_token(b, q + 7, Lexeme::EndDictionary, q + 10),
        is_token(b, q + 10, Lexeme::Name("Contents"@), q + 20),
{
    let s = " 0 R >> >> /Contents "@;
    reveal_strlit(" 0 R >> >> /Contents ");
    reveal_strlit("Contents");
    reveal_strlit("R");
    tokens::lemma_letters(b, q, s);
    assert(are_digits(s, 1, 1) && digits_value(s, 1, 1) == 0) by {
        reveal_with_fuel(are_digits, 2);
        reveal_with_fuel(digits_value, 2);
    }
    lemma_number_in(b, q, s, 0, 1, 1);
    assert(s.subrange(3, 4) =~= "R"@);
    lemma_keyword_in(b, q, s, 2, 3, "R"@);
    assert(s[5] == '>' && s[6] == '>');
    assert(is_space_char(s[4]));
    lemma_mark_in(b, q, s, 4, 5);
    assert(s[8] == '>' && s[9] == '>');
    assert(is_space_char(s[7]));
    lemma_mark_in(b, q, s, 7, 8);
    assert(s.subrange(12, 20) =~= "Contents"@);
    lemma_name_in(b, q, s, 10, 11, "Contents"@);
}

proof fn lemma_page_words_6(b: Seq<u8>, q: int)
    requires
        stands(b, q, " 0 R >>"@),
    ensures
        is_token(b, q + 0, Lexeme::Number(whole(0)), q + 2),
        is_token(b, q + 2, Lexeme::Keyword("R"@), q + 4),
        is_token(b, q + 4, Lexeme::EndDictionary, q + 7),
{
    let s = " 0 R >>"@;
    reveal_strlit(" 0 R >>");
    reveal_strlit("R");
    tokens::lemma_letters(b, q, s);
    assert(are_digits(s, 1, 1) && digits_value(s, 1, 1) == 0) by {
        reveal_with_fuel(are_digits, 2);
        reveal_with_fuel(digits_value, 2);
    }
    lemma_number_in(b, q, s, 0, 1, 1);
    assert(s.subrange(3, 4) =~= "R"@);
    lemma_keyword_in(b, q, s, 2, 3, "R"@);
    assert(s[5] == '>' && s[6] == '>');
    assert(is_space_char(s[4]));
    lemma_mark_in(b, q, s, 4, 5);
}

pub proof fn lemma_page(b: Seq<u8>, from: int, p: int, count: int, index: int)
    requires
        gap(b, from, p),
        bytes::occurs(b, p, pdf_writer::page_body(count, index)),
        0 <= index < count <= 10_000,
    ensures
        is_value(b, from, p + pdf_writer::page_body(count, index).len(), dict(page_entries(count, index)), 0),
{
    reveal(pdf_writer::page_body);

    let e0 = encode_utf8("<< /Type /Page /Parent 2 0 R /MediaBox [0 0 612 792] /Resources << /Font << /F1 "@);
    let e1 = bytes::decimal(page_number(count) as nat);
    let e2 = encode_utf8(" 0 R /F2 "@);
    let e3 = bytes::decimal((page_number(count) + 3) as nat);
    let e4 = encode_utf8(" 0 R >> >> /Contents "@);
    let e5 = bytes::decimal((page_number(index) + 1) as nat);
    let e6 = encode_utf8(" 0 R >>"@);
    let a1 = e0 + e1;
    let a2 = a1 + e2;
    let a3 = a2 + e3;
    let a4 = a3 + e4;
    let a5 = a4 + e5;
    let a6 = a5 + e6;
    lemma_parts(b, p, a5, e6);
    lemma_parts(b, p, a4, e5);
    lemma_parts(b, p, a3, e4);
    lemma_parts(b, p, a2, e3);
    lemma_parts(b, p, a1, e2);
    lemma_parts(b, p, e0, e1);
    let q0 = p;
    let q1 = q0 + e0.len();
    let q2 = q1 + e1.len();
    let q3 = q2 + e2.len();
    let q4 = q3 + e3.len();
    let q5 = q4 + e4.len();
    let q6 = q5 + e5.len();
    let q7 = q6 + e6.len();
    let s0 = "<< /Type /Page /Parent 2 0 R /MediaBox [0 0 612 792] /Resources << /Font << /F1 "@;
    reveal_strlit("<< /Type /Page /Parent 2 0 R /MediaBox [0 0 612 792] /Resources << /Font << /F1 ");
    is_ascii_chars_encode_utf8(s0);
    assert(stands(b, q0, s0));
    tokens::lemma_letters(b, q0, s0);
    assert(s0[79] == ' ');
    let s2 = " 0 R /F2 "@;
    reveal_strlit(" 0 R /F2 ");
    is_ascii_chars_encode_utf8(s2);
    assert(stands(b, q2, s2));
    tokens::lemma_letters(b, q2, s2);
    assert(s2[0] == ' ');
    assert(s2[8] == ' ');
    let s4 = " 0 R >> >> /Contents "@;
    reveal_strlit(" 0 R >> >> /Contents ");
    is_ascii_chars_encode_utf8(s4);
    assert(stands(b, q4, s4));
    tokens::lemma_letters(b, q4, s4);
    assert(s4[0] == ' ');
    assert(s4[20] == ' ');
    let s6 = " 0 R >>"@;
    reveal_strlit(" 0 R >>");
    is_ascii_chars_encode_utf8(s6);
    assert(stands(b, q6, s6));
    tokens::lemma_letters(b, q6, s6);
    assert(s6[0] == ' ');
    assert(s0[0] == '<' && s0[1] == '<');
    tokens::lemma_mark(b, from, p);
    lemma_page_words_0(b, q0);
    tokens::lemma_decimal(b, q1 - 1, q1, page_number(count) as nat);
    lemma_page_words_2(b, q2);
    tokens::lemma_decimal(b, q3 - 1, q3, (page_number(count) + 3) as nat);
    lemma_page_words_4(b, q4);
    tokens::lemma_decimal(b, q5 - 1, q5, (page_number(index) + 1) as nat);
    lemma_page_words_6(b, q6);
    lemma_name_value(b, q0 + 8, q0 + 14, "Page"@, 1);
    lemma_ref_value(b, q0 + 22, q0 + 24, q0 + 26, q0 + 28, 2, 1);
    lemma_number_value(b, q0 + 40, q0 + 41, whole(0), 2);
    lemma_item(b, q0 + 40, q0 + 41, 2, Seq::empty(), Datum::Number(whole(0)));
    assert(Seq::<Datum>::empty().push(Datum::Number(whole(0))) =~= seq![Datum::Number(whole(0))]);
    lemma_number_value(b, q0 + 41, q0 + 43, whole(0), 2);
    lemma_item(b, q0 + 41, q0 + 43, 2, seq![Datum::Number(whole(0))], Datum::Number(whole(0)));
    assert(seq![Datum::Number(whole(0))].push(Datum::Number(whole(0))) =~= seq![Datum::Number(whole(0)), Datum::Number(whole(0))]);
    lemma_number_value(b, q0 + 43, q0 + 47, whole(612), 2);
    lemma_item(b, q0 + 43, q0 + 47, 2, seq![Datum::Number(whole(0)), Datum::Number(whole(0))], Datum::Number(whole(612)));
    assert(seq![Datum::Number(whole(0)), Datum::Number(whole(0))].push(Datum::Number(whole(612))) =~= seq![Datum::Number(whole(0)), Datum::Number(whole(0)), Datum::Number(whole(612))]);
    lemma_number_value(b, q0 + 47, q0 + 51, whole(792), 2);
    lemma_item(b, q0 + 47, q0 + 51, 2, seq![Datum::Number(whole(0)), Datum::Number(whole(0)), Datum::Number(whole(612))], Datum::Number(whole(792)));
    assert(seq![Datum::Number(whole(0)), Datum::Number(whole(0)), Datum::Number(whole(612))].push(Datum::Number(whole(792))) =~= seq![Datum::Number(whole(0)), Datum::Number(whole(0)), Datum::Number(whole(612)), Datum::Number(whole(792))]);
    lemma_array_end(b, q0 + 51, q0 + 52, 2, seq![Datum::Number(whole(0)), Datum::Number(whole(0)), Datum::Number(whole(612)), Datum::Number(whole(792))]);
    lemma_array_value(b, q0 + 38, q0 + 40, q0 + 52, 1, seq![Datum::Number(whole(0)), Datum::Number(whole(0)), Datum::Number(whole(612)), Datum::Number(whole(792))]);
    lemma_ref_value(b, q1 - 1, q2, q2 + 2, q2 + 4, page_number(count), 3);
    lemma_ref_value(b, q3 - 1, q4, q4 + 2, q4 + 4, page_number(count) + 3, 3);
    let d1 = seq![("F1"@, object_ref(page_number(count))), ("F2"@, object_ref(page_number(count) + 3))];
    lemma_entry(b, q0 + 75, q0 + 79, q2 + 4, 3, d1, 0);
    lemma_entry(b, q2 + 4, q2 + 8, q4 + 4, 3, d1, 1);
    lemma_dict_end(b, q4 + 4, q4 + 7, 3, d1);
    lemma_dict_value(b, q0 + 72, q0 + 75, q4 + 7, 2, d1);
    let d2 = seq![("Font"@, dict(d1))];
    lemma_entry(b, q0 + 66, q0 + 72, q4 + 7, 2, d2, 0);
    lemma_dict_end(b, q4 + 7, q4 + 10, 2, d2);
    lemma_dict_value(b, q0 + 63, q0 + 66, q4 + 10, 1, d2);
    lemma_ref_value(b, q5 - 1, q6, q6 + 2, q6 + 4, page_number(index) + 1, 1);
    let d3 = seq![("Type"@, Datum::Name("Page"@)), ("Parent"@, object_ref(2)), ("MediaBox"@, Datum::Array(seq![Datum::Number(whole(0)), Datum::Number(whole(0)), Datum::Number(whole(612)), Datum::Number(whole(792))])), ("Resources"@, dict(d2)), ("Contents"@, object_ref(page_number(index) + 1))];
    lemma_entry(b, q0 + 2, q0 + 8, q0 + 14, 1, d3, 0);
    lemma_entry(b, q0 + 14, q0 + 22, q0 + 28, 1, d3, 1);
    lemma_entry(b, q0 + 28, q0 + 38, q0 + 52, 1, d3, 2);
    lemma_entry(b, q0 + 52, q0 + 63, q4 + 10, 1, d3, 3);
    lemma_entry(b, q4 + 10, q4 + 20, q6 + 4, 1, d3, 4);
    lemma_dict_end(b, q6 + 4, q6 + 7, 1, d3);
    lemma_dict_value(b, from, q0 + 2, q6 + 7, 0, d3);
}

/// The entries of the font for what is not Latin text.
pub open spec fn font_entries(count: int) -> Seq<(Seq<char>, Datum)> {
    seq![("Type"@, Datum::Name("Font"@)), ("Subtype"@, Datum::Name("Type0"@)), ("BaseFont"@, Datum::Name("STSong-Light"@)), ("Encoding"@, Datum::Name("UniGB-UCS2-H"@)), ("DescendantFonts"@, Datum::Array(seq![object_ref(page_number(count) + 1)])), ("ToUnicode"@, object_ref(page_number(count) + 2))]
}

proof fn lemma_font_words_0(b: Seq<u8>, q: int)
    requires
        stands(b, q, "<< /Type /Font /Subtype /Type0 /BaseFont /STSong-Light /Encoding /UniGB-UCS2-H /DescendantFonts ["@),
    ensures
        is_token(b, q + 2, Lexeme::Name("Type"@), q + 8),
        is_token(b, q + 8, Lexeme::Name("Font"@), q + 14),
        is_token(b, q + 14, Lexeme::Name("Subtype"@), q + 23),
        is_token(b, q + 23, Lexeme::Name("Type0"@), q + 30),
        is_token(b, q + 30, Lexeme::Name("BaseFont"@), q + 40),
        is_token(b, q + 40, Lexeme::Name("STSong-Light"@), q + 54),
        is_token(b, q + 54, Lexeme::Name("Encoding"@), q + 64),
        is_token(b, q + 64, Lexeme::Name("UniGB-UCS2-H"@), q + 78),
        is_token(b, q + 78, Lexeme::Name("DescendantFonts"@), q + 95),
        is_token(b, q + 95, Lexeme::StartArray, q + 97),
{
    let s = "<< /Type /Font /Subtype /Type0 /BaseFont /STSong-Light /Encoding /UniGB-UCS2-H /DescendantFonts ["@;
    reveal_strlit("<< /Type /Font /Subtype /Type0 /BaseFont /STSong-Light /Encoding /UniGB-UCS2-H /DescendantFonts [");
    reveal_strlit("BaseFont");
    reveal_strlit("DescendantFonts");
    reveal_strlit("Encoding");
    reveal_strlit("Font");
    reveal_strlit("STSong-Light");
    reveal_strlit("Subtype");
    reveal_strlit("Type");
    reveal_strlit("Type0");
    reveal_strlit("UniGB-UCS2-H");
    tokens::lemma_letters(b, q, s);
    assert(s.subrange(4, 8) =~= "Type"@);
    lemma_name_in(b, q, s, 2, 3, "Type"@);
    assert(s.subrange(10, 14) =~= "Font"@);
    lemma_name_in(b, q, s, 8, 9, "Font"@);
    assert(s.subrange(16, 23) =~= "Subtype"@);
    lemma_name_in(b, q, s, 14, 15, "Subtype"@);
    assert(s.subrange(25, 30) =~= "Type0"@);
    lemma_name_in(b, q, s, 23, 24, "Type0"@);
    assert(s.subrange(32, 40) =~= "BaseFont"@);
    lemma_name_in(b, q, s, 30, 31, "BaseFont"@);
    assert(s.subrange(42, 54) =~= "STSong-Light"@);
    lemma_name_in(b, q, s, 40, 41, "STSong-Light"@);
    assert(s.subrange(56, 64) =~= "Encoding"@);
    lemma_name_in(b, q, s, 54, 55, "Encoding"@);
    assert(s.subrange(66, 78) =~= "UniGB-UCS2-H"@);
    lemma_name_in(b, q, s, 64, 65, "UniGB-UCS2-H"@);
    assert(s.subrange(80, 95) =~= "DescendantFonts"@);
    lemma_name_in(b, q, s, 78, 79, "DescendantFonts"@);
    assert(s[96] == '[');
    assert(is_space_char(s[95]));
    lemma_mark_in(b, q, s, 95, 96);
}

proof fn lemma_font_words_2(b: Seq<u8>, q: int)
    requires
        stands(b, q, " 0 R] /ToUnicode "@),
    ensures
        is_token(b, q + 0, Lexeme::Number(whole(0)), q + 2),
        is_token(b, q + 2, Lexeme::Keyword("R"@), q + 4),
        is_token(b, q + 4, Lexeme::EndArray, q + 5),
        is_token(b, q + 5, Lexeme::Name("ToUnicode"@), q + 16),
{
    let s = " 0 R] /ToUnicode "@;
    reveal_strlit(" 0 R] /ToUnicode ");
    reveal_strlit("R");
    reveal_strlit("ToUnicode");
    tokens::lemma_letters(b, q, s);
    assert(are_digits(s, 1, 1) && digits_value(s, 1, 1) == 0) by {
        reveal_with_fuel(are_digits, 2);
        reveal_with_fuel(digits_value, 2);
    }
    lemma_number_in(b, q, s, 0, 1, 1);
    assert(s.subrange(3, 4) =~= "R"@);
    lemma_keyword_in(b, q, s, 2, 3, "R"@);
    assert(s[4] == ']');
    lemma_mark_in(b, q, s, 4, 4);
    assert(s.subrange(7, 16) =~= "ToUnicode"@);
    lemma_name_in(b, q, s, 5, 6, "ToUnicode"@);
}

proof fn lemma_font_words_4(b: Seq<u8>, q: int)
    requires
        stands(b, q, " 0 R >>"@),
    ensures
        is_token(b, q + 0, Lexeme::Number(whole(0)), q + 2),
        is_token(b, q + 2, Lexeme::Keyword("R"@), q + 4),
        is_token(b, q + 4, Lexeme::EndDictionary, q + 7),
{
    let s = " 0 R >>"@;
    reveal_strlit(" 0 R >>");
    reveal_strlit("R");
    tokens::lemma_letters(b, q, s);
    assert(are_digits(s, 1, 1) && digits_value(s, 1, 1) == 0) by {
        reveal_with_fuel(are_digits, 2);
        reveal_with_fuel(digits_value, 2);
    }
    lemma_number_in(b, q, s, 0, 1, 1);
    assert(s.subrange(3, 4) =~= "R"@);
    lemma_keyword_in(b, q, s, 2, 3, "R"@);
    assert(s[5] == '>' && s[6] == '>');
    assert(is_space_char(s[4]));
    lemma_mark_in(b, q, s, 4, 5);
}

pub proof fn lemma_font(b: Seq<u8>, from: int, p: int, count: int)
    requires
        gap(b, from, p),
        bytes::occurs(b, p, pdf_writer::font_body(count)),
        0 <= count <= 10_000,
    ensures
        is_value(b, from, p + pdf_writer::font_body(count).len(), dict(font_entries(count)), 0),
{
    reveal(pdf_writer::font_body);

    let e0 = encode_utf8("<< /Type /Font /Subtype /Type0 /BaseFont /STSong-Light /Encoding /UniGB-UCS2-H /DescendantFonts ["@);
    let e1 = bytes::decimal((page_number(count) + 1) as nat);
    let e2 = encode_utf8(" 0 R] /ToUnicode "@);
    let e3 = bytes::decimal((page_number(count) + 2) as nat);
    let e4 = encode_utf8(" 0 R >>"@);
    let a1 = e0 + e1;
    let a2 = a1 + e2;
    let a3 = a2 + e3;
    let a4 = a3 + e4;
    lemma_parts(b, p, a3, e4);
    lemma_parts(b, p, a2, e3);
    lemma_parts(b, p, a1, e2);
    lemma_parts(b, p, e0, e1);
    let q0 = p;
    let q1 = q0 + e0.len();
    let q2 = q1 + e1.len();
    let q3 = q2 + e2.len();
    let q4 = q3 + e3.len();
    let q5 = q4 + e4.len();
    let s0 = "<< /Type /Font /Subtype /Type0 /BaseFont /STSong-Light /Encoding /UniGB-UCS2-H /DescendantFonts ["@;
    reveal_strlit("<< /Type /Font /Subtype /Type0 /BaseFont /STSong-Light /Encoding /UniGB-UCS2-H /DescendantFonts [");
    is_ascii_chars_encode_utf8(s0);
    assert(stands(b, q0, s0));
    tokens::lemma_letters(b, q0, s0);
    let s2 = " 0 R] /ToUnicode "@;
    reveal_strlit(" 0 R] /ToUnicode ");
    is_ascii_chars_encode_utf8(s2);
    assert(stands(b, q2, s2));
    tokens::lemma_letters(b, q2, s2);
    assert(s2[0] == ' ');
    assert(s2[16] == ' ');
    let s4 = " 0 R >>"@;
    reveal_strlit(" 0 R >>");
    is_ascii_chars_encode_utf8(s4);
    assert(stands(b, q4, s4));
    tokens::lemma_letters(b, q4, s4);
    assert(s4[0] == ' ');
    assert(s0[0] == '<' && s0[1] == '<');
    tokens::lemma_mark(b, from, p);
    lemma_font_words_0(b, q0);
    tokens::lemma_decimal(b, q1 - 0, q1, (page_number(count) + 1) as nat);
    lemma_font_words_2(b, q2);
    tokens::lemma_decimal(b, q3 - 1, q3, (page_number(count) + 2) as nat);
    lemma_font_words_4(b, q4);
    lemma_name_value(b, q0 + 8, q0 + 14, "Font"@, 1);
    lemma_name_value(b, q0 + 23, q0 + 30, "Type0"@, 1);
    lemma_name_value(b, q0 + 40, q0 + 54, "STSong-Light"@, 1);
    lemma_name_value(b, q0 + 64, q0 + 78, "UniGB-UCS2-H"@, 1);
    lemma_ref_value(b, q1 - 0, q2, q2 + 2, q2 + 4, page_number(count) + 1, 2);
    lemma_item(b, q1 - 0, q2 + 4, 2, Seq::empty(), object_ref(page_number(count) + 1));
    assert(Seq::<Datum>::empty().push(object_ref(page_number(count) + 1)) =~= seq![object_ref(page_number(count) + 1)]);
    lemma_array_end(b, q2 + 4, q2 + 5, 2, seq![object_ref(page_number(count) + 1)]);
    lemma_array_value(b, q0 + 95, q0 + 97, q2 + 5, 1, seq![object_ref(page_number(count) + 1)]);
    lemma_ref_value(b, q3 - 1, q4, q4 + 2, q4 + 4, page_number(count) + 2, 1);
    let d1 = seq![("Type"@, Datum::Name("Font"@)), ("Subtype"@, Datum::Name("Type0"@)), ("BaseFont"@, Datum::Name("STSong-Light"@)), ("Encoding"@, Datum::Name("UniGB-UCS2-H"@)), ("DescendantFonts"@, Datum::Array(seq![object_ref(page_number(count) + 1)])), ("ToUnicode"@, object_ref(page_number(count) + 2))];
    lemma_entry(b, q0 + 2, q0 + 8, q0 + 14, 1, d1, 0);
    lemma_entry(b, q0 + 14, q0 + 23, q0 + 30, 1, d1, 1);
    lemma_entry(b, q0 + 30, q0 + 40, q0 + 54, 1, d1, 2);
    lemma_entry(b, q0 + 54, q0 + 64, q0 + 78, 1, d1, 3);
    lemma_entry(b, q0 + 78, q0 + 95, q2 + 5, 1, d1, 4);
    lemma_entry(b, q2 + 5, q2 + 16, q4 + 4, 1, d1, 5);
    lemma_dict_end(b, q4 + 4, q4 + 7, 1, d1);
    lemma_dict_value(b, from, q0 + 2, q4 + 7, 0, d1);
}

/// The entries of the font that the other one rests on.
pub open spec fn descendant_entries() -> Seq<(Seq<char>, Datum)> {
    seq![("Type"@, Datum::Name("Font"@)), ("Subtype"@, Datum::Name("CIDFontType0"@)), ("BaseFont"@, Datum::Name("STSong-Light"@)), ("CIDSystemInfo"@, dict(seq![("Registry"@, Datum::String(encode_utf8("Adobe"@))), ("Ordering"@, Datum::String(encode_utf8("GB1"@))), ("Supplement"@, Datum::Number(whole(4)))])), ("DW"@, Datum::Number(whole(1000)))]
}

pub proof fn lemma_descendant(b: Seq<u8>, from: int, p: int)
    requires
        gap(b, from, p),
        bytes::occurs(b, p, encode_utf8(DESCENDANT_FONT@)),
    ensures
        is_value(b, from, p + encode_utf8(DESCENDANT_FONT@).len(), dict(descendant_entries()), 0),
{
    reveal_strlit("Adobe");
    reveal_strlit("BaseFont");
    reveal_strlit("CIDFontType0");
    reveal_strlit("CIDSystemInfo");
    reveal_strlit("DW");
    reveal_strlit("Font");
    reveal_strlit("GB1");
    reveal_strlit("Ordering");
    reveal_strlit("Registry");
    reveal_strlit("STSong-Light");
    reveal_strlit("Subtype");
    reveal_strlit("Supplement");
    reveal_strlit("Type");
    let e0 = encode_utf8(DESCENDANT_FONT@);
    let q0 = p;
    let q1 = q0 + e0.len();
    let s0 = DESCENDANT_FONT@;
    reveal_strlit("<< /Type /Font /Subtype /CIDFontType0 /BaseFont /STSong-Light /CIDSystemInfo << /Registry (Adobe) /Ordering (GB1) /Supplement 4 >> /DW 1000 >>");
    is_ascii_chars_encode_utf8(s0);
    assert(stands(b, q0, s0));
    tokens::lemma_letters(b, q0, s0);
    assert(s0[0] == '<' && s0[1] == '<');
    tokens::lemma_mark(b, from, p);
    assert(s0.subrange(4, 8) =~= "Type"@);
    lemma_name_in(b, q0, s0, 2, 3, "Type"@);
    assert(s0.subrange(10, 14) =~= "Font"@);
    lemma_name_in(b, q0, s0, 8, 9, "Font"@);
    assert(s0.subrange(16, 23) =~= "Subtype"@);
    lemma_name_in(b, q0, s0, 14, 15, "Subtype"@);
    assert(s0.subrange(25, 37) =~= "CIDFontType0"@);
    lemma_name_in(b, q0, s0, 23, 24, "CIDFontType0"@);
    assert(s0.subrange(39, 47) =~= "BaseFont"@);
    lemma_name_in(b, q0, s0, 37, 38, "BaseFont"@);
    assert(s0.subrange(49, 61) =~= "STSong-Light"@);
    lemma_name_in(b, q0, s0, 47, 48, "STSong-Light"@);
    assert(s0.subrange(63, 76) =~= "CIDSystemInfo"@);
    lemma_name_in(b, q0, s0, 61, 62, "CIDSystemInfo"@);
    assert(s0[77] == '<' && s0[78] == '<');
    assert(is_space_char(s0[76]));
    lemma_mark_in(b, q0, s0, 76, 77);
    assert(s0.subrange(81, 89) =~= "Registry"@);
    lemma_name_in(b, q0, s0, 79, 80, "Registry"@);
    assert(s0.subrange(91, 96) =~= "Adobe"@);
    lemma_string_in(b, q0, s0, 89, 90, "Adobe"@);
    assert(s0.subrange(99, 107) =~= "Ordering"@);
    lemma_name_in(b, q0, s0, 97, 98, "Ordering"@);
    assert(s0.subrange(109, 112) =~= "GB1"@);
    lemma_string_in(b, q0, s0, 107, 108, "GB1"@);
    assert(s0.subrange(115, 125) =~= "Supplement"@);
    lemma_name_in(b, q0, s0, 113, 114, "Supplement"@);
    assert(are_digits(s0, 126, 1) && digits_value(s0, 126, 1) == 4) by {
        reveal_with_fuel(are_digits, 2);
        reveal_with_fuel(digits_value, 2);
    }
    lemma_number_in(b, q0, s0, 125, 126, 1);
    assert(s0[128] == '>' && s0[129] == '>');
    assert(is_space_char(s0[127]));
    lemma_mark_in(b, q0, s0, 127, 128);
    assert(s0.subrange(132, 134) =~= "DW"@);
    lemma_name_in(b, q0, s0, 130, 131, "DW"@);
    assert(are_digits(s0, 135, 4) && digits_value(s0, 135, 4) == 1000) by {
        reveal_with_fuel(are_digits, 5);
        reveal_with_fuel(digits_value, 5);
    }
    lemma_number_in(b, q0, s0, 134, 135, 4);
    assert(s0[140] == '>' && s0[141] == '>');
    assert(is_space_char(s0[139]));
    lemma_mark_in(b, q0, s0, 139, 140);
    lemma_name_value(b, q0 + 8, q0 + 14, "Font"@, 1);
    lemma_name_value(b, q0 + 23, q0 + 37, "CIDFontType0"@, 1);
    lemma_name_value(b, q0 + 47, q0 + 61, "STSong-Light"@, 1);
    lemma_string_value(b, q0 + 89, q0 + 97, encode_utf8("Adobe"@), 2);
    lemma_string_value(b, q0 + 107, q0 + 113, encode_utf8("GB1"@), 2);
    lemma_number_value(b, q0 + 125, q0 + 127, whole(4), 2);
    let d1 = seq![("Registry"@, Datum::String(encode_utf8("Adobe"@))), ("Ordering"@, Datum::String(encode_utf8("GB1"@))), ("Supplement"@, Datum::Number(whole(4)))];
    lemma_entry(b, q0 + 79, q0 + 89, q0 + 97, 2, d1, 0);
    lemma_entry(b, q0 + 97, q0 + 107, q0 + 113, 2, d1, 1);
    lemma_entry(b, q0 + 113, q0 + 125, q0 + 127, 2, d1, 2);
    lemma_dict_end(b, q0 + 127, q0 + 130, 2, d1);
    lemma_dict_value(b, q0 + 76, q0 + 79, q0 + 130, 1, d1);
    lemma_number_value(b, q0 + 134, q0 + 139, whole(1000), 1);
    let d2 = seq![("Type"@, Datum::Name("Font"@)), ("Subtype"@, Datum::Name("CIDFontType0"@)), ("BaseFont"@, Datum::Name("STSong-Light"@)), ("CIDSystemInfo"@, dict(d1)), ("DW"@, Datum::Number(whole(1000)))];
    lemma_entry(b, q0 + 2, q0 + 8, q0 + 14, 1, d2, 0);
    lemma_entry(b, q0 + 14, q0 + 23, q0 + 37, 1, d2, 1);
    lemma_entry(b, q0 + 37, q0 + 47, q0 + 61, 1, d2, 2);
    lemma_entry(b, q0 + 61, q0 + 76, q0 + 130, 1, d2, 3);
    lemma_entry(b, q0 + 130, q0 + 134, q0 + 139, 1, d2, 4);
    lemma_dict_end(b, q0 + 139, q0 + 142, 1, d2);
    lemma_dict_value(b, from, q0 + 2, q0 + 142, 0, d2);
}

/// The entries of the Latin font.
pub open spec fn latin_entries() -> Seq<(Seq<char>, Datum)> {
    seq![("Type"@, Datum::Name("Font"@)), ("Subtype"@, Datum::Name("Type1"@)), ("BaseFont"@, Datum::Name("Helvetica"@)), ("Encoding"@, Datum::Name("WinAnsiEncoding"@))]
}

pub proof fn lemma_latin(b: Seq<u8>, from: int, p: int)
    requires
        gap(b, from, p),
        bytes::occurs(b, p, encode_utf8(LATIN_FONT@)),
    ensures
        is_value(b, from, p + encode_utf8(LATIN_FONT@).len(), dict(latin_entries()), 0),
{
    reveal_strlit("BaseFont");
    reveal_strlit("Encoding");
    reveal_strlit("Font");
    reveal_strlit("Helvetica");
    reveal_strlit("Subtype");
    reveal_strlit("Type");
    reveal_strlit("Type1");
    reveal_strlit("WinAnsiEncoding");
    let e0 = encode_utf8(LATIN_FONT@);
    let q0 = p;
    let q1 = q0 + e0.len();
    let s0 = LATIN_FONT@;
    reveal_strlit("<< /Type /Font /Subtype /Type1 /BaseFont /Helvetica /Encoding /WinAnsiEncoding >>");
    is_ascii_chars_encode_utf8(s0);
    assert(stands(b, q0, s0));
    tokens::lemma_letters(b, q0, s0);
    assert(s0[0] == '<' && s0[1] == '<');
    tokens::lemma_mark(b, from, p);
    assert(s0.subrange(4, 8) =~= "Type"@);
    lemma_name_in(b, q0, s0, 2, 3, "Type"@);
    assert(s0.subrange(10, 14) =~= "Font"@);
    lemma_name_in(b, q0, s0, 8, 9, "Font"@);
    assert(s0.subrange(16, 23) =~= "Subtype"@);
    lemma_name_in(b, q0, s0, 14, 15, "Subtype"@);
    assert(s0.subrange(25, 30) =~= "Type1"@);
    lemma_name_in(b, q0, s0, 23, 24, "Type1"@);
    assert(s0.subrange(32, 40) =~= "BaseFont"@);
    lemma_name_in(b, q0, s0, 30, 31, "BaseFont"@);
    assert(s0.subrange(42, 51) =~= "Helvetica"@);
    lemma_name_in(b, q0, s0, 40, 41, "Helvetica"@);
    assert(s0.subrange(53, 61) =~= "Encoding"@);
    lemma_name_in(b, q0, s0, 51, 52, "Encoding"@);
    assert(s0.subrange(63, 78) =~= "WinAnsiEncoding"@);
    lemma_name_in(b, q0, s0, 61, 62, "WinAnsiEncoding"@);
    assert(s0[79] == '>' && s0[80] == '>');
    assert(is_space_char(s0[78]));
    lemma_mark_in(b, q0, s0, 78, 79);
    lemma_name_value(b, q0 + 8, q0 + 14, "Font"@, 1);
    lemma_name_value(b, q0 + 23, q0 + 30, "Type1"@, 1);
    lemma_name_value(b, q0 + 40, q0 + 51, "Helvetica"@, 1);
    lemma_name_value(b, q0 + 61, q0 + 78, "WinAnsiEncoding"@, 1);
    let d1 = seq![("Type"@, Datum::Name("Font"@)), ("Subtype"@, Datum::Name("Type1"@)), ("BaseFont"@, Datum::Name("Helvetica"@)), ("Encoding"@, Datum::Name("WinAnsiEncoding"@))];
    lemma_entry(b, q0 + 2, q0 + 8, q0 + 14, 1, d1, 0);
    lemma_entry(b, q0 + 14, q0 + 23, q0 + 30, 1, d1, 1);
    lemma_entry(b, q0 + 30, q0 + 40, q0 + 51, 1, d1, 2);
    lemma_entry(b, q0 + 51, q0 + 61, q0 + 78, 1, d1, 3);
    lemma_dict_end(b, q0 + 78, q0 + 81, 1, d1);
    lemma_dict_value(b, from, q0 + 2, q0 + 81, 0, d1);
}

/// The entries of the object that lists the pages.
pub open spec fn pages_entries(count: int) -> Seq<(Seq<char>, Datum)> {
    seq![("Type"@, Datum::Name("Pages"@)), ("Kids"@, Datum::Array(kid_refs(count))), ("Count"@, Datum::Number(whole(count)))]
}

proof fn lemma_pages_words_0(b: Seq<u8>, q: int)
    requires
        stands(b, q, "<< /Type /Pages /Kids ["@),
    ensures
        is_token(b, q + 2, Lexeme::Name("Type"@), q + 8),
        is_token(b, q + 8, Lexeme::Name("Pages"@), q + 15),
        is_token(b, q + 15, Lexeme::Name("Kids"@), q + 21),
        is_token(b, q + 21, Lexeme::StartArray, q + 23),
{
    let s = "<< /Type /Pages /Kids ["@;
    reveal_strlit("<< /Type /Pages /Kids [");
    reveal_strlit("Kids");
    reveal_strlit("Pages");
    reveal_strlit("Type");
    tokens::lemma_letters(b, q, s);
    assert(s.subrange(4, 8) =~= "Type"@);
    lemma_name_in(b, q, s, 2, 3, "Type"@);
    assert(s.subrange(10, 15) =~= "Pages"@);
    lemma_name_in(b, q, s, 8, 9, "Pages"@);
    assert(s.subrange(17, 21) =~= "Kids"@);
    lemma_name_in(b, q, s, 15, 16, "Kids"@);
    assert(s[22] == '[');
    assert(is_space_char(s[21]));
    lemma_mark_in(b, q, s, 21, 22);
}

proof fn lemma_pages_words_2(b: Seq<u8>, q: int)
    requires
        stands(b, q, "] /Count "@),
    ensures
        is_token(b, q + 0, Lexeme::EndArray, q + 1),
        is_token(b, q + 1, Lexeme::Name("Count"@), q + 8),
{
    let s = "] /Count "@;
    reveal_strlit("] /Count ");
    reveal_strlit("Count");
    tokens::lemma_letters(b, q, s);
    assert(s[0] == ']');
    lemma_mark_in(b, q, s, 0, 0);
    assert(s.subrange(3, 8) =~= "Count"@);
    lemma_name_in(b, q, s, 1, 2, "Count"@);
}

proof fn lemma_pages_words_4(b: Seq<u8>, q: int)
    requires
        stands(b, q, " >>"@),
    ensures
        is_token(b, q + 0, Lexeme::EndDictionary, q + 3),
{
    let s = " >>"@;
    reveal_strlit(" >>");

    tokens::lemma_letters(b, q, s);
    assert(s[1] == '>' && s[2] == '>');
    assert(is_space_char(s[0]));
    lemma_mark_in(b, q, s, 0, 1);
}

pub proof fn lemma_pages(b: Seq<u8>, from: int, p: int, count: int)
    requires
        gap(b, from, p),
        bytes::occurs(b, p, pdf_writer::pages_body(count)),
        0 <= count <= 10_000,
    ensures
        is_value(b, from, p + pdf_writer::pages_body(count).len(), dict(pages_entries(count)), 0),
{
    reveal(pdf_writer::pages_body);

    let e0 = encode_utf8("<< /Type /Pages /Kids ["@);
    let e1 = pdf_writer::kids(count);
    let e2 = encode_utf8("] /Count "@);
    let e3 = bytes::decimal(count as nat);
    let e4 = encode_utf8(" >>"@);
    let a1 = e0 + e1;
    let a2 = a1 + e2;
    let a3 = a2 + e3;
    let a4 = a3 + e4;
    lemma_parts(b, p, a3, e4);
    lemma_parts(b, p, a2, e3);
    lemma_parts(b, p, a1, e2);
    lemma_parts(b, p, e0, e1);
    let q0 = p;
    let q1 = q0 + e0.len();
    let q2 = q1 + e1.len();
    let q3 = q2 + e2.len();
    let q4 = q3 + e3.len();
    let q5 = q4 + e4.len();
    let s0 = "<< /Type /Pages /Kids ["@;
    reveal_strlit("<< /Type /Pages /Kids [");
    is_ascii_chars_encode_utf8(s0);
    assert(stands(b, q0, s0));
    tokens::lemma_letters(b, q0, s0);
    let s2 = "] /Count "@;
    reveal_strlit("] /Count ");
    is_ascii_chars_encode_utf8(s2);
    assert(stands(b, q2, s2));
    tokens::lemma_letters(b, q2, s2);
    assert(s2[0] == ']');
    assert(s2[8] == ' ');
    let s4 = " >>"@;
    reveal_strlit(" >>");
    is_ascii_chars_encode_utf8(s4);
    assert(stands(b, q4, s4));
    tokens::lemma_letters(b, q4, s4);
    assert(s4[0] == ' ');
    assert(s0[0] == '<' && s0[1] == '<');
    tokens::lemma_mark(b, from, p);
    lemma_pages_words_0(b, q0);
    lemma_pages_words_2(b, q2);
    tokens::lemma_decimal(b, q3 - 1, q3, count as nat);
    lemma_pages_words_4(b, q4);
    lemma_name_value(b, q0 + 8, q0 + 15, "Pages"@, 1);
    lemma_kids(b, q1, count, 2);
    lemma_array_end(b, q2 + 0, q2 + 1, 2, kid_refs(count));
    lemma_array_value(b, q0 + 21, q0 + 23, q2 + 1, 1, kid_refs(count));
    lemma_number_value(b, q3 - 1, q4, whole(count), 1);
    let d1 = seq![("Type"@, Datum::Name("Pages"@)), ("Kids"@, Datum::Array(kid_refs(count))), ("Count"@, Datum::Number(whole(count)))];
    lemma_entry(b, q0 + 2, q0 + 8, q0 + 15, 1, d1, 0);
    lemma_entry(b, q0 + 15, q0 + 21, q2 + 1, 1, d1, 1);
    lemma_entry(b, q2 + 1, q2 + 8, q4, 1, d1, 2);
    lemma_dict_end(b, q4 + 0, q4 + 3, 1, d1);
    lemma_dict_value(b, from, q0 + 2, q4 + 3, 0, d1);
}

} // verus!
