//! What a PDF file of images shows, as a reader of its objects finds it.

use vstd::prelude::*;
use vstd::utf8::*;

use crate::bytes;
use crate::image::document;
use crate::image::document::{Encoding, Plate};
use crate::image::error::Fault;
use crate::image::picture::Source;
use crate::look;
use crate::look::{before, behind, clear, numeral, numerals};
use crate::pdf_out::Draft;

verus! {

/// Where the object with a number ends.
pub open spec fn object_stop(draft: Draft, number: int) -> int {
    if number < draft.offsets.len() {
        draft.offsets[number]
    } else {
        draft.bytes.len() as int
    }
}

/// What stands in a file between the first and the last line of an object.
pub open spec fn object(draft: Draft, number: int) -> Seq<u8> {
    let all = draft.bytes.subrange(draft.offsets[number - 1], object_stop(draft, number));
    let inner = behind(all, encode_utf8(" 0 obj\n"@));
    inner.take(inner.len() - encode_utf8("\nendobj\n"@).len())
}

/// The whole number behind a key.
pub open spec fn number_behind(s: Seq<u8>, key: Seq<char>) -> int {
    match numeral(behind(s, encode_utf8(key))) {
        Some((n, _)) => n / 10_000,
        None => -1,
    }
}

pub open spec fn begins(s: Seq<u8>, word: Seq<char>) -> bool {
    encode_utf8(word).is_prefix_of(s)
}

/// What stands before the data of a stream.
pub open spec fn head_of(object: Seq<u8>) -> Seq<u8> {
    before(object, encode_utf8("stream\n"@))
}

/// The data of a stream of which another object tells the length.
pub open spec fn data_of(draft: Draft, number: int) -> Seq<u8> {
    let stream = object(draft, number);
    let length = match numeral(object(draft, number_behind(head_of(stream), "/Length "@))) {
        Some((n, _)) => n / 10_000,
        None => -1,
    };
    behind(stream, encode_utf8("stream\n"@)).take(length)
}

/// A reader finds an image with that size, those colors and that data in an
/// object.
pub open spec fn holds_image(
    draft: Draft,
    number: int,
    width: int,
    height: int,
    color: Seq<char>,
    filter: Seq<char>,
    data: Seq<u8>,
) -> bool {
    let head = head_of(object(draft, number));
    &&& 0 < number <= draft.offsets.len()
    &&& 0 < number_behind(head, "/Length "@) <= draft.offsets.len()
    &&& number_behind(head, "/Width "@) == width
    &&& number_behind(head, "/Height "@) == height
    &&& number_behind(head, "/BitsPerComponent "@) == 8
    &&& begins(behind(head, encode_utf8("/ColorSpace "@)), color)
    &&& begins(behind(head, encode_utf8("/Filter "@)), filter)
    &&& data_of(draft, number) == data
}

/// The objects of a file stand one behind the other, each with its first and its
/// last line.
spec fn is_chain(draft: Draft) -> bool {
    forall|i: int|
        0 <= i < draft.offsets.len() ==> 0 <= #[trigger] draft.offsets[i] <= object_stop(
            draft,
            i + 1,
        ) <= draft.bytes.len()
}

proof fn lemma_object_added(draft: Draft, body: Seq<u8>)
    requires
        is_chain(draft),
    ensures
        ({
            let next = draft.with_object(body);
            let n = draft.offsets.len() as int;
            &&& is_chain(next)
            &&& next.offsets.len() == n + 1
            &&& object(next, n + 1) == body
            &&& forall|k: int| 0 < k <= n ==> #[trigger] object(next, k) == object(draft, k)
        }),
{
    let next = draft.with_object(body);
    let n = draft.offsets.len() as int;
    assert forall|i: int| 0 <= i < next.offsets.len() implies 0 <= #[trigger] next.offsets[i]
        <= object_stop(next, i + 1) <= next.bytes.len() by {
        if i < n {
            assert(next.offsets[i] == draft.offsets[i]);
            if i + 1 < n {
                assert(next.offsets[i + 1] == draft.offsets[i + 1]);
            }
        }
    }
    assert forall|k: int| 0 < k <= n implies #[trigger] object(next, k) == object(draft, k) by {
        assert(next.offsets[k - 1] == draft.offsets[k - 1]);
        assert(object_stop(next, k) == object_stop(draft, k));
        assert(next.bytes.subrange(next.offsets[k - 1], object_stop(next, k))
            =~= draft.bytes.subrange(draft.offsets[k - 1], object_stop(draft, k)));
    }
    let number = bytes::decimal((n + 1) as nat);
    let key = encode_utf8(" 0 obj\n"@);
    let end = encode_utf8("\nendobj\n"@);
    let all = next.bytes.subrange(next.offsets[n], object_stop(next, n + 1));
    assert(all =~= number + key + (body + end));
    reveal_strlit(" 0 obj\n");
    look::lemma_ascii(" 0 obj\n"@);
    look::lemma_numeral((n + 1) as nat, Seq::empty());
    look::lemma_clear_digits(number, key);
    look::lemma_behind(number, key, body + end);
    assert((body + end).take((body + end).len() - end.len()) =~= body);
}

/// The keys of the objects of a page and of an image.
proof fn lemma_side_text(n: int, rest: Seq<u8>)
    requires
        n >= 0,
        rest.len() == 0 || rest[0] < 48 || rest[0] > 57,
    ensures
        numeral(document::tenths(n) + rest) == Some((n, rest)),
        forall|i: int|
            0 <= i < document::tenths(n).len() ==> (48 <= #[trigger] document::tenths(n)[i] <= 57
                || document::tenths(n)[i] == 46),
{
    reveal_strlit(".");
    look::lemma_ascii("."@);
    assert(encode_utf8("."@) =~= seq![46u8]);
    look::lemma_pointed(n as nat, rest);
    let s = bytes::decimal((n as nat) / 10_000) + seq![46u8] + bytes::padded((n as nat) % 10_000, 4);
    assert(document::tenths(n) == s);
}

/// The sides of the page of an image, in ten-thousandths of a point: as many
/// points as the image has pixels, or where one of them would be longer than 14400
/// points, in the same ratio with that one exactly as long, to the nearest
/// ten-thousandth.
pub open spec fn is_page_size(width: int, height: int, w: int, h: int) -> bool {
    if width <= 14_400 && height <= 14_400 {
        w == 10_000 * width && h == 10_000 * height
    } else if width >= height {
        w == 144_000_000 && -width <= 2 * (h * width - 144_000_000 * height) <= width
    } else {
        h == 144_000_000 && -height <= 2 * (w * height - 144_000_000 * width) <= height
    }
}

proof fn lemma_nearest(n: int, d: int)
    requires
        n >= 0,
        d > 0,
    ensures
        -d <= 2 * (document::rounded(n, d) * d - n) <= d,
        document::rounded(n, d) >= 0,
        n % d == 0 ==> document::rounded(n, d) == n / d,
{
    let q = n / d;
    let r = n % d;
    assert(n == q * d + r && 0 <= r < d && q >= 0 && (q + 1) * d == q * d + d) by (nonlinear_arith)
        requires
            d > 0,
            n >= 0,
            q == n / d,
            r == n % d,
    ;
}

proof fn lemma_sides(plate: Plate)
    ensures
        ({
            let longest = document::longest(plate);
            let w = document::page_side(plate.width, longest);
            let h = document::page_side(plate.height, longest);
            w >= 0 && h >= 0 && is_page_size(plate.width as int, plate.height as int, w, h)
        }),
{
    let longest = document::longest(plate) as int;
    if longest > 14_400 {
        lemma_nearest(plate.width * 144_000_000, longest);
        lemma_nearest(plate.height * 144_000_000, longest);
        vstd::arithmetic::div_mod::lemma_fundamental_div_mod_converse(
            longest * 144_000_000,
            longest,
            144_000_000,
            0,
        );
    }
}

/// The parts of the object of a page.
spec fn page_parts(wide: Seq<u8>, high: Seq<u8>, a: Seq<u8>, b: Seq<u8>) -> Seq<Seq<u8>> {
    seq![
        encode_utf8("<< /Type /Page /Parent 2 0 R "@),
        encode_utf8("/MediaBox ["@),
        encode_utf8("0 0 "@),
        wide,
        encode_utf8(" "@),
        high,
        encode_utf8("] /Resources << /XObject << "@),
        encode_utf8("/Im0 "@),
        a,
        encode_utf8(" 0 R >> >> "@),
        encode_utf8("/Contents "@),
        b,
        encode_utf8(" 0 R >>"@),
    ]
}

proof fn lemma_page_parts(plate: Plate, image: int, content: int)
    ensures
        ({
            let w = document::page_side(plate.width, document::longest(plate));
            let h = document::page_side(plate.height, document::longest(plate));
            document::page_body(plate, image, content) == look::cat(
                page_parts(
                    document::tenths(w),
                    document::tenths(h),
                    bytes::decimal(image as nat),
                    bytes::decimal(content as nat),
                ),
            )
        }),
{
    reveal(document::page_body);
    let wide = document::width_text(plate);
    let high = document::height_text(plate);
    let a = bytes::decimal(image as nat);
    let b = bytes::decimal(content as nat);
    let p0 = Seq::<Seq<u8>>::empty();
    assert(encode_utf8("<< /Type /Page /Parent 2 0 R /MediaBox [0 0 "@) == encode_utf8("<< /Type /Page /Parent 2 0 R "@) + encode_utf8("/MediaBox ["@) + encode_utf8("0 0 "@)) by {
        reveal_strlit("<< /Type /Page /Parent 2 0 R /MediaBox [0 0 ");
        reveal_strlit("<< /Type /Page /Parent 2 0 R ");
        reveal_strlit("/MediaBox [");
        reveal_strlit("0 0 ");
        look::lemma_ascii_concat("<< /Type /Page /Parent 2 0 R "@, "/MediaBox ["@);
        look::lemma_ascii_concat("<< /Type /Page /Parent 2 0 R "@ + "/MediaBox ["@, "0 0 "@);
        assert("<< /Type /Page /Parent 2 0 R /MediaBox [0 0 "@ =~= "<< /Type /Page /Parent 2 0 R "@ + "/MediaBox ["@ + "0 0 "@);
    }
    assert(encode_utf8("] /Resources << /XObject << /Im0 "@) == encode_utf8("] /Resources << /XObject << "@) + encode_utf8("/Im0 "@)) by {
        reveal_strlit("] /Resources << /XObject << /Im0 ");
        reveal_strlit("] /Resources << /XObject << ");
        reveal_strlit("/Im0 ");
        look::lemma_ascii_concat("] /Resources << /XObject << "@, "/Im0 "@);
        assert("] /Resources << /XObject << /Im0 "@ =~= "] /Resources << /XObject << "@ + "/Im0 "@);
    }
    assert(encode_utf8(" 0 R >> >> /Contents "@) == encode_utf8(" 0 R >> >> "@) + encode_utf8("/Contents "@)) by {
        reveal_strlit(" 0 R >> >> /Contents ");
        reveal_strlit(" 0 R >> >> ");
        reveal_strlit("/Contents ");
        look::lemma_ascii_concat(" 0 R >> >> "@, "/Contents "@);
        assert(" 0 R >> >> /Contents "@ =~= " 0 R >> >> "@ + "/Contents "@);
    }
    let p1 = p0.push(encode_utf8("<< /Type /Page /Parent 2 0 R "@));
    look::lemma_cat_push(p0, encode_utf8("<< /Type /Page /Parent 2 0 R "@));
    let p2 = p1.push(encode_utf8("/MediaBox ["@));
    look::lemma_cat_push(p1, encode_utf8("/MediaBox ["@));
    let p3 = p2.push(encode_utf8("0 0 "@));
    look::lemma_cat_push(p2, encode_utf8("0 0 "@));
    assert(look::cat(p3) =~= encode_utf8("<< /Type /Page /Parent 2 0 R /MediaBox [0 0 "@));
    let p4 = p3.push(wide);
    look::lemma_cat_push(p3, wide);
    let p5 = p4.push(encode_utf8(" "@));
    look::lemma_cat_push(p4, encode_utf8(" "@));
    let p6 = p5.push(high);
    look::lemma_cat_push(p5, high);
    let p7 = p6.push(encode_utf8("] /Resources << /XObject << "@));
    look::lemma_cat_push(p6, encode_utf8("] /Resources << /XObject << "@));
    let p8 = p7.push(encode_utf8("/Im0 "@));
    look::lemma_cat_push(p7, encode_utf8("/Im0 "@));
    assert(look::cat(p8) =~= look::cat(p6) + encode_utf8("] /Resources << /XObject << /Im0 "@));
    let p9 = p8.push(a);
    look::lemma_cat_push(p8, a);
    let p10 = p9.push(encode_utf8(" 0 R >> >> "@));
    look::lemma_cat_push(p9, encode_utf8(" 0 R >> >> "@));
    let p11 = p10.push(encode_utf8("/Contents "@));
    look::lemma_cat_push(p10, encode_utf8("/Contents "@));
    assert(look::cat(p11) =~= look::cat(p9) + encode_utf8(" 0 R >> >> /Contents "@));
    let p12 = p11.push(b);
    look::lemma_cat_push(p11, b);
    let p13 = p12.push(encode_utf8(" 0 R >>"@));
    look::lemma_cat_push(p12, encode_utf8(" 0 R >>"@));
    assert(p13 =~= page_parts(wide, high, a, b));
}

#[verifier::spinoff_prover]
proof fn lemma_page_clear()
    ensures
        clear(encode_utf8("<< /Type /Page /Parent 2 0 R "@), encode_utf8("/MediaBox ["@)),
        clear(encode_utf8("<< /Type /Page /Parent 2 0 R "@), encode_utf8("/Im0 "@)),
        clear(encode_utf8("/MediaBox ["@), encode_utf8("/Im0 "@)),
        clear(encode_utf8("0 0 "@), encode_utf8("/Im0 "@)),
        clear(encode_utf8(" "@), encode_utf8("/Im0 "@)),
        clear(encode_utf8("] /Resources << /XObject << "@), encode_utf8("/Im0 "@)),
        clear(encode_utf8("<< /Type /Page /Parent 2 0 R "@), encode_utf8("/Contents "@)),
        clear(encode_utf8("/MediaBox ["@), encode_utf8("/Contents "@)),
        clear(encode_utf8("0 0 "@), encode_utf8("/Contents "@)),
        clear(encode_utf8(" "@), encode_utf8("/Contents "@)),
        clear(encode_utf8("] /Resources << /XObject << "@), encode_utf8("/Contents "@)),
        clear(encode_utf8("/Im0 "@), encode_utf8("/Contents "@)),
        clear(encode_utf8(" 0 R >> >> "@), encode_utf8("/Contents "@)),
{
    assert(clear(encode_utf8("<< /Type /Page /Parent 2 0 R "@), encode_utf8("/MediaBox ["@))) by {
        reveal(look::clear);
        reveal_strlit("<< /Type /Page /Parent 2 0 R ");
        reveal_strlit("/MediaBox [");
        look::lemma_clear_bytes("<< /Type /Page /Parent 2 0 R "@, "/MediaBox ["@);
    }
    assert(clear(encode_utf8("<< /Type /Page /Parent 2 0 R "@), encode_utf8("/Im0 "@))) by {
        reveal(look::clear);
        reveal_strlit("<< /Type /Page /Parent 2 0 R ");
        reveal_strlit("/Im0 ");
        look::lemma_clear_bytes("<< /Type /Page /Parent 2 0 R "@, "/Im0 "@);
    }
    assert(clear(encode_utf8("/MediaBox ["@), encode_utf8("/Im0 "@))) by {
        reveal(look::clear);
        reveal_strlit("/MediaBox [");
        reveal_strlit("/Im0 ");
        look::lemma_clear_bytes("/MediaBox ["@, "/Im0 "@);
    }
    assert(clear(encode_utf8("0 0 "@), encode_utf8("/Im0 "@))) by {
        reveal(look::clear);
        reveal_strlit("0 0 ");
        reveal_strlit("/Im0 ");
        look::lemma_clear_bytes("0 0 "@, "/Im0 "@);
    }
    assert(clear(encode_utf8(" "@), encode_utf8("/Im0 "@))) by {
        reveal(look::clear);
        reveal_strlit(" ");
        reveal_strlit("/Im0 ");
        look::lemma_clear_bytes(" "@, "/Im0 "@);
    }
    assert(clear(encode_utf8("] /Resources << /XObject << "@), encode_utf8("/Im0 "@))) by {
        reveal(look::clear);
        reveal_strlit("] /Resources << /XObject << ");
        reveal_strlit("/Im0 ");
        look::lemma_clear_bytes("] /Resources << /XObject << "@, "/Im0 "@);
    }
    assert(clear(encode_utf8("<< /Type /Page /Parent 2 0 R "@), encode_utf8("/Contents "@))) by {
        reveal(look::clear);
        reveal_strlit("<< /Type /Page /Parent 2 0 R ");
        reveal_strlit("/Contents ");
        look::lemma_clear_bytes("<< /Type /Page /Parent 2 0 R "@, "/Contents "@);
    }
    assert(clear(encode_utf8("/MediaBox ["@), encode_utf8("/Contents "@))) by {
        reveal(look::clear);
        reveal_strlit("/MediaBox [");
        reveal_strlit("/Contents ");
        look::lemma_clear_bytes("/MediaBox ["@, "/Contents "@);
    }
    assert(clear(encode_utf8("0 0 "@), encode_utf8("/Contents "@))) by {
        reveal(look::clear);
        reveal_strlit("0 0 ");
        reveal_strlit("/Contents ");
        look::lemma_clear_bytes("0 0 "@, "/Contents "@);
    }
    assert(clear(encode_utf8(" "@), encode_utf8("/Contents "@))) by {
        reveal(look::clear);
        reveal_strlit(" ");
        reveal_strlit("/Contents ");
        look::lemma_clear_bytes(" "@, "/Contents "@);
    }
    assert(clear(encode_utf8("] /Resources << /XObject << "@), encode_utf8("/Contents "@))) by {
        reveal(look::clear);
        reveal_strlit("] /Resources << /XObject << ");
        reveal_strlit("/Contents ");
        look::lemma_clear_bytes("] /Resources << /XObject << "@, "/Contents "@);
    }
    assert(clear(encode_utf8("/Im0 "@), encode_utf8("/Contents "@))) by {
        reveal(look::clear);
        reveal_strlit("/Im0 ");
        reveal_strlit("/Contents ");
        look::lemma_clear_bytes("/Im0 "@, "/Contents "@);
    }
    assert(clear(encode_utf8(" 0 R >> >> "@), encode_utf8("/Contents "@))) by {
        reveal(look::clear);
        reveal_strlit(" 0 R >> >> ");
        reveal_strlit("/Contents ");
        look::lemma_clear_bytes(" 0 R >> >> "@, "/Contents "@);
    }
}

proof fn lemma_starts()
    ensures
        encode_utf8("0 0 "@) == seq![48u8, 32, 48, 32],
        encode_utf8(" "@) == seq![32u8],
        encode_utf8(" 0 R >> >> "@)[0] == 32 && encode_utf8(" 0 R >> >> "@).len() == 11,
        encode_utf8(" 0 R >>"@)[0] == 32 && encode_utf8(" 0 R >>"@).len() == 7,
        encode_utf8("] /Resources << /XObject << "@)[0] == 93 && encode_utf8(
            "] /Resources << /XObject << "@,
        ).len() == 28,
{
    reveal_strlit("0 0 ");
    reveal_strlit(" ");
    reveal_strlit(" 0 R >> >> ");
    reveal_strlit(" 0 R >>");
    reveal_strlit("] /Resources << /XObject << ");
    look::lemma_ascii("0 0 "@);
    look::lemma_ascii(" "@);
    look::lemma_ascii(" 0 R >> >> "@);
    look::lemma_ascii(" 0 R >>"@);
    look::lemma_ascii("] /Resources << /XObject << "@);
    assert(encode_utf8("0 0 "@) =~= seq![48u8, 32, 48, 32]);
    assert(encode_utf8(" "@) =~= seq![32u8]);
}

/// What stands on a page: its size, its image and its content.
proof fn lemma_page_object(plate: Plate, image: int, content: int)
    requires
        image >= 0,
        content >= 0,
    ensures
        ({
            let page = document::page_body(plate, image, content);
            let w = document::page_side(plate.width, document::longest(plate));
            let h = document::page_side(plate.height, document::longest(plate));
            let found = numerals(behind(page, encode_utf8("/MediaBox ["@)), 4);
            &&& found is Some
            &&& (found->0).0 == seq![0, 0, w, h]
            &&& (found->0).1.len() > 0 && (found->0).1[0] == 93
            &&& number_behind(page, "/Im0 "@) == image
            &&& number_behind(page, "/Contents "@) == content
        }),
{
    lemma_sides(plate);
    lemma_page_parts(plate, image, content);
    lemma_page_clear();
    lemma_starts();
    lemma_keys();
    let w = document::page_side(plate.width, document::longest(plate));
    let h = document::page_side(plate.height, document::longest(plate));
    let wide = document::tenths(w);
    let high = document::tenths(h);
    let a = bytes::decimal(image as nat);
    let b = bytes::decimal(content as nat);
    let parts = page_parts(wide, high, a, b);
    lemma_side_text(w, Seq::empty());
    lemma_side_text(h, Seq::empty());
    look::lemma_numeral(image as nat, Seq::empty());
    look::lemma_numeral(content as nat, Seq::empty());
    let image_key = encode_utf8("/Im0 "@);
    let content_key = encode_utf8("/Contents "@);
    look::lemma_clear_digits(wide, image_key);
    look::lemma_clear_digits(high, image_key);
    look::lemma_clear_digits(wide, content_key);
    look::lemma_clear_digits(high, content_key);
    look::lemma_clear_digits(a, content_key);
    look::lemma_cat_behind(parts, 1);
    look::lemma_cat_behind(parts, 7);
    look::lemma_cat_behind(parts, 10);
    // The box.
    look::lemma_cat_first(parts, 2);
    look::lemma_cat_first(parts, 3);
    look::lemma_cat_first(parts, 4);
    look::lemma_cat_first(parts, 5);
    look::lemma_cat_first(parts, 6);
    lemma_box(w, h, look::cat(parts.skip(6)));
    // The image and the content.
    look::lemma_cat_first(parts, 8);
    look::lemma_cat_first(parts, 9);
    look::lemma_numeral(image as nat, look::cat(parts.skip(9)));
    look::lemma_cat_first(parts, 11);
    look::lemma_cat_first(parts, 12);
    look::lemma_numeral(content as nat, look::cat(parts.skip(12)));
}

proof fn lemma_keys()
    ensures
        encode_utf8("/MediaBox ["@).len() == 11,
        encode_utf8("/Im0 "@).len() == 5 && encode_utf8("/Im0 "@)[0] == 47,
        encode_utf8("/Contents "@).len() == 10 && encode_utf8("/Contents "@)[0] == 47,
{
    reveal_strlit("/MediaBox [");
    reveal_strlit("/Im0 ");
    reveal_strlit("/Contents ");
    look::lemma_ascii("/MediaBox ["@);
    look::lemma_ascii("/Im0 "@);
    look::lemma_ascii("/Contents "@);
}

proof fn lemma_zero(rest: Seq<u8>)
    requires
        rest.len() == 0 || ((rest[0] < 48 || rest[0] > 57) && rest[0] != 46),
    ensures
        numeral(seq![48u8] + rest) == Some((0int, rest)),
{
    assert(bytes::decimal(0) =~= seq![48u8]);
    look::lemma_numeral(0, rest);
}

/// Two zeros and two sides are read back.
proof fn lemma_box(w: int, h: int, rest: Seq<u8>)
    requires
        w >= 0,
        h >= 0,
        rest.len() > 0,
        rest[0] < 48 || rest[0] > 57,
    ensures
        numerals(
            seq![48u8, 32, 48, 32] + (document::tenths(w) + (seq![32u8] + (document::tenths(h)
                + rest))),
            4,
        ) == Some((seq![0, 0, w, h], rest)),
{
    let space = seq![32u8];
    let s3 = document::tenths(h) + rest;
    let s2 = document::tenths(w) + (space + s3);
    let s1 = seq![48u8] + (space + s2);
    let s = seq![48u8] + (space + s1);
    assert(s =~= seq![48u8, 32, 48, 32] + s2);
    lemma_zero(space + s1);
    lemma_zero(space + s2);
    lemma_side_text(w, space + s3);
    lemma_side_text(h, rest);
    look::lemma_numerals_one(s, 0, space + s1);
    look::lemma_numerals_next(s, 1, seq![0], s1, 0, space + s2);
    look::lemma_numerals_next(s, 2, seq![0].push(0), s2, w, space + s3);
    look::lemma_numerals_next(s, 3, seq![0].push(0).push(w), s3, h, rest);
    assert(seq![0].push(0).push(w).push(h) =~= seq![0, 0, w, h]);
}

/// What the content of a page says: the image is drawn once, with a matrix.
pub open spec fn draws(content: Seq<u8>, matrix: Seq<int>) -> bool {
    &&& begins(content, "q\n"@)
    &&& numerals(content.skip(2), 6) == Some((matrix, encode_utf8(" cm\n/Im0 Do\nQ\n"@)))
}

proof fn lemma_drawing(plate: Plate)
    ensures
        ({
            let w = document::page_side(plate.width, document::longest(plate));
            let h = document::page_side(plate.height, document::longest(plate));
            draws(document::drawing(plate), seq![w, 0, 0, h, 0, 0])
        }),
{
    reveal(document::drawing);
    lemma_sides(plate);
    let w = document::page_side(plate.width, document::longest(plate));
    let h = document::page_side(plate.height, document::longest(plate));
    let end = encode_utf8(" cm\n/Im0 Do\nQ\n"@);
    let content = document::drawing(plate);
    let zeros = seq![32u8, 48, 32, 48];
    assert(encode_utf8("q\n"@).len() == 2 && encode_utf8(" 0 0 "@) == zeros + seq![32u8]
        && encode_utf8(" 0 0 cm\n/Im0 Do\nQ\n"@) == zeros + end && end.len() > 0 && end[0] == 32)
        by {
        reveal_strlit("q\n");
        reveal_strlit(" 0 0 ");
        reveal_strlit(" 0 0 cm\n/Im0 Do\nQ\n");
        reveal_strlit(" cm\n/Im0 Do\nQ\n");
        look::lemma_ascii("q\n"@);
        look::lemma_ascii(" 0 0 "@);
        look::lemma_ascii(" 0 0 cm\n/Im0 Do\nQ\n"@);
        look::lemma_ascii(" cm\n/Im0 Do\nQ\n"@);
        assert(encode_utf8(" 0 0 "@) =~= zeros + seq![32u8]);
        assert(encode_utf8(" 0 0 cm\n/Im0 Do\nQ\n"@) =~= zeros + end);
    }
    let start = encode_utf8("q\n"@);
    let wide = document::tenths(w);
    let high = document::tenths(h);
    let body = wide + (zeros + seq![32u8]) + high + (zeros + end);
    assert(content =~= start + body);
    assert(content.skip(2) =~= body);
    assert(content.subrange(0, 2) =~= start);
    lemma_matrix(w, h, end);
}

/// The six numbers of a matrix are read back.
proof fn lemma_matrix(w: int, h: int, end: Seq<u8>)
    requires
        w >= 0,
        h >= 0,
        end.len() > 0,
        end[0] == 32,
    ensures
        ({
            let zeros = seq![32u8, 48, 32, 48];
            numerals(
                document::tenths(w) + (zeros + seq![32u8]) + document::tenths(h) + (zeros + end),
                6,
            ) == Some((seq![w, 0, 0, h, 0, 0], end))
        }),
{
    let zeros = seq![32u8, 48, 32, 48];
    let space = seq![32u8];
    let zero = seq![48u8];
    let s5 = zero + end;
    let s4 = zero + (space + s5);
    let s3 = document::tenths(h) + (space + s4);
    let s2 = zero + (space + s3);
    let s1 = zero + (space + s2);
    let s = document::tenths(w) + (space + s1);
    assert(s =~= document::tenths(w) + (zeros + space) + document::tenths(h) + (zeros + end));
    lemma_side_text(w, space + s1);
    lemma_zero(space + s2);
    lemma_zero(space + s3);
    lemma_side_text(h, space + s4);
    lemma_zero(space + s5);
    lemma_zero(end);
    look::lemma_numerals_one(s, w, space + s1);
    look::lemma_numerals_next(s, 1, seq![w], s1, 0, space + s2);
    look::lemma_numerals_next(s, 2, seq![w].push(0), s2, 0, space + s3);
    look::lemma_numerals_next(s, 3, seq![w].push(0).push(0), s3, h, space + s4);
    look::lemma_numerals_next(s, 4, seq![w].push(0).push(0).push(h), s4, 0, space + s5);
    look::lemma_numerals_next(s, 5, seq![w].push(0).push(0).push(h).push(0), s5, 0, end);
    assert(seq![w].push(0).push(0).push(h).push(0).push(0) =~= seq![w, 0, 0, h, 0, 0]);
}

/// The parts of an image: what comes first in its head.
spec fn first_parts(w: Seq<u8>, h: Seq<u8>, color: Seq<u8>, filter: Seq<u8>) -> Seq<Seq<u8>> {
    seq![
        encode_utf8("<< /Type /XObject /Subtype /Image "@),
        encode_utf8("/Width "@),
        w,
        encode_utf8(" "@),
        encode_utf8("/Height "@),
        h,
        encode_utf8(" "@),
        encode_utf8("/ColorSpace "@),
        color,
        encode_utf8(" "@),
        encode_utf8("/BitsPerComponent "@),
        encode_utf8("8 "@),
        encode_utf8("/Filter "@),
        filter,
    ]
}

/// What tells of its mask.
spec fn mask_parts(d: Seq<u8>) -> Seq<Seq<u8>> {
    seq![
        encode_utf8(" "@),
        encode_utf8("/SMask "@),
        d,
        encode_utf8(" 0 R"@),
    ]
}

/// What comes last in its head, and the data.
spec fn last_parts(length: Seq<u8>, data: Seq<u8>) -> Seq<Seq<u8>> {
    seq![
        encode_utf8(" "@),
        encode_utf8("/Length "@),
        length,
        encode_utf8(" 0 R >>\n"@),
        encode_utf8("stream\n"@),
        data,
        encode_utf8("\nendstream"@),
    ]
}

spec fn parts_of(plate: Plate, mask: int, length: int, data: Seq<u8>) -> Seq<Seq<u8>> {
    first_parts(
        bytes::decimal(plate.width as nat),
        bytes::decimal(plate.height as nat),
        document::color_space(plate),
        document::filter_text(plate),
    ) + (if plate.mask is Some {
        mask_parts(bytes::decimal(mask as nat))
    } else {
        Seq::empty()
    }) + last_parts(bytes::decimal(length as nat), data)
}

proof fn lemma_first_parts(w: Seq<u8>, h: Seq<u8>, color: Seq<u8>, filter: Seq<u8>)
    ensures
        look::cat(first_parts(w, h, color, filter)) == encode_utf8(
            "<< /Type /XObject /Subtype /Image /Width "@,
        ) + w + encode_utf8(" /Height "@) + h + encode_utf8(" /ColorSpace "@) + color
            + encode_utf8(" /BitsPerComponent 8 /Filter "@) + filter,
{
    let p0 = Seq::<Seq<u8>>::empty();
    assert(encode_utf8("<< /Type /XObject /Subtype /Image /Width "@) == encode_utf8("<< /Type /XObject /Subtype /Image "@) + encode_utf8("/Width "@)) by {
        reveal_strlit("<< /Type /XObject /Subtype /Image /Width ");
        reveal_strlit("<< /Type /XObject /Subtype /Image ");
        reveal_strlit("/Width ");
        look::lemma_ascii_concat("<< /Type /XObject /Subtype /Image "@, "/Width "@);
        assert("<< /Type /XObject /Subtype /Image /Width "@ =~= "<< /Type /XObject /Subtype /Image "@ + "/Width "@);
    }
    assert(encode_utf8(" /Height "@) == encode_utf8(" "@) + encode_utf8("/Height "@)) by {
        reveal_strlit(" /Height ");
        reveal_strlit(" ");
        reveal_strlit("/Height ");
        look::lemma_ascii_concat(" "@, "/Height "@);
        assert(" /Height "@ =~= " "@ + "/Height "@);
    }
    assert(encode_utf8(" /ColorSpace "@) == encode_utf8(" "@) + encode_utf8("/ColorSpace "@)) by {
        reveal_strlit(" /ColorSpace ");
        reveal_strlit(" ");
        reveal_strlit("/ColorSpace ");
        look::lemma_ascii_concat(" "@, "/ColorSpace "@);
        assert(" /ColorSpace "@ =~= " "@ + "/ColorSpace "@);
    }
    assert(encode_utf8(" /BitsPerComponent 8 /Filter "@) == encode_utf8(" "@) + encode_utf8("/BitsPerComponent "@) + encode_utf8("8 "@) + encode_utf8("/Filter "@)) by {
        reveal_strlit(" /BitsPerComponent 8 /Filter ");
        reveal_strlit(" ");
        reveal_strlit("/BitsPerComponent ");
        reveal_strlit("8 ");
        reveal_strlit("/Filter ");
        look::lemma_ascii_concat(" "@, "/BitsPerComponent "@);
        look::lemma_ascii_concat(" "@ + "/BitsPerComponent "@, "8 "@);
        look::lemma_ascii_concat(" "@ + "/BitsPerComponent "@ + "8 "@, "/Filter "@);
        assert(" /BitsPerComponent 8 /Filter "@ =~= " "@ + "/BitsPerComponent "@ + "8 "@ + "/Filter "@);
    }
    let p1 = p0.push(encode_utf8("<< /Type /XObject /Subtype /Image "@));
    look::lemma_cat_push(p0, encode_utf8("<< /Type /XObject /Subtype /Image "@));
    let p2 = p1.push(encode_utf8("/Width "@));
    look::lemma_cat_push(p1, encode_utf8("/Width "@));
    assert(look::cat(p2) =~= encode_utf8("<< /Type /XObject /Subtype /Image /Width "@));
    let p3 = p2.push(w);
    look::lemma_cat_push(p2, w);
    let p4 = p3.push(encode_utf8(" "@));
    look::lemma_cat_push(p3, encode_utf8(" "@));
    let p5 = p4.push(encode_utf8("/Height "@));
    look::lemma_cat_push(p4, encode_utf8("/Height "@));
    assert(look::cat(p5) =~= look::cat(p3) + encode_utf8(" /Height "@));
    let p6 = p5.push(h);
    look::lemma_cat_push(p5, h);
    let p7 = p6.push(encode_utf8(" "@));
    look::lemma_cat_push(p6, encode_utf8(" "@));
    let p8 = p7.push(encode_utf8("/ColorSpace "@));
    look::lemma_cat_push(p7, encode_utf8("/ColorSpace "@));
    assert(look::cat(p8) =~= look::cat(p6) + encode_utf8(" /ColorSpace "@));
    let p9 = p8.push(color);
    look::lemma_cat_push(p8, color);
    let p10 = p9.push(encode_utf8(" "@));
    look::lemma_cat_push(p9, encode_utf8(" "@));
    let p11 = p10.push(encode_utf8("/BitsPerComponent "@));
    look::lemma_cat_push(p10, encode_utf8("/BitsPerComponent "@));
    let p12 = p11.push(encode_utf8("8 "@));
    look::lemma_cat_push(p11, encode_utf8("8 "@));
    let p13 = p12.push(encode_utf8("/Filter "@));
    look::lemma_cat_push(p12, encode_utf8("/Filter "@));
    assert(look::cat(p13) =~= look::cat(p9) + encode_utf8(" /BitsPerComponent 8 /Filter "@));
    let p14 = p13.push(filter);
    look::lemma_cat_push(p13, filter);
    assert(p14 =~= first_parts(w, h, color, filter));
}

proof fn lemma_mask_parts(d: Seq<u8>)
    ensures
        look::cat(mask_parts(d)) == encode_utf8(" /SMask "@) + d + encode_utf8(" 0 R"@),
{
    let p0 = Seq::<Seq<u8>>::empty();
    assert(encode_utf8(" /SMask "@) == encode_utf8(" "@) + encode_utf8("/SMask "@)) by {
        reveal_strlit(" /SMask ");
        reveal_strlit(" ");
        reveal_strlit("/SMask ");
        look::lemma_ascii_concat(" "@, "/SMask "@);
        assert(" /SMask "@ =~= " "@ + "/SMask "@);
    }
    let p1 = p0.push(encode_utf8(" "@));
    look::lemma_cat_push(p0, encode_utf8(" "@));
    let p2 = p1.push(encode_utf8("/SMask "@));
    look::lemma_cat_push(p1, encode_utf8("/SMask "@));
    assert(look::cat(p2) =~= encode_utf8(" /SMask "@));
    let p3 = p2.push(d);
    look::lemma_cat_push(p2, d);
    let p4 = p3.push(encode_utf8(" 0 R"@));
    look::lemma_cat_push(p3, encode_utf8(" 0 R"@));
    assert(p4 =~= mask_parts(d));
}

proof fn lemma_last_parts(length: Seq<u8>, data: Seq<u8>)
    ensures
        look::cat(last_parts(length, data)) == encode_utf8(" /Length "@) + length + encode_utf8(
            " 0 R >>\nstream\n"@,
        ) + data + encode_utf8("\nendstream"@),
{
    let p0 = Seq::<Seq<u8>>::empty();
    assert(encode_utf8(" /Length "@) == encode_utf8(" "@) + encode_utf8("/Length "@)) by {
        reveal_strlit(" /Length ");
        reveal_strlit(" ");
        reveal_strlit("/Length ");
        look::lemma_ascii_concat(" "@, "/Length "@);
        assert(" /Length "@ =~= " "@ + "/Length "@);
    }
    assert(encode_utf8(" 0 R >>\nstream\n"@) == encode_utf8(" 0 R >>\n"@) + encode_utf8("stream\n"@)) by {
        reveal_strlit(" 0 R >>\nstream\n");
        reveal_strlit(" 0 R >>\n");
        reveal_strlit("stream\n");
        look::lemma_ascii_concat(" 0 R >>\n"@, "stream\n"@);
        assert(" 0 R >>\nstream\n"@ =~= " 0 R >>\n"@ + "stream\n"@);
    }
    let p1 = p0.push(encode_utf8(" "@));
    look::lemma_cat_push(p0, encode_utf8(" "@));
    let p2 = p1.push(encode_utf8("/Length "@));
    look::lemma_cat_push(p1, encode_utf8("/Length "@));
    assert(look::cat(p2) =~= encode_utf8(" /Length "@));
    let p3 = p2.push(length);
    look::lemma_cat_push(p2, length);
    let p4 = p3.push(encode_utf8(" 0 R >>\n"@));
    look::lemma_cat_push(p3, encode_utf8(" 0 R >>\n"@));
    let p5 = p4.push(encode_utf8("stream\n"@));
    look::lemma_cat_push(p4, encode_utf8("stream\n"@));
    assert(look::cat(p5) =~= look::cat(p3) + encode_utf8(" 0 R >>\nstream\n"@));
    let p6 = p5.push(data);
    look::lemma_cat_push(p5, data);
    let p7 = p6.push(encode_utf8("\nendstream"@));
    look::lemma_cat_push(p6, encode_utf8("\nendstream"@));
    assert(p7 =~= last_parts(length, data));
}

proof fn lemma_image_parts(plate: Plate, mask: int, length: int, data: Seq<u8>)
    ensures
        document::image_head(plate, mask, length) + data + encode_utf8("\nendstream"@) == look::cat(
            parts_of(plate, mask, length, data),
        ),
{
    reveal(document::image_head);
    let w = bytes::decimal(plate.width as nat);
    let h = bytes::decimal(plate.height as nat);
    let l = bytes::decimal(length as nat);
    let color = document::color_space(plate);
    let filter = document::filter_text(plate);
    let a = first_parts(w, h, color, filter);
    let m = if plate.mask is Some {
        mask_parts(bytes::decimal(mask as nat))
    } else {
        Seq::empty()
    };
    let b = last_parts(l, data);
    lemma_first_parts(w, h, color, filter);
    lemma_mask_parts(bytes::decimal(mask as nat));
    lemma_last_parts(l, data);
    look::lemma_cat_concat(a, m);
    look::lemma_cat_concat(a + m, b);
    let first = look::cat(a);
    let middle = document::mask_text(plate, mask);
    assert(look::cat(m) =~= middle);
    let e1 = encode_utf8(" /Length "@);
    let e2 = encode_utf8(" 0 R >>\nstream\n"@);
    let e3 = encode_utf8("\nendstream"@);
    assert(document::image_head(plate, mask, length) == first + middle + e1 + l + e2);
    assert(first + middle + e1 + l + e2 + data + e3 =~= first + middle + (e1 + l + e2 + data + e3));
}

#[verifier::rlimit(60)]
#[verifier::spinoff_prover]
proof fn lemma_image_clear_0()
    ensures
        clear(encode_utf8("<< /Type /XObject /Subtype /Image "@), encode_utf8("/Width "@)),
        encode_utf8("/Width "@).len() >= 3,
        encode_utf8("/Width "@)[0] > 57 || encode_utf8("/Width "@)[0] == 47,
{
    assert(encode_utf8("/Width "@).len() >= 3 && (encode_utf8("/Width "@)[0] > 57 || encode_utf8("/Width "@)[0] == 47)) by {
        reveal_strlit("/Width ");
        look::lemma_ascii("/Width "@);
    }
    assert(clear(encode_utf8("<< /Type /XObject /Subtype /Image "@), encode_utf8("/Width "@))) by {
        reveal(look::clear);
        reveal_strlit("<< /Type /XObject /Subtype /Image ");
        reveal_strlit("/Width ");
        look::lemma_clear_bytes("<< /Type /XObject /Subtype /Image "@, "/Width "@);
    }
}

#[verifier::rlimit(60)]
#[verifier::spinoff_prover]
proof fn lemma_image_clear_1()
    ensures
        clear(encode_utf8("<< /Type /XObject /Subtype /Image "@), encode_utf8("/Height "@)),
        clear(encode_utf8("/Width "@), encode_utf8("/Height "@)),
        clear(encode_utf8(" "@), encode_utf8("/Height "@)),
        encode_utf8("/Height "@).len() >= 3,
        encode_utf8("/Height "@)[0] > 57 || encode_utf8("/Height "@)[0] == 47,
{
    assert(encode_utf8("/Height "@).len() >= 3 && (encode_utf8("/Height "@)[0] > 57 || encode_utf8("/Height "@)[0] == 47)) by {
        reveal_strlit("/Height ");
        look::lemma_ascii("/Height "@);
    }
    assert(clear(encode_utf8("<< /Type /XObject /Subtype /Image "@), encode_utf8("/Height "@))) by {
        reveal(look::clear);
        reveal_strlit("<< /Type /XObject /Subtype /Image ");
        reveal_strlit("/Height ");
        look::lemma_clear_bytes("<< /Type /XObject /Subtype /Image "@, "/Height "@);
    }
    assert(clear(encode_utf8("/Width "@), encode_utf8("/Height "@))) by {
        reveal(look::clear);
        reveal_strlit("/Width ");
        reveal_strlit("/Height ");
        look::lemma_clear_bytes("/Width "@, "/Height "@);
    }
    assert(clear(encode_utf8(" "@), encode_utf8("/Height "@))) by {
        reveal(look::clear);
        reveal_strlit(" ");
        reveal_strlit("/Height ");
        look::lemma_clear_bytes(" "@, "/Height "@);
    }
}

#[verifier::rlimit(60)]
#[verifier::spinoff_prover]
proof fn lemma_image_clear_2()
    ensures
        clear(encode_utf8("<< /Type /XObject /Subtype /Image "@), encode_utf8("/ColorSpace "@)),
        clear(encode_utf8("/Width "@), encode_utf8("/ColorSpace "@)),
        clear(encode_utf8(" "@), encode_utf8("/ColorSpace "@)),
        clear(encode_utf8("/Height "@), encode_utf8("/ColorSpace "@)),
        encode_utf8("/ColorSpace "@).len() >= 3,
        encode_utf8("/ColorSpace "@)[0] > 57 || encode_utf8("/ColorSpace "@)[0] == 47,
{
    assert(encode_utf8("/ColorSpace "@).len() >= 3 && (encode_utf8("/ColorSpace "@)[0] > 57 || encode_utf8("/ColorSpace "@)[0] == 47)) by {
        reveal_strlit("/ColorSpace ");
        look::lemma_ascii("/ColorSpace "@);
    }
    assert(clear(encode_utf8("<< /Type /XObject /Subtype /Image "@), encode_utf8("/ColorSpace "@))) by {
        reveal(look::clear);
        reveal_strlit("<< /Type /XObject /Subtype /Image ");
        reveal_strlit("/ColorSpace ");
        look::lemma_clear_bytes("<< /Type /XObject /Subtype /Image "@, "/ColorSpace "@);
    }
    assert(clear(encode_utf8("/Width "@), encode_utf8("/ColorSpace "@))) by {
        reveal(look::clear);
        reveal_strlit("/Width ");
        reveal_strlit("/ColorSpace ");
        look::lemma_clear_bytes("/Width "@, "/ColorSpace "@);
    }
    assert(clear(encode_utf8(" "@), encode_utf8("/ColorSpace "@))) by {
        reveal(look::clear);
        reveal_strlit(" ");
        reveal_strlit("/ColorSpace ");
        look::lemma_clear_bytes(" "@, "/ColorSpace "@);
    }
    assert(clear(encode_utf8("/Height "@), encode_utf8("/ColorSpace "@))) by {
        reveal(look::clear);
        reveal_strlit("/Height ");
        reveal_strlit("/ColorSpace ");
        look::lemma_clear_bytes("/Height "@, "/ColorSpace "@);
    }
}

#[verifier::rlimit(60)]
#[verifier::spinoff_prover]
proof fn lemma_image_clear_3()
    ensures
        clear(encode_utf8("<< /Type /XObject /Subtype /Image "@), encode_utf8("/BitsPerComponent "@)),
        clear(encode_utf8("/Width "@), encode_utf8("/BitsPerComponent "@)),
        clear(encode_utf8(" "@), encode_utf8("/BitsPerComponent "@)),
        clear(encode_utf8("/Height "@), encode_utf8("/BitsPerComponent "@)),
        clear(encode_utf8("/ColorSpace "@), encode_utf8("/BitsPerComponent "@)),
        clear(encode_utf8("/DeviceRGB"@), encode_utf8("/BitsPerComponent "@)),
        clear(encode_utf8("/DeviceGray"@), encode_utf8("/BitsPerComponent "@)),
        encode_utf8("/BitsPerComponent "@).len() >= 3,
        encode_utf8("/BitsPerComponent "@)[0] > 57 || encode_utf8("/BitsPerComponent "@)[0] == 47,
{
    assert(encode_utf8("/BitsPerComponent "@).len() >= 3 && (encode_utf8("/BitsPerComponent "@)[0] > 57 || encode_utf8("/BitsPerComponent "@)[0] == 47)) by {
        reveal_strlit("/BitsPerComponent ");
        look::lemma_ascii("/BitsPerComponent "@);
    }
    assert(clear(encode_utf8("<< /Type /XObject /Subtype /Image "@), encode_utf8("/BitsPerComponent "@))) by {
        reveal(look::clear);
        reveal_strlit("<< /Type /XObject /Subtype /Image ");
        reveal_strlit("/BitsPerComponent ");
        look::lemma_clear_bytes("<< /Type /XObject /Subtype /Image "@, "/BitsPerComponent "@);
    }
    assert(clear(encode_utf8("/Width "@), encode_utf8("/BitsPerComponent "@))) by {
        reveal(look::clear);
        reveal_strlit("/Width ");
        reveal_strlit("/BitsPerComponent ");
        look::lemma_clear_bytes("/Width "@, "/BitsPerComponent "@);
    }
    assert(clear(encode_utf8(" "@), encode_utf8("/BitsPerComponent "@))) by {
        reveal(look::clear);
        reveal_strlit(" ");
        reveal_strlit("/BitsPerComponent ");
        look::lemma_clear_bytes(" "@, "/BitsPerComponent "@);
    }
    assert(clear(encode_utf8("/Height "@), encode_utf8("/BitsPerComponent "@))) by {
        reveal(look::clear);
        reveal_strlit("/Height ");
        reveal_strlit("/BitsPerComponent ");
        look::lemma_clear_bytes("/Height "@, "/BitsPerComponent "@);
    }
    assert(clear(encode_utf8("/ColorSpace "@), encode_utf8("/BitsPerComponent "@))) by {
        reveal(look::clear);
        reveal_strlit("/ColorSpace ");
        reveal_strlit("/BitsPerComponent ");
        look::lemma_clear_bytes("/ColorSpace "@, "/BitsPerComponent "@);
    }
    assert(clear(encode_utf8("/DeviceRGB"@), encode_utf8("/BitsPerComponent "@))) by {
        reveal(look::clear);
        reveal_strlit("/DeviceRGB");
        reveal_strlit("/BitsPerComponent ");
        look::lemma_clear_bytes("/DeviceRGB"@, "/BitsPerComponent "@);
    }
    assert(clear(encode_utf8("/DeviceGray"@), encode_utf8("/BitsPerComponent "@))) by {
        reveal(look::clear);
        reveal_strlit("/DeviceGray");
        reveal_strlit("/BitsPerComponent ");
        look::lemma_clear_bytes("/DeviceGray"@, "/BitsPerComponent "@);
    }
}

#[verifier::rlimit(60)]
#[verifier::spinoff_prover]
proof fn lemma_image_clear_4()
    ensures
        clear(encode_utf8("<< /Type /XObject /Subtype /Image "@), encode_utf8("/Filter "@)),
        clear(encode_utf8("/Width "@), encode_utf8("/Filter "@)),
        clear(encode_utf8(" "@), encode_utf8("/Filter "@)),
        clear(encode_utf8("/Height "@), encode_utf8("/Filter "@)),
        clear(encode_utf8("/ColorSpace "@), encode_utf8("/Filter "@)),
        clear(encode_utf8("/BitsPerComponent "@), encode_utf8("/Filter "@)),
        clear(encode_utf8("8 "@), encode_utf8("/Filter "@)),
        clear(encode_utf8("/DeviceRGB"@), encode_utf8("/Filter "@)),
        clear(encode_utf8("/DeviceGray"@), encode_utf8("/Filter "@)),
        encode_utf8("/Filter "@).len() >= 3,
        encode_utf8("/Filter "@)[0] > 57 || encode_utf8("/Filter "@)[0] == 47,
{
    assert(encode_utf8("/Filter "@).len() >= 3 && (encode_utf8("/Filter "@)[0] > 57 || encode_utf8("/Filter "@)[0] == 47)) by {
        reveal_strlit("/Filter ");
        look::lemma_ascii("/Filter "@);
    }
    assert(clear(encode_utf8("<< /Type /XObject /Subtype /Image "@), encode_utf8("/Filter "@))) by {
        reveal(look::clear);
        reveal_strlit("<< /Type /XObject /Subtype /Image ");
        reveal_strlit("/Filter ");
        look::lemma_clear_bytes("<< /Type /XObject /Subtype /Image "@, "/Filter "@);
    }
    assert(clear(encode_utf8("/Width "@), encode_utf8("/Filter "@))) by {
        reveal(look::clear);
        reveal_strlit("/Width ");
        reveal_strlit("/Filter ");
        look::lemma_clear_bytes("/Width "@, "/Filter "@);
    }
    assert(clear(encode_utf8(" "@), encode_utf8("/Filter "@))) by {
        reveal(look::clear);
        reveal_strlit(" ");
        reveal_strlit("/Filter ");
        look::lemma_clear_bytes(" "@, "/Filter "@);
    }
    assert(clear(encode_utf8("/Height "@), encode_utf8("/Filter "@))) by {
        reveal(look::clear);
        reveal_strlit("/Height ");
        reveal_strlit("/Filter ");
        look::lemma_clear_bytes("/Height "@, "/Filter "@);
    }
    assert(clear(encode_utf8("/ColorSpace "@), encode_utf8("/Filter "@))) by {
        reveal(look::clear);
        reveal_strlit("/ColorSpace ");
        reveal_strlit("/Filter ");
        look::lemma_clear_bytes("/ColorSpace "@, "/Filter "@);
    }
    assert(clear(encode_utf8("/BitsPerComponent "@), encode_utf8("/Filter "@))) by {
        reveal(look::clear);
        reveal_strlit("/BitsPerComponent ");
        reveal_strlit("/Filter ");
        look::lemma_clear_bytes("/BitsPerComponent "@, "/Filter "@);
    }
    assert(clear(encode_utf8("8 "@), encode_utf8("/Filter "@))) by {
        reveal(look::clear);
        reveal_strlit("8 ");
        reveal_strlit("/Filter ");
        look::lemma_clear_bytes("8 "@, "/Filter "@);
    }
    assert(clear(encode_utf8("/DeviceRGB"@), encode_utf8("/Filter "@))) by {
        reveal(look::clear);
        reveal_strlit("/DeviceRGB");
        reveal_strlit("/Filter ");
        look::lemma_clear_bytes("/DeviceRGB"@, "/Filter "@);
    }
    assert(clear(encode_utf8("/DeviceGray"@), encode_utf8("/Filter "@))) by {
        reveal(look::clear);
        reveal_strlit("/DeviceGray");
        reveal_strlit("/Filter ");
        look::lemma_clear_bytes("/DeviceGray"@, "/Filter "@);
    }
}

#[verifier::rlimit(60)]
#[verifier::spinoff_prover]
proof fn lemma_image_clear_5()
    ensures
        clear(encode_utf8("<< /Type /XObject /Subtype /Image "@), encode_utf8("/SMask "@)),
        clear(encode_utf8("/Width "@), encode_utf8("/SMask "@)),
        clear(encode_utf8(" "@), encode_utf8("/SMask "@)),
        clear(encode_utf8("/Height "@), encode_utf8("/SMask "@)),
        clear(encode_utf8("/ColorSpace "@), encode_utf8("/SMask "@)),
        clear(encode_utf8("/BitsPerComponent "@), encode_utf8("/SMask "@)),
        clear(encode_utf8("8 "@), encode_utf8("/SMask "@)),
        clear(encode_utf8("/Filter "@), encode_utf8("/SMask "@)),
        clear(encode_utf8("/FlateDecode"@), encode_utf8("/SMask "@)),
        clear(encode_utf8("/DCTDecode"@), encode_utf8("/SMask "@)),
        clear(encode_utf8(" /DecodeParms << /ColorTransform "@), encode_utf8("/SMask "@)),
        clear(encode_utf8(" >>"@), encode_utf8("/SMask "@)),
        clear(encode_utf8("/DeviceRGB"@), encode_utf8("/SMask "@)),
        clear(encode_utf8("/DeviceGray"@), encode_utf8("/SMask "@)),
        clear(encode_utf8("/Length "@), encode_utf8("/SMask "@)),
        clear(encode_utf8(" 0 R >>\n"@), encode_utf8("/SMask "@)),
        encode_utf8("/SMask "@).len() >= 3,
        encode_utf8("/SMask "@)[0] > 57 || encode_utf8("/SMask "@)[0] == 47,
{
    assert(encode_utf8("/SMask "@).len() >= 3 && (encode_utf8("/SMask "@)[0] > 57 || encode_utf8("/SMask "@)[0] == 47)) by {
        reveal_strlit("/SMask ");
        look::lemma_ascii("/SMask "@);
    }
    assert(clear(encode_utf8("<< /Type /XObject /Subtype /Image "@), encode_utf8("/SMask "@))) by {
        reveal(look::clear);
        reveal_strlit("<< /Type /XObject /Subtype /Image ");
        reveal_strlit("/SMask ");
        look::lemma_clear_bytes("<< /Type /XObject /Subtype /Image "@, "/SMask "@);
    }
    assert(clear(encode_utf8("/Width "@), encode_utf8("/SMask "@))) by {
        reveal(look::clear);
        reveal_strlit("/Width ");
        reveal_strlit("/SMask ");
        look::lemma_clear_bytes("/Width "@, "/SMask "@);
    }
    assert(clear(encode_utf8(" "@), encode_utf8("/SMask "@))) by {
        reveal(look::clear);
        reveal_strlit(" ");
        reveal_strlit("/SMask ");
        look::lemma_clear_bytes(" "@, "/SMask "@);
    }
    assert(clear(encode_utf8("/Height "@), encode_utf8("/SMask "@))) by {
        reveal(look::clear);
        reveal_strlit("/Height ");
        reveal_strlit("/SMask ");
        look::lemma_clear_bytes("/Height "@, "/SMask "@);
    }
    assert(clear(encode_utf8("/ColorSpace "@), encode_utf8("/SMask "@))) by {
        reveal(look::clear);
        reveal_strlit("/ColorSpace ");
        reveal_strlit("/SMask ");
        look::lemma_clear_bytes("/ColorSpace "@, "/SMask "@);
    }
    assert(clear(encode_utf8("/BitsPerComponent "@), encode_utf8("/SMask "@))) by {
        reveal(look::clear);
        reveal_strlit("/BitsPerComponent ");
        reveal_strlit("/SMask ");
        look::lemma_clear_bytes("/BitsPerComponent "@, "/SMask "@);
    }
    assert(clear(encode_utf8("8 "@), encode_utf8("/SMask "@))) by {
        reveal(look::clear);
        reveal_strlit("8 ");
        reveal_strlit("/SMask ");
        look::lemma_clear_bytes("8 "@, "/SMask "@);
    }
    assert(clear(encode_utf8("/Filter "@), encode_utf8("/SMask "@))) by {
        reveal(look::clear);
        reveal_strlit("/Filter ");
        reveal_strlit("/SMask ");
        look::lemma_clear_bytes("/Filter "@, "/SMask "@);
    }
    assert(clear(encode_utf8("/FlateDecode"@), encode_utf8("/SMask "@))) by {
        reveal(look::clear);
        reveal_strlit("/FlateDecode");
        reveal_strlit("/SMask ");
        look::lemma_clear_bytes("/FlateDecode"@, "/SMask "@);
    }
    assert(clear(encode_utf8("/DCTDecode"@), encode_utf8("/SMask "@))) by {
        reveal(look::clear);
        reveal_strlit("/DCTDecode");
        reveal_strlit("/SMask ");
        look::lemma_clear_bytes("/DCTDecode"@, "/SMask "@);
    }
    assert(clear(encode_utf8(" /DecodeParms << /ColorTransform "@), encode_utf8("/SMask "@))) by {
        reveal(look::clear);
        reveal_strlit(" /DecodeParms << /ColorTransform ");
        reveal_strlit("/SMask ");
        look::lemma_clear_bytes(" /DecodeParms << /ColorTransform "@, "/SMask "@);
    }
    assert(clear(encode_utf8(" >>"@), encode_utf8("/SMask "@))) by {
        reveal(look::clear);
        reveal_strlit(" >>");
        reveal_strlit("/SMask ");
        look::lemma_clear_bytes(" >>"@, "/SMask "@);
    }
    assert(clear(encode_utf8("/DeviceRGB"@), encode_utf8("/SMask "@))) by {
        reveal(look::clear);
        reveal_strlit("/DeviceRGB");
        reveal_strlit("/SMask ");
        look::lemma_clear_bytes("/DeviceRGB"@, "/SMask "@);
    }
    assert(clear(encode_utf8("/DeviceGray"@), encode_utf8("/SMask "@))) by {
        reveal(look::clear);
        reveal_strlit("/DeviceGray");
        reveal_strlit("/SMask ");
        look::lemma_clear_bytes("/DeviceGray"@, "/SMask "@);
    }
    assert(clear(encode_utf8("/Length "@), encode_utf8("/SMask "@))) by {
        reveal(look::clear);
        reveal_strlit("/Length ");
        reveal_strlit("/SMask ");
        look::lemma_clear_bytes("/Length "@, "/SMask "@);
    }
    assert(clear(encode_utf8(" 0 R >>\n"@), encode_utf8("/SMask "@))) by {
        reveal(look::clear);
        reveal_strlit(" 0 R >>\n");
        reveal_strlit("/SMask ");
        look::lemma_clear_bytes(" 0 R >>\n"@, "/SMask "@);
    }
}

#[verifier::rlimit(60)]
#[verifier::spinoff_prover]
proof fn lemma_image_clear_6()
    ensures
        clear(encode_utf8("<< /Type /XObject /Subtype /Image "@), encode_utf8("/Length "@)),
        clear(encode_utf8("/Width "@), encode_utf8("/Length "@)),
        clear(encode_utf8(" "@), encode_utf8("/Length "@)),
        clear(encode_utf8("/Height "@), encode_utf8("/Length "@)),
        clear(encode_utf8("/ColorSpace "@), encode_utf8("/Length "@)),
        clear(encode_utf8("/BitsPerComponent "@), encode_utf8("/Length "@)),
        clear(encode_utf8("8 "@), encode_utf8("/Length "@)),
        clear(encode_utf8("/Filter "@), encode_utf8("/Length "@)),
        clear(encode_utf8("/SMask "@), encode_utf8("/Length "@)),
        clear(encode_utf8(" 0 R"@), encode_utf8("/Length "@)),
        clear(encode_utf8("/FlateDecode"@), encode_utf8("/Length "@)),
        clear(encode_utf8("/DCTDecode"@), encode_utf8("/Length "@)),
        clear(encode_utf8(" /DecodeParms << /ColorTransform "@), encode_utf8("/Length "@)),
        clear(encode_utf8(" >>"@), encode_utf8("/Length "@)),
        clear(encode_utf8("/DeviceRGB"@), encode_utf8("/Length "@)),
        clear(encode_utf8("/DeviceGray"@), encode_utf8("/Length "@)),
        encode_utf8("/Length "@).len() >= 3,
        encode_utf8("/Length "@)[0] > 57 || encode_utf8("/Length "@)[0] == 47,
{
    assert(encode_utf8("/Length "@).len() >= 3 && (encode_utf8("/Length "@)[0] > 57 || encode_utf8("/Length "@)[0] == 47)) by {
        reveal_strlit("/Length ");
        look::lemma_ascii("/Length "@);
    }
    assert(clear(encode_utf8("<< /Type /XObject /Subtype /Image "@), encode_utf8("/Length "@))) by {
        reveal(look::clear);
        reveal_strlit("<< /Type /XObject /Subtype /Image ");
        reveal_strlit("/Length ");
        look::lemma_clear_bytes("<< /Type /XObject /Subtype /Image "@, "/Length "@);
    }
    assert(clear(encode_utf8("/Width "@), encode_utf8("/Length "@))) by {
        reveal(look::clear);
        reveal_strlit("/Width ");
        reveal_strlit("/Length ");
        look::lemma_clear_bytes("/Width "@, "/Length "@);
    }
    assert(clear(encode_utf8(" "@), encode_utf8("/Length "@))) by {
        reveal(look::clear);
        reveal_strlit(" ");
        reveal_strlit("/Length ");
        look::lemma_clear_bytes(" "@, "/Length "@);
    }
    assert(clear(encode_utf8("/Height "@), encode_utf8("/Length "@))) by {
        reveal(look::clear);
        reveal_strlit("/Height ");
        reveal_strlit("/Length ");
        look::lemma_clear_bytes("/Height "@, "/Length "@);
    }
    assert(clear(encode_utf8("/ColorSpace "@), encode_utf8("/Length "@))) by {
        reveal(look::clear);
        reveal_strlit("/ColorSpace ");
        reveal_strlit("/Length ");
        look::lemma_clear_bytes("/ColorSpace "@, "/Length "@);
    }
    assert(clear(encode_utf8("/BitsPerComponent "@), encode_utf8("/Length "@))) by {
        reveal(look::clear);
        reveal_strlit("/BitsPerComponent ");
        reveal_strlit("/Length ");
        look::lemma_clear_bytes("/BitsPerComponent "@, "/Length "@);
    }
    assert(clear(encode_utf8("8 "@), encode_utf8("/Length "@))) by {
        reveal(look::clear);
        reveal_strlit("8 ");
        reveal_strlit("/Length ");
        look::lemma_clear_bytes("8 "@, "/Length "@);
    }
    assert(clear(encode_utf8("/Filter "@), encode_utf8("/Length "@))) by {
        reveal(look::clear);
        reveal_strlit("/Filter ");
        reveal_strlit("/Length ");
        look::lemma_clear_bytes("/Filter "@, "/Length "@);
    }
    assert(clear(encode_utf8("/SMask "@), encode_utf8("/Length "@))) by {
        reveal(look::clear);
        reveal_strlit("/SMask ");
        reveal_strlit("/Length ");
        look::lemma_clear_bytes("/SMask "@, "/Length "@);
    }
    assert(clear(encode_utf8(" 0 R"@), encode_utf8("/Length "@))) by {
        reveal(look::clear);
        reveal_strlit(" 0 R");
        reveal_strlit("/Length ");
        look::lemma_clear_bytes(" 0 R"@, "/Length "@);
    }
    assert(clear(encode_utf8("/FlateDecode"@), encode_utf8("/Length "@))) by {
        reveal(look::clear);
        reveal_strlit("/FlateDecode");
        reveal_strlit("/Length ");
        look::lemma_clear_bytes("/FlateDecode"@, "/Length "@);
    }
    assert(clear(encode_utf8("/DCTDecode"@), encode_utf8("/Length "@))) by {
        reveal(look::clear);
        reveal_strlit("/DCTDecode");
        reveal_strlit("/Length ");
        look::lemma_clear_bytes("/DCTDecode"@, "/Length "@);
    }
    assert(clear(encode_utf8(" /DecodeParms << /ColorTransform "@), encode_utf8("/Length "@))) by {
        reveal(look::clear);
        reveal_strlit(" /DecodeParms << /ColorTransform ");
        reveal_strlit("/Length ");
        look::lemma_clear_bytes(" /DecodeParms << /ColorTransform "@, "/Length "@);
    }
    assert(clear(encode_utf8(" >>"@), encode_utf8("/Length "@))) by {
        reveal(look::clear);
        reveal_strlit(" >>");
        reveal_strlit("/Length ");
        look::lemma_clear_bytes(" >>"@, "/Length "@);
    }
    assert(clear(encode_utf8("/DeviceRGB"@), encode_utf8("/Length "@))) by {
        reveal(look::clear);
        reveal_strlit("/DeviceRGB");
        reveal_strlit("/Length ");
        look::lemma_clear_bytes("/DeviceRGB"@, "/Length "@);
    }
    assert(clear(encode_utf8("/DeviceGray"@), encode_utf8("/Length "@))) by {
        reveal(look::clear);
        reveal_strlit("/DeviceGray");
        reveal_strlit("/Length ");
        look::lemma_clear_bytes("/DeviceGray"@, "/Length "@);
    }
}

#[verifier::rlimit(60)]
#[verifier::spinoff_prover]
proof fn lemma_image_clear_7()
    ensures
        clear(encode_utf8("<< /Type /XObject /Subtype /Image "@), encode_utf8("stream\n"@)),
        clear(encode_utf8("/Width "@), encode_utf8("stream\n"@)),
        clear(encode_utf8(" "@), encode_utf8("stream\n"@)),
        clear(encode_utf8("/Height "@), encode_utf8("stream\n"@)),
        clear(encode_utf8("/ColorSpace "@), encode_utf8("stream\n"@)),
        clear(encode_utf8("/BitsPerComponent "@), encode_utf8("stream\n"@)),
        clear(encode_utf8("8 "@), encode_utf8("stream\n"@)),
        clear(encode_utf8("/Filter "@), encode_utf8("stream\n"@)),
        clear(encode_utf8("/SMask "@), encode_utf8("stream\n"@)),
        clear(encode_utf8(" 0 R"@), encode_utf8("stream\n"@)),
        clear(encode_utf8("/Length "@), encode_utf8("stream\n"@)),
        clear(encode_utf8(" 0 R >>\n"@), encode_utf8("stream\n"@)),
        clear(encode_utf8("/FlateDecode"@), encode_utf8("stream\n"@)),
        clear(encode_utf8("/DCTDecode"@), encode_utf8("stream\n"@)),
        clear(encode_utf8(" /DecodeParms << /ColorTransform "@), encode_utf8("stream\n"@)),
        clear(encode_utf8(" >>"@), encode_utf8("stream\n"@)),
        clear(encode_utf8("/DeviceRGB"@), encode_utf8("stream\n"@)),
        clear(encode_utf8("/DeviceGray"@), encode_utf8("stream\n"@)),
        encode_utf8("stream\n"@).len() >= 3,
        encode_utf8("stream\n"@)[0] > 57 || encode_utf8("stream\n"@)[0] == 47,
{
    assert(encode_utf8("stream\n"@).len() >= 3 && (encode_utf8("stream\n"@)[0] > 57 || encode_utf8("stream\n"@)[0] == 47)) by {
        reveal_strlit("stream\n");
        look::lemma_ascii("stream\n"@);
    }
    assert(clear(encode_utf8("<< /Type /XObject /Subtype /Image "@), encode_utf8("stream\n"@))) by {
        reveal(look::clear);
        reveal_strlit("<< /Type /XObject /Subtype /Image ");
        reveal_strlit("stream\n");
        look::lemma_clear_bytes("<< /Type /XObject /Subtype /Image "@, "stream\n"@);
    }
    assert(clear(encode_utf8("/Width "@), encode_utf8("stream\n"@))) by {
        reveal(look::clear);
        reveal_strlit("/Width ");
        reveal_strlit("stream\n");
        look::lemma_clear_bytes("/Width "@, "stream\n"@);
    }
    assert(clear(encode_utf8(" "@), encode_utf8("stream\n"@))) by {
        reveal(look::clear);
        reveal_strlit(" ");
        reveal_strlit("stream\n");
        look::lemma_clear_bytes(" "@, "stream\n"@);
    }
    assert(clear(encode_utf8("/Height "@), encode_utf8("stream\n"@))) by {
        reveal(look::clear);
        reveal_strlit("/Height ");
        reveal_strlit("stream\n");
        look::lemma_clear_bytes("/Height "@, "stream\n"@);
    }
    assert(clear(encode_utf8("/ColorSpace "@), encode_utf8("stream\n"@))) by {
        reveal(look::clear);
        reveal_strlit("/ColorSpace ");
        reveal_strlit("stream\n");
        look::lemma_clear_bytes("/ColorSpace "@, "stream\n"@);
    }
    assert(clear(encode_utf8("/BitsPerComponent "@), encode_utf8("stream\n"@))) by {
        reveal(look::clear);
        reveal_strlit("/BitsPerComponent ");
        reveal_strlit("stream\n");
        look::lemma_clear_bytes("/BitsPerComponent "@, "stream\n"@);
    }
    assert(clear(encode_utf8("8 "@), encode_utf8("stream\n"@))) by {
        reveal(look::clear);
        reveal_strlit("8 ");
        reveal_strlit("stream\n");
        look::lemma_clear_bytes("8 "@, "stream\n"@);
    }
    assert(clear(encode_utf8("/Filter "@), encode_utf8("stream\n"@))) by {
        reveal(look::clear);
        reveal_strlit("/Filter ");
        reveal_strlit("stream\n");
        look::lemma_clear_bytes("/Filter "@, "stream\n"@);
    }
    assert(clear(encode_utf8("/SMask "@), encode_utf8("stream\n"@))) by {
        reveal(look::clear);
        reveal_strlit("/SMask ");
        reveal_strlit("stream\n");
        look::lemma_clear_bytes("/SMask "@, "stream\n"@);
    }
    assert(clear(encode_utf8(" 0 R"@), encode_utf8("stream\n"@))) by {
        reveal(look::clear);
        reveal_strlit(" 0 R");
        reveal_strlit("stream\n");
        look::lemma_clear_bytes(" 0 R"@, "stream\n"@);
    }
    assert(clear(encode_utf8("/Length "@), encode_utf8("stream\n"@))) by {
        reveal(look::clear);
        reveal_strlit("/Length ");
        reveal_strlit("stream\n");
        look::lemma_clear_bytes("/Length "@, "stream\n"@);
    }
    assert(clear(encode_utf8(" 0 R >>\n"@), encode_utf8("stream\n"@))) by {
        reveal(look::clear);
        reveal_strlit(" 0 R >>\n");
        reveal_strlit("stream\n");
        look::lemma_clear_bytes(" 0 R >>\n"@, "stream\n"@);
    }
    assert(clear(encode_utf8("/FlateDecode"@), encode_utf8("stream\n"@))) by {
        reveal(look::clear);
        reveal_strlit("/FlateDecode");
        reveal_strlit("stream\n");
        look::lemma_clear_bytes("/FlateDecode"@, "stream\n"@);
    }
    assert(clear(encode_utf8("/DCTDecode"@), encode_utf8("stream\n"@))) by {
        reveal(look::clear);
        reveal_strlit("/DCTDecode");
        reveal_strlit("stream\n");
        look::lemma_clear_bytes("/DCTDecode"@, "stream\n"@);
    }
    assert(clear(encode_utf8(" /DecodeParms << /ColorTransform "@), encode_utf8("stream\n"@))) by {
        reveal(look::clear);
        reveal_strlit(" /DecodeParms << /ColorTransform ");
        reveal_strlit("stream\n");
        look::lemma_clear_bytes(" /DecodeParms << /ColorTransform "@, "stream\n"@);
    }
    assert(clear(encode_utf8(" >>"@), encode_utf8("stream\n"@))) by {
        reveal(look::clear);
        reveal_strlit(" >>");
        reveal_strlit("stream\n");
        look::lemma_clear_bytes(" >>"@, "stream\n"@);
    }
    assert(clear(encode_utf8("/DeviceRGB"@), encode_utf8("stream\n"@))) by {
        reveal(look::clear);
        reveal_strlit("/DeviceRGB");
        reveal_strlit("stream\n");
        look::lemma_clear_bytes("/DeviceRGB"@, "stream\n"@);
    }
    assert(clear(encode_utf8("/DeviceGray"@), encode_utf8("stream\n"@))) by {
        reveal(look::clear);
        reveal_strlit("/DeviceGray");
        reveal_strlit("stream\n");
        look::lemma_clear_bytes("/DeviceGray"@, "stream\n"@);
    }
}

proof fn lemma_filter_clear(plate: Plate, key: Seq<u8>)
    requires
        clear(encode_utf8("/FlateDecode"@), key),
        clear(encode_utf8("/DCTDecode"@), key),
        clear(encode_utf8(" /DecodeParms << /ColorTransform "@), key),
        clear(encode_utf8(" >>"@), key),
        key[0] > 57 || key[0] == 47,
    ensures
        clear(document::filter_text(plate), key),
{
    if let Encoding::Jpeg(Some(transform)) = plate.encoding {
        let a = encode_utf8("/DCTDecode"@);
        let b = encode_utf8(" /DecodeParms << /ColorTransform "@);
        let c = bytes::decimal(transform as nat);
        let d = encode_utf8(" >>"@);
        look::lemma_numeral(transform as nat, Seq::empty());
        look::lemma_clear_digits(c, key);
        look::lemma_clear(a, b, key);
        look::lemma_clear(a + b, c, key);
        look::lemma_clear(a + b + c, d, key);
    }
}

/// The key stands somewhere.
pub open spec fn has_key(s: Seq<u8>, key: Seq<char>) -> bool {
    look::find(s, encode_utf8(key), 0) < s.len()
}

/// The parts of the head of an image.
spec fn head_parts(plate: Plate, mask: int, length: int) -> Seq<Seq<u8>> {
    let all = parts_of(plate, mask, length, Seq::empty());
    all.take(all.len() - 3)
}

proof fn lemma_head(plate: Plate, mask: int, length: int, data: Seq<u8>)
    ensures
        ({
            let o = document::image_head(plate, mask, length) + data + encode_utf8("\nendstream"@);
            &&& head_of(o) == look::cat(head_parts(plate, mask, length))
            &&& behind(o, encode_utf8("stream\n"@)) == data + encode_utf8("\nendstream"@)
        }),
{
    let parts = parts_of(plate, mask, length, data);
    let n = parts.len() as int;
    lemma_image_parts(plate, mask, length, data);
    lemma_image_clear_7();
    let key = encode_utf8("stream\n"@);
    lemma_filter_clear(plate, key);
    look::lemma_numeral(plate.width as nat, Seq::empty());
    look::lemma_numeral(plate.height as nat, Seq::empty());
    look::lemma_numeral(mask as nat, Seq::empty());
    look::lemma_numeral(length as nat, Seq::empty());
    look::lemma_clear_digits(bytes::decimal(plate.width as nat), key);
    look::lemma_clear_digits(bytes::decimal(plate.height as nat), key);
    look::lemma_clear_digits(bytes::decimal(mask as nat), key);
    look::lemma_clear_digits(bytes::decimal(length as nat), key);
    assert(parts[n - 3] == key);
    assert forall|i: int| 0 <= i < n - 3 implies clear(#[trigger] parts[i], key) by {
        lemma_some_part(plate, mask, length, data, i);
    }
    look::lemma_cat_behind(parts, n - 3);
    assert(parts.take(n - 3) =~= head_parts(plate, mask, length));
    look::lemma_cat_first(parts, n - 2);
    look::lemma_cat_first(parts, n - 1);
    assert(parts.skip(n) =~= Seq::<Seq<u8>>::empty());
    assert(look::cat(parts.skip(n - 1)) =~= encode_utf8("\nendstream"@));
}

/// The parts of an image, one by one.
proof fn lemma_some_part(plate: Plate, mask: int, length: int, data: Seq<u8>, i: int)
    requires
        0 <= i < parts_of(plate, mask, length, data).len(),
    ensures
        ({
            let parts = parts_of(plate, mask, length, data);
            let a = first_parts(
                bytes::decimal(plate.width as nat),
                bytes::decimal(plate.height as nat),
                document::color_space(plate),
                document::filter_text(plate),
            );
            let m = mask_parts(bytes::decimal(mask as nat));
            let b = last_parts(bytes::decimal(length as nat), data);
            let k = if plate.mask is Some {
                4int
            } else {
                0
            };
            &&& parts.len() == 21 + k
            &&& a.len() == 14 && m.len() == 4 && b.len() == 7
            &&& i < 14 ==> parts[i] == a[i]
            &&& 14 <= i < 14 + k ==> parts[i] == m[i - 14]
            &&& i >= 14 + k ==> parts[i] == b[i - 14 - k]
        }),
{
}

/// What a reader finds in the object of an image.
proof fn lemma_image_object(plate: Plate, mask: int, length: int, data: Seq<u8>)
    requires
        mask >= 0,
        length >= 0,
    ensures
        ({
            let o = document::image_head(plate, mask, length) + data + encode_utf8("\nendstream"@);
            let head = head_of(o);
            &&& number_behind(head, "/Width "@) == plate.width
            &&& number_behind(head, "/Height "@) == plate.height
            &&& number_behind(head, "/BitsPerComponent "@) == 8
            &&& number_behind(head, "/Length "@) == length
            &&& document::color_space(plate).is_prefix_of(behind(head, encode_utf8("/ColorSpace "@)))
            &&& document::filter_text(plate).is_prefix_of(behind(head, encode_utf8("/Filter "@)))
            &&& plate.mask is Some ==> has_key(head, "/SMask "@) && number_behind(head, "/SMask "@)
                == mask
            &&& plate.mask is None ==> !has_key(head, "/SMask "@)
            &&& behind(o, encode_utf8("stream\n"@)) == data + encode_utf8("\nendstream"@)
        }),
{
    lemma_head(plate, mask, length, data);
    lemma_head_numbers(plate, mask, length);
    lemma_head_words(plate, mask, length);
    lemma_head_length(plate, mask, length);
    lemma_head_mask(plate, mask, length);
}

proof fn lemma_marks()
    ensures
        encode_utf8(" "@) == seq![32u8],
        encode_utf8("8 "@) == seq![56u8, 32],
        encode_utf8(" 0 R >>\n"@).len() == 8 && encode_utf8(" 0 R >>\n"@)[0] == 32,
        encode_utf8(" 0 R"@).len() == 4 && encode_utf8(" 0 R"@)[0] == 32,
{
    reveal_strlit(" ");
    reveal_strlit("8 ");
    reveal_strlit(" 0 R >>\n");
    reveal_strlit(" 0 R");
    look::lemma_ascii(" "@);
    look::lemma_ascii("8 "@);
    look::lemma_ascii(" 0 R >>\n"@);
    look::lemma_ascii(" 0 R"@);
    assert(encode_utf8(" "@) =~= seq![32u8]);
    assert(encode_utf8("8 "@) =~= seq![56u8, 32]);
}

proof fn lemma_head_numbers(plate: Plate, mask: int, length: int)
    ensures
        ({
            let head = look::cat(head_parts(plate, mask, length));
            &&& number_behind(head, "/Width "@) == plate.width
            &&& number_behind(head, "/Height "@) == plate.height
        }),
{
    lemma_image_clear_0();
    lemma_image_clear_1();
    lemma_marks();
    let parts = head_parts(plate, mask, length);
    let all = parts_of(plate, mask, length, Seq::empty());
    lemma_some_part(plate, mask, length, Seq::empty(), 0);
    let w = bytes::decimal(plate.width as nat);
    let h = bytes::decimal(plate.height as nat);
    assert(parts[1] == encode_utf8("/Width "@) && parts[4] == encode_utf8("/Height "@));
    assert(parts[2] == w && parts[5] == h && parts[3] == seq![32u8] && parts[6] == seq![32u8]);
    look::lemma_cat_first(parts, 2);
    look::lemma_cat_first(parts, 3);
    look::lemma_cat_first(parts, 5);
    look::lemma_cat_first(parts, 6);
    look::lemma_numeral(plate.width as nat, look::cat(parts.skip(3)));
    look::lemma_numeral(plate.height as nat, look::cat(parts.skip(6)));
    look::lemma_clear_digits(w, parts[4]);
    look::lemma_cat_behind(parts, 1);
    look::lemma_cat_behind(parts, 4);
}

proof fn lemma_head_words(plate: Plate, mask: int, length: int)
    ensures
        ({
            let head = look::cat(head_parts(plate, mask, length));
            &&& document::color_space(plate).is_prefix_of(behind(head, encode_utf8("/ColorSpace "@)))
            &&& document::filter_text(plate).is_prefix_of(behind(head, encode_utf8("/Filter "@)))
            &&& number_behind(head, "/BitsPerComponent "@) == 8
        }),
{
    lemma_image_clear_2();
    lemma_image_clear_3();
    lemma_image_clear_4();
    lemma_marks();
    let parts = head_parts(plate, mask, length);
    lemma_some_part(plate, mask, length, Seq::empty(), 0);
    let w = bytes::decimal(plate.width as nat);
    let h = bytes::decimal(plate.height as nat);
    look::lemma_numeral(plate.width as nat, Seq::empty());
    look::lemma_numeral(plate.height as nat, Seq::empty());
    look::lemma_clear_digits(w, encode_utf8("/ColorSpace "@));
    look::lemma_clear_digits(h, encode_utf8("/ColorSpace "@));
    look::lemma_clear_digits(w, encode_utf8("/BitsPerComponent "@));
    look::lemma_clear_digits(h, encode_utf8("/BitsPerComponent "@));
    look::lemma_clear_digits(w, encode_utf8("/Filter "@));
    look::lemma_clear_digits(h, encode_utf8("/Filter "@));
    assert(parts[7] == encode_utf8("/ColorSpace "@) && parts[10] == encode_utf8(
        "/BitsPerComponent "@,
    ) && parts[12] == encode_utf8("/Filter "@));
    look::lemma_cat_behind(parts, 7);
    look::lemma_cat_behind(parts, 10);
    look::lemma_cat_behind(parts, 12);
    look::lemma_cat_first(parts, 8);
    look::lemma_cat_first(parts, 11);
    look::lemma_cat_first(parts, 13);
    let rest = seq![32u8] + look::cat(parts.skip(12));
    assert(look::cat(parts.skip(11)) =~= seq![56u8] + rest);
    assert(bytes::decimal(8) =~= seq![56u8]);
    look::lemma_numeral(8, rest);
    lemma_prefix(parts[8], look::cat(parts.skip(9)));
    lemma_prefix(parts[13], look::cat(parts.skip(14)));
}

proof fn lemma_prefix(a: Seq<u8>, b: Seq<u8>)
    ensures
        a.is_prefix_of(a + b),
{
    assert((a + b).subrange(0, a.len() as int) =~= a);
}

proof fn lemma_head_length(plate: Plate, mask: int, length: int)
    requires
        length >= 0,
    ensures
        number_behind(look::cat(head_parts(plate, mask, length)), "/Length "@) == length,
{
    lemma_image_clear_6();
    lemma_marks();
    let parts = head_parts(plate, mask, length);
    let all = parts_of(plate, mask, length, Seq::empty());
    let n = parts.len() as int;
    let key = encode_utf8("/Length "@);
    lemma_some_part(plate, mask, length, Seq::empty(), 0);
    lemma_filter_clear(plate, key);
    look::lemma_numeral(plate.width as nat, Seq::empty());
    look::lemma_numeral(plate.height as nat, Seq::empty());
    look::lemma_numeral(mask as nat, Seq::empty());
    look::lemma_clear_digits(bytes::decimal(plate.width as nat), key);
    look::lemma_clear_digits(bytes::decimal(plate.height as nat), key);
    look::lemma_clear_digits(bytes::decimal(mask as nat), key);
    lemma_some_part(plate, mask, length, Seq::empty(), n - 1);
    lemma_some_part(plate, mask, length, Seq::empty(), n - 2);
    lemma_some_part(plate, mask, length, Seq::empty(), n - 3);
    assert(parts[n - 3] == key);
    assert(parts[n - 2] == bytes::decimal(length as nat));
    assert forall|i: int| 0 <= i < n - 3 implies clear(#[trigger] parts[i], key) by {
        lemma_some_part(plate, mask, length, Seq::empty(), i);
        assert(parts[i] == all[i]);
    }
    look::lemma_cat_behind(parts, n - 3);
    look::lemma_cat_first(parts, n - 2);
    look::lemma_cat_first(parts, n - 1);
    look::lemma_numeral(length as nat, look::cat(parts.skip(n - 1)));
}

proof fn lemma_head_mask(plate: Plate, mask: int, length: int)
    requires
        mask >= 0,
    ensures
        ({
            let head = look::cat(head_parts(plate, mask, length));
            &&& plate.mask is Some ==> has_key(head, "/SMask "@) && number_behind(head, "/SMask "@)
                == mask
            &&& plate.mask is None ==> !has_key(head, "/SMask "@)
        }),
{
    lemma_image_clear_5();
    lemma_marks();
    let parts = head_parts(plate, mask, length);
    let all = parts_of(plate, mask, length, Seq::empty());
    let n = parts.len() as int;
    let key = encode_utf8("/SMask "@);
    lemma_some_part(plate, mask, length, Seq::empty(), 0);
    lemma_filter_clear(plate, key);
    look::lemma_numeral(plate.width as nat, Seq::empty());
    look::lemma_numeral(plate.height as nat, Seq::empty());
    look::lemma_numeral(length as nat, Seq::empty());
    look::lemma_clear_digits(bytes::decimal(plate.width as nat), key);
    look::lemma_clear_digits(bytes::decimal(plate.height as nat), key);
    look::lemma_clear_digits(bytes::decimal(length as nat), key);
    if plate.mask is Some {
        assert forall|i: int| 0 <= i < 15 implies clear(#[trigger] parts[i], key) by {
            lemma_some_part(plate, mask, length, Seq::empty(), i);
            assert(parts[i] == all[i]);
        }
        lemma_some_part(plate, mask, length, Seq::empty(), 15);
        lemma_some_part(plate, mask, length, Seq::empty(), 16);
        lemma_some_part(plate, mask, length, Seq::empty(), 17);
        assert(parts[15] == key && parts[16] == bytes::decimal(mask as nat));
        look::lemma_cat_behind(parts, 15);
        look::lemma_cat_first(parts, 16);
        look::lemma_cat_first(parts, 17);
        look::lemma_numeral(mask as nat, look::cat(parts.skip(17)));
        look::lemma_cat_has(parts, 15);
    } else {
        assert forall|i: int| 0 <= i < n implies clear(#[trigger] parts[i], key) by {
            lemma_some_part(plate, mask, length, Seq::empty(), i);
            assert(parts[i] == all[i]);
        }
        look::lemma_cat_clear(parts, key);
        look::lemma_absent(look::cat(parts), key, 0);
    }
}

spec fn content_parts(n: Seq<u8>, drawn: Seq<u8>) -> Seq<Seq<u8>> {
    seq![
        encode_utf8("<< "@),
        encode_utf8("/Length "@),
        n,
        encode_utf8(" >>\n"@),
        encode_utf8("stream\n"@),
        drawn,
        encode_utf8("endstream"@),
    ]
}

/// What a reader finds in the object that draws an image.
#[verifier::rlimit(40)]
proof fn lemma_content_object(plate: Plate)
    ensures
        ({
            let o = document::content_body(plate);
            let length = number_behind(o, "/Length "@);
            &&& length == document::drawing(plate).len()
            &&& behind(o, encode_utf8("stream\n"@)).take(length) == document::drawing(plate)
        }),
{
    reveal(document::content_body);
    let drawn = document::drawing(plate);
    let n = bytes::decimal(drawn.len());
    let parts = content_parts(n, drawn);
    let p0 = Seq::<Seq<u8>>::empty();
    assert(encode_utf8("<< /Length "@) == encode_utf8("<< "@) + encode_utf8("/Length "@)) by {
        reveal_strlit("<< /Length ");
        reveal_strlit("<< ");
        reveal_strlit("/Length ");
        look::lemma_ascii_concat("<< "@, "/Length "@);
        assert("<< /Length "@ =~= "<< "@ + "/Length "@);
    }
    assert(encode_utf8(" >>\nstream\n"@) == encode_utf8(" >>\n"@) + encode_utf8("stream\n"@)) by {
        reveal_strlit(" >>\nstream\n");
        reveal_strlit(" >>\n");
        reveal_strlit("stream\n");
        look::lemma_ascii_concat(" >>\n"@, "stream\n"@);
        assert(" >>\nstream\n"@ =~= " >>\n"@ + "stream\n"@);
    }
    let p1 = p0.push(encode_utf8("<< "@));
    look::lemma_cat_push(p0, encode_utf8("<< "@));
    let p2 = p1.push(encode_utf8("/Length "@));
    look::lemma_cat_push(p1, encode_utf8("/Length "@));
    assert(look::cat(p2) =~= encode_utf8("<< /Length "@));
    let p3 = p2.push(n);
    look::lemma_cat_push(p2, n);
    let p4 = p3.push(encode_utf8(" >>\n"@));
    look::lemma_cat_push(p3, encode_utf8(" >>\n"@));
    let p5 = p4.push(encode_utf8("stream\n"@));
    look::lemma_cat_push(p4, encode_utf8("stream\n"@));
    assert(look::cat(p5) =~= look::cat(p3) + encode_utf8(" >>\nstream\n"@));
    let p6 = p5.push(drawn);
    look::lemma_cat_push(p5, drawn);
    let p7 = p6.push(encode_utf8("endstream"@));
    look::lemma_cat_push(p6, encode_utf8("endstream"@));
    assert(p7 =~= parts);
    lemma_image_clear_6();
    lemma_image_clear_7();
    assert(clear(encode_utf8("<< "@), encode_utf8("/Length "@))) by {
        reveal(look::clear);
        reveal_strlit("<< ");
        reveal_strlit("/Length ");
        look::lemma_clear_bytes("<< "@, "/Length "@);
    }
    assert(clear(encode_utf8("<< "@), encode_utf8("stream\n"@))) by {
        reveal(look::clear);
        reveal_strlit("<< ");
        reveal_strlit("stream\n");
        look::lemma_clear_bytes("<< "@, "stream\n"@);
    }
    assert(clear(encode_utf8(" >>\n"@), encode_utf8("stream\n"@))) by {
        reveal(look::clear);
        reveal_strlit(" >>\n");
        reveal_strlit("stream\n");
        look::lemma_clear_bytes(" >>\n"@, "stream\n"@);
    }
    assert(encode_utf8(" >>\n"@).len() == 4 && encode_utf8(" >>\n"@)[0] == 32) by {
        reveal_strlit(" >>\n");
        look::lemma_ascii(" >>\n"@);
    }
    look::lemma_numeral(drawn.len(), Seq::empty());
    look::lemma_clear_digits(n, encode_utf8("stream\n"@));
    look::lemma_cat_behind(parts, 1);
    look::lemma_cat_behind(parts, 4);
    look::lemma_cat_first(parts, 2);
    look::lemma_cat_first(parts, 3);
    look::lemma_numeral(drawn.len(), look::cat(parts.skip(3)));
    look::lemma_cat_first(parts, 5);
    assert((drawn + look::cat(parts.skip(6))).take(drawn.len() as int) =~= drawn);
}

/// The page with that number shows an image: a reader finds the size of the page
/// behind its media box; its content draws the image once, with the matrix that
/// maps the unit square onto the whole page; the image has the pixels, the colors
/// and the data of the plate, and its mask if there is one.
pub open spec fn page_shows(draft: Draft, number: int, plate: Plate) -> bool {
    let page = object(draft, number);
    let found = numerals(behind(page, encode_utf8("/MediaBox ["@)), 4);
    let w = (found->0).0[2];
    let h = (found->0).0[3];
    let content = object(draft, number_behind(page, "/Contents "@));
    let drawn = behind(content, encode_utf8("stream\n"@)).take(
        number_behind(content, "/Length "@),
    );
    let image = number_behind(page, "/Im0 "@);
    let head = head_of(object(draft, image));
    &&& 0 < number <= draft.offsets.len()
    &&& 0 < number_behind(page, "/Contents "@) <= draft.offsets.len()
    &&& found is Some
    &&& (found->0).0 == seq![0, 0, w, h]
    &&& is_page_size(plate.width as int, plate.height as int, w, h)
    &&& draws(drawn, seq![w, 0, 0, h, 0, 0])
    &&& holds_image(
        draft,
        image,
        plate.width as int,
        plate.height as int,
        if plate.rgb {
            "/DeviceRGB"@
        } else {
            "/DeviceGray"@
        },
        match plate.encoding {
            Encoding::Flate => "/FlateDecode"@,
            Encoding::Jpeg(None) => "/DCTDecode"@,
            Encoding::Jpeg(Some(_)) => "/DCTDecode /DecodeParms << /ColorTransform "@,
        },
        plate.data,
    )
    &&& match plate.encoding {
        Encoding::Jpeg(Some(transform)) => number_behind(
            behind(head, encode_utf8("/Filter "@)),
            "Transform "@,
        ) == transform,
        _ => true,
    }
    &&& match plate.mask {
        None => !has_key(head, "/SMask "@),
        Some(mask) => has_key(head, "/SMask "@) && holds_image(
            draft,
            number_behind(head, "/SMask "@),
            plate.width as int,
            plate.height as int,
            "/DeviceGray"@,
            "/FlateDecode"@,
            mask,
        ),
    }
}

/// The objects of a draft are in another one, too.
spec fn keeps(draft: Draft, next: Draft) -> bool {
    &&& draft.offsets.len() <= next.offsets.len()
    &&& forall|k: int| 0 < k <= draft.offsets.len() ==> #[trigger] object(next, k) == object(draft, k)
}

proof fn lemma_kept(draft: Draft, next: Draft, number: int, plate: Plate)
    requires
        keeps(draft, next),
        page_shows(draft, number, plate),
    ensures
        page_shows(next, number, plate),
{
    let page = object(draft, number);
    assert(object(next, number) == page);
    let c = number_behind(page, "/Contents "@);
    assert(object(next, c) == object(draft, c));
    let i = number_behind(page, "/Im0 "@);
    lemma_image_kept(draft, next, i);
    if plate.mask is Some {
        lemma_image_kept(draft, next, number_behind(head_of(object(draft, i)), "/SMask "@));
    }
}

proof fn lemma_image_kept(draft: Draft, next: Draft, number: int)
    requires
        keeps(draft, next),
        0 < number <= draft.offsets.len(),
        0 < number_behind(head_of(object(draft, number)), "/Length "@) <= draft.offsets.len(),
    ensures
        object(next, number) == object(draft, number),
        data_of(next, number) == data_of(draft, number),
{
    let l = number_behind(head_of(object(draft, number)), "/Length "@);
    assert(object(next, number) == object(draft, number));
    assert(object(next, l) == object(draft, l));
}

proof fn lemma_stream_added(draft: Draft, head: Seq<u8>, data: Seq<u8>)
    requires
        is_chain(draft),
    ensures
        ({
            let next = document::with_stream(draft, head, data);
            let n = draft.offsets.len() as int;
            &&& is_chain(next)
            &&& next.offsets.len() == n + 1
            &&& object(next, n + 1) == head + data + encode_utf8("\nendstream"@)
            &&& keeps(draft, next)
        }),
{
    let body = head + data + encode_utf8("\nendstream"@);
    let next = document::with_stream(draft, head, data);
    lemma_object_added(draft, body);
    assert(next.bytes =~= draft.with_object(body).bytes);
    assert(next.offsets =~= draft.with_object(body).offsets);
    assert(next == draft.with_object(body));
}

proof fn lemma_length(draft: Draft, n: nat)
    requires
        is_chain(draft),
    ensures
        ({
            let next = draft.with_object(bytes::decimal(n));
            numeral(object(next, draft.offsets.len() as int + 1)) == Some((10_000 * n as int, Seq::<u8>::empty()))
        }),
{
    lemma_object_added(draft, bytes::decimal(n));
    look::lemma_numeral(n, Seq::empty());
    assert(bytes::decimal(n) + Seq::<u8>::empty() =~= bytes::decimal(n));
}

proof fn lemma_transform(plate: Plate, rest: Seq<u8>)
    requires
        plate.encoding is Jpeg,
        plate.encoding->Jpeg_0 is Some,
        document::filter_text(plate).is_prefix_of(rest),
    ensures
        number_behind(rest, "Transform "@) == plate.encoding->Jpeg_0->0,
        begins(rest, "/DCTDecode /DecodeParms << /ColorTransform "@),
{
    let t = plate.encoding->Jpeg_0->0;
    let a = encode_utf8("/DCTDecode"@);
    let b = encode_utf8(" /DecodeParms << /ColorTransform "@);
    let d = bytes::decimal(t as nat);
    let e = encode_utf8(" >>"@);
    let filter = document::filter_text(plate);
    let more = rest.skip(filter.len() as int);
    assert(rest =~= filter + more);
    let c = encode_utf8(" /DecodeParms << /Color"@);
    let key = encode_utf8("Transform "@);
    assert(encode_utf8(" /DecodeParms << /ColorTransform "@) == encode_utf8(" /DecodeParms << /Color"@) + encode_utf8("Transform "@)) by {
        reveal_strlit(" /DecodeParms << /ColorTransform ");
        reveal_strlit(" /DecodeParms << /Color");
        reveal_strlit("Transform ");
        look::lemma_ascii_concat(" /DecodeParms << /Color"@, "Transform "@);
        assert(" /DecodeParms << /ColorTransform "@ =~= " /DecodeParms << /Color"@ + "Transform "@);
    }
    assert(encode_utf8("/DCTDecode /DecodeParms << /ColorTransform "@) == encode_utf8("/DCTDecode"@) + encode_utf8(" /DecodeParms << /ColorTransform "@)) by {
        reveal_strlit("/DCTDecode /DecodeParms << /ColorTransform ");
        reveal_strlit("/DCTDecode");
        reveal_strlit(" /DecodeParms << /ColorTransform ");
        look::lemma_ascii_concat("/DCTDecode"@, " /DecodeParms << /ColorTransform "@);
        assert("/DCTDecode /DecodeParms << /ColorTransform "@ =~= "/DCTDecode"@ + " /DecodeParms << /ColorTransform "@);
    }
    assert(clear(encode_utf8("/DCTDecode"@), encode_utf8("Transform "@))) by {
        reveal(look::clear);
        reveal_strlit("/DCTDecode");
        reveal_strlit("Transform ");
        look::lemma_clear_bytes("/DCTDecode"@, "Transform "@);
    }
    assert(clear(encode_utf8(" /DecodeParms << /Color"@), encode_utf8("Transform "@))) by {
        reveal(look::clear);
        reveal_strlit(" /DecodeParms << /Color");
        reveal_strlit("Transform ");
        look::lemma_clear_bytes(" /DecodeParms << /Color"@, "Transform "@);
    }
    assert(key.len() == 10 && e.len() == 3 && e[0] == 32) by {
        reveal_strlit("Transform ");
        reveal_strlit(" >>");
        look::lemma_ascii("Transform "@);
        look::lemma_ascii(" >>"@);
    }
    look::lemma_clear(a, c, key);
    assert(rest =~= (a + c) + key + (d + (e + more)));
    look::lemma_behind(a + c, key, d + (e + more));
    look::lemma_numeral(t as nat, e + more);
    assert(rest =~= (a + b) + (d + (e + more)));
    lemma_prefix(a + b, d + (e + more));
}

proof fn lemma_filter_begins(plate: Plate, rest: Seq<u8>)
    requires
        document::filter_text(plate).is_prefix_of(rest),
    ensures
        begins(
            rest,
            match plate.encoding {
                Encoding::Flate => "/FlateDecode"@,
                Encoding::Jpeg(None) => "/DCTDecode"@,
                Encoding::Jpeg(Some(_)) => "/DCTDecode /DecodeParms << /ColorTransform "@,
            },
        ),
        match plate.encoding {
            Encoding::Jpeg(Some(transform)) => number_behind(rest, "Transform "@) == transform,
            _ => true,
        },
{
    if let Encoding::Jpeg(Some(_)) = plate.encoding {
        lemma_transform(plate, rest);
    }
}

/// An image is found whose object and whose length were written.
proof fn lemma_holds(draft: Draft, number: int, plate: Plate, mask: int, length: int, data: Seq<u8>)
    requires
        mask >= 0,
        0 < number <= draft.offsets.len(),
        0 < length <= draft.offsets.len(),
        object(draft, number) == document::image_head(plate, mask, length) + data + encode_utf8(
            "\nendstream"@,
        ),
        numeral(object(draft, length)) == Some((10_000 * data.len() as int, Seq::<u8>::empty())),
    ensures
        holds_image(
            draft,
            number,
            plate.width as int,
            plate.height as int,
            if plate.rgb {
                "/DeviceRGB"@
            } else {
                "/DeviceGray"@
            },
            match plate.encoding {
                Encoding::Flate => "/FlateDecode"@,
                Encoding::Jpeg(None) => "/DCTDecode"@,
                Encoding::Jpeg(Some(_)) => "/DCTDecode /DecodeParms << /ColorTransform "@,
            },
            data,
        ),
{
    lemma_image_object(plate, mask, length, data);
    let head = head_of(object(draft, number));
    lemma_filter_begins(plate, behind(head, encode_utf8("/Filter "@)));
    assert((data + encode_utf8("\nendstream"@)).take(data.len() as int) =~= data);
}

/// A page and its image that are written next are found, and what was written
/// before stays.
proof fn lemma_page_added(draft: Draft, plate: Plate)
    requires
        is_chain(draft),
    ensures
        ({
            let next = document::with_page(draft, plate);
            let n = draft.offsets.len() as int;
            &&& is_chain(next)
            &&& keeps(draft, next)
            &&& next.offsets.len() == n + 6
            &&& page_shows(next, n + 1, plate)
        }),
{
    reveal(document::with_page);
    let number = draft.offsets.len() as int + 1;
    let page = document::page_body(plate, number + 2, number + 1);
    let head = document::image_head(plate, number + 4, number + 3);
    let d1 = draft.with_object(page);
    lemma_object_added(draft, page);
    let d2 = d1.with_object(document::content_body(plate));
    lemma_object_added(d1, document::content_body(plate));
    let d3 = document::with_stream(d2, head, plate.data);
    lemma_stream_added(d2, head, plate.data);
    let d4 = d3.with_object(bytes::decimal(plate.data.len()));
    lemma_object_added(d3, bytes::decimal(plate.data.len()));
    lemma_length(d3, plate.data.len());
    let next = document::with_page(draft, plate);
    match plate.mask {
        None => {
            let d5 = d4.with_object(encode_utf8("null"@));
            lemma_object_added(d4, encode_utf8("null"@));
            lemma_object_added(d5, encode_utf8("0"@));
        },
        Some(mask) => {
            let mask_head = document::image_head(document::mask_plate(plate), 0, number + 5);
            let d5 = document::with_stream(d4, mask_head, mask);
            lemma_stream_added(d4, mask_head, mask);
            lemma_object_added(d5, bytes::decimal(mask.len()));
            lemma_length(d5, mask.len());
            lemma_holds(next, number + 4, document::mask_plate(plate), 0, number + 5, mask);
        },
    }
    assert(object(next, number) == page);
    assert(object(next, number + 1) == document::content_body(plate));
    assert(object(next, number + 2) == head + plate.data + encode_utf8("\nendstream"@));
    assert(object(next, number + 3) == bytes::decimal(plate.data.len()));
    lemma_shown(next, number, plate, number + 2, number + 1, number + 4, number + 3);
}

/// The objects of a page with its image show the image.
proof fn lemma_shown(
    draft: Draft,
    number: int,
    plate: Plate,
    image: int,
    content: int,
    mask: int,
    length: int,
)
    requires
        mask >= 0,
        0 < number <= draft.offsets.len(),
        0 < image <= draft.offsets.len(),
        0 < content <= draft.offsets.len(),
        0 < length <= draft.offsets.len(),
        object(draft, number) == document::page_body(plate, image, content),
        object(draft, content) == document::content_body(plate),
        object(draft, image) == document::image_head(plate, mask, length) + plate.data
            + encode_utf8("\nendstream"@),
        numeral(object(draft, length)) == Some(
            (10_000 * plate.data.len() as int, Seq::<u8>::empty()),
        ),
        plate.mask is Some ==> holds_image(
            draft,
            mask,
            plate.width as int,
            plate.height as int,
            "/DeviceGray"@,
            "/FlateDecode"@,
            plate.mask->0,
        ),
    ensures
        page_shows(draft, number, plate),
{
    lemma_page_object(plate, image, content);
    lemma_content_object(plate);
    lemma_drawing(plate);
    lemma_sides(plate);
    lemma_holds(draft, image, plate, mask, length, plate.data);
    lemma_image_object(plate, mask, length, plate.data);
    lemma_filter_begins(plate, behind(head_of(object(draft, image)), encode_utf8("/Filter "@)));
}

/// The number of the `k`-th object of a list of references, each of which ends
/// with the letter R and a space.
pub open spec fn reference(list: Seq<u8>, k: int) -> int
    decreases k,
{
    if k <= 0 {
        match numeral(list) {
            Some((n, _)) => n / 10_000,
            None => -1,
        }
    } else {
        reference(behind(list, seq![82u8]).skip(1), k - 1)
    }
}

/// The number of the object of page `k`, as the list of pages tells it that the
/// catalog tells of.
pub open spec fn page_reference(draft: Draft, k: int) -> int {
    let list = object(draft, number_behind(object(draft, 1), "/Pages "@));
    reference(behind(list, encode_utf8("/Kids ["@)), k)
}

/// How many pages that list tells of.
pub open spec fn page_count(draft: Draft) -> int {
    number_behind(object(draft, number_behind(object(draft, 1), "/Pages "@)), "/Count "@)
}

/// The references to the pages from `i` up to `n`.
spec fn kids_between(i: int, n: int) -> Seq<u8>
    decreases n - i,
{
    if i >= n {
        Seq::empty()
    } else {
        bytes::decimal(document::page_number(i) as nat) + encode_utf8(" 0 R "@) + kids_between(
            i + 1,
            n,
        )
    }
}

proof fn lemma_kids_between(i: int, n: int)
    requires
        0 <= i <= n,
    ensures
        document::kids(n) == document::kids(i) + kids_between(i, n),
    decreases n - i,
{
    if i < n {
        lemma_kids_between(i + 1, n);
        assert(document::kids(i + 1) == document::kids(i) + bytes::decimal(
            document::page_number(i) as nat,
        ) + encode_utf8(" 0 R "@));
        assert(document::kids(n) =~= document::kids(i) + kids_between(i, n));
    } else {
        assert(document::kids(n) =~= document::kids(i) + kids_between(i, n));
    }
}

proof fn lemma_reference(i: int, n: int, rest: Seq<u8>, k: int)
    requires
        0 <= i,
        0 <= k,
        i + k < n,
    ensures
        reference(kids_between(i, n) + rest, k) == 6 * (i + k) + 3,
    decreases k,
{
    let number = document::page_number(i) as nat;
    let d = bytes::decimal(number);
    let e = encode_utf8(" 0 R "@);
    let more = kids_between(i + 1, n) + rest;
    let list = kids_between(i, n) + rest;
    assert(e =~= seq![32u8, 48, 32, 82, 32]) by {
        reveal_strlit(" 0 R ");
        look::lemma_ascii(" 0 R "@);
    }
    assert(list =~= d + (e + more));
    look::lemma_numeral(number, e + more);
    if k > 0 {
        let front = d + seq![32u8, 48, 32];
        assert(list =~= front + seq![82u8] + (seq![32u8] + more));
        look::lemma_before(front, 82u8, seq![32u8] + more);
        assert((seq![32u8] + more).skip(1) =~= more);
        lemma_reference(i + 1, n, rest, k - 1);
    }
}

/// The parts of the list of pages.
spec fn list_parts(kids: Seq<u8>, n: Seq<u8>) -> Seq<Seq<u8>> {
    seq![
        encode_utf8("<< /Type /Pages "@),
        encode_utf8("/Kids ["@),
        kids,
        encode_utf8("] "@),
        encode_utf8("/Count "@),
        n,
        encode_utf8(" >>"@),
    ]
}

proof fn lemma_list_parts(kids: Seq<u8>, n: Seq<u8>)
    ensures
        look::cat(list_parts(kids, n)) == encode_utf8("<< /Type /Pages /Kids ["@) + kids
            + encode_utf8("] /Count "@) + n + encode_utf8(" >>"@),
{
    let p0 = Seq::<Seq<u8>>::empty();
    assert(encode_utf8("<< /Type /Pages /Kids ["@) == encode_utf8("<< /Type /Pages "@) + encode_utf8("/Kids ["@)) by {
        reveal_strlit("<< /Type /Pages /Kids [");
        reveal_strlit("<< /Type /Pages ");
        reveal_strlit("/Kids [");
        look::lemma_ascii_concat("<< /Type /Pages "@, "/Kids ["@);
        assert("<< /Type /Pages /Kids ["@ =~= "<< /Type /Pages "@ + "/Kids ["@);
    }
    assert(encode_utf8("] /Count "@) == encode_utf8("] "@) + encode_utf8("/Count "@)) by {
        reveal_strlit("] /Count ");
        reveal_strlit("] ");
        reveal_strlit("/Count ");
        look::lemma_ascii_concat("] "@, "/Count "@);
        assert("] /Count "@ =~= "] "@ + "/Count "@);
    }
    let p1 = p0.push(encode_utf8("<< /Type /Pages "@));
    look::lemma_cat_push(p0, encode_utf8("<< /Type /Pages "@));
    let p2 = p1.push(encode_utf8("/Kids ["@));
    look::lemma_cat_push(p1, encode_utf8("/Kids ["@));
    assert(look::cat(p2) =~= encode_utf8("<< /Type /Pages /Kids ["@));
    let p3 = p2.push(kids);
    look::lemma_cat_push(p2, kids);
    let p4 = p3.push(encode_utf8("] "@));
    look::lemma_cat_push(p3, encode_utf8("] "@));
    let p5 = p4.push(encode_utf8("/Count "@));
    look::lemma_cat_push(p4, encode_utf8("/Count "@));
    assert(look::cat(p5) =~= look::cat(p3) + encode_utf8("] /Count "@));
    let p6 = p5.push(n);
    look::lemma_cat_push(p5, n);
    let p7 = p6.push(encode_utf8(" >>"@));
    look::lemma_cat_push(p6, encode_utf8(" >>"@));
    assert(p7 =~= list_parts(kids, n));
}

/// Digits, spaces and the letter R.
spec fn is_list(s: Seq<u8>) -> bool {
    forall|i: int|
        0 <= i < s.len() ==> (48 <= #[trigger] s[i] <= 57 || s[i] == 32 || s[i] == 82)
}

proof fn lemma_kids_list(n: int)
    ensures
        is_list(document::kids(n)),
    decreases n,
{
    if n > 0 {
        lemma_kids_list(n - 1);
        let number = document::page_number(n - 1) as nat;
        look::lemma_numeral(number, Seq::empty());
        reveal_strlit(" 0 R ");
        look::lemma_ascii(" 0 R "@);
        assert(encode_utf8(" 0 R "@) =~= seq![32u8, 48, 32, 82, 32]);
        let a = document::kids(n - 1);
        let b = bytes::decimal(number);
        let s = document::kids(n);
        assert forall|i: int| 0 <= i < s.len() implies (48 <= #[trigger] s[i] <= 57 || s[i] == 32
            || s[i] == 82) by {
            if i < a.len() {
                assert(s[i] == a[i]);
            } else if i < a.len() + b.len() {
                assert(s[i] == b[i - a.len()]);
            }
        }
    }
}

proof fn lemma_list_object(kids: Seq<u8>, n: nat)
    requires
        is_list(kids),
    ensures
        ({
            let o = encode_utf8("<< /Type /Pages /Kids ["@) + kids + encode_utf8("] /Count "@)
                + bytes::decimal(n) + encode_utf8(" >>"@);
            &&& number_behind(o, "/Count "@) == n
            &&& exists|rest: Seq<u8>|
                rest.len() > 0 && rest[0] == 93 && #[trigger] (kids + rest) == behind(
                    o,
                    encode_utf8("/Kids ["@),
                )
        }),
{
    let number = bytes::decimal(n);
    lemma_list_parts(kids, number);
    let parts = list_parts(kids, number);
    assert(clear(encode_utf8("<< /Type /Pages "@), encode_utf8("/Kids ["@))) by {
        reveal(look::clear);
        reveal_strlit("<< /Type /Pages ");
        reveal_strlit("/Kids [");
        look::lemma_clear_bytes("<< /Type /Pages "@, "/Kids ["@);
    }
    assert(clear(encode_utf8("<< /Type /Pages "@), encode_utf8("/Count "@))) by {
        reveal(look::clear);
        reveal_strlit("<< /Type /Pages ");
        reveal_strlit("/Count ");
        look::lemma_clear_bytes("<< /Type /Pages "@, "/Count "@);
    }
    assert(clear(encode_utf8("/Kids ["@), encode_utf8("/Count "@))) by {
        reveal(look::clear);
        reveal_strlit("/Kids [");
        reveal_strlit("/Count ");
        look::lemma_clear_bytes("/Kids ["@, "/Count "@);
    }
    assert(clear(encode_utf8("] "@), encode_utf8("/Count "@))) by {
        reveal(look::clear);
        reveal_strlit("] ");
        reveal_strlit("/Count ");
        look::lemma_clear_bytes("] "@, "/Count "@);
    }
    assert(encode_utf8("/Kids ["@).len() == 7 && encode_utf8("/Count "@).len() == 7 && encode_utf8(
        "/Count "@,
    )[0] == 47 && encode_utf8("] "@).len() == 2 && encode_utf8("] "@)[0] == 93 && encode_utf8(
        " >>"@,
    ).len() == 3 && encode_utf8(" >>"@)[0] == 32) by {
        reveal_strlit("/Kids [");
        reveal_strlit("/Count ");
        reveal_strlit("] ");
        reveal_strlit(" >>");
        look::lemma_ascii("/Kids ["@);
        look::lemma_ascii("/Count "@);
        look::lemma_ascii("] "@);
        look::lemma_ascii(" >>"@);
    }
    assert(clear(kids, encode_utf8("/Count "@))) by {
        reveal(look::clear);
    }
    look::lemma_cat_behind(parts, 1);
    look::lemma_cat_behind(parts, 4);
    look::lemma_cat_first(parts, 2);
    look::lemma_cat_first(parts, 3);
    look::lemma_cat_first(parts, 5);
    look::lemma_cat_first(parts, 6);
    look::lemma_numeral(n, look::cat(parts.skip(6)));
    assert(kids + look::cat(parts.skip(3)) == behind(look::cat(parts), encode_utf8("/Kids ["@)));
}

proof fn lemma_catalog()
    ensures
        number_behind(encode_utf8("<< /Type /Catalog /Pages 2 0 R >>"@), "/Pages "@) == 2,
{
    let a = encode_utf8("<< /Type /Catalog "@);
    let key = encode_utf8("/Pages "@);
    let b = encode_utf8("2 0 R >>"@);
    assert(encode_utf8("<< /Type /Catalog /Pages 2 0 R >>"@) == encode_utf8("<< /Type /Catalog "@) + encode_utf8("/Pages "@) + encode_utf8("2 0 R >>"@)) by {
        reveal_strlit("<< /Type /Catalog /Pages 2 0 R >>");
        reveal_strlit("<< /Type /Catalog ");
        reveal_strlit("/Pages ");
        reveal_strlit("2 0 R >>");
        look::lemma_ascii_concat("<< /Type /Catalog "@, "/Pages "@);
        look::lemma_ascii_concat("<< /Type /Catalog "@ + "/Pages "@, "2 0 R >>"@);
        assert("<< /Type /Catalog /Pages 2 0 R >>"@ =~= "<< /Type /Catalog "@ + "/Pages "@ + "2 0 R >>"@);
    }
    assert(clear(encode_utf8("<< /Type /Catalog "@), encode_utf8("/Pages "@))) by {
        reveal(look::clear);
        reveal_strlit("<< /Type /Catalog ");
        reveal_strlit("/Pages ");
        look::lemma_clear_bytes("<< /Type /Catalog "@, "/Pages "@);
    }
    assert(key.len() == 7 && b.len() == 8 && b[0] == 50 && b[1] == 32) by {
        reveal_strlit("/Pages ");
        reveal_strlit("2 0 R >>");
        look::lemma_ascii("/Pages "@);
        look::lemma_ascii("2 0 R >>"@);
    }
    look::lemma_behind(a, key, b);
    assert(b =~= seq![50u8] + b.skip(1));
    assert(bytes::decimal(2) =~= seq![50u8]);
    look::lemma_numeral(2, b.skip(1));
}

proof fn lemma_begun_chain() -> (d: Draft)
    ensures
        d == Draft::begun(document::header()).with_object(
            encode_utf8("<< /Type /Catalog /Pages 2 0 R >>"@),
        ),
        is_chain(d),
        d.offsets.len() == 1,
        object(d, 1) == encode_utf8("<< /Type /Catalog /Pages 2 0 R >>"@),
{
    lemma_object_added(
        Draft::begun(document::header()),
        encode_utf8("<< /Type /Catalog /Pages 2 0 R >>"@),
    );
    Draft::begun(document::header()).with_object(
        encode_utf8("<< /Type /Catalog /Pages 2 0 R >>"@),
    )
}

/// A file of one image has one page, and the page shows the image: the image
/// covers the page, whose sides are as the sides of the image.
pub proof fn law_file_shows_its_image(plate: Plate)
    ensures
        page_count(document::single_draft(plate)) == 1,
        page_shows(
            document::single_draft(plate),
            page_reference(document::single_draft(plate), 0),
            plate,
        ),
{
    reveal(document::single_draft);
    let d1 = lemma_begun_chain();
    let list = encode_utf8("<< /Type /Pages /Kids [3 0 R] /Count 1 >>"@);
    let page = document::page_body(plate, 5, 4);
    let d2 = d1.with_object(list);
    lemma_object_added(d1, list);
    let d3 = d2.with_object(page);
    lemma_object_added(d2, page);
    let d4 = d3.with_object(document::content_body(plate));
    lemma_object_added(d3, document::content_body(plate));
    let d = document::single_draft(plate);
    let n = plate.data.len();
    match plate.mask {
        None => {
            let head = document::image_head(plate, 6, 6);
            let d5 = document::with_stream(d4, head, plate.data);
            lemma_stream_added(d4, head, plate.data);
            lemma_object_added(d5, bytes::decimal(n));
            lemma_length(d5, n);
            lemma_shown(d, 3, plate, 5, 4, 6, 6);
        },
        Some(mask) => {
            let head = document::image_head(plate, 6, 7);
            let mask_head = document::image_head(document::mask_plate(plate), 0, 8);
            let d5 = document::with_stream(d4, head, plate.data);
            lemma_stream_added(d4, head, plate.data);
            let d6 = document::with_stream(d5, mask_head, mask);
            lemma_stream_added(d5, mask_head, mask);
            let d7 = d6.with_object(bytes::decimal(n));
            lemma_object_added(d6, bytes::decimal(n));
            lemma_length(d6, n);
            lemma_object_added(d7, bytes::decimal(mask.len()));
            lemma_length(d7, mask.len());
            lemma_holds(d, 6, document::mask_plate(plate), 0, 8, mask);
            lemma_shown(d, 3, plate, 5, 4, 6, 7);
        },
    }
    assert(object(d, 1) == object(d1, 1));
    assert(object(d, 2) == list);
    lemma_catalog();
    lemma_only_page();
}

proof fn lemma_only_page()
    ensures
        ({
            let o = encode_utf8("<< /Type /Pages /Kids [3 0 R] /Count 1 >>"@);
            &&& number_behind(o, "/Count "@) == 1
            &&& reference(behind(o, encode_utf8("/Kids ["@)), 0) == 3
        }),
{
    let kids = encode_utf8("3 0 R"@);
    assert(encode_utf8("<< /Type /Pages /Kids [3 0 R] /Count 1 >>"@) == encode_utf8("<< /Type /Pages /Kids ["@) + encode_utf8("3 0 R"@) + encode_utf8("] /Count "@) + encode_utf8("1"@) + encode_utf8(" >>"@)) by {
        reveal_strlit("<< /Type /Pages /Kids [3 0 R] /Count 1 >>");
        reveal_strlit("<< /Type /Pages /Kids [");
        reveal_strlit("3 0 R");
        reveal_strlit("] /Count ");
        reveal_strlit("1");
        reveal_strlit(" >>");
        look::lemma_ascii_concat("<< /Type /Pages /Kids ["@, "3 0 R"@);
        look::lemma_ascii_concat("<< /Type /Pages /Kids ["@ + "3 0 R"@, "] /Count "@);
        look::lemma_ascii_concat("<< /Type /Pages /Kids ["@ + "3 0 R"@ + "] /Count "@, "1"@);
        look::lemma_ascii_concat("<< /Type /Pages /Kids ["@ + "3 0 R"@ + "] /Count "@ + "1"@, " >>"@);
        assert("<< /Type /Pages /Kids [3 0 R] /Count 1 >>"@ =~= "<< /Type /Pages /Kids ["@ + "3 0 R"@ + "] /Count "@ + "1"@ + " >>"@);
    }
    assert(kids =~= seq![51u8, 32, 48, 32, 82]) by {
        reveal_strlit("3 0 R");
        look::lemma_ascii("3 0 R"@);
    }
    assert(encode_utf8("1"@) =~= bytes::decimal(1)) by {
        reveal_strlit("1");
        look::lemma_ascii("1"@);
    }
    lemma_list_object(kids, 1);
    let o = encode_utf8("<< /Type /Pages /Kids [3 0 R] /Count 1 >>"@);
    let rest = choose|rest: Seq<u8>|
        rest.len() > 0 && rest[0] == 93 && #[trigger] (kids + rest) == behind(
            o,
            encode_utf8("/Kids ["@),
        );
    assert(kids + rest =~= seq![51u8] + (seq![32u8, 48, 32, 82] + rest));
    assert(bytes::decimal(3) =~= seq![51u8]);
    look::lemma_numeral(3, seq![32u8, 48, 32, 82] + rest);
}

/// The images that were read are on the pages of a file, in order.
spec fn book_shows(book: document::Book, plates: Seq<Plate>) -> bool {
    &&& is_chain(book.draft)
    &&& book.draft.offsets.len() == 6 * plates.len() + 2
    &&& object(book.draft, 1) == encode_utf8("<< /Type /Catalog /Pages 2 0 R >>"@)
    &&& object(book.draft, 2) == document::pages_body(book.count)
    &&& forall|i: int| 0 <= i < plates.len() ==> page_shows(book.draft, 6 * i + 3, #[trigger] plates[i])
}

proof fn lemma_book(
    count: int,
    outcomes: Seq<Result<(Source, int), Fault>>,
    plates: Seq<Plate>,
)
    requires
        count > 0,
        document::bound(count, outcomes) is Ok,
        outcomes.len() == plates.len(),
        forall|i: int|
            0 <= i < outcomes.len() ==> (#[trigger] outcomes[i]) is Ok && document::prepared(
                (outcomes[i]->Ok_0).0,
            ) == Ok::<Plate, Fault>(plates[i]),
    ensures
        book_shows(document::bound(count, outcomes)->Ok_0, plates),
        document::bound(count, outcomes)->Ok_0.count == count,
    decreases outcomes.len(),
{
    if outcomes.len() == 0 {
        let d = lemma_begun_chain();
        lemma_object_added(d, document::pages_body(count));
    } else {
        let earlier = outcomes.drop_last();
        let before = plates.drop_last();
        let n = earlier.len() as int;
        reveal(document::next_book);
        assert forall|i: int| 0 <= i < earlier.len() implies (#[trigger] earlier[i]) is Ok
            && document::prepared((earlier[i]->Ok_0).0) == Ok::<Plate, Fault>(before[i]) by {
            assert(earlier[i] == outcomes[i]);
        }
        lemma_book(count, earlier, before);
        let book = document::bound(count, earlier)->Ok_0;
        let next = document::bound(count, outcomes)->Ok_0;
        assert(outcomes[n] == outcomes.last());
        let plate = plates[n];
        lemma_page_added(book.draft, plate);
        assert(next.draft == document::with_page(book.draft, plate));
        assert forall|i: int| 0 <= i < plates.len() implies page_shows(
            next.draft,
            6 * i + 3,
            #[trigger] plates[i],
        ) by {
            if i < n {
                assert(before[i] == plates[i]);
                lemma_kept(book.draft, next.draft, 6 * i + 3, plates[i]);
            }
        }
    }
}

/// A file of several images has a page for each of them, in their order, and each
/// page shows its image.
pub proof fn law_book_shows_its_images(
    count: int,
    outcomes: Seq<Result<(Source, int), Fault>>,
    plates: Seq<Plate>,
    k: int,
)
    requires
        0 < count,
        outcomes.len() == count,
        plates.len() == count,
        document::bound(count, outcomes) is Ok,
        forall|i: int|
            0 <= i < count ==> (#[trigger] outcomes[i]) is Ok && document::prepared(
                (outcomes[i]->Ok_0).0,
            ) == Ok::<Plate, Fault>(plates[i]),
        0 <= k < count,
    ensures
        ({
            let draft = document::bound(count, outcomes)->Ok_0.draft;
            &&& page_count(draft) == count
            &&& page_shows(draft, page_reference(draft, k), plates[k])
        }),
{
    lemma_book(count, outcomes, plates);
    let draft = document::bound(count, outcomes)->Ok_0.draft;
    reveal(document::pages_body);
    lemma_catalog();
    lemma_kids_list(count);
    lemma_list_object(document::kids(count), count as nat);
    let o = document::pages_body(count);
    let kids = document::kids(count);
    let rest = choose|rest: Seq<u8>|
        rest.len() > 0 && rest[0] == 93 && #[trigger] (kids + rest) == behind(
            o,
            encode_utf8("/Kids ["@),
        );
    lemma_kids_between(0, count);
    assert(kids =~= kids_between(0, count));
    lemma_reference(0, count, rest, k);
    assert(page_shows(draft, 6 * k + 3, plates[k]));
}

} // verus!
