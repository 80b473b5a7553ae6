//! Which file shows which page.

use vstd::prelude::*;

use crate::bytes;
use crate::pdf::extract::PageText;
use crate::render::encode;
use crate::render::image_format::ImageFormat;
use crate::render::raster;
use crate::render::run;
use crate::render::run::RenderOptions;
use crate::text;

verus! {

/// What digits are worth.
pub open spec fn amount(s: Seq<char>) -> int
    decreases s.len(),
{
    if s.len() == 0 {
        0
    } else {
        10 * amount(s.drop_last()) + (s.last() as int - '0' as int)
    }
}

/// A number in digits: at least three, and no zero before the first of more.
pub open spec fn is_page_number(digits: Seq<char>, number: int) -> bool {
    &&& digits.len() >= 3
    &&& digits.len() > 3 ==> digits[0] != '0'
    &&& forall|i: int| 0 <= i < digits.len() ==> '0' <= #[trigger] digits[i] <= '9'
    &&& amount(digits) == number
}

/// `name` is that of the file of page `number`.
pub open spec fn is_name_of(
    name: Seq<char>,
    stem: Seq<char>,
    number: int,
    extension: Seq<char>,
) -> bool {
    exists|digits: Seq<char>| #[trigger]
        is_page_number(digits, number) && name == stem + seq!['-'] + digits + seq!['.'] + extension
}

/// The extension of the files in a format.
pub open spec fn ending(format: ImageFormat) -> Seq<char> {
    match format {
        ImageFormat::Png => seq!['p', 'n', 'g'],
        ImageFormat::Jpg => seq!['j', 'p', 'g'],
        ImageFormat::Bmp => seq!['b', 'm', 'p'],
        ImageFormat::Gif => seq!['g', 'i', 'f'],
        ImageFormat::Webp => seq!['w', 'e', 'b', 'p'],
        ImageFormat::Tiff => seq!['t', 'i', 'f', 'f'],
    }
}

proof fn lemma_first_digit(n: nat)
    requires
        n > 0,
    ensures
        bytes::decimal(n)[0] != 48,
    decreases n,
{
    if n >= 10 {
        lemma_first_digit(n / 10);
        bytes::law_decimal_round_trip(n / 10);
    }
}

proof fn lemma_amount(b: Seq<u8>)
    requires
        forall|i: int| 0 <= i < b.len() ==> 48 <= #[trigger] b[i] <= 57,
    ensures
        amount(text::ascii(b)) == bytes::decimal_value(b),
    decreases b.len(),
{
    if b.len() > 0 {
        lemma_amount(b.drop_last());
        assert(text::ascii(b).drop_last() =~= text::ascii(b.drop_last()));
    }
}

proof fn lemma_zeros(count: nat, b: Seq<u8>)
    ensures
        bytes::decimal_value(bytes::zeros(count as int) + b) == bytes::decimal_value(b),
    decreases count + b.len(),
{
    let s = bytes::zeros(count as int) + b;
    if b.len() > 0 {
        lemma_zeros(count, b.drop_last());
        assert(s.drop_last() =~= bytes::zeros(count as int) + b.drop_last());
        assert(s.last() == b.last());
    } else if count > 0 {
        lemma_zeros((count - 1) as nat, b);
        assert(s.drop_last() =~= bytes::zeros(count - 1) + b);
    }
}

/// A number in digits, without a zero before the first of several.
pub open spec fn is_number(digits: Seq<char>, number: int) -> bool {
    &&& digits.len() > 0
    &&& digits.len() > 1 ==> digits[0] != '0'
    &&& forall|i: int| 0 <= i < digits.len() ==> '0' <= #[trigger] digits[i] <= '9'
    &&& amount(digits) == number
}

/// A number is written in digits.
pub proof fn lemma_number(number: nat)
    ensures
        is_number(text::number(number), number as int),
{
    let b = bytes::decimal(number);
    let digits = text::number(number);
    bytes::law_decimal_round_trip(number);
    if number > 0 {
        lemma_first_digit(number);
    }
    lemma_amount(b);
    assert forall|i: int| 0 <= i < digits.len() implies '0' <= #[trigger] digits[i] <= '9' by {
        assert(48 <= b[i] <= 57);
    }
    if digits.len() > 1 {
        assert(number > 0);
        assert(digits[0] as int == b[0]);
    }
}

/// The number of a page is written in digits, at least three.
pub proof fn lemma_page_number(number: nat)
    requires
        number > 0,
    ensures
        is_page_number(text::ascii(bytes::padded(number, 3)), number as int),
{
    let b = bytes::padded(number, 3);
    let d = bytes::decimal(number);
    let digits = text::ascii(b);
    bytes::law_decimal_round_trip(number);
    lemma_first_digit(number);
    let count: nat = if d.len() < 3 {
        (3 - d.len()) as nat
    } else {
        0
    };
    assert(b =~= bytes::zeros(count as int) + d);
    lemma_zeros(count, d);
    assert forall|i: int| 0 <= i < b.len() implies 48 <= #[trigger] b[i] <= 57 by {
        if i >= count {
            assert(b[i] == d[i - count]);
        }
    }
    lemma_amount(b);
    if digits.len() > 3 {
        assert(b[0] == d[0]);
    }
}

/// There is a file for each page, in the order of the pages; it holds the image
/// of its page, and its name has the number of the page in it.
pub proof fn law_files_show_the_pages_in_order(
    pages: Seq<PageText>,
    options: RenderOptions,
    stem: Seq<char>,
    n: int,
    k: int,
)
    requires
        0 <= k < n <= pages.len(),
        run::rendition(pages, options, stem, n) is Ok,
    ensures
        ({
            let outputs = run::rendition(pages, options, stem, n)->Ok_0.0;
            &&& outputs.len() == n
            &&& run::rendered(pages[k], options) is Ok
            &&& outputs[k].1 == run::rendered(pages[k], options)->Ok_0
            &&& is_name_of(outputs[k].0, stem, k + 1, ending(options.format))
        }),
    decreases n,
{
    run::law_rendered_bytes_are_limited(pages, options, stem, n);
    if k < n - 1 {
        law_files_show_the_pages_in_order(pages, options, stem, n - 1, k);
    } else {
        let digits = text::ascii(bytes::padded((k + 1) as nat, 3));
        let name = run::page_name_spec(stem, k, options.format);
        if n > 1 {
            run::law_rendered_bytes_are_limited(pages, options, stem, n - 1);
        }
        lemma_page_number((k + 1) as nat);
        lemma_ending(options.format);
        reveal_strlit("-");
        reveal_strlit(".");
        assert("-"@ =~= seq!['-']);
        assert("."@ =~= seq!['.']);
        assert(name == stem + seq!['-'] + digits + seq!['.'] + ending(options.format));
    }
}

proof fn lemma_ending(format: ImageFormat)
    ensures
        format.extension_spec() == ending(format),
{
    reveal_strlit("png");
    reveal_strlit("jpg");
    reveal_strlit("bmp");
    reveal_strlit("gif");
    reveal_strlit("webp");
    reveal_strlit("tiff");
    assert(format.extension_spec() =~= ending(format));
}

/// The image of a page is written in the format that was asked for, as wide and
/// as high as it is; a JPEG file has the quality that was asked for, or the
/// nearest from 1 to 100.
pub proof fn law_images_are_in_the_format_asked_for(page: PageText, options: RenderOptions)
    requires
        run::rendered(page, options) is Ok,
    ensures
        raster::page_picture(page, options.dpi, options.format) is Ok,
        ({
            let file = Some(run::rendered(page, options)->Ok_0);
            let image = raster::page_picture(page, options.dpi, options.format)->Ok_0;
            let wanted = options.jpg_quality;
            match options.format {
                ImageFormat::Png => file == encode::png_file_of(
                    image.width,
                    image.height,
                    image.pixels,
                ),
                ImageFormat::Jpg => exists|quality: u8|
                    file == #[trigger] encode::jpg_file_of(
                        image.width as u16,
                        image.height as u16,
                        image.pixels,
                        quality,
                    ) && 1 <= quality <= 100 && (1 <= wanted <= 100 ==> quality == wanted) && (
                    wanted == 0 ==> quality == 1) && (wanted > 100 ==> quality == 100),
                ImageFormat::Bmp => file == Some(
                    encode::bmp_file(image.width, image.height, image.pixels),
                ),
                ImageFormat::Gif => file == encode::gif_file_of(
                    image.width as u16,
                    image.height as u16,
                    image.pixels,
                    10,
                ),
                ImageFormat::Webp => file == encode::webp_file_of(
                    image.width,
                    image.height,
                    image.pixels,
                ),
                ImageFormat::Tiff => file == encode::tiff_file_of(
                    image.width,
                    image.height,
                    image.pixels,
                ),
            }
        }),
{
    reveal(run::rendered);
}

} // verus!
