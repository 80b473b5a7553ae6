use minimal_pdf_converter::pdf::number::{bounded_pdf_integer, parse_number, PdfNumber};
use minimal_pdf_converter::pdf::object::{bounded_stream_length, MAX_STREAM_BYTES};
use minimal_pdf_converter::pdf::PdfError;

fn number(text: &str) -> PdfNumber {
    parse_number(text.as_bytes()).expect("a number")
}

/// The bits of a number in the usual layout of 64-bit floating point.
fn bits(number: PdfNumber) -> u64 {
    match number {
        PdfNumber::Finite { mantissa, place } => {
            let size = mantissa.unsigned_abs();
            let sign = u64::from(mantissa < 0) << 63;
            if size < 1 << 52 {
                sign | size
            } else {
                sign | (u64::from(place) + 1) << 52 | (size - (1 << 52))
            }
        }
        PdfNumber::Infinite(negative) => (if negative {
            f64::NEG_INFINITY
        } else {
            f64::INFINITY
        })
        .to_bits(),
        PdfNumber::NotANumber => f64::NAN.to_bits(),
    }
}

const TEXTS: [&str; 42] = [
    "0",
    "1",
    "-1",
    "+7",
    "0.1",
    ".5",
    "5.",
    "3.9",
    "4.4",
    "-13",
    "612",
    "0.001",
    "1e-16",
    "1E16",
    "123456.789",
    "9007199254740991",
    "9007199254740992",
    "9007199254740993",
    "9007199254740995",
    "18446744073709551615",
    "18446744073709551616",
    "1.7976931348623157e308",
    "1.7976931348623158e308",
    "1.7976931348623159e308",
    "-1.7976931348623159e308",
    "1e308",
    "1e309",
    "1e400",
    "1e401",
    "1e99999999999999999999999999999999999999",
    "1e-99999999999999999999999999999999999999",
    "2.2250738585072014e-308",
    "2.2250738585072011e-308",
    "5e-324",
    "2.5e-324",
    "2.4703282292062327e-324",
    "2.4703282292062328e-324",
    "2e-324",
    "1e-400",
    "0.000000000000000000000000000000000000000000000000000001e54",
    "000000000000000000000000000000000000000000000000000000012",
    "100000000000000000000000000000000000000000000000000000e-53",
];

#[test]
fn numbers_are_rounded_to_the_nearest_of_53_bits() {
    for text in TEXTS {
        let expected: f64 = text.parse().expect("a float");
        assert_eq!(bits(number(text)), expected.to_bits(), "{text}");
    }
    assert_eq!(
        number("0.1"),
        PdfNumber::Finite {
            mantissa: 7_205_759_403_792_794,
            place: 1018
        }
    );
    let half = format!("9007199254740993{}", ".0".to_owned() + &"0".repeat(2000));
    assert_eq!(number(&half), number("9007199254740992"));
    assert_eq!(number(&format!("{half}1")), number("9007199254740994"));
    let zeros = format!("0.{}1e5001", "0".repeat(5000));
    assert_eq!(number(&zeros), PdfNumber::whole(1));
    for digits in [750usize, 1074, 1099, 1100, 1101, 1500] {
        let text = format!("0.{}7", "123456789".repeat(digits).split_at(digits).0);
        let expected: f64 = text.parse().expect("a float");
        assert_eq!(bits(number(&text)), expected.to_bits());
    }
}

#[test]
fn sums_are_rounded_as_they_are_made() {
    for a in TEXTS {
        for b in TEXTS {
            let left: f64 = a.parse().expect("a float");
            let right: f64 = b.parse().expect("a float");
            let sum = number(a).plus(number(b));
            let expected = left + right;
            if expected.is_nan() {
                assert_eq!(sum, PdfNumber::NotANumber);
            } else if expected == 0.0 {
                assert_eq!(bits(sum), 0, "{a} {b}");
            } else {
                assert_eq!(bits(sum), expected.to_bits(), "{a} {b}");
            }
            let distance = number(a).plus(number(b).negated());
            assert_eq!(
                distance.exceeds_half(),
                (left - right).abs() > 0.5,
                "{a} {b}"
            );
            assert_eq!(number(a).exceeds_thousandth(), left.abs() > 0.001, "{a}");
            assert_eq!(
                distance.page_side(),
                (left - right).abs().round().clamp(1.0, 2000.0) as u32,
                "{a} {b}"
            );
        }
    }
}

#[test]
fn only_whole_numbers_are_taken_for_whole() {
    for text in TEXTS {
        let value: f64 = text.parse().expect("a float");
        for max in [0usize, 1, 11, 12, 65_535, 4_294_967_295] {
            let expected = (value.is_finite()
                && value >= 0.0
                && value.trunc() == value
                && value <= max as f64)
                .then_some(value as usize);
            assert_eq!(bounded_pdf_integer(number(text), max), expected, "{text}");
        }
    }
    assert_eq!(bounded_pdf_integer(number("1e-16"), 10), None);
    assert_eq!(bounded_pdf_integer(number("-0"), 10), Some(0));
    assert_eq!(
        bounded_pdf_integer(number("9007199254740993"), usize::MAX),
        Some(9_007_199_254_740_992)
    );
    assert!(parse_number(b"1e").is_none());
    assert!(parse_number(b".").is_none());
    assert!(parse_number(b"--1").is_none());
    assert_eq!(number("-Infinity"), PdfNumber::Infinite(true));
    assert_eq!(number("nan"), PdfNumber::NotANumber);
}

#[test]
fn stream_lengths_are_whole_and_bounded() {
    assert!(matches!(bounded_stream_length(number("12")), Ok(12)));
    for text in ["1e-16", "-1", "1.5", "inf", "nan"] {
        assert!(matches!(
            bounded_stream_length(number(text)),
            Err(PdfError::CorruptedPdf)
        ));
    }
    let most = format!("{MAX_STREAM_BYTES}");
    assert!(matches!(
        bounded_stream_length(number(&most)),
        Ok(MAX_STREAM_BYTES)
    ));
    for text in ["67108865", "1e300"] {
        assert!(matches!(
            bounded_stream_length(number(text)),
            Err(PdfError::StreamLimitExceeded)
        ));
    }
}
