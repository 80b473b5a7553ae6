use minimal_pdf_converter::paginate::paginate_pages;
use minimal_pdf_converter::pdf::cmap::parse_to_unicode_cmap;
use minimal_pdf_converter::pdf::extract::extract_text;
use minimal_pdf_converter::pdf::selection::PageSelection;
use minimal_pdf_converter::pdf_writer::{
    page_stream, to_unicode_cmap, write_pages_pdf, write_text_pages_pdf, write_text_pdf,
    PdfWriterError,
};

#[test]
fn writes_a_parseable_pdf_header_and_xref() {
    let bytes = write_text_pdf("Hello\n世界").expect("write");
    assert!(bytes.starts_with(b"%PDF-1.7"));
    assert!(bytes.windows(5).any(|window| window == b"xref\n"));
    assert!(bytes
        .windows(b"STSong-Light".len())
        .any(|window| window == b"STSong-Light"));
    assert!(bytes.windows(b"4E16".len()).any(|window| window == b"4E16"));
}

#[test]
fn embeds_to_unicode_for_generated_text() {
    let file = write_text_pdf("Hello\n你好").expect("write");
    let text = extract_text(&file, &PageSelection::All)
        .expect("extract generated PDF")
        .text;
    assert_eq!(text, "Hello\n你好");
}

#[test]
fn wraps_long_cjk_lines_within_pdf_page_margins() {
    let input = "中".repeat(96);
    let pages = paginate_pages(&[input.clone()], 58);
    assert_eq!(pages.len(), 1);
    let lines = pages[0].lines().collect::<Vec<_>>();
    assert_eq!(
        lines
            .iter()
            .map(|line| line.chars().count())
            .collect::<Vec<_>>(),
        [45, 45, 6]
    );
    assert_eq!(lines.concat(), input);
}

#[test]
fn explicit_pages_do_not_get_an_extra_blank_page_at_line_limit() {
    let first = (0..55).map(|_| "row").collect::<Vec<_>>().join("\n");
    let pages = paginate_pages(&[first, "second".to_owned()], 55);
    assert_eq!(pages.len(), 2);
    assert!(pages[0].contains("row"));
    assert_eq!(pages[1], "second");
}

#[test]
fn preserves_empty_source_pages_and_expands_tabs() {
    let pages = paginate_pages(
        &["one\ttwo".to_owned(), String::new(), "three".to_owned()],
        55,
    );
    assert_eq!(pages, ["one    two", "", "three"]);
}

#[test]
fn round_trips_mixed_latin_and_cjk_with_escaped_punctuation() {
    let file = write_text_pdf("Second page (中文) \\ sample").expect("write PDF");
    let text = extract_text(&file, &PageSelection::All)
        .expect("read generated PDF")
        .text;
    assert_eq!(text, "Second page (中文) \\ sample");
}

#[test]
fn rejects_supplementary_unicode_instead_of_silently_replacing_it() {
    assert!(matches!(
        write_text_pdf("emoji: 😀"),
        Err(PdfWriterError::UnsupportedUnicode)
    ));
}

#[test]
fn splits_large_to_unicode_maps_into_bounded_blocks() {
    let text = (0x4e00..0x4e96)
        .filter_map(char::from_u32)
        .collect::<String>();
    let cmap = String::from_utf8(to_unicode_cmap(&[text])).expect("map of ASCII characters");
    assert!(cmap.contains("100 beginbfchar\n"));
    assert!(cmap.contains("50 beginbfchar\n"));
    assert_eq!(cmap.matches("endbfchar\n").count(), 2);
}

#[test]
fn page_stream_switches_fonts_within_a_line() {
    let stream = String::from_utf8(page_stream("a(中")).expect("stream of ASCII characters");
    assert!(stream.contains("(a\\() Tj"));
    assert!(stream.contains("<4E2D> Tj"));
}

#[test]
fn pages_that_overflow_are_continued() {
    let text = (0..56)
        .map(|line| format!("line {line}"))
        .collect::<Vec<_>>()
        .join("\n");
    let pages = paginate_pages(&[text.clone()], 55);
    assert_eq!(pages.len(), 2);
    assert_eq!(format!("{}\n{}", pages[0], pages[1]), text);
    assert_eq!(pages[1], "line 55");
}

#[test]
fn written_pages_are_extracted_in_order() {
    let pages = ["one".to_owned(), "two\nzwei".to_owned(), "drei".to_owned()];
    let file = write_pages_pdf(&pages).expect("write");
    let result = extract_text(&file, &PageSelection::All).expect("read");
    assert_eq!(result.page_count, 3);
    let texts: Vec<String> = result.pages.into_iter().map(|page| page.text).collect();
    assert_eq!(texts, pages);
}

#[test]
fn long_pages_are_split_into_several() {
    let text = vec!["row"; 120].join("\n");
    let file = write_text_pages_pdf(&[text.clone()]).expect("write");
    let result = extract_text(&file, &PageSelection::All).expect("read");
    assert_eq!(result.page_count, 3);
    assert_eq!(result.text.replace("\n\n", "\n"), text);
}

#[test]
fn writer_error_has_a_message() {
    let error = write_text_pdf("😀").expect_err("refused");
    assert!(!error.message().is_empty());
}

#[test]
fn written_pages_are_read_back_line_by_line() {
    let pages = vec![
        "first line  \n\n\u{4e2d}\u{6587} (mixed) \\ line\r\nlast".to_owned(),
        String::new(),
        "tidy\npage".to_owned(),
    ];
    let file = write_pages_pdf(&pages).expect("write");
    let result = extract_text(&file, &PageSelection::All).expect("read");
    let texts: Vec<&str> = result.pages.iter().map(|page| page.text.as_str()).collect();
    assert_eq!(
        texts,
        [
            "first line\n\u{4e2d}\u{6587} (mixed) \\ line\nlast",
            "",
            "tidy\npage"
        ]
    );
    assert_eq!(result.page_count, 3);
    assert_eq!(result.text_object_count, 6);
    assert!(result
        .pages
        .iter()
        .all(|page| page.width_points == 612 && page.height_points == 792));
}

#[test]
fn the_character_map_is_read_as_the_codes_of_the_text_alone() {
    let pages = ["Héllo".to_owned(), "世界 o".to_owned()];
    let map = parse_to_unicode_cmap(&to_unicode_cmap(&pages), &|| false)
        .expect("read the map")
        .expect("a map");
    assert_eq!(map.code_width, 2);
    let codes = "Hélo世界 ";
    assert_eq!(map.values.len(), codes.chars().count());
    for code in codes.chars() {
        let bytes = (code as u16).to_be_bytes().to_vec();
        assert_eq!(map.values.get(&bytes), Some(&code.to_string()));
    }
    let none = to_unicode_cmap(&[String::new()]);
    assert!(parse_to_unicode_cmap(&none, &|| false)
        .expect("read the map")
        .is_none());
}
