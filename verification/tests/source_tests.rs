use akhamoth::source::{LoadError, SourceFile, SourceMap, Span};

fn chars(s: &str) -> Vec<char> {
    s.chars().collect()
}

#[test]
fn two_files_get_disjoint_ranges_with_a_gap() {
    let mut sm = SourceMap::default();
    let a = sm.load_file(String::from("a"), chars("0123456789")).unwrap();
    let b = sm.load_file(String::from("b"), chars("01234567890123456789")).unwrap();
    assert_eq!(sm.files[a].start_pos, 0);
    assert_eq!(sm.files[b].start_pos, 11);
    assert_eq!(sm.lookup_source_file(10).path, "a");
    assert_eq!(sm.lookup_source_file(11).path, "b");
    assert_eq!(sm.lookup_source_file(9).path, "a");
    assert_eq!(sm.lookup_source_file(30).path, "b");
}

#[test]
fn end_position_is_start_plus_byte_size() {
    let f = SourceFile::new(String::from("x"), chars("hello"), 7).unwrap();
    assert_eq!(f.end_position(), 12);
}

#[test]
fn line_numbers_count_newlines_before_the_offset() {
    let f = SourceFile::new(String::from("x"), chars("ab\ncd\n\nx"), 0).unwrap();
    assert_eq!(f.line_number(0), 1);
    assert_eq!(f.line_number(2), 1);
    assert_eq!(f.line_number(3), 2);
    assert_eq!(f.line_number(5), 2);
    assert_eq!(f.line_number(6), 3);
    assert_eq!(f.line_number(7), 4);
}

#[test]
fn span_to_string_returns_the_exact_slice() {
    let mut sm = SourceMap::default();
    let _ = sm.load_file(String::from("a"), chars("hello world")).unwrap();
    assert_eq!(sm.span_to_string(Span::new(0, 5)), "hello");
    assert_eq!(sm.span_to_string(Span::new(6, 5)), "world");
    assert_eq!(sm.span_to_string(Span::new(0, 0)), "");
}

#[test]
fn span_to_string_resolves_across_files() {
    let mut sm = SourceMap::default();
    let _ = sm.load_file(String::from("a"), chars("first")).unwrap();
    let _ = sm.load_file(String::from("b"), chars("second")).unwrap();
    assert_eq!(sm.span_to_string(Span::new(0, 5)), "first");
    assert_eq!(sm.span_to_string(Span::new(6, 6)), "second");
    assert_eq!(sm.span_to_string(Span::new(8, 2)), "co");
}

#[test]
fn locations_are_one_based_lines_and_columns() {
    let mut sm = SourceMap::default();
    let _ = sm.load_file(String::from("a"), chars("ab\ncd\n\nx")).unwrap();
    let loc = sm.span_to_location(Span::new(0, 1));
    assert_eq!((loc.file, loc.line, loc.col), (0, 1, 1));
    let loc = sm.span_to_location(Span::new(1, 1));
    assert_eq!((loc.file, loc.line, loc.col), (0, 1, 2));
    let loc = sm.span_to_location(Span::new(3, 1));
    assert_eq!((loc.file, loc.line, loc.col), (0, 2, 1));
    let loc = sm.span_to_location(Span::new(4, 1));
    assert_eq!((loc.file, loc.line, loc.col), (0, 2, 2));
    let loc = sm.span_to_location(Span::new(7, 1));
    assert_eq!((loc.file, loc.line, loc.col), (0, 4, 1));
}

#[test]
fn a_file_end_offset_resolves_to_that_file() {
    let mut sm = SourceMap::default();
    let _ = sm.load_file(String::from("a"), chars("ab\ncd")).unwrap();
    let _ = sm.load_file(String::from("b"), chars("xy")).unwrap();
    assert_eq!(sm.lookup_source_file(5).path, "a");
    let loc = sm.span_to_location(Span::new(5, 0));
    assert_eq!((loc.file, loc.line, loc.col), (0, 2, 3));
    assert_eq!(sm.lookup_source_file(8).path, "b");
    let loc = sm.span_to_location(Span::new(8, 0));
    assert_eq!((loc.file, loc.line, loc.col), (1, 1, 3));
}

#[test]
fn locations_in_a_later_file_use_local_offsets() {
    let mut sm = SourceMap::default();
    let _ = sm.load_file(String::from("a"), chars("12345")).unwrap();
    let _ = sm.load_file(String::from("b"), chars("x\ny")).unwrap();
    let loc = sm.span_to_location(Span::new(8, 1));
    assert_eq!((loc.file, loc.line, loc.col), (1, 2, 1));
}

#[test]
fn multibyte_characters_count_in_bytes() {
    let mut sm = SourceMap::default();
    let _ = sm.load_file(String::from("a"), chars("\u{e9}\nx")).unwrap();
    assert_eq!(sm.files[0].end_position(), 4);
    assert_eq!(sm.span_to_string(Span::new(0, 2)), "\u{e9}");
    let loc = sm.span_to_location(Span::new(3, 1));
    assert_eq!((loc.file, loc.line, loc.col), (0, 2, 1));
    let mut sm2 = SourceMap::default();
    let _ = sm2.load_file(String::from("a"), chars("\u{e9}")).unwrap();
    let b = sm2.load_file(String::from("b"), chars("x")).unwrap();
    assert_eq!(sm2.files[b].start_pos, 3);
}

#[test]
fn locations_grow_with_the_offset() {
    let mut sm = SourceMap::default();
    let _ = sm.load_file(String::from("a"), chars("ab\ncd\n\nxy")).unwrap();
    let mut prev = (0usize, 0usize);
    for off in 0..9u32 {
        let loc = sm.span_to_location(Span::new(off, 0));
        assert!(
            loc.line > prev.0 || (loc.line == prev.0 && loc.col > prev.1),
            "location must grow at offset {off}"
        );
        prev = (loc.line, loc.col);
    }
}

#[test]
fn load_error_message_text() {
    assert_eq!(
        LoadError::OffsetOverflowError.message(),
        "4GB limit for source files reached"
    );
    assert_eq!(LoadError::Io(String::from("no such file")).message(), "no such file");
}

#[test]
fn span_value_semantics() {
    let s = Span::new(3, 4);
    assert_eq!(s.lo, 3);
    assert_eq!(s.len, 4);
    assert_eq!(s, Span::new(3, 4));
    assert_ne!(s, Span::new(3, 5));
}

#[test]
fn spans_order_by_start_then_length() {
    assert!(Span::new(1, 9) < Span::new(2, 0));
    assert!(Span::new(2, 1) < Span::new(2, 3));
    assert!(Span::new(2, 3) <= Span::new(2, 3));
}

#[test]
fn offset_overflow_fails_the_load_and_keeps_the_map() {
    let mut sm = SourceMap::default();
    let big: Vec<char> = vec!['\u{10348}'; 4];
    let r = SourceFile::new(String::from("x"), big, u32::MAX - 10);
    assert!(matches!(r, Err(LoadError::OffsetOverflowError)));
    let _ = sm.load_file(String::from("ok"), chars("abc")).unwrap();
    assert_eq!(sm.files.len(), 1);
}
