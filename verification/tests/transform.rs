use text_runs::transform::{
    apply_style_transform_if_necessary, transform_text, CompressionMode, TextTransformCase,
};

#[test]
fn test_transform_compress_none() {
    let test_strs = [
        "  foo bar",
        "foo bar  ",
        "foo\n bar",
        "foo \nbar",
        "  foo  bar  \nbaz",
        "foo bar baz",
        "foobarbaz\n\n",
    ];

    let mode = CompressionMode::CompressNone;
    for &test in test_strs.iter() {
        let mut trimmed_str = String::new();
        transform_text(test, mode, true, &mut trimmed_str);
        assert_eq!(trimmed_str, test)
    }
}

#[test]
fn test_transform_compress_whitespace() {
    let test_strs = [
        ("  foo bar", "foo bar"),
        ("foo bar  ", "foo bar "),
        ("foo\n bar", "foo\n bar"),
        ("foo \nbar", "foo \nbar"),
        ("  foo  bar  \nbaz", "foo bar \nbaz"),
        ("foo bar baz", "foo bar baz"),
        ("foobarbaz\n\n", "foobarbaz\n\n"),
    ];

    let mode = CompressionMode::CompressWhitespace;
    for &(test, oracle) in test_strs.iter() {
        let mut trimmed_str = String::new();
        transform_text(test, mode, true, &mut trimmed_str);
        assert_eq!(&*trimmed_str, oracle)
    }
}

#[test]
fn test_transform_compress_whitespace_newline() {
    let test_strs = vec![
        ("  foo bar", "foo bar"),
        ("foo bar  ", "foo bar "),
        ("foo\n bar", "foo bar"),
        ("foo \nbar", "foo bar"),
        ("  foo  bar  \nbaz", "foo bar baz"),
        ("foo bar baz", "foo bar baz"),
        ("foobarbaz\n\n", "foobarbaz "),
    ];

    let mode = CompressionMode::CompressWhitespaceNewline;
    for &(test, oracle) in test_strs.iter() {
        let mut trimmed_str = String::new();
        transform_text(test, mode, true, &mut trimmed_str);
        assert_eq!(&*trimmed_str, oracle)
    }
}

#[test]
fn test_transform_compress_whitespace_newline_no_incoming() {
    let test_strs = [
        ("  foo bar", " foo bar"),
        ("\nfoo bar", " foo bar"),
        ("foo bar  ", "foo bar "),
        ("foo\n bar", "foo bar"),
        ("foo \nbar", "foo bar"),
        ("  foo  bar  \nbaz", " foo bar baz"),
        ("foo bar baz", "foo bar baz"),
        ("foobarbaz\n\n", "foobarbaz "),
    ];

    let mode = CompressionMode::CompressWhitespaceNewline;
    for &(test, oracle) in test_strs.iter() {
        let mut trimmed_str = String::new();
        transform_text(test, mode, false, &mut trimmed_str);
        assert_eq!(trimmed_str, oracle)
    }
}

#[test]
fn test_transform_discards_bidi_controls() {
    let mut out = String::new();
    let ws = transform_text("a\u{202A}b\u{200F}c", CompressionMode::CompressNone, false, &mut out);
    assert_eq!(out, "abc");
    assert!(!ws);
}

#[test]
fn test_transform_discarded_char_keeps_whitespace_state() {
    // a discardable character inside a whitespace run must not break it
    let mut out = String::new();
    transform_text("a \u{200E} b", CompressionMode::CompressWhitespace, false, &mut out);
    assert_eq!(out, "a b");
}

#[test]
fn test_transform_reports_outgoing_whitespace() {
    let mut out = String::new();
    let ws = transform_text("foo ", CompressionMode::CompressWhitespace, false, &mut out);
    assert!(ws);
    let mut out2 = String::new();
    let ws2 = transform_text("foo", CompressionMode::CompressWhitespace, true, &mut out2);
    assert!(!ws2);
    assert_eq!(out2, "foo");
}

#[test]
fn test_transform_appends_to_existing_output() {
    let mut out = String::from("pre");
    transform_text("  x", CompressionMode::CompressWhitespaceNewline, true, &mut out);
    assert_eq!(out, "prex");
}

#[test]
fn test_case_transform_uppercase() {
    let mut s = String::from("stra\u{00DF}e");
    apply_style_transform_if_necessary(&mut s, TextTransformCase::Uppercase, false, true);
    assert_eq!(s, "STRASSE");
}

#[test]
fn test_case_transform_lowercase() {
    let mut s = String::from("FooBAR");
    apply_style_transform_if_necessary(&mut s, TextTransformCase::Lowercase, false, true);
    assert_eq!(s, "foobar");
}

#[test]
fn test_case_transform_capitalize() {
    let mut s = String::from("foo bar");
    apply_style_transform_if_necessary(&mut s, TextTransformCase::Capitalize, false, true);
    assert_eq!(s, "Foo Bar");
}

#[test]
fn test_case_transform_capitalize_continuation() {
    // not at a run start and not after whitespace: the first letter stays
    let mut s = String::from("foo bar");
    apply_style_transform_if_necessary(&mut s, TextTransformCase::Capitalize, false, false);
    assert_eq!(s, "foo Bar");
    // after whitespace the first letter is capitalized even mid-run
    let mut t = String::from("foo bar");
    apply_style_transform_if_necessary(&mut t, TextTransformCase::Capitalize, true, false);
    assert_eq!(t, "Foo Bar");
}

#[test]
fn test_case_transform_none_is_identity() {
    let mut s = String::from("Foo \u{00DF}ar");
    apply_style_transform_if_necessary(&mut s, TextTransformCase::NoTransform, true, true);
    assert_eq!(s, "Foo \u{00DF}ar");
}

#[test]
fn test_case_transform_capitalize_after_non_letter() {
    // the pending capitalize state survives non-alphabetic characters:
    // the first letter after punctuation or digits is still capitalized
    let mut s = String::from("1st");
    apply_style_transform_if_necessary(&mut s, TextTransformCase::Capitalize, false, true);
    assert_eq!(s, "1St");
    let mut t = String::from("(foo) bar");
    apply_style_transform_if_necessary(&mut t, TextTransformCase::Capitalize, false, true);
    assert_eq!(t, "(Foo) Bar");
    let mut u = String::from("1b");
    apply_style_transform_if_necessary(&mut u, TextTransformCase::Capitalize, true, false);
    assert_eq!(u, "1B");
}
