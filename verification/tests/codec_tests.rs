use linux_files::codec::{decode_note, parse, render, DecodeError};
use linux_files::model::Note;

#[test]
fn parse_single_line_is_all_body() {
    let n = parse("only one line");
    assert_eq!(n.title, "");
    assert_eq!(n.body, "only one line");
}

#[test]
fn parse_title_and_body() {
    let n = parse("Title\n\nBody line");
    assert_eq!(n.title, "Title");
    assert_eq!(n.body, "Body line");
}

#[test]
fn parse_collapses_leading_blank_lines() {
    let n = parse("Title\n\n\n\nBody");
    assert_eq!(n.title, "Title");
    assert_eq!(n.body, "Body");
}

#[test]
fn parse_without_blank_separator() {
    let n = parse("Title\nBody");
    assert_eq!(n.title, "Title");
    assert_eq!(n.body, "Body");
}

#[test]
fn parse_empty_content() {
    let n = parse("");
    assert_eq!(n.title, "");
    assert_eq!(n.body, "");
}

#[test]
fn parse_trailing_newline_gives_empty_body() {
    let n = parse("Title\n");
    assert_eq!(n.title, "Title");
    assert_eq!(n.body, "");
}

#[test]
fn parse_multiline_body() {
    let n = parse("Title\n\nline one\nline two");
    assert_eq!(n.title, "Title");
    assert_eq!(n.body, "line one\nline two");
}

#[test]
fn render_exact_format() {
    let note = Note {
        title: String::from("A title"),
        body: String::from("some\nbody"),
    };
    assert_eq!(render(&note), "A title\n\nsome\nbody");
}

#[test]
fn parse_render_idempotent_after_first_normalization() {
    // Contents with at least two lines: parse(render(parse(c))) == parse(c).
    let cases = [
        "Title\n\nBody line",
        "Title\n\n\n\nBody",
        "Title\nBody",
        "Title\n",
        "a\nb\nc\nd",
        "x\n\n\nfirst\n\nsecond",
    ];
    for content in cases {
        let once = parse(content);
        let again = parse(&render(&once));
        assert_eq!(again.title, once.title);
        assert_eq!(again.body, once.body);
    }
}

#[test]
fn decode_note_valid_text() {
    let bytes: Vec<u8> = b"Title\n\nBody".to_vec();
    let n = decode_note(&bytes).unwrap();
    assert_eq!(n.title, "Title");
    assert_eq!(n.body, "Body");
}

#[test]
fn decode_note_rejects_invalid_utf8() {
    let bytes: Vec<u8> = vec![0xff, 0xfe, 0x00];
    let r = decode_note(&bytes);
    assert!(matches!(r, Err(DecodeError::NotText)));
}
