use lib::ssi::{exec_line_scannable, exec_output, parse_exec_line, SsiLine};

fn parse(line: &[u8]) -> Option<(Vec<u8>, Vec<u8>, Vec<u8>)> {
    assert!(exec_line_scannable(line));
    match parse_exec_line(line) {
        SsiLine::Text => None,
        SsiLine::Exec { before, cmd, after } => Some((before, cmd, after)),
    }
}

#[test]
fn directive_is_split() {
    assert_eq!(
        parse(b"Today: <!--#exec cmd=\"date\" --> ok"),
        Some((b"Today: ".to_vec(), b"date".to_vec(), b" ok".to_vec()))
    );
}

#[test]
fn line_without_directive_is_text() {
    assert_eq!(parse(b"<p>plain</p>"), None);
    assert_eq!(parse(b""), None);
}

#[test]
fn incomplete_directive_is_text() {
    assert_eq!(parse(b"<!--#exec cmd=\"date\" "), None);
    assert_eq!(parse(b"<!--#exec cmd=\"date"), None);
    assert_eq!(parse(b"<!--#exec cmd=\""), None);
}

#[test]
fn quote_right_after_directive_is_skipped() {
    // The scan starts one byte after the opening quote, so an empty command
    // is read up to the next quote.
    assert_eq!(parse(b"<!--#exec cmd=\"\" -->"), None);
    assert_eq!(
        parse(b"<!--#exec cmd=\"\" x\" -->!"),
        Some((Vec::new(), b"\" x".to_vec(), b"!".to_vec()))
    );
}

#[test]
fn greater_before_quote_is_text_when_quote_comes_first_is_not() {
    // A '>' is seen before the closing quote: the last '>' before the quote
    // ends the directive, which is before the quote, so the line stays.
    assert_eq!(parse(b"<!--#exec cmd=\"a>b\""), None);
    // The last quote seen before the first '>' (after it) counts.
    assert_eq!(
        parse(b"<!--#exec cmd=\"ls -l\" \"x -->y"),
        Some((Vec::new(), b"ls -l\" ".to_vec(), b"y".to_vec()))
    );
}

#[test]
fn multibyte_text_after_directive_cannot_be_scanned() {
    let line = "<!--#exec cmd=\"é\" -->".as_bytes();
    assert!(!exec_line_scannable(line));
    // Multibyte characters elsewhere are fine.
    assert!(exec_line_scannable("é <!--#exec cmd=\"date\" --> é".as_bytes()));
    assert!(exec_line_scannable("é only".as_bytes()));
}

#[test]
fn exec_output_picks_stream_by_status() {
    assert_eq!(exec_output(Some((0, b"out".to_vec(), b"err".to_vec()))), b"out".to_vec());
    assert_eq!(exec_output(Some((1, b"out".to_vec(), b"err".to_vec()))), b"err".to_vec());
    assert_eq!(exec_output(None), Vec::<u8>::new());
}
