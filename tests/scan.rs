use http_server::scan::ReaderLine;

#[test]
fn line_next_word() {
    let content = "this is a test a\n";
    let end = content.as_bytes().iter().position(|b| *b == b'\n').unwrap();
    let mut line = ReaderLine::new(content.as_bytes(), 0, end);

    assert_eq!(line.next_word(), Some(0..4));
    assert_eq!(line.next_word(), Some(5..7));
    assert_eq!(line.next_word(), Some(8..9));
    assert_eq!(line.next_word(), Some(10..14));
    assert_eq!(line.next_word(), Some(15..16));
    assert_eq!(line.next_word(), None);
}

#[test]
fn line_next() {
    let content = "name: value: a\n";
    let end = content.as_bytes().iter().position(|b| *b == b'\n').unwrap();
    let mut line = ReaderLine::new(content.as_bytes(), 0, end);

    assert_eq!(line.next(b':'), Some(0..4));
    assert_eq!(line.as_slice(), b" value: a");
}

#[test]
fn line_trim() {
    let content = " \t\tvalue with spaces\t \t\n";
    let end = content.as_bytes().iter().position(|b| *b == b'\n').unwrap();
    let line = ReaderLine::new(content.as_bytes(), 0, end);
    let trimmed = line.trim();
    assert_eq!(trimmed, 3..20);
}

#[test]
fn line_next_missing_byte_consumes_nothing() {
    let content = b"no colon here";
    let mut line = ReaderLine::new(content, 0, content.len());
    assert_eq!(line.next(b':'), None);
    assert_eq!(line.as_slice(), b"no colon here");
    assert!(!line.is_empty());
}
