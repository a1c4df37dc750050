use minihttp::headers::{Header, Headers};

fn bv(s: &str) -> Vec<u8> {
    s.as_bytes().to_vec()
}

#[test]
fn new_keeps_name_and_value() {
    let h = Header::new(bv("Range"), bv("bytes=0-"));
    assert_eq!(h.name().as_slice(), b"Range");
    assert_eq!(h.value().as_slice(), b"bytes=0-");
}

#[test]
fn get_is_case_insensitive() {
    let mut hs = Headers::new();
    hs.add(bv("Content-Length"), bv("10"));
    let got = hs.get(b"content-length");
    assert_eq!(got.map(|v| v.as_slice()), Some(b"10".as_slice()));
    let got_upper = hs.get(b"CONTENT-LENGTH");
    assert_eq!(got_upper.map(|v| v.as_slice()), Some(b"10".as_slice()));
}

#[test]
fn get_absent_name() {
    let mut hs = Headers::new();
    hs.add(bv("Host"), bv("example.com"));
    assert!(hs.get(b"Range").is_none());
}

#[test]
fn get_returns_first_of_duplicates() {
    let mut hs = Headers::new();
    hs.add(bv("X-Tag"), bv("first"));
    hs.add(bv("x-tag"), bv("second"));
    let got = hs.get(b"X-TAG");
    assert_eq!(got.map(|v| v.as_slice()), Some(b"first".as_slice()));
}

#[test]
fn push_appends_in_order() {
    let mut hs = Headers::new();
    hs.push(Header::new(bv("A"), bv("1")));
    hs.push(Header::new(bv("B"), bv("2")));
    assert_eq!(hs.len(), 2);
    assert_eq!(hs.index(0).name().as_slice(), b"A");
    assert_eq!(hs.index(1).name().as_slice(), b"B");
}

#[test]
fn from_line_splits_on_first_separator() {
    let h = Header::from_line(b"A: B: C").unwrap();
    assert_eq!(h.name().as_slice(), b"A");
    assert_eq!(h.value().as_slice(), b"B: C");
}

#[test]
fn from_line_without_separator_fails() {
    assert!(Header::from_line(b"no separator here").is_err());
    assert!(Header::from_line(b"").is_err());
    assert!(Header::from_line(b"colon:but-no-space").is_err());
}

#[test]
fn from_line_empty_sides() {
    let h = Header::from_line(b": value").unwrap();
    assert_eq!(h.name().as_slice(), b"");
    assert_eq!(h.value().as_slice(), b"value");
    let h2 = Header::from_line(b"Name: ").unwrap();
    assert_eq!(h2.name().as_slice(), b"Name");
    assert_eq!(h2.value().as_slice(), b"");
}

#[test]
fn serialize_then_parse_round_trips() {
    let mut hs = Headers::new();
    hs.add(bv("Content-Type"), bv("text/plain; charset=utf-8"));
    let line = hs.to_text();
    let h = Header::from_line(line.as_slice()).unwrap();
    assert_eq!(h.name().as_slice(), b"Content-Type");
    assert_eq!(h.value().as_slice(), b"text/plain; charset=utf-8");
}

#[test]
fn to_text_joins_with_newlines_no_trailing() {
    let mut hs = Headers::new();
    hs.add(bv("Host"), bv("example.com"));
    hs.add(bv("Range"), bv("bytes=5-"));
    assert_eq!(hs.to_text().as_slice(), b"Host: example.com\nRange: bytes=5-");
}

#[test]
fn to_text_of_empty_collection_is_empty() {
    let hs = Headers::new();
    assert_eq!(hs.to_text().as_slice(), b"");
}

#[test]
fn from_pairs_preserves_order() {
    let hs = Headers::from_pairs(vec![
        (bv("A"), bv("1")),
        (bv("B"), bv("2")),
        (bv("C"), bv("3")),
    ]);
    assert_eq!(hs.to_text().as_slice(), b"A: 1\nB: 2\nC: 3");
}

#[test]
fn from_entries_preserves_order() {
    let hs = Headers::from_entries(vec![
        Header::new(bv("One"), bv("a")),
        Header::new(bv("Two"), bv("b")),
    ]);
    assert_eq!(hs.to_text().as_slice(), b"One: a\nTwo: b");
}

#[test]
fn header_parse_error_message() {
    let e = Header::from_line(b"nope").unwrap_err();
    assert_eq!(e.message(), "HeaderParseError");
}
