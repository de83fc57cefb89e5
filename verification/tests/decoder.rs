use logmerge::Utf8LineReader;

fn utf16le_bytes(s: &str) -> Vec<u8> {
    let mut out: Vec<u8> = Vec::new();
    for unit in s.encode_utf16() {
        let le = unit.to_le_bytes();
        out.push(le[0]);
        out.push(le[1]);
    }
    out
}

fn read_all(mut reader: Utf8LineReader) -> Vec<String> {
    let mut lines: Vec<String> = Vec::new();
    while let Some(line) = reader.next() {
        lines.push(line);
    }
    lines
}

#[test]
fn no_bom_decodes_as_utf8() {
    let lines = read_all(Utf8LineReader::new(b"alpha\nbeta".to_vec()));
    assert_eq!(lines, vec![String::from("alpha"), String::from("beta")]);
}

#[test]
fn utf8_bom_is_stripped() {
    let mut bytes = vec![0xefu8, 0xbb, 0xbf];
    bytes.extend_from_slice(b"first\nsecond\n");
    let lines = read_all(Utf8LineReader::new(bytes));
    assert_eq!(lines, vec![String::from("first"), String::from("second")]);
}

#[test]
fn utf16le_bom_selects_utf16le() {
    let mut bytes = vec![0xffu8, 0xfe];
    bytes.extend_from_slice(&utf16le_bytes("hi\nthere\n"));
    let lines = read_all(Utf8LineReader::new(bytes));
    assert_eq!(lines, vec![String::from("hi"), String::from("there")]);
}

#[test]
fn utf16le_low_byte_0a_is_not_a_line_feed() {
    // U+020A has the code unit 0A 02: its low byte 0x0A must not break the
    // line, because the following byte is non-zero.
    let mut bytes = vec![0xffu8, 0xfe];
    bytes.extend_from_slice(&utf16le_bytes("a\u{020a}b\n"));
    let lines = read_all(Utf8LineReader::new(bytes));
    assert_eq!(lines, vec![String::from("a\u{020a}b")]);
}

#[test]
fn crlf_terminators_are_stripped() {
    let lines = read_all(Utf8LineReader::new(b"one\r\ntwo\r\n".to_vec()));
    assert_eq!(lines, vec![String::from("one"), String::from("two")]);
}

#[test]
fn lone_carriage_return_is_kept() {
    // Only a trailing "\r\n" pair loses its carriage return.
    let lines = read_all(Utf8LineReader::new(b"one\rtwo\n".to_vec()));
    assert_eq!(lines, vec![String::from("one\rtwo")]);
}

#[test]
fn empty_input_yields_no_lines() {
    let lines = read_all(Utf8LineReader::new(Vec::new()));
    assert_eq!(lines, Vec::<String>::new());
}

#[test]
fn final_line_without_terminator_is_yielded() {
    let lines = read_all(Utf8LineReader::new(b"a\nb".to_vec()));
    assert_eq!(lines, vec![String::from("a"), String::from("b")]);
}

#[test]
fn round_trip_utf8() {
    let text = "one\ntwo\nthree";
    let lines = read_all(Utf8LineReader::new(text.as_bytes().to_vec()));
    assert_eq!(lines.join("\n"), text);
}

#[test]
fn round_trip_utf16le() {
    let text = "ab\ncd\u{00e9}\nef";
    let mut bytes = vec![0xffu8, 0xfe];
    bytes.extend_from_slice(&utf16le_bytes(text));
    let lines = read_all(Utf8LineReader::new(bytes));
    assert_eq!(lines.join("\n"), text);
}

#[test]
fn malformed_utf8_uses_replacement_character() {
    let lines = read_all(Utf8LineReader::new(vec![0x61u8, 0xff, 0x62, 0x0a]));
    assert_eq!(lines, vec![String::from("a\u{fffd}b")]);
}

#[test]
fn exhausted_reader_keeps_reporting_no_more_lines() {
    let mut reader = Utf8LineReader::new(b"only\n".to_vec());
    assert_eq!(reader.next(), Some(String::from("only")));
    assert_eq!(reader.next(), None);
    assert_eq!(reader.next(), None);
}

