use logmerge::{merge_logs, LogFileReader, Record, State, Timestamp, Utf8LineReader};

fn reader_from(name: &str, text: &[u8]) -> LogFileReader {
    LogFileReader::new(String::from(name), Utf8LineReader::new(text.to_vec()))
}

fn summary(records: &[Record]) -> Vec<(String, String)> {
    records.iter().map(|r| (r.source.clone(), r.line.clone())).collect()
}

#[test]
fn two_files_interleave_chronologically() {
    let a = reader_from("a.log", b"2018-05-09T10:00:00 a1\n2018-05-09T10:02:00 a2\n");
    let b = reader_from("b.log", b"2018-05-09T10:01:00 b1\n2018-05-09T10:03:00 b2\n");
    let out = merge_logs(vec![a, b]);
    assert_eq!(
        summary(&out),
        vec![
            (String::from("a.log"), String::from(" a1")),
            (String::from("b.log"), String::from(" b1")),
            (String::from("a.log"), String::from(" a2")),
            (String::from("b.log"), String::from(" b2")),
        ]
    );
}

#[test]
fn tie_goes_to_the_source_listed_first() {
    let a = reader_from("A", b"2018-05-09T10:00:00 hello\n");
    let b = reader_from("B", b"2018-05-09T10:00:00 world\n");
    let out = merge_logs(vec![a, b]);
    assert_eq!(
        summary(&out),
        vec![
            (String::from("A"), String::from(" hello")),
            (String::from("B"), String::from(" world")),
        ]
    );
}

#[test]
fn merged_timestamps_are_non_decreasing() {
    let a = reader_from("a", b"2018-05-09T09:00:00 x\n2018-05-09T11:00:00 y\n");
    let b = reader_from("b", b"2018-05-09T10:00:00 p\n2018-05-09T10:30:00 q\n");
    let c = reader_from("c", b"2018-05-09T08:00:00 m\n");
    let out = merge_logs(vec![a, b, c]);
    assert_eq!(out.len(), 5);
    for w in out.windows(2) {
        assert!(
            w[0].timestamp.secs < w[1].timestamp.secs
                || (w[0].timestamp.secs == w[1].timestamp.secs
                    && w[0].timestamp.nanos <= w[1].timestamp.nanos)
        );
    }
}

#[test]
fn single_presorted_file_is_re_emitted_in_order() {
    let text = b"noise before\n2018-05-09T10:00:00 one\nskip me\n2018-05-09T10:01:00 two\n2018-05-09T10:02:00 three\n";
    let out = merge_logs(vec![reader_from("solo", text)]);
    assert_eq!(
        summary(&out),
        vec![
            (String::from("solo"), String::from(" one")),
            (String::from("solo"), String::from(" two")),
            (String::from("solo"), String::from(" three")),
        ]
    );
}

#[test]
fn parsed_timestamp_is_exact() {
    let out = merge_logs(vec![reader_from("t", b"2018-05-09 12:00:09 boom\n")]);
    assert_eq!(out.len(), 1);
    assert_eq!(out[0].timestamp, Timestamp { secs: 1525867209, nanos: 0 });
    assert_eq!(out[0].line, String::from(" boom"));
}

#[test]
fn fractional_seconds_become_nanoseconds() {
    let out = merge_logs(vec![reader_from("t", b"2018-05-09 12:00:09.123 x\n")]);
    assert_eq!(out.len(), 1);
    assert_eq!(out[0].timestamp, Timestamp { secs: 1525867209, nanos: 123000000 });
}

#[test]
fn never_matching_file_emits_nothing() {
    let out = merge_logs(vec![reader_from("junk", b"alpha\nbeta\ngamma\n")]);
    assert_eq!(out.len(), 0);
}

#[test]
fn never_matching_cursor_goes_straight_to_done() {
    let mut r = reader_from("junk", b"alpha\nbeta\n");
    assert_eq!(r.state(), State::Hungry);
    r.advance();
    assert_eq!(r.state(), State::Done);
    assert_eq!(r.take_line(), None);
}

#[test]
fn empty_source_does_not_block_the_merge() {
    let empty = reader_from("empty", b"");
    let full = reader_from("full", b"2018-05-09T10:00:00 data\n");
    let out = merge_logs(vec![empty, full]);
    assert_eq!(summary(&out), vec![(String::from("full"), String::from(" data"))]);
}

#[test]
fn format_locks_in_on_first_success() {
    // The first matching line fixes the format; a later line in another
    // format is dropped rather than re-guessed.
    let text = b"2018-05-09T10:00:00 one\n20180509110000 compact\n2018-05-09T12:00:00 two\n";
    let out = merge_logs(vec![reader_from("lock", text)]);
    assert_eq!(
        summary(&out),
        vec![
            (String::from("lock"), String::from(" one")),
            (String::from("lock"), String::from(" two")),
        ]
    );
}

#[test]
fn take_line_outside_readable_returns_none() {
    let mut r = reader_from("t", b"2018-05-09T10:00:00 data\n");
    assert_eq!(r.take_line(), None);
    r.advance();
    assert_eq!(r.state(), State::Readable);
    let taken = r.take_line();
    assert_eq!(
        taken,
        Some((
            String::from("t"),
            Timestamp { secs: 1525860000, nanos: 0 },
            String::from(" data"),
        ))
    );
    assert_eq!(r.state(), State::Hungry);
}

#[test]
fn advance_is_idempotent_when_readable() {
    let mut r = reader_from("t", b"2018-05-09T10:00:00 a\n2018-05-09T10:01:00 b\n");
    r.advance();
    let t1 = r.timestamp();
    r.advance();
    assert_eq!(r.state(), State::Readable);
    assert_eq!(r.timestamp(), t1);
}

#[test]
fn utf16le_file_merges_with_utf8_file() {
    let mut bytes = vec![0xffu8, 0xfe];
    for unit in "2018-05-09T10:00:30 wide\n".encode_utf16() {
        let le = unit.to_le_bytes();
        bytes.push(le[0]);
        bytes.push(le[1]);
    }
    let wide = LogFileReader::new(String::from("wide"), Utf8LineReader::new(bytes));
    let narrow = reader_from("narrow", b"2018-05-09T10:00:00 narrow\n");
    let out = merge_logs(vec![wide, narrow]);
    assert_eq!(
        summary(&out),
        vec![
            (String::from("narrow"), String::from(" narrow")),
            (String::from("wide"), String::from(" wide")),
        ]
    );
}

#[test]
fn ctime_style_timestamp_is_exact() {
    let out = merge_logs(vec![reader_from("c", b"Sat May 12 11:39:55 2018 m\n")]);
    assert_eq!(out.len(), 1);
    assert_eq!(out[0].timestamp, Timestamp { secs: 1526125195, nanos: 0 });
    assert_eq!(out[0].line, String::from(" m"));
}

#[test]
fn fractional_lines_order_within_one_second() {
    let a = reader_from("a", b"2018-05-09 12:00:09.500 late\n");
    let b = reader_from("b", b"2018-05-09 12:00:09.100 early\n");
    let out = merge_logs(vec![a, b]);
    assert_eq!(
        summary(&out),
        vec![
            (String::from("b"), String::from(" early")),
            (String::from("a"), String::from(" late")),
        ]
    );
}

