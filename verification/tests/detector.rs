use logmerge::formats::guess_datetime_format;

#[test]
fn fractional_t_separated_wins_widest_first() {
    let r = guess_datetime_format("2018-05-09T12:00:09.123456789 rest of line");
    assert_eq!(r, Some(("%FT%T%.f", 29)));
}

#[test]
fn fractional_space_separated_wins_over_whole_second() {
    // A length-19 prefix of this line would parse as "%F %T" too, but the
    // width-29 fractional candidate is listed first and wins.
    let r = guess_datetime_format("2018-05-09 12:00:09.123456789 x");
    assert_eq!(r, Some(("%F %T%.f", 29)));
}

#[test]
fn millisecond_width() {
    let r = guess_datetime_format("2018-05-09 12:00:09.123 x");
    assert_eq!(r, Some(("%F %T%.f", 23)));
}

#[test]
fn whole_second_space_separated() {
    let r = guess_datetime_format("2018-05-09 12:00:09 hello");
    assert_eq!(r, Some(("%F %T", 19)));
}

#[test]
fn whole_second_t_separated() {
    let r = guess_datetime_format("2018-05-09T12:00:09 hello");
    assert_eq!(r, Some(("%FT%T", 19)));
}

#[test]
fn compact_digits_format() {
    let r = guess_datetime_format("20180509120009 x");
    assert_eq!(r, Some(("%Y%m%d%H%M%S", 14)));
}

#[test]
fn ctime_style_format() {
    let r = guess_datetime_format("Sat May 12 11:39:55 2018 message");
    assert_eq!(r, Some(("%c", 24)));
}

#[test]
fn unrecognized_line_gives_none() {
    assert_eq!(guess_datetime_format("hello world"), None);
    assert_eq!(guess_datetime_format(""), None);
}

#[test]
fn line_shorter_than_every_candidate_gives_none() {
    assert_eq!(guess_datetime_format("2018-05-09"), None);
}

#[test]
fn detector_is_deterministic() {
    let line = "2018-05-09 12:00:09 same line";
    assert_eq!(guess_datetime_format(line), guess_datetime_format(line));
}
