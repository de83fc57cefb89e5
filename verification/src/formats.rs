use vstd::prelude::*;
use vstd::string::StrSliceExecFns;
use crate::timestamp::Timestamp;

verus! {

// The fixed table of candidate timestamp formats, in priority order: the
// first candidate whose fixed-width prefix parses wins.  Order matters
// because a prefix of a longer fractional-second format can itself look like
// a valid whole-second format.

/// Number of candidate formats in the table.
pub open spec fn num_candidates() -> int {
    10
}

/// The strftime-style pattern of candidate `i`.
pub open spec fn cand_pattern(i: int) -> Seq<char> {
    if i == 0 {
        "%FT%T%.f"@  // eg, "2018-05-09T12:00:09.123123123"
    } else if i == 1 {
        "%FT%T%.f"@  // eg, "2018-05-09T12:00:09.123123"
    } else if i == 2 {
        "%FT%T%.f"@  // eg, "2018-05-09T12:00:09.123"
    } else if i == 3 {
        "%FT%T"@  // eg, "2018-05-09T12:00:09"
    } else if i == 4 {
        "%F %T%.f"@  // eg, "2018-05-09 12:00:09.123123123"
    } else if i == 5 {
        "%F %T%.f"@  // eg, "2018-05-09 12:00:09.123123"
    } else if i == 6 {
        "%F %T%.f"@  // eg, "2018-05-09 12:00:09.123"
    } else if i == 7 {
        "%F %T"@  // eg, "2018-05-09 12:00:09"
    } else if i == 8 {
        "%Y%m%d%H%M%S"@  // eg, "20180509120009"
    } else {
        "%c"@  // eg, "Sat May 12 11:39:55 2018"
    }
}

/// The fixed prefix width, in characters, of candidate `i`.
pub open spec fn cand_width(i: int) -> int {
    if i == 0 {
        29
    } else if i == 1 {
        26
    } else if i == 2 {
        23
    } else if i == 3 {
        19
    } else if i == 4 {
        29
    } else if i == 5 {
        26
    } else if i == 6 {
        23
    } else if i == 7 {
        19
    } else if i == 8 {
        14
    } else {
        24
    }
}

/// The `(pattern, width)` pair of candidate `i`, as executable values.
pub fn candidate(i: usize) -> (r: (&'static str, usize))
    requires
        i < num_candidates(),
    ensures
        r.0@ == cand_pattern(i as int),
        r.1 == cand_width(i as int),
{
    if i == 0 {
        ("%FT%T%.f", 29)
    } else if i == 1 {
        ("%FT%T%.f", 26)
    } else if i == 2 {
        ("%FT%T%.f", 23)
    } else if i == 3 {
        ("%FT%T", 19)
    } else if i == 4 {
        ("%F %T%.f", 29)
    } else if i == 5 {
        ("%F %T%.f", 26)
    } else if i == 6 {
        ("%F %T%.f", 23)
    } else if i == 7 {
        ("%F %T", 19)
    } else if i == 8 {
        ("%Y%m%d%H%M%S", 14)
    } else {
        ("%c", 24)
    }
}

/// What `chrono` parses a piece of text to, under a given pattern: `Some` of
/// the instant as seconds and nanoseconds since the Unix epoch, or `None` on
/// a parse failure.  Parsing is a pure function of the pattern and the text.
pub uninterp spec fn chrono_parse(pattern: Seq<char>, text: Seq<char>) -> Option<Timestamp>;

/// Relies on `chrono::NaiveDateTime::parse_from_str`: whether and how a string
/// parses under a format pattern depends on the pattern and the string alone.
/// The parsed instant is returned as seconds and nanoseconds since the Unix
/// epoch, interpreting the parsed date-time as UTC.
#[verifier::external_body]
pub(crate) fn parse_timestamp(pattern: &str, text: &str) -> (r: Option<Timestamp>)
    ensures
        r == chrono_parse(pattern@, text@),
{
    match chrono::NaiveDateTime::parse_from_str(text, pattern) {
        Ok(dt) => Some(
            Timestamp { secs: dt.and_utc().timestamp(), nanos: dt.and_utc().timestamp_subsec_nanos() },
        ),
        Err(_) => None,
    }
}

/// The result of parsing the fixed-width prefix of `line` under candidate `i`.
pub open spec fn spec_parse_at(i: int, line: Seq<char>) -> Option<Timestamp> {
    chrono_parse(cand_pattern(i), line.take(cand_width(i)))
}

/// Candidate `i` matches `line`: the line is long enough and its prefix parses.
pub open spec fn cand_matches(i: int, line: Seq<char>) -> bool {
    line.len() >= cand_width(i) && spec_parse_at(i, line) is Some
}

/// The first candidate from index `i` on that matches `line`, if any.
pub open spec fn spec_guess_from(line: Seq<char>, i: int) -> Option<int>
    decreases num_candidates() - i,
{
    if i < 0 || i >= num_candidates() {
        None
    } else if cand_matches(i, line) {
        Some(i)
    } else {
        spec_guess_from(line, i + 1)
    }
}

/// The first candidate in table order that matches `line`, if any.
pub open spec fn spec_guess(line: Seq<char>) -> Option<int> {
    spec_guess_from(line, 0)
}

/// Attempts each candidate in priority order against the line's prefix and
/// returns the index of the first one that parses; `None` if every candidate
/// fails or the line is too short for all of them.
pub fn guess_index(line: &str) -> (r: Option<usize>)
    ensures
        r matches Some(i) ==> i < num_candidates() && spec_guess(line@) == Some(i as int),
        r is None ==> spec_guess(line@) is None,
{
    let n = line.unicode_len();
    let mut i: usize = 0;
    while i < 10
        invariant
            0 <= i <= 10,
            n == line@.len(),
            spec_guess(line@) == spec_guess_from(line@, i as int),
        decreases 10 - i,
    {
        let (pat, w) = candidate(i);
        if n >= w {
            let prefix = line.substring_char(0, w);
            if parse_timestamp(pat, prefix).is_some() {
                assert(prefix@ == line@.take(cand_width(i as int)));
                assert(spec_guess_from(line@, i as int) == Some(i as int));
                return Some(i);
            }
        }
        proof {
            assert(!cand_matches(i as int, line@));
            assert(spec_guess_from(line@, i as int) == spec_guess_from(line@, i as int + 1));
        }
        i += 1;
    }
    None
}

/// Attempts each candidate in priority order against the line's prefix and
/// returns the first `(pattern, width)` pair that parses; `None` if every
/// candidate fails or the line is too short for all of them.
pub fn guess_datetime_format(line: &str) -> (r: Option<(&'static str, usize)>)
    ensures
        r is Some <==> spec_guess(line@) is Some,
        r matches Some(pw) ==> (spec_guess(line@) matches Some(i) && pw.0@ == cand_pattern(i)
            && pw.1 == cand_width(i)),
{
    match guess_index(line) {
        Some(i) => {
            let (pat, w) = candidate(i);
            Some((pat, w))
        },
        None => None,
    }
}

/// Helper for `lemma_guess_first_candidate`: the guess from index `i` on is
/// the least matching candidate at or past `i`.
proof fn lemma_guess_from_first(line: Seq<char>, i: int, r: int)
    requires
        spec_guess_from(line, i) == Some(r),
    ensures
        i <= r < num_candidates(),
        cand_matches(r, line),
        forall|j: int| i <= j < r ==> !cand_matches(j, line),
    decreases num_candidates() - i,
{
    if i < 0 || i >= num_candidates() {
    } else if cand_matches(i, line) {
    } else {
        lemma_guess_from_first(line, i + 1, r);
    }
}

/// The detector obeys the table's priority order: when it returns candidate
/// `i`, that candidate matches the line and no earlier candidate does.  With
/// `spec_guess` being a function of the line alone, the selection for a fixed
/// line is always the same.
pub proof fn lemma_guess_first_candidate(line: Seq<char>, i: int)
    requires
        spec_guess(line) == Some(i),
    ensures
        0 <= i < num_candidates(),
        cand_matches(i, line),
        forall|j: int| 0 <= j < i ==> !cand_matches(j, line),
{
    lemma_guess_from_first(line, 0, i);
}

} // verus!
