use vstd::prelude::*;
use vstd::string::StrSliceExecFns;
use crate::timestamp::Timestamp;
use crate::formats::{
    cand_matches, cand_width, candidate, guess_index, lemma_guess_first_candidate,
    num_candidates, parse_timestamp, spec_guess, spec_parse_at,
};
use crate::utf8_line_reader::Utf8LineReader;

verus! {

/// The three states of a cursor over one log file.
#[derive(Clone, Copy, Debug, PartialEq, Eq, Structural)]
pub enum State {
    /// A validly timestamped line is staged, ready to be read.
    Readable,
    /// Nothing is staged; the cursor needs to be advanced.
    Hungry,
    /// There are no lines remaining to be read.
    Done,
}

/// The format under which a line is judged: the cursor's locked-in format if
/// there is one, else whatever the detector guesses from this very line.
pub open spec fn step_fmt(fmt: Option<int>, line: Seq<char>) -> Option<int> {
    if fmt is Some {
        fmt
    } else {
        spec_guess(line)
    }
}

/// The line yields a timestamp for a cursor whose format is `fmt`.
pub open spec fn line_matches(fmt: Option<int>, line: Seq<char>) -> bool {
    match step_fmt(fmt, line) {
        Some(i) => cand_matches(i, line),
        None => false,
    }
}

/// How many leading lines a cursor with format `fmt` discards before the
/// first line that yields a timestamp; all of them if none does.
pub open spec fn skip_count(fmt: Option<int>, lines: Seq<Seq<char>>) -> int
    decreases lines.len(),
{
    if lines.len() == 0 {
        0
    } else if line_matches(fmt, lines[0]) {
        0
    } else {
        1 + skip_count(fmt, lines.skip(1))
    }
}

/// The skip count stops exactly at the first matching line.
pub proof fn lemma_skip_count(fmt: Option<int>, lines: Seq<Seq<char>>)
    ensures
        0 <= skip_count(fmt, lines) <= lines.len(),
        forall|j: int| 0 <= j < skip_count(fmt, lines) ==> !line_matches(fmt, lines[j]),
        skip_count(fmt, lines) < lines.len() ==> line_matches(
            fmt,
            lines[skip_count(fmt, lines)],
        ),
    decreases lines.len(),
{
    if lines.len() == 0 || line_matches(fmt, lines[0]) {
    } else {
        lemma_skip_count(fmt, lines.skip(1));
        assert forall|j: int| 0 <= j < skip_count(fmt, lines) implies !line_matches(
            fmt,
            lines[j],
        ) by {
            if j > 0 {
                assert(lines.skip(1)[j - 1] == lines[j]);
            }
        }
        assert(skip_count(fmt, lines) < lines.len() ==> lines.skip(1)[skip_count(fmt, lines) - 1]
            == lines[skip_count(fmt, lines)]);
    }
}

/// A source none of whose lines ever matches any candidate is skipped whole:
/// a cursor that never detects a format discards every line.
pub proof fn lemma_never_matching_source(lines: Seq<Seq<char>>)
    requires
        forall|j: int| 0 <= j < lines.len() ==> spec_guess(#[trigger] lines[j]) is None,
    ensures
        skip_count(None::<int>, lines) == lines.len(),
    decreases lines.len(),
{
    if lines.len() > 0 {
        assert(spec_guess(lines[0]) is None);
        assert(!line_matches(None::<int>, lines[0]));
        assert forall|j: int| 0 <= j < lines.skip(1).len() implies spec_guess(
            #[trigger] lines.skip(1)[j],
        ) is None by {
            assert(lines.skip(1)[j] == lines[j + 1]);
        }
        lemma_never_matching_source(lines.skip(1));
    }
}

/// With no format locked in yet, a line yields a timestamp exactly when the
/// detector finds a candidate for it.
pub proof fn lemma_line_matches_fresh(line: Seq<char>)
    ensures
        line_matches(None::<int>, line) <==> spec_guess(line) is Some,
{
    if spec_guess(line) is Some {
        lemma_guess_first_candidate(line, spec_guess(line).unwrap());
    }
}

/// The records a cursor emits from `lines` when its format is `fmt`: for each
/// line that yields a timestamp, the parsed timestamp and the remainder of
/// the line past the fixed-width prefix; lines that yield none are dropped.
/// The first detection locks the format in for the rest of the file.
pub open spec fn spec_records(fmt: Option<int>, lines: Seq<Seq<char>>) -> Seq<
    (Timestamp, Seq<char>),
>
    decreases lines.len(),
        via spec_records_decreases
{
    if lines.len() == 0 {
        Seq::empty()
    } else {
        let k = skip_count(fmt, lines);
        if k >= lines.len() {
            Seq::empty()
        } else {
            let line = lines[k];
            let f = step_fmt(fmt, line);
            let i = f.unwrap();
            seq![(spec_parse_at(i, line).unwrap(), line.skip(cand_width(i)))] + spec_records(
                f,
                lines.skip(k + 1),
            )
        }
    }
}

#[via_fn]
proof fn spec_records_decreases(fmt: Option<int>, lines: Seq<Seq<char>>) {
    if lines.len() > 0 {
        lemma_skip_count(fmt, lines);
    }
}

/// A file whose lines never match any candidate format yields no records at
/// all: its cursor reaches `Done` without ever becoming `Readable`.
pub proof fn lemma_never_matching_records(lines: Seq<Seq<char>>)
    requires
        forall|j: int| 0 <= j < lines.len() ==> spec_guess(#[trigger] lines[j]) is None,
    ensures
        spec_records(None::<int>, lines) == Seq::<(Timestamp, Seq<char>)>::empty(),
{
    lemma_never_matching_source(lines);
}

/// Discarding a line that yields no timestamp does not change what a cursor
/// will emit.
pub proof fn lemma_records_skip_one(fmt: Option<int>, lines: Seq<Seq<char>>)
    requires
        lines.len() > 0,
        !line_matches(fmt, lines[0]),
    ensures
        spec_records(fmt, lines) == spec_records(fmt, lines.skip(1)),
{
    let k = skip_count(fmt, lines);
    lemma_skip_count(fmt, lines);
    let tail = lines.skip(1);
    assert(k == 1 + skip_count(fmt, tail));
    lemma_skip_count(fmt, tail);
    if k >= lines.len() {
        assert(spec_records(fmt, lines) == Seq::<(Timestamp, Seq<char>)>::empty());
        assert(spec_records(fmt, tail) == Seq::<(Timestamp, Seq<char>)>::empty());
    } else {
        let line = lines[k];
        assert(tail[k - 1] == line);
        let f = step_fmt(fmt, line);
        let i = f.unwrap();
        assert(tail.skip(k - 1 + 1) =~= lines.skip(k + 1));
        assert(spec_records(fmt, lines) == seq![(spec_parse_at(i, line).unwrap(), line.skip(
            cand_width(i),
        ))] + spec_records(f, lines.skip(k + 1)));
        assert(spec_records(fmt, tail) == seq![(spec_parse_at(i, line).unwrap(), line.skip(
            cand_width(i),
        ))] + spec_records(f, tail.skip(k - 1 + 1)));
    }
}

/// Skipping the discarded lines, and locking in the format the first
/// matching line detects, does not change what a cursor will emit.
pub proof fn lemma_records_after_skip(fmt: Option<int>, lines: Seq<Seq<char>>)
    requires
        skip_count(fmt, lines) < lines.len(),
    ensures
        ({
            let k = skip_count(fmt, lines);
            let f = step_fmt(fmt, lines[k]);
            spec_records(fmt, lines) == spec_records(f, lines.skip(k))
        }),
{
    let k = skip_count(fmt, lines);
    let line = lines[k];
    lemma_skip_count(fmt, lines);
    let f = step_fmt(fmt, line);
    let i = f.unwrap();
    assert(line_matches(fmt, line));
    let tail = lines.skip(k);
    assert(tail[0] == line);
    assert(step_fmt(f, line) == f);
    assert(line_matches(f, line));
    assert(skip_count(f, tail) == 0);
    assert(tail.skip(1) =~= lines.skip(k + 1));
    assert(spec_records(f, tail) == seq![(spec_parse_at(i, line).unwrap(), line.skip(
        cand_width(i),
    ))] + spec_records(f, lines.skip(k + 1)));
}

/// A reader for log files with timestamps: wraps the decoded line sequence of
/// one file, skips lines without a recognizable timestamp, and stages one
/// timestamped line at a time for the merge.
pub struct LogFileReader {
    filename: String,
    lines: Utf8LineReader,
    staged: Option<String>,
    format: Option<usize>,
    length: usize,
    timestamp: Timestamp,
    state: State,
}

impl LogFileReader {
    /// The label of the source this cursor reads.
    pub closed spec fn spec_filename(self) -> Seq<char> {
        self.filename@
    }

    /// The cursor's state.
    pub closed spec fn spec_state(self) -> State {
        self.state
    }

    /// The staged line's parsed timestamp; meaningful only when `Readable`.
    pub closed spec fn spec_timestamp(self) -> Timestamp {
        self.timestamp
    }

    /// Reads the cursor's state.
    pub fn state(&self) -> (s: State)
        ensures
            s == self.spec_state(),
    {
        self.state
    }

    /// Reads the staged line's timestamp.
    pub fn timestamp(&self) -> (t: Timestamp)
        ensures
            t == self.spec_timestamp(),
    {
        self.timestamp
    }

    /// The format locked in so far, as a candidate index.
    pub closed spec fn fmt(self) -> Option<int> {
        match self.format {
            Some(i) => Some(i as int),
            None => None,
        }
    }

    /// The lines not yet consumed, the staged one first.
    pub closed spec fn pending(self) -> Seq<Seq<char>> {
        match self.staged {
            Some(s) => seq![s@] + self.lines.lines(),
            None => self.lines.lines(),
        }
    }

    /// The records this cursor will still emit.
    pub open spec fn records(self) -> Seq<(Timestamp, Seq<char>)> {
        spec_records(self.fmt(), self.pending())
    }

    /// The cursor's internal consistency: the locked format is a real
    /// candidate with its width cached, and whenever the state is `Readable`
    /// the staged line parses under the locked format to the stored
    /// timestamp.
    pub closed spec fn wf(self) -> bool {
        &&& self.lines.wf()
        &&& match self.format {
            Some(i) => i < num_candidates() && self.length == cand_width(i as int),
            None => self.length == 0 && self.state != State::Readable,
        }
        &&& (self.state == State::Hungry ==> self.staged is None)
        &&& (self.state == State::Done ==> self.staged is None && self.lines.lines().len() == 0)
        &&& (self.state == State::Readable ==> (self.staged matches Some(s)
            && self.fmt() matches Some(i) && cand_matches(i, s@) && spec_parse_at(i, s@)
            == Some(self.timestamp)))
    }

    /// Creates a LogFileReader for the given source label and line reader.
    /// It starts `Hungry`, with no format detected and nothing staged.
    pub fn new(filename: String, reader: Utf8LineReader) -> (r: LogFileReader)
        requires
            reader.wf(),
        ensures
            r.wf(),
            r.spec_filename() == filename@,
            r.fmt() is None,
            r.spec_state() == State::Hungry,
            r.pending() == reader.lines(),
            r.records() == spec_records(None::<int>, reader.lines()),
    {
        LogFileReader {
            filename,
            lines: reader,
            staged: None,
            format: None,
            length: 0,
            timestamp: Timestamp { secs: 0, nanos: 0 },
            state: State::Hungry,
        }
    }

    /// Advances a `Hungry` cursor to the next timestamped line: discards
    /// lines until one yields a timestamp (detecting the format on the way if
    /// none is locked yet) and stages it, or runs out of lines and is `Done`.
    /// A no-op in any other state.  What the cursor will emit is unchanged.
    pub fn advance(&mut self)
        requires
            old(self).wf(),
        ensures
            final(self).wf(),
            final(self).spec_filename() == old(self).spec_filename(),
            final(self).records() == old(self).records(),
            old(self).spec_state() != State::Hungry ==> *final(self) == *old(self),
            old(self).spec_state() == State::Hungry ==> ({
                let k = skip_count(old(self).fmt(), old(self).pending());
                &&& final(self).pending() == old(self).pending().skip(k)
                &&& final(self).spec_timestamp() == old(self).spec_timestamp() || k < old(self).pending().len()
                &&& if k == old(self).pending().len() {
                    final(self).spec_state() == State::Done && final(self).fmt() == old(self).fmt()
                } else {
                    final(self).spec_state() == State::Readable && final(self).fmt() == step_fmt(
                        old(self).fmt(),
                        old(self).pending()[k],
                    )
                }
            }),
            final(self).spec_state() == State::Readable ==> final(self).records().len() > 0
                && final(self).records()[0].0 == final(self).spec_timestamp(),
            final(self).spec_state() == State::Done ==> final(self).records().len() == 0,
            final(self).spec_state() == State::Readable || final(self).spec_state() == State::Done
                || final(self).spec_state() == old(self).spec_state(),
    {
        if self.state != State::Hungry {
            proof {
                if self.state == State::Readable {
                    lemma_readable_head(*self);
                }
            }
            return;
        }
        let ghost mut consumed: int = 0;
        loop
            invariant
                self.wf(),
                old(self).spec_state() == State::Hungry,
                self.state == State::Hungry,
                self.staged is None,
                self.fmt() == old(self).fmt(),
                self.timestamp == old(self).spec_timestamp(),
                self.filename == old(self).filename,
                self.format == old(self).format,
                self.length == old(self).length,
                0 <= consumed,
                consumed + self.pending().len() == old(self).pending().len(),
                self.pending() == old(self).pending().skip(consumed),
                skip_count(old(self).fmt(), old(self).pending()) == consumed + skip_count(
                    self.fmt(),
                    self.pending(),
                ),
                spec_records(old(self).fmt(), old(self).pending()) == spec_records(
                    self.fmt(),
                    self.pending(),
                ),
            decreases self.pending().len(),
        {
            let ghost pend = self.pending();
            let nxt = self.lines.next();
            match nxt {
                None => {
                    self.state = State::Done;
                    proof {
                        assert(pend.len() == 0);
                        assert(old(self).pending().skip(consumed)
                            =~= old(self).pending().skip(old(self).pending().len() as int));
                    }
                    return;
                },
                Some(line) => {
                    proof {
                        assert(pend[0] == line@);
                    }
                    let line_str = line.as_str();
                    let n = line_str.unicode_len();
                    if self.format.is_none() {
                        if let Some(gi) = guess_index(line_str) {
                            let (_pat, w) = candidate(gi);
                            self.format = Some(gi);
                            self.length = w;
                            proof {
                                lemma_guess_first_candidate(line@, gi as int);
                            }
                        }
                    }
                    if let Some(fi) = self.format {
                        if n >= self.length {
                            let prefix = line_str.substring_char(0, self.length);
                            let (pat, _w) = candidate(fi);
                            assert(prefix@ == line@.take(cand_width(fi as int)));
                            if let Some(ts) = parse_timestamp(pat, prefix) {
                                self.timestamp = ts;
                                self.state = State::Readable;
                                self.staged = Some(line);
                                proof {
                                    assert(cand_matches(fi as int, line@));
                                    assert(line_matches(old(self).fmt(), pend[0]));
                                    assert(skip_count(old(self).fmt(), old(self).pending())
                                        == consumed);
                                    assert(self.pending() =~= old(self).pending().skip(
                                        consumed,
                                    ));
                                    lemma_records_after_skip(
                                        old(self).fmt(),
                                        old(self).pending(),
                                    );
                                    lemma_readable_head(*self);
                                }
                                return;
                            }
                        }
                    }
                    // The line does not yield a timestamp: discard it.
                    proof {
                        assert(!line_matches(self.fmt(), pend[0]));
                        if old(self).fmt() is None && self.fmt() is Some {
                            // A detection that cannot fail to re-parse: the
                            // guessed candidate matched this very line.
                            assert(cand_matches(self.fmt().unwrap(), pend[0]));
                            assert(false);
                        }
                        assert(!line_matches(old(self).fmt(), pend[0]));
                        assert(skip_count(old(self).fmt(), pend) == 1 + skip_count(
                            old(self).fmt(),
                            pend.skip(1),
                        ));
                        assert(self.pending() =~= pend.skip(1));
                        assert(old(self).pending().skip(consumed + 1) =~= pend.skip(1));
                        lemma_records_skip_one(self.fmt(), pend);
                        consumed = consumed + 1;
                    }
                },
            }
        }
    }

    /// Takes the staged line from a `Readable` cursor: re-validates its
    /// prefix under the locked format and returns the source label, the
    /// parsed timestamp, and the remainder of the line after the prefix; the
    /// cursor is `Hungry` again.  `None` in any other state.
    pub fn take_line(&mut self) -> (r: Option<(String, Timestamp, String)>)
        requires
            old(self).wf(),
        ensures
            final(self).wf(),
            final(self).spec_filename() == old(self).spec_filename(),
            final(self).fmt() == old(self).fmt(),
            old(self).spec_state() != State::Readable ==> r is None && *final(self) == *old(self),
            old(self).spec_state() == State::Readable ==> ({
                let line = old(self).pending()[0];
                let i = old(self).fmt().unwrap();
                &&& (r matches Some(t) && t.0@ == old(self).spec_filename()
                    && t.1 == old(self).spec_timestamp() && t.2@ == line.skip(cand_width(i)))
                &&& final(self).spec_state() == State::Hungry
                &&& final(self).pending() == old(self).pending().skip(1)
                &&& old(self).records().len() > 0
                &&& old(self).records()[0] == (old(self).spec_timestamp(), line.skip(cand_width(i)))
                &&& final(self).records() == old(self).records().skip(1)
            }),
    {
        if self.state != State::Readable {
            return None;
        }
        proof {
            lemma_readable_head(*self);
        }
        self.state = State::Hungry;
        let staged = self.staged.take();
        match staged {
            Some(line) => {
                let line_str = line.as_str();
                let n = line_str.unicode_len();
                let fi = match self.format {
                    Some(fi) => fi,
                    None => {
                        proof {
                            assert(false);
                        }
                        0
                    },
                };
                let (pat, w) = candidate(fi);
                assert(n >= w);
                let prefix = line_str.substring_char(0, w);
                assert(prefix@ == line@.take(cand_width(fi as int)));
                match parse_timestamp(pat, prefix) {
                    Some(ts) => {
                        let rest = line_str.substring_char(w, n).to_owned();
                        proof {
                            assert(rest@ =~= line@.skip(cand_width(fi as int)));
                            assert(old(self).pending()[0] == line@);
                            assert(self.pending() =~= old(self).pending().skip(1));
                        }
                        Some((self.filename.clone(), ts, rest))
                    },
                    None => {
                        // The staged line parsed when it was staged, and
                        // parsing is a pure function: this cannot happen.
                        proof {
                            assert(false);
                        }
                        None
                    },
                }
            },
            None => {
                proof {
                    assert(false);
                }
                None
            },
        }
    }
}

/// A `Readable` cursor's head record is its staged line's timestamp and
/// remainder.
proof fn lemma_readable_head(c: LogFileReader)
    requires
        c.wf(),
        c.state == State::Readable,
    ensures
        c.records().len() > 0,
        c.records()[0] == (c.timestamp, c.pending()[0].skip(cand_width(c.fmt().unwrap()))),
        c.records().skip(1) == spec_records(c.fmt(), c.pending().skip(1)),
{
    let line = c.pending()[0];
    let i = c.fmt().unwrap();
    assert(c.pending().len() > 0);
    assert(line_matches(c.fmt(), line));
    assert(skip_count(c.fmt(), c.pending()) == 0);
    assert(step_fmt(c.fmt(), line) == c.fmt());
    assert(c.pending().skip(0int + 1) =~= c.pending().skip(1));
    assert(c.records() == seq![(spec_parse_at(i, line).unwrap(), line.skip(cand_width(i)))]
        + spec_records(c.fmt(), c.pending().skip(1)));
    assert(c.records().skip(1) =~= spec_records(c.fmt(), c.pending().skip(1)));
}

} // verus!
