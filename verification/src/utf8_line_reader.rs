use vstd::prelude::*;
use vstd::string::StrSliceExecFns;
use vstd::slice::slice_subrange;

verus! {

/// The text encodings the reader distinguishes, chosen by byte-order mark.
#[derive(Clone, Copy, Debug, PartialEq, Eq, Structural)]
pub enum Encoding {
    Utf8,
    Utf16Le,
}

/// The encoding chosen for a byte stream: UTF-16LE when the stream opens with
/// the UTF-16LE byte-order mark `FF FE`, UTF-8 otherwise.
pub open spec fn spec_encoding_of(bytes: Seq<u8>) -> Encoding {
    if bytes.len() >= 2 && bytes[0] == 0xffu8 && bytes[1] == 0xfeu8 {
        Encoding::Utf16Le
    } else {
        Encoding::Utf8
    }
}

/// How many leading bytes form a byte-order mark and are not text.
pub open spec fn spec_bom_len(bytes: Seq<u8>) -> int {
    if bytes.len() >= 2 && bytes[0] == 0xffu8 && bytes[1] == 0xfeu8 {
        2
    } else if bytes.len() >= 3 && bytes[0] == 0xefu8 && bytes[1] == 0xbbu8 && bytes[2] == 0xbfu8 {
        3
    } else {
        0
    }
}

/// A genuine line feed starts at index `i`: a `0x0A` byte, which for UTF-16LE
/// must be the low byte of the two-byte code unit `0A 00`.  A `0x0A` low byte
/// whose high byte is non-zero belongs to some other character.
pub open spec fn is_terminator_at(enc: Encoding, bytes: Seq<u8>, i: int) -> bool {
    match enc {
        Encoding::Utf8 => bytes[i] == 0x0au8,
        Encoding::Utf16Le => bytes[i] == 0x0au8 && i + 1 < bytes.len() && bytes[i + 1] == 0x00u8,
    }
}

/// How many bytes a line feed occupies in the encoding.
pub open spec fn terminator_len(enc: Encoding) -> int {
    match enc {
        Encoding::Utf8 => 1,
        Encoding::Utf16Le => 2,
    }
}

/// Index just past the end of the first line chunk of `bytes`, scanning from
/// `i`: the first genuine line feed ends the chunk (terminator included);
/// without one the chunk runs to the end of the input.
pub open spec fn spec_chunk_end_from(enc: Encoding, bytes: Seq<u8>, i: int) -> int
    decreases bytes.len() - i,
{
    if i < 0 || i >= bytes.len() {
        bytes.len() as int
    } else if is_terminator_at(enc, bytes, i) {
        i + terminator_len(enc)
    } else {
        spec_chunk_end_from(enc, bytes, i + 1)
    }
}

/// The first chunk of a non-empty input is non-empty and lies within it.
pub proof fn lemma_chunk_end_bounds(enc: Encoding, bytes: Seq<u8>, i: int)
    requires
        0 <= i < bytes.len(),
    ensures
        i < spec_chunk_end_from(enc, bytes, i) <= bytes.len(),
    decreases bytes.len() - i,
{
    if !is_terminator_at(enc, bytes, i) {
        if i + 1 < bytes.len() {
            lemma_chunk_end_bounds(enc, bytes, i + 1);
        } else {
            assert(spec_chunk_end_from(enc, bytes, i + 1) == bytes.len());
        }
    }
}

/// A UTF-16LE line break is only ever introduced after a genuine `0A 00`
/// code unit: either the chunk runs to the end of the input, or the two
/// bytes just before its end are `0x0A` and `0x00`.  In particular, a `0x0A`
/// low byte followed by a non-zero high byte never breaks a line.
pub proof fn lemma_utf16le_break_genuine(bytes: Seq<u8>, i: int)
    requires
        0 <= i <= bytes.len(),
    ensures
        ({
            let e = spec_chunk_end_from(Encoding::Utf16Le, bytes, i);
            e == bytes.len() || (i + 2 <= e && bytes[e - 2] == 0x0au8 && bytes[e - 1] == 0x00u8)
        }),
    decreases bytes.len() - i,
{
    if i < bytes.len() && !is_terminator_at(Encoding::Utf16Le, bytes, i) {
        lemma_utf16le_break_genuine(bytes, i + 1);
    }
}

/// What `encoding_rs` decodes a whole UTF-8 byte buffer to, with malformed
/// sequences replaced by the replacement character.
pub uninterp spec fn utf8_decoded(bytes: Seq<u8>) -> Seq<char>;

/// What `encoding_rs` decodes a whole UTF-16LE byte buffer to, with malformed
/// sequences replaced by the replacement character.
pub uninterp spec fn utf16le_decoded(bytes: Seq<u8>) -> Seq<char>;

/// Relies on `encoding_rs::UTF_8.decode_without_bom_handling`: whole-buffer
/// decoding with the replacement-character policy, a pure function of the
/// input bytes; an empty buffer decodes to the empty string.
#[verifier::external_body]
fn decode_utf8(bytes: &[u8]) -> (r: String)
    ensures
        r@ == utf8_decoded(bytes@),
        bytes@.len() == 0 ==> r@.len() == 0,
{
    let (text, _had_errors) = encoding_rs::UTF_8.decode_without_bom_handling(bytes);
    text.into_owned()
}

/// Relies on `encoding_rs::UTF_16LE.decode_without_bom_handling`: whole-buffer
/// decoding with the replacement-character policy, a pure function of the
/// input bytes; an empty buffer decodes to the empty string.
#[verifier::external_body]
fn decode_utf16le(bytes: &[u8]) -> (r: String)
    ensures
        r@ == utf16le_decoded(bytes@),
        bytes@.len() == 0 ==> r@.len() == 0,
{
    let (text, _had_errors) = encoding_rs::UTF_16LE.decode_without_bom_handling(bytes);
    text.into_owned()
}

/// The decoded text of a byte buffer under the given encoding.
pub open spec fn spec_decode(enc: Encoding, bytes: Seq<u8>) -> Seq<char> {
    match enc {
        Encoding::Utf8 => utf8_decoded(bytes),
        Encoding::Utf16Le => utf16le_decoded(bytes),
    }
}

/// A trailing `'\n'` removed, and then a trailing `'\r'` if one preceded it.
pub open spec fn spec_strip(s: Seq<char>) -> Seq<char> {
    if s.len() > 0 && s[s.len() - 1] == '\n' {
        if s.len() > 1 && s[s.len() - 2] == '\r' {
            s.take(s.len() - 2)
        } else {
            s.take(s.len() - 1)
        }
    } else {
        s
    }
}

/// The text of one raw line chunk: decoded, line terminator stripped.
pub open spec fn spec_line_of(enc: Encoding, chunk: Seq<u8>) -> Seq<char> {
    spec_strip(spec_decode(enc, chunk))
}

/// The decoded lines of a byte stream (after the byte-order mark): each chunk
/// runs up to and including a genuine line feed, and decodes to one line.
pub open spec fn spec_lines(enc: Encoding, bytes: Seq<u8>) -> Seq<Seq<char>>
    decreases bytes.len(),
        via spec_lines_decreases
{
    if bytes.len() == 0 {
        Seq::empty()
    } else {
        let e = spec_chunk_end_from(enc, bytes, 0);
        seq![spec_line_of(enc, bytes.take(e))] + spec_lines(enc, bytes.skip(e))
    }
}

#[via_fn]
proof fn spec_lines_decreases(enc: Encoding, bytes: Seq<u8>) {
    if bytes.len() > 0 {
        lemma_chunk_end_bounds(enc, bytes, 0);
    }
}

/// Removes the line terminator from the end of a decoded line, if present:
/// a trailing `'\n'` first, then a trailing `'\r'`.
fn strip_line_terminator(s: String) -> (r: String)
    ensures
        r@ == spec_strip(s@),
{
    let st = s.as_str();
    let n = st.unicode_len();
    if n > 0 && st.get_char(n - 1) == '\n' {
        if n > 1 && st.get_char(n - 2) == '\r' {
            let r = st.substring_char(0, n - 2).to_owned();
            assert(r@ =~= spec_strip(s@));
            r
        } else {
            let r = st.substring_char(0, n - 1).to_owned();
            assert(r@ =~= spec_strip(s@));
            r
        }
    } else {
        s
    }
}

/// The raw line chunks of a byte stream: each runs up to and including a
/// genuine line feed; the last may end without one.
pub open spec fn spec_chunks(enc: Encoding, bytes: Seq<u8>) -> Seq<Seq<u8>>
    decreases bytes.len(),
        via spec_chunks_decreases
{
    if bytes.len() == 0 {
        Seq::empty()
    } else {
        let e = spec_chunk_end_from(enc, bytes, 0);
        seq![bytes.take(e)] + spec_chunks(enc, bytes.skip(e))
    }
}

#[via_fn]
proof fn spec_chunks_decreases(enc: Encoding, bytes: Seq<u8>) {
    if bytes.len() > 0 {
        lemma_chunk_end_bounds(enc, bytes, 0);
    }
}

/// Splitting into line chunks loses no bytes: the chunks, re-joined,
/// reproduce the input exactly, and the lines the reader yields are the
/// decoded, terminator-stripped forms of exactly these chunks, in order.
pub proof fn lemma_chunks_partition(enc: Encoding, bytes: Seq<u8>)
    ensures
        spec_chunks(enc, bytes).flatten() == bytes,
        spec_chunks(enc, bytes).len() == spec_lines(enc, bytes).len(),
        forall|i: int|
            0 <= i < spec_lines(enc, bytes).len() ==> spec_lines(enc, bytes)[i] == spec_line_of(
                enc,
                #[trigger] spec_chunks(enc, bytes)[i],
            ),
    decreases bytes.len(),
{
    let c = spec_chunks(enc, bytes);
    if bytes.len() == 0 {
        assert(c.flatten() =~= bytes);
    } else {
        lemma_chunk_end_bounds(enc, bytes, 0);
        let e = spec_chunk_end_from(enc, bytes, 0);
        lemma_chunks_partition(enc, bytes.skip(e));
        assert(c.first() == bytes.take(e));
        assert(c.drop_first() =~= spec_chunks(enc, bytes.skip(e)));
        assert(c.flatten() == c.first() + c.drop_first().flatten());
        assert(c.flatten() =~= bytes);
        assert forall|i: int|
            0 <= i < spec_lines(enc, bytes).len() implies spec_lines(enc, bytes)[i]
            == spec_line_of(enc, #[trigger] spec_chunks(enc, bytes)[i]) by {
            if i > 0 {
                assert(spec_lines(enc, bytes)[i] == spec_lines(enc, bytes.skip(e))[i - 1]);
                assert(spec_chunks(enc, bytes)[i] == spec_chunks(enc, bytes.skip(e))[i - 1]);
            }
        }
    }
}

/// Reads text out of raw file bytes a line at a time, returning each line as
/// a UTF-8 string with its terminator stripped.  The encoding is decided
/// once, at construction, from a leading byte-order mark.
pub struct Utf8LineReader {
    bytes: Vec<u8>,
    pos: usize,
    encoding: Encoding,
}

impl Utf8LineReader {
    /// The encoding the reader decided on at construction.
    pub closed spec fn enc(self) -> Encoding {
        self.encoding
    }

    /// The bytes not yet consumed.
    pub closed spec fn remaining(self) -> Seq<u8> {
        self.bytes@.skip(self.pos as int)
    }

    /// The reader's position never passes the end of its bytes.
    pub closed spec fn wf(self) -> bool {
        self.pos <= self.bytes@.len()
    }

    /// The lines still to be produced.
    pub open spec fn lines(self) -> Seq<Seq<char>> {
        spec_lines(self.enc(), self.remaining())
    }

    /// Builds a reader over the raw bytes of one source.  The encoding comes
    /// from the leading byte-order mark (UTF-16LE marker, or the UTF-8 mark,
    /// defaulting to UTF-8), and the mark itself is not part of the text.
    pub fn new(bytes: Vec<u8>) -> (r: Utf8LineReader)
        ensures
            r.wf(),
            r.enc() == spec_encoding_of(bytes@),
            r.remaining() == bytes@.skip(spec_bom_len(bytes@)),
    {
        let n = bytes.len();
        let enc: Encoding;
        let bom: usize;
        if n >= 2 && bytes[0] == 0xff && bytes[1] == 0xfe {
            enc = Encoding::Utf16Le;
            bom = 2;
        } else if n >= 3 && bytes[0] == 0xef && bytes[1] == 0xbb && bytes[2] == 0xbf {
            enc = Encoding::Utf8;
            bom = 3;
        } else {
            enc = Encoding::Utf8;
            bom = 0;
        }
        Utf8LineReader { bytes, pos: bom, encoding: enc }
    }

    /// Finds the absolute index just past the current line chunk.
    fn find_chunk_end(&self) -> (end: usize)
        requires
            self.wf(),
            self.pos < self.bytes@.len(),
        ensures
            self.pos < end <= self.bytes@.len(),
            end - self.pos == spec_chunk_end_from(self.enc(), self.remaining(), 0),
    {
        let n = self.bytes.len();
        let mut i: usize = self.pos;
        while i < n
            invariant
                self.pos <= i <= n,
                n == self.bytes@.len(),
                self.wf(),
                spec_chunk_end_from(self.enc(), self.remaining(), 0) == spec_chunk_end_from(
                    self.enc(),
                    self.remaining(),
                    i - self.pos,
                ),
            decreases n - i,
        {
            let b = self.bytes[i];
            proof {
                assert(self.remaining()[i - self.pos] == self.bytes@[i as int]);
                if i + 1 < n {
                    assert(self.remaining()[i + 1 - self.pos] == self.bytes@[i as int + 1]);
                }
            }
            let is_term: bool = match self.encoding {
                Encoding::Utf8 => b == 0x0a,
                Encoding::Utf16Le => b == 0x0a && i + 1 < n && self.bytes[i + 1] == 0x00,
            };
            if is_term {
                let tl: usize = match self.encoding {
                    Encoding::Utf8 => 1,
                    Encoding::Utf16Le => 2,
                };
                assert(spec_chunk_end_from(self.enc(), self.remaining(), i - self.pos) == i
                    - self.pos + terminator_len(self.enc()));
                return i + tl;
            }
            proof {
                assert(!is_terminator_at(self.enc(), self.remaining(), i - self.pos));
            }
            i += 1;
        }
        assert(spec_chunk_end_from(self.enc(), self.remaining(), i - self.pos)
            == self.remaining().len());
        n
    }

    /// Produces the next line, or `None` when the source is exhausted.  Each
    /// line is consumed once and never replayed.
    pub fn next(&mut self) -> (r: Option<String>)
        requires
            old(self).wf(),
        ensures
            final(self).wf(),
            final(self).enc() == old(self).enc(),
            old(self).lines().len() == 0 ==> r is None && final(self).lines()
                == old(self).lines(),
            old(self).lines().len() > 0 ==> (r matches Some(s) && s@ == old(self).lines()[0]
                && final(self).lines() == old(self).lines().skip(1)),
    {
        if self.pos >= self.bytes.len() {
            return None;
        }
        proof {
            lemma_chunk_end_bounds(self.enc(), self.remaining(), 0);
        }
        let ghost old_rem = self.remaining();
        let ghost e = spec_chunk_end_from(self.enc(), old_rem, 0);
        let end = self.find_chunk_end();
        let chunk: &[u8] = slice_subrange(self.bytes.as_slice(), self.pos, end);
        assert(chunk@ =~= old_rem.take(e));
        let raw = match self.encoding {
            Encoding::Utf8 => decode_utf8(chunk),
            Encoding::Utf16Le => decode_utf16le(chunk),
        };
        let line = strip_line_terminator(raw);
        self.pos = end;
        proof {
            assert(self.remaining() =~= old_rem.skip(e));
            assert(old(self).lines() == seq![spec_line_of(old(self).enc(), old_rem.take(e))]
                + spec_lines(old(self).enc(), old_rem.skip(e)));
            assert(line@ == old(self).lines()[0]);
            assert(self.lines() =~= old(self).lines().skip(1));
        }
        Some(line)
    }
}

} // verus!
