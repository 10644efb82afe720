//! FASTQ: records of exactly four lines (header, sequence, separator, quality).

use core::marker::PhantomData;
use vstd::prelude::*;
use vstd::slice::slice_to_vec;

pub use crate::error::ParseError;
use crate::error::{lossy_text, text_of};
use crate::lines::{
    chunk_at, chunk_end, content, content_len, find_chunk_end, fits_line, lemma_read_last_line,
    lemma_read_line, terminator, NEWLINE,
};
pub use crate::record::{Phred, Record};

verus! {

/// The byte that starts a FASTQ header line (`@`).
pub const ID_MARKER: u8 = 64;

/// The byte that a FASTQ separator line consists of (`+`).
pub const SEPARATOR: u8 = 43;

/// Whether `c` is non-empty and starts with `m`.
pub open spec fn starts_with(c: Seq<u8>, m: u8) -> bool {
    c.len() > 0 && c[0] == m
}

/// Whether `c` is a separator line's content: the marker and nothing else.
pub open spec fn is_separator(c: Seq<u8>) -> bool {
    c.len() == 1 && c[0] == SEPARATOR
}

/// The views of some line slices.
pub open spec fn views(ls: Seq<&[u8]>) -> Seq<Seq<u8>> {
    ls.map_values(|l: &[u8]| l@)
}

/// Whether `r` is what one FASTQ step gives when the line reads returned
/// `lines` (fewer than four where the input ended). The checks run in a fixed
/// order and the first that fails decides the error.
pub open spec fn fastq_outcome(lines: Seq<Seq<u8>>, r: Option<Result<Record, ParseError>>) -> bool {
    if lines.len() == 0 {
        r is None
    } else if !starts_with(content(lines[0]), ID_MARKER) {
        r matches Some(Err(ParseError::InvalidId(t))) && t@ == lossy_text(content(lines[0]))
    } else if lines.len() < 3 {
        r == Some(Err::<Record, ParseError>(ParseError::TruncatedRecord))
    } else if !is_separator(content(lines[2])) {
        r == Some(Err::<Record, ParseError>(ParseError::InvalidSeparationLine))
    } else if lines.len() < 4 {
        r == Some(Err::<Record, ParseError>(ParseError::TruncatedRecord))
    } else if content(lines[3]).len() != content(lines[1]).len() {
        r == Some(Err::<Record, ParseError>(ParseError::InvalidQuality))
    } else {
        r matches Some(Ok(rec)) && rec@ == (
            content(lines[0]).subrange(1, content(lines[0]).len() as int),
            content(lines[1]),
            Some(content(lines[3])),
        )
    }
}

/// Validates the chunks read for one record and builds it. `lines` holds what
/// up to four line reads returned, stopping at the end of input; no lines
/// means the input ended cleanly.
pub fn build_record(lines: &[&[u8]]) -> (r: Option<Result<Record, ParseError>>)
    ensures
        fastq_outcome(views(lines@), r),
        r matches Some(Ok(rec)) ==> rec.wf(),
{
    let n = lines.len();
    if n == 0 {
        return None;
    }
    let header = lines[0];
    let hl = content_len(header);
    if hl == 0 || header[0] != ID_MARKER {
        proof {
            assert(header@.subrange(0, hl as int) == content(views(lines@)[0]));
        }
        return Some(Err(ParseError::InvalidId(text_of(&header[0..hl]))));
    }
    if n < 3 {
        return Some(Err(ParseError::TruncatedRecord));
    }
    let sep = lines[2];
    if content_len(sep) != 1 || sep[0] != SEPARATOR {
        return Some(Err(ParseError::InvalidSeparationLine));
    }
    if n < 4 {
        return Some(Err(ParseError::TruncatedRecord));
    }
    let seq = lines[1];
    let qual = lines[3];
    let sl = content_len(seq);
    let ql = content_len(qual);
    if sl != ql {
        return Some(Err(ParseError::InvalidQuality));
    }
    let rec = Record {
        raw_fields: slice_to_vec(&header[1..hl]),
        raw_seq: slice_to_vec(&seq[0..sl]),
        raw_quality: Some(slice_to_vec(&qual[0..ql])),
    };
    proof {
        let ls = views(lines@);
        assert(rec@.0 =~= content(ls[0]).subrange(1, content(ls[0]).len() as int));
        assert(rec@.1 =~= content(ls[1]));
        assert(rec@.2->Some_0 =~= content(ls[3]));
    }
    Some(Ok(rec))
}

/// Where the line reads stand after `n` of them from `pos` (reads past the
/// end of input return nothing and move nothing).
pub open spec fn pos_after(s: Seq<u8>, pos: int, n: nat) -> int
    decreases n,
{
    if n == 0 {
        pos
    } else {
        let p = pos_after(s, pos, (n - 1) as nat);
        if p >= s.len() {
            p
        } else {
            chunk_end(s, p)
        }
    }
}

/// The non-empty chunks that `n` line reads from `pos` return.
pub open spec fn chunks_from(s: Seq<u8>, pos: int, n: nat) -> Seq<Seq<u8>>
    decreases n,
{
    if n == 0 {
        Seq::empty()
    } else {
        let prev = chunks_from(s, pos, (n - 1) as nat);
        let p = pos_after(s, pos, (n - 1) as nat);
        if p >= s.len() {
            prev
        } else {
            prev.push(chunk_at(s, p))
        }
    }
}

/// Quality and sequence agree in length: a well-formed record's quality has
/// one byte per sequence byte, and lines that differ in length give
/// `InvalidQuality`, never a shortened record.
pub proof fn lemma_quality_matches_sequence(lines: Seq<Seq<u8>>, r: Option<Result<Record, ParseError>>)
    requires
        lines.len() == 4,
        starts_with(content(lines[0]), ID_MARKER),
        is_separator(content(lines[2])),
        fastq_outcome(lines, r),
    ensures
        content(lines[3]).len() != content(lines[1]).len() ==> r == Some(
            Err::<Record, ParseError>(ParseError::InvalidQuality),
        ),
        content(lines[3]).len() == content(lines[1]).len() ==> r matches Some(Ok(rec)),
        r matches Some(Ok(rec)) ==> rec.wf() && rec@.2 == Some(content(lines[3])),
{
}

/// An empty input gives no record, and a reader at the end of its input
/// stays there and keeps giving `None`.
pub proof fn lemma_fastq_end(s: Seq<u8>, pos: int, r: Option<Result<Record, ParseError>>)
    requires
        0 <= pos,
        s.len() <= pos,
        fastq_outcome(chunks_from(s, pos, 4), r),
    ensures
        r is None,
        pos_after(s, pos, 4) == pos,
{
    assert(pos_after(s, pos, 0) == pos);
    assert(chunks_from(s, pos, 0).len() == 0);
    assert(pos_after(s, pos, 1) == pos);
    assert(pos_after(s, pos, 2) == pos);
    assert(pos_after(s, pos, 3) == pos);
    assert(chunks_from(s, pos, 1).len() == 0);
    assert(chunks_from(s, pos, 2).len() == 0);
    assert(chunks_from(s, pos, 3).len() == 0);
}

/// A record whose quality line has no terminator, at the end of input, is
/// still read whole, and the reader is then at the end.
pub proof fn lemma_unterminated_quality(
    id: Seq<u8>,
    sq: Seq<u8>,
    q: Seq<u8>,
    r: Option<Result<Record, ParseError>>,
)
    requires
        fits_line(id, false),
        fits_line(sq, false),
        forall|i: int| 0 <= i < q.len() ==> q[i] != NEWLINE,
        q.len() == sq.len(),
        q.len() > 0,
        fastq_outcome(
            chunks_from(
                seq![ID_MARKER] + id + seq![NEWLINE] + sq + seq![NEWLINE] + seq![SEPARATOR]
                    + seq![NEWLINE] + q,
                0,
                4,
            ),
            r,
        ),
    ensures
        r matches Some(Ok(rec)) && rec@ == (id, sq, Some(q)),
        pos_after(
            seq![ID_MARKER] + id + seq![NEWLINE] + sq + seq![NEWLINE] + seq![SEPARATOR] + seq![NEWLINE]
                + q,
            0,
            4,
        ) == id.len() + sq.len() + q.len() + 5,
{
    let h = seq![ID_MARKER] + id;
    let sp = seq![SEPARATOR];
    let s = seq![ID_MARKER] + id + seq![NEWLINE] + sq + seq![NEWLINE] + seq![SEPARATOR] + seq![NEWLINE] + q;
    let t = terminator(false);
    let seq_at = h.len() + 1int;
    let sep_at = seq_at + sq.len() + 1;
    let qual_at = sep_at + 2;
    assert(s =~= h + t + sq + t + sp + t + q);
    assert forall|i: int| 0 <= i < h.len() implies h[i] != NEWLINE by {
        if i > 0 {
            assert(h[i] == id[i - 1]);
        }
    }
    if id.len() > 0 {
        assert(h.last() == id.last());
    }
    assert(s.subrange(0, seq_at) =~= h + t);
    lemma_read_line(s, 0, h, false);
    assert(s.subrange(seq_at, sep_at) =~= sq + t);
    lemma_read_line(s, seq_at, sq, false);
    assert(s.subrange(sep_at, qual_at) =~= sp + t);
    lemma_read_line(s, sep_at, sp, false);
    assert(s.subrange(qual_at, s.len() as int) =~= q);
    lemma_read_last_line(s, qual_at, q);
    assert(pos_after(s, 0, 0) == 0);
    assert(chunks_from(s, 0, 0) == Seq::<Seq<u8>>::empty());
    assert(pos_after(s, 0, 1) == seq_at);
    assert(pos_after(s, 0, 2) == sep_at);
    assert(pos_after(s, 0, 3) == qual_at);
    assert(pos_after(s, 0, 4) == s.len());
    let ls = chunks_from(s, 0, 4);
    assert(chunks_from(s, 0, 1) == seq![chunk_at(s, 0)]);
    assert(chunks_from(s, 0, 2) == seq![chunk_at(s, 0), chunk_at(s, seq_at)]);
    assert(chunks_from(s, 0, 3) == seq![chunk_at(s, 0), chunk_at(s, seq_at), chunk_at(s, sep_at)]);
    assert(ls == seq![chunk_at(s, 0), chunk_at(s, seq_at), chunk_at(s, sep_at), chunk_at(s, qual_at)]);
    assert(content(ls[0]).subrange(1, content(ls[0]).len() as int) =~= id);
}

/// A FASTQ reader over bytes in memory.
pub struct Fastq<'a> {
    buffer: &'a [u8],
    pos: usize,
    stop_on_error: bool,
    stopped: bool,
}

impl<'a> Fastq<'a> {
    /// The bytes being read.
    pub closed spec fn input(&self) -> Seq<u8> {
        self.buffer@
    }

    /// How far the reader has read.
    pub closed spec fn position(&self) -> int {
        self.pos as int
    }

    /// Whether the reader stops for good at its first error.
    pub closed spec fn stops_on_error(&self) -> bool {
        self.stop_on_error
    }

    /// Whether the reader has stopped after an error.
    pub closed spec fn is_stopped(&self) -> bool {
        self.stopped
    }

    pub closed spec fn wf(&self) -> bool {
        self.pos <= self.buffer@.len()
    }

    /// A reader at the start of `buf`.
    pub fn new(buf: &'a [u8]) -> (r: Self)
        ensures
            r.wf(),
            r.input() == buf@,
            r.position() == 0,
            !r.stops_on_error(),
            !r.is_stopped(),
    {
        Fastq { buffer: buf, pos: 0, stop_on_error: false, stopped: false }
    }

    /// A reader at the start of `buf` that gives nothing more after its
    /// first error.
    pub fn stopping_at_first_error(buf: &'a [u8]) -> (r: Self)
        ensures
            r.wf(),
            r.input() == buf@,
            r.position() == 0,
            r.stops_on_error(),
            !r.is_stopped(),
    {
        Fastq { buffer: buf, pos: 0, stop_on_error: true, stopped: false }
    }

    /// One step of the reader, whatever its error policy.
    fn parse(&mut self) -> (r: Option<Result<Record, ParseError>>)
        requires
            old(self).wf(),
        ensures
            final(self).wf(),
            final(self).input() == old(self).input(),
            final(self).position() == pos_after(old(self).input(), old(self).position(), 4),
            fastq_outcome(chunks_from(old(self).input(), old(self).position(), 4), r),
            final(self).stops_on_error() == old(self).stops_on_error(),
            final(self).is_stopped() == old(self).is_stopped(),
            r matches Some(Ok(rec)) ==> rec.wf(),
    {
        let ghost s = self.buffer@;
        let ghost start = self.pos as int;
        let mut lines: Vec<&[u8]> = Vec::new();
        let mut k: usize = 0;
        while k < 4
            invariant
                s == self.buffer@,
                self.stop_on_error == old(self).stop_on_error,
                self.stopped == old(self).stopped,
                k <= 4,
                self.pos <= s.len(),
                self.pos == pos_after(s, start, k as nat),
                views(lines@) == chunks_from(s, start, k as nat),
            decreases 4 - k,
        {
            if self.pos < self.buffer.len() {
                let e = find_chunk_end(self.buffer, self.pos);
                let line = &self.buffer[self.pos..e];
                proof {
                    assert(line@ == chunk_at(s, self.pos as int));
                }
                lines.push(line);
                self.pos = e;
                proof {
                    assert(views(lines@) =~= chunks_from(s, start, (k + 1) as nat));
                }
            }
            k = k + 1;
        }
        build_record(lines.as_slice())
    }

    /// The next record, an error for a malformed one, or `None` at the end of
    /// input. Reads four lines, fewer where the input ends. A reader that
    /// stops on errors gives `None` from its first error on.
    pub fn next(&mut self) -> (r: Option<Result<Record, ParseError>>)
        requires
            old(self).wf(),
        ensures
            final(self).wf(),
            final(self).input() == old(self).input(),
            final(self).stops_on_error() == old(self).stops_on_error(),
            old(self).is_stopped() ==> r is None && final(self).position() == old(self).position()
                && final(self).is_stopped(),
            !old(self).is_stopped() ==> {
                &&& final(self).position() == pos_after(old(self).input(), old(self).position(), 4)
                &&& fastq_outcome(chunks_from(old(self).input(), old(self).position(), 4), r)
                &&& final(self).is_stopped() == (old(self).stops_on_error() && r matches Some(Err(_)))
            },
            r matches Some(Ok(rec)) ==> rec.wf(),
    {
        if self.stopped {
            return None;
        }
        let r = self.parse();
        if self.stop_on_error {
            if let Some(Err(_)) = &r {
                self.stopped = true;
            }
        }
        r
    }
}

/// A FASTQ reader over a buffered byte source, which is read from outside
/// the verified code: each record's lines go to [`build_record`].
pub struct FastqReader<R, S> {
    reader: R,
    buffer: Vec<u8>,
    _s: PhantomData<S>,
}

impl<R, S> FastqReader<R, S> {
    /// The byte source.
    pub closed spec fn source(&self) -> R {
        self.reader
    }

    /// A reader over `reader`.
    pub fn new(reader: R) -> (r: Self)
        ensures
            r.source() == reader,
    {
        FastqReader { reader, buffer: Vec::new(), _s: PhantomData }
    }

    /// The byte source and a line buffer to read into, emptied first.
    pub fn parts_mut(&mut self) -> (r: (&mut R, &mut Vec<u8>))
        ensures
            *r.0 == old(self).source(),
            r.1@.len() == 0,
            final(self).source() == *final(r.0),
    {
        self.buffer.clear();
        (&mut self.reader, &mut self.buffer)
    }
}

} // verus!
