//! FASTA: a header line followed by any number of sequence lines.

use vstd::prelude::*;
use vstd::slice::slice_to_vec;

pub use crate::error::ParseError;
use crate::error::{lossy_text, text_of};
use crate::fastq::starts_with;
use crate::lines::{
    chunk_at, chunk_end, content, content_len, find_chunk_end, fits_line, lemma_chunk_end_bounds,
    lemma_read_last_line, lemma_read_line, terminator, NEWLINE,
};
pub use crate::record::Record;

verus! {

/// The byte that starts a FASTA header line (`>`).
pub const HEADER_MARKER: u8 = 62;

/// The sequence lines that start at `pos`: their contents concatenated, and
/// the position of the header line (or end of input) that ends them.
pub open spec fn fasta_body(s: Seq<u8>, pos: int) -> (Seq<u8>, int)
    decreases s.len() - pos,
{
    if pos < 0 || pos >= s.len() || s[pos] == HEADER_MARKER {
        (Seq::empty(), pos)
    } else {
        let e = chunk_end(s, pos);
        if e <= pos || e > s.len() {
            (Seq::empty(), pos)
        } else {
            let rest = fasta_body(s, e);
            (content(chunk_at(s, pos)) + rest.0, rest.1)
        }
    }
}

/// Whether `r` is what one FASTA step from `pos` gives, with the reader left
/// at `next`.
pub open spec fn fasta_outcome(s: Seq<u8>, pos: int, r: Option<Result<Record, ParseError>>, next: int) -> bool {
    if pos >= s.len() {
        r is None && next == pos
    } else {
        let h = content(chunk_at(s, pos));
        if !starts_with(h, HEADER_MARKER) {
            &&& r matches Some(Err(ParseError::InvalidId(t)))
            &&& t@ == lossy_text(h)
            &&& next == chunk_end(s, pos)
        } else {
            let b = fasta_body(s, chunk_end(s, pos));
            &&& r matches Some(Ok(rec))
            &&& rec@ == (h.subrange(1, h.len() as int), b.0, None::<Seq<u8>>)
            &&& next == b.1
        }
    }
}

/// Lines written one after another, each followed by its terminator.
pub open spec fn joined(ls: Seq<Seq<u8>>, crlf: bool) -> Seq<u8>
    decreases ls.len(),
{
    if ls.len() == 0 {
        Seq::empty()
    } else {
        ls[0] + terminator(crlf) + joined(ls.drop_first(), crlf)
    }
}

/// Lines concatenated, with nothing between them.
pub open spec fn concat(ls: Seq<Seq<u8>>) -> Seq<u8>
    decreases ls.len(),
{
    if ls.len() == 0 {
        Seq::empty()
    } else {
        ls[0] + concat(ls.drop_first())
    }
}

/// Whether `l` can be a sequence line's content: a line that fits before
/// its terminator and does not start a header.
pub open spec fn is_sequence_line(l: Seq<u8>, crlf: bool) -> bool {
    fits_line(l, crlf) && !starts_with(l, HEADER_MARKER)
}

/// The sequence of a record is the concatenation of its sequence lines
/// without their terminators, however many lines it spans: the lines up to
/// the next header line, or the end of input, are read as exactly that.
pub proof fn lemma_sequence_is_concatenation(
    pre: Seq<u8>,
    ls: Seq<Seq<u8>>,
    crlf: bool,
    rest: Seq<u8>,
)
    requires
        forall|i: int| 0 <= i < ls.len() ==> is_sequence_line(#[trigger] ls[i], crlf),
        rest.len() == 0 || rest[0] == HEADER_MARKER,
    ensures
        fasta_body(pre + joined(ls, crlf) + rest, pre.len() as int) == (
            concat(ls),
            (pre.len() + joined(ls, crlf).len()) as int,
        ),
    decreases ls.len(),
{
    let s = pre + joined(ls, crlf) + rest;
    let p = pre.len() as int;
    if ls.len() == 0 {
        assert(s =~= pre + rest);
        if rest.len() > 0 {
            assert(s[p] == rest[0]);
        }
    } else {
        let l0 = ls[0];
        let t = terminator(crlf);
        let tail = ls.drop_first();
        let pre2 = pre + l0 + t;
        assert(s =~= pre2 + joined(tail, crlf) + rest);
        assert(s.subrange(p, p + l0.len() + t.len()) =~= l0 + t);
        assert(is_sequence_line(ls[0], crlf));
        lemma_read_line(s, p, l0, crlf);
        if l0.len() > 0 {
            assert(s[p] == l0[0]);
        } else {
            assert(s[p] == t[0]);
        }
        assert forall|i: int| 0 <= i < tail.len() implies is_sequence_line(#[trigger] tail[i], crlf) by {
            assert(tail[i] == ls[i + 1]);
        }
        lemma_sequence_is_concatenation(pre2, tail, crlf, rest);
        assert(pre2.len() == p + l0.len() + t.len());
    }
}

/// For every record, the identifier is the header line's content without
/// the marker and the line terminator.
pub proof fn lemma_identifier_is_header_content(
    id: Seq<u8>,
    crlf: bool,
    rest: Seq<u8>,
    r: Option<Result<Record, ParseError>>,
    next: int,
)
    requires
        fits_line(id, crlf),
        fasta_outcome(seq![HEADER_MARKER] + id + terminator(crlf) + rest, 0, r, next),
    ensures
        r matches Some(Ok(rec)) && rec@.0 == id,
{
    let s = seq![HEADER_MARKER] + id + terminator(crlf) + rest;
    let h = seq![HEADER_MARKER] + id;
    assert(s =~= h + terminator(crlf) + rest);
    assert(s.subrange(0, (h.len() + terminator(crlf).len()) as int) =~= h + terminator(crlf));
    assert forall|i: int| 0 <= i < h.len() implies h[i] != NEWLINE by {
        if i > 0 {
            assert(h[i] == id[i - 1]);
        }
    }
    if !crlf && id.len() > 0 {
        assert(h.last() == id.last());
    }
    lemma_read_line(s, 0, h, crlf);
    assert(identifier(h) =~= id);
}

/// A record whose last sequence line has no terminator, at the end of
/// input, still comes out whole.
pub proof fn lemma_unterminated_last_line(
    id: Seq<u8>,
    line: Seq<u8>,
    r: Option<Result<Record, ParseError>>,
    next: int,
)
    requires
        fits_line(id, false),
        line.len() > 0,
        forall|i: int| 0 <= i < line.len() ==> line[i] != NEWLINE,
        !starts_with(line, HEADER_MARKER),
        fasta_outcome(seq![HEADER_MARKER] + id + seq![NEWLINE] + line, 0, r, next),
    ensures
        r matches Some(Ok(rec)) && rec@ == (id, line, None::<Seq<u8>>),
        next == id.len() + 2 + line.len(),
{
    let s = seq![HEADER_MARKER] + id + seq![NEWLINE] + line;
    let h = seq![HEADER_MARKER] + id;
    assert(s.subrange(0, h.len() + 1int) =~= h + terminator(false));
    assert forall|i: int| 0 <= i < h.len() implies h[i] != NEWLINE by {
        if i > 0 {
            assert(h[i] == id[i - 1]);
        }
    }
    if id.len() > 0 {
        assert(h.last() == id.last());
    }
    lemma_read_line(s, 0, h, false);
    assert(identifier(h) =~= id);
    let p = h.len() + 1int;
    assert(s.subrange(p, s.len() as int) =~= line);
    lemma_read_last_line(s, p, line);
    assert(s[p] == line[0]);
    assert(fasta_body(s, s.len() as int) == (Seq::<u8>::empty(), s.len() as int));
    assert(line + Seq::<u8>::empty() =~= line);
}

/// An empty input gives no record, and a reader that has given `None` keeps
/// giving it.
pub proof fn lemma_fasta_end(s: Seq<u8>, pos: int, r: Option<Result<Record, ParseError>>, next: int)
    requires
        0 <= pos <= s.len(),
        fasta_outcome(s, pos, r, next),
    ensures
        s.len() == 0 ==> r is None,
        r is None ==> next == pos && forall|r2: Option<Result<Record, ParseError>>, n2: int|
            fasta_outcome(s, next, r2, n2) ==> r2 is None && n2 == next,
{
    if pos < s.len() {
        let h = content(chunk_at(s, pos));
        if starts_with(h, HEADER_MARKER) {
            assert(r is Some);
        }
    }
}

/// Appends `src` to `dst`.
fn append_bytes(dst: &mut Vec<u8>, src: &[u8])
    ensures
        final(dst)@ == old(dst)@ + src@,
{
    let mut i: usize = 0;
    while i < src.len()
        invariant
            i <= src@.len(),
            dst@ == old(dst)@ + src@.subrange(0, i as int),
        decreases src@.len() - i,
    {
        dst.push(src[i]);
        i = i + 1;
        proof {
            assert(src@.subrange(0, i as int) =~= src@.subrange(0, i - 1) + seq![src@[i - 1]]);
        }
    }
    proof {
        assert(src@.subrange(0, src@.len() as int) =~= src@);
    }
}

/// A FASTA reader over bytes in memory.
pub struct Fasta<'a> {
    buffer: &'a [u8],
    pos: usize,
    stop_on_error: bool,
    stopped: bool,
}

impl<'a> Fasta<'a> {
    /// The bytes being read.
    pub closed spec fn input(&self) -> Seq<u8> {
        self.buffer@
    }

    /// How far the reader has read.
    pub closed spec fn position(&self) -> int {
        self.pos as int
    }

    /// Whether the reader stops for good at its first error.
    pub closed spec fn stops_on_error(&self) -> bool {
        self.stop_on_error
    }

    /// Whether the reader has stopped after an error.
    pub closed spec fn is_stopped(&self) -> bool {
        self.stopped
    }

    pub closed spec fn wf(&self) -> bool {
        self.pos <= self.buffer@.len()
    }

    /// A reader at the start of `buf`.
    pub fn new(buf: &'a [u8]) -> (r: Self)
        ensures
            r.wf(),
            r.input() == buf@,
            r.position() == 0,
            !r.stops_on_error(),
            !r.is_stopped(),
    {
        Fasta { buffer: buf, pos: 0, stop_on_error: false, stopped: false }
    }

    /// A reader at the start of `buf` that gives nothing more after its
    /// first error.
    pub fn stopping_at_first_error(buf: &'a [u8]) -> (r: Self)
        ensures
            r.wf(),
            r.input() == buf@,
            r.position() == 0,
            r.stops_on_error(),
            !r.is_stopped(),
    {
        Fasta { buffer: buf, pos: 0, stop_on_error: true, stopped: false }
    }

    /// One step of the reader, whatever its error policy.
    fn parse(&mut self) -> (r: Option<Result<Record, ParseError>>)
        requires
            old(self).wf(),
        ensures
            final(self).wf(),
            final(self).input() == old(self).input(),
            fasta_outcome(old(self).input(), old(self).position(), r, final(self).position()),
            final(self).stops_on_error() == old(self).stops_on_error(),
            final(self).is_stopped() == old(self).is_stopped(),
    {
        let ghost s = self.buffer@;
        let len = self.buffer.len();
        if self.pos >= len {
            return None;
        }
        let start = self.pos;
        let e = find_chunk_end(self.buffer, start);
        let header = &self.buffer[start..e];
        let hl = content_len(header);
        self.pos = e;
        if hl == 0 || header[0] != HEADER_MARKER {
            proof {
                assert(header@.subrange(0, hl as int) == content(chunk_at(s, start as int)));
            }
            return Some(Err(ParseError::InvalidId(text_of(&header[0..hl]))));
        }
        let fields = slice_to_vec(&header[1..hl]);
        let mut seq: Vec<u8> = Vec::new();
        while self.pos < len && self.buffer[self.pos] != HEADER_MARKER
            invariant
                s == self.buffer@,
                self.stop_on_error == old(self).stop_on_error,
                self.stopped == old(self).stopped,
                len == s.len(),
                e <= self.pos <= len,
                seq@ + fasta_body(s, self.pos as int).0 == fasta_body(s, e as int).0,
                fasta_body(s, self.pos as int).1 == fasta_body(s, e as int).1,
            decreases len - self.pos,
        {
            let p = self.pos;
            let ghost before = seq@;
            let pe = find_chunk_end(self.buffer, p);
            let line = &self.buffer[p..pe];
            let cl = content_len(line);
            append_bytes(&mut seq, &line[0..cl]);
            self.pos = pe;
            proof {
                assert(line@.subrange(0, cl as int) == content(chunk_at(s, p as int)));
                lemma_chunk_end_bounds(s, p as int);
                let c = content(chunk_at(s, p as int));
                let rest = fasta_body(s, pe as int).0;
                assert(fasta_body(s, p as int).0 == c + rest);
                assert(seq@ + rest =~= before + (c + rest));
            }
        }
        proof {
            assert(fasta_body(s, self.pos as int).0 =~= Seq::<u8>::empty());
            assert(seq@ =~= seq@ + Seq::<u8>::empty());
            assert(fields@ =~= content(chunk_at(s, start as int)).subrange(1, hl as int));
        }
        Some(Ok(Record { raw_fields: fields, raw_seq: seq, raw_quality: None }))
    }

    /// The next record, an error for a line where a header should stand, or
    /// `None` at the end of input. A record runs up to the next header line.
    /// A reader that stops on errors gives `None` from its first error on.
    pub fn next(&mut self) -> (r: Option<Result<Record, ParseError>>)
        requires
            old(self).wf(),
        ensures
            final(self).wf(),
            final(self).input() == old(self).input(),
            final(self).stops_on_error() == old(self).stops_on_error(),
            old(self).is_stopped() ==> r is None && final(self).position() == old(self).position()
                && final(self).is_stopped(),
            !old(self).is_stopped() ==> {
                &&& fasta_outcome(old(self).input(), old(self).position(), r, final(self).position())
                &&& final(self).is_stopped() == (old(self).stops_on_error() && r matches Some(Err(_)))
            },
            r matches Some(Ok(rec)) ==> rec.wf(),
    {
        if self.stopped {
            return None;
        }
        let r = self.parse();
        if self.stop_on_error {
            if let Some(Err(_)) = &r {
                self.stopped = true;
            }
        }
        r
    }
}

/// What a FASTA reader carries between line reads: the identifier of the
/// record in progress, if any, and the sequence bytes gathered for it.
pub struct FastaState {
    header: Option<Vec<u8>>,
    seq: Vec<u8>,
}

/// The view of a [`FastaState`]: identifier in progress and sequence so far.
pub type FastaStateView = (Option<Seq<u8>>, Seq<u8>);

impl View for FastaState {
    type V = FastaStateView;

    closed spec fn view(&self) -> FastaStateView {
        (
            match self.header {
                Some(h) => Some(h@),
                None => None,
            },
            self.seq@,
        )
    }
}

/// The identifier that a header line's content gives.
pub open spec fn identifier(h: Seq<u8>) -> Seq<u8> {
    h.subrange(1, h.len() as int)
}

/// Whether feeding one line read (`None`: the input ended) to a reader in
/// state `st` gives `r` and the state `next`. `r` is `None` where another
/// line is needed, else what the reader's step returns.
pub open spec fn feed_outcome(
    st: FastaStateView,
    line: Option<Seq<u8>>,
    r: Option<Option<Result<Record, ParseError>>>,
    next: FastaStateView,
) -> bool {
    match st.0 {
        None => match line {
            None => r == Some(None::<Result<Record, ParseError>>) && next == st,
            Some(l) => if starts_with(content(l), HEADER_MARKER) {
                r is None && next == (Some(identifier(content(l))), Seq::<u8>::empty())
            } else {
                &&& r matches Some(Some(Err(ParseError::InvalidId(t))))
                &&& t@ == lossy_text(content(l))
                &&& next == st
            },
        },
        Some(id) => match line {
            None => {
                &&& r matches Some(Some(Ok(rec)))
                &&& rec@ == (id, st.1, None::<Seq<u8>>)
                &&& next == (None::<Seq<u8>>, Seq::<u8>::empty())
            },
            Some(l) => if starts_with(l, HEADER_MARKER) {
                &&& r matches Some(Some(Ok(rec)))
                &&& rec@ == (id, st.1, None::<Seq<u8>>)
                &&& next == (Some(identifier(content(l))), Seq::<u8>::empty())
            } else {
                r is None && next == (Some(id), st.1 + content(l))
            },
        },
    }
}

impl FastaState {
    /// No record in progress.
    pub fn new() -> (r: Self)
        ensures
            r@ == (None::<Seq<u8>>, Seq::<u8>::empty()),
    {
        FastaState { header: None, seq: Vec::new() }
    }

    /// Takes what one line read returned (`None` at the end of input) and
    /// says whether a step is complete. A record ends where the next header
    /// line or the end of input is seen; that header is kept for the next
    /// record.
    pub fn feed(&mut self, line: Option<&[u8]>) -> (r: Option<Option<Result<Record, ParseError>>>)
        ensures
            feed_outcome(
                old(self)@,
                match line {
                    Some(l) => Some(l@),
                    None => None,
                },
                r,
                final(self)@,
            ),
    {
        match line {
            None => {
                if self.header.is_none() {
                    return Some(None);
                }
                let mut header: Option<Vec<u8>> = None;
                core::mem::swap(&mut header, &mut self.header);
                let mut seq: Vec<u8> = Vec::new();
                core::mem::swap(&mut seq, &mut self.seq);
                match header {
                    Some(id) => Some(Some(Ok(Record { raw_fields: id, raw_seq: seq, raw_quality: None }))),
                    None => Some(None),
                }
            },
            Some(l) => {
                let cl = content_len(l);
                if self.header.is_none() {
                    if cl == 0 || l[0] != HEADER_MARKER {
                        proof {
                            assert(l@.subrange(0, cl as int) == content(l@));
                        }
                        return Some(Some(Err(ParseError::InvalidId(text_of(&l[0..cl])))));
                    }
                    proof {
                        assert(l@.subrange(1, cl as int) =~= identifier(content(l@)));
                    }
                    self.header = Some(slice_to_vec(&l[1..cl]));
                    self.seq = Vec::new();
                    return None;
                }
                if l.len() > 0 && l[0] == HEADER_MARKER {
                    let mut header: Option<Vec<u8>> = None;
                    core::mem::swap(&mut header, &mut self.header);
                    let mut seq: Vec<u8> = Vec::new();
                    core::mem::swap(&mut seq, &mut self.seq);
                    proof {
                        assert(cl >= 1);
                        assert(l@.subrange(1, cl as int) =~= identifier(content(l@)));
                    }
                    self.header = Some(slice_to_vec(&l[1..cl]));
                    match header {
                        Some(id) => Some(Some(Ok(Record { raw_fields: id, raw_seq: seq, raw_quality: None }))),
                        None => None,
                    }
                } else {
                    append_bytes(&mut self.seq, &l[0..cl]);
                    proof {
                        assert(l@.subrange(0, cl as int) == content(l@));
                    }
                    None
                }
            },
        }
    }
}

} // verus!
