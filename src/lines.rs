//! Line handling shared by the FASTA and FASTQ parsers.
//!
//! A *chunk* is what one line read returns: the bytes up to and including the
//! next `\n`, or the unterminated tail of the input. Its *content* is the chunk
//! without the trailing `\n` and, if present, the `\r` before it.

use vstd::prelude::*;

verus! {

pub const NEWLINE: u8 = 10;

pub const CARRIAGE_RETURN: u8 = 13;

/// Where the content of a chunk ends.
pub open spec fn content_end(line: Seq<u8>) -> int {
    let n = line.len() as int;
    if n >= 2 && line[n - 1] == NEWLINE && line[n - 2] == CARRIAGE_RETURN {
        n - 2
    } else if n >= 1 && line[n - 1] == NEWLINE {
        n - 1
    } else {
        n
    }
}

/// A chunk without its line terminator.
pub open spec fn content(line: Seq<u8>) -> Seq<u8> {
    line.subrange(0, content_end(line))
}

/// The position just after the chunk that starts at `pos`.
pub open spec fn chunk_end(s: Seq<u8>, pos: int) -> int
    decreases s.len() - pos,
{
    if pos < 0 || pos >= s.len() {
        s.len() as int
    } else if s[pos] == NEWLINE {
        pos + 1
    } else {
        chunk_end(s, pos + 1)
    }
}

/// The chunk that a line read at `pos` returns (empty at the end of input).
pub open spec fn chunk_at(s: Seq<u8>, pos: int) -> Seq<u8> {
    s.subrange(pos, chunk_end(s, pos))
}

pub proof fn lemma_chunk_end_bounds(s: Seq<u8>, pos: int)
    requires
        0 <= pos <= s.len(),
    ensures
        pos <= chunk_end(s, pos) <= s.len(),
        pos < s.len() ==> pos < chunk_end(s, pos),
    decreases s.len() - pos,
{
    if pos < s.len() && s[pos] != NEWLINE {
        lemma_chunk_end_bounds(s, pos + 1);
    }
}

/// The terminator that ends a line: `\r\n` or `\n`.
pub open spec fn terminator(crlf: bool) -> Seq<u8> {
    if crlf {
        seq![CARRIAGE_RETURN, NEWLINE]
    } else {
        seq![NEWLINE]
    }
}

/// Whether `l` can stand as a line's content before terminator `crlf`: no
/// line feed, and no carriage return at its end unless the terminator
/// brings its own.
pub open spec fn fits_line(l: Seq<u8>, crlf: bool) -> bool {
    &&& forall|i: int| 0 <= i < l.len() ==> l[i] != NEWLINE
    &&& (crlf || l.len() == 0 || l.last() != CARRIAGE_RETURN)
}

/// The chunk that starts at `pos` runs up to the first line feed at or after
/// `q`'s place, given none stands between.
pub proof fn lemma_chunk_end_at(s: Seq<u8>, pos: int, q: int)
    requires
        0 <= pos <= q <= s.len(),
        forall|i: int| pos <= i < q ==> s[i] != NEWLINE,
        q < s.len() ==> s[q] == NEWLINE,
    ensures
        chunk_end(s, pos) == if q < s.len() {
            q + 1
        } else {
            q
        },
    decreases q - pos,
{
    if pos < q {
        lemma_chunk_end_at(s, pos + 1, q);
    }
}

/// A line written as content and terminator reads back as that content,
/// and the chunk ends right after the terminator.
pub proof fn lemma_read_line(s: Seq<u8>, pos: int, l: Seq<u8>, crlf: bool)
    requires
        0 <= pos,
        fits_line(l, crlf),
        pos + l.len() + terminator(crlf).len() <= s.len(),
        s.subrange(pos, pos + l.len() + terminator(crlf).len()) == l + terminator(crlf),
    ensures
        chunk_end(s, pos) == pos + l.len() + terminator(crlf).len(),
        content(chunk_at(s, pos)) == l,
{
    let t = terminator(crlf);
    let q = pos + l.len() + t.len() - 1;
    assert forall|i: int| pos <= i < q implies s[i] != NEWLINE by {
        if i < pos + l.len() {
            assert(s[i] == s.subrange(pos, q + 1)[i - pos]);
            assert(s[i] == l[i - pos]);
        } else {
            assert(s[i] == s.subrange(pos, q + 1)[i - pos]);
            assert(s[i] == CARRIAGE_RETURN);
        }
    }
    assert(s[q] == s.subrange(pos, q + 1)[q - pos]);
    lemma_chunk_end_at(s, pos, q);
    let c = chunk_at(s, pos);
    assert(c == l + t);
    if !crlf && l.len() > 0 {
        assert(c[c.len() - 2] == l.last());
    }
    assert(content(c) =~= l);
}

/// A last line without a terminator reads back as itself.
pub proof fn lemma_read_last_line(s: Seq<u8>, pos: int, l: Seq<u8>)
    requires
        0 <= pos,
        forall|i: int| 0 <= i < l.len() ==> l[i] != NEWLINE,
        pos + l.len() == s.len(),
        s.subrange(pos, s.len() as int) == l,
    ensures
        chunk_end(s, pos) == s.len(),
        content(chunk_at(s, pos)) == l,
{
    assert forall|i: int| pos <= i < s.len() implies s[i] != NEWLINE by {
        assert(s[i] == s.subrange(pos, s.len() as int)[i - pos]);
    }
    lemma_chunk_end_at(s, pos, s.len() as int);
    assert(content(chunk_at(s, pos)) =~= l);
}

/// Length of the content of `line`.
pub fn content_len(line: &[u8]) -> (n: usize)
    ensures
        n == content_end(line@),
{
    let len = line.len();
    if len >= 2 && line[len - 1] == NEWLINE && line[len - 2] == CARRIAGE_RETURN {
        len - 2
    } else if len >= 1 && line[len - 1] == NEWLINE {
        len - 1
    } else {
        len
    }
}

/// The position just after the chunk of `s` that starts at `pos`.
pub fn find_chunk_end(s: &[u8], pos: usize) -> (e: usize)
    requires
        pos <= s@.len(),
    ensures
        e == chunk_end(s@, pos as int),
        pos <= e <= s@.len(),
        pos < s@.len() ==> pos < e,
{
    proof {
        lemma_chunk_end_bounds(s@, pos as int);
    }
    let mut i: usize = pos;
    while i < s.len()
        invariant
            pos <= i <= s@.len(),
            chunk_end(s@, i as int) == chunk_end(s@, pos as int),
        decreases s@.len() - i,
    {
        if s[i] == NEWLINE {
            return i + 1;
        }
        i = i + 1;
    }
    i
}

} // verus!
