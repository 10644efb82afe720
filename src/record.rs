//! Records and quality scores.

use vstd::prelude::*;
use vstd::slice::slice_to_vec;

pub use crate::error::ParseError;
use crate::error::{lossy_text, text_of};

verus! {

/// The byte that encodes a quality score of zero.
pub const PHRED_OFFSET: u8 = 33;

/// The highest quality score whose encoding is a printable byte (`~`).
pub const MAX_SCORE: u8 = 93;

/// One quality score in the Phred+33 encoding: the byte as read.
#[derive(Debug, PartialEq, Eq, Structural, Copy, Clone)]
pub struct Phred(pub u8);

impl Phred {
    /// Whether the byte encodes a score, i.e. is one of `!` through `~`.
    pub open spec fn is_score(self) -> bool {
        PHRED_OFFSET <= self.0 <= PHRED_OFFSET + MAX_SCORE
    }

    /// The score that the byte encodes, `None` for a byte outside `!`..`~`.
    pub fn score(self) -> (r: Option<u8>)
        ensures
            r is Some <==> self.is_score(),
            r matches Some(q) ==> q + PHRED_OFFSET == self.0,
    {
        if PHRED_OFFSET <= self.0 && self.0 <= PHRED_OFFSET + MAX_SCORE {
            Some(self.0 - PHRED_OFFSET)
        } else {
            None
        }
    }

    /// The encoding of score `q`, `None` above the highest printable score.
    pub fn from_score(q: u8) -> (r: Option<Phred>)
        ensures
            r is Some <==> q <= MAX_SCORE,
            r matches Some(p) ==> p.0 == q + PHRED_OFFSET && p.is_score(),
    {
        if q <= MAX_SCORE {
            Some(Phred(q + PHRED_OFFSET))
        } else {
            None
        }
    }
}

/// Score and byte convert into each other without loss: a byte that
/// encodes a score comes back from that score, and a score comes back from
/// its encoding.
pub proof fn lemma_score_round_trip(p: Phred, q: u8)
    ensures
        p.is_score() && q + PHRED_OFFSET == p.0 ==> q <= MAX_SCORE && Phred(
            (q + PHRED_OFFSET) as u8,
        ) == p,
        q <= MAX_SCORE ==> Phred((q + PHRED_OFFSET) as u8).is_score() && (q + PHRED_OFFSET) as u8
            - PHRED_OFFSET == q,
{
}

/// A byte comes back unchanged from its quality score.
pub proof fn lemma_byte_round_trip(b: u8)
    ensures
        <u8 as vstd::std_specs::convert::FromSpec<Phred>>::from_spec(
            <Phred as vstd::std_specs::convert::FromSpec<u8>>::from_spec(b),
        ) == b,
{
}

impl From<u8> for Phred {
    fn from(b: u8) -> (r: Phred)
        ensures
            r.0 == b,
    {
        Phred(b)
    }
}

impl vstd::std_specs::convert::FromSpecImpl<u8> for Phred {
    open spec fn obeys_from_spec() -> bool {
        true
    }

    open spec fn from_spec(b: u8) -> Phred {
        Phred(b)
    }
}

impl From<Phred> for u8 {
    fn from(p: Phred) -> (r: u8)
        ensures
            r == p.0,
    {
        p.0
    }
}

impl vstd::std_specs::convert::FromSpecImpl<Phred> for u8 {
    open spec fn obeys_from_spec() -> bool {
        true
    }

    open spec fn from_spec(p: Phred) -> u8 {
        p.0
    }
}

/// Turning the raw bytes of a sequence into a representation of the caller's
/// choice. Decoding may reject bytes.
pub trait FromRaw: Sized {
    /// Whether decoding `raw` succeeds.
    spec fn accepts(raw: Seq<u8>) -> bool;

    /// Whether `v` is what decoding `raw` gives.
    spec fn decodes_to(raw: Seq<u8>, v: Self) -> bool;

    fn from_raw(raw: &[u8]) -> (r: Option<Self>)
        ensures
            r is Some <==> Self::accepts(raw@),
            r matches Some(v) ==> Self::decodes_to(raw@, v),
    ;
}

/// The default representation: the bytes themselves.
impl FromRaw for Vec<u8> {
    open spec fn accepts(raw: Seq<u8>) -> bool {
        true
    }

    open spec fn decodes_to(raw: Seq<u8>, v: Vec<u8>) -> bool {
        v@ == raw
    }

    fn from_raw(raw: &[u8]) -> (r: Option<Vec<u8>>) {
        Some(slice_to_vec(raw))
    }
}

/// One parsed entry: identifier, sequence bytes and, for FASTQ, quality bytes.
/// All three hold the line contents without terminators or markers.
#[derive(Debug, PartialEq, Eq)]
pub struct Record {
    pub raw_fields: Vec<u8>,
    pub raw_seq: Vec<u8>,
    pub raw_quality: Option<Vec<u8>>,
}

/// What a record holds: identifier, sequence and quality bytes.
pub type RecordView = (Seq<u8>, Seq<u8>, Option<Seq<u8>>);

impl View for Record {
    type V = RecordView;

    open spec fn view(&self) -> RecordView {
        (
            self.raw_fields@,
            self.raw_seq@,
            match self.raw_quality {
                Some(q) => Some(q@),
                None => None,
            },
        )
    }
}

impl Record {
    /// A present quality has one byte per sequence byte.
    pub open spec fn wf(&self) -> bool {
        self@.2 matches Some(q) ==> q.len() == self@.1.len()
    }

    /// The identifier: the header line after its marker.
    pub fn fields(&self) -> (r: &[u8])
        ensures
            r@ == self@.0,
    {
        self.raw_fields.as_slice()
    }

    /// The sequence decoded into `S`; fails with `InvalidSequence` where `S`
    /// rejects the bytes.
    pub fn seq<S: FromRaw>(&self) -> (r: Result<S, ParseError>)
        ensures
            r is Ok <==> S::accepts(self@.1),
            r matches Ok(v) ==> S::decodes_to(self@.1, v),
            r matches Err(e) ==> e matches ParseError::InvalidSequence(t) && t@ == lossy_text(
                self@.1,
            ),
    {
        match S::from_raw(self.raw_seq.as_slice()) {
            Some(v) => Ok(v),
            None => Err(ParseError::InvalidSequence(text_of(self.raw_seq.as_slice()))),
        }
    }

    /// The sequence decoded by `decode`, for decoders written outside
    /// verified code; fails with `InvalidSequence` where `decode` gives `None`.
    pub fn seq_with<S, F: Fn(&[u8]) -> Option<S>>(&self, decode: F) -> (r: Result<S, ParseError>)
        requires
            forall|b: &[u8]| #[trigger] decode.requires((b,)),
        ensures
            r matches Ok(v) ==> exists|b: &[u8]| b@ == self@.1 && #[trigger] decode.ensures((b,), Some(v)),
            r matches Err(e) ==> {
                &&& exists|b: &[u8]| b@ == self@.1 && #[trigger] decode.ensures((b,), None::<S>)
                &&& e matches ParseError::InvalidSequence(t)
                &&& t@ == lossy_text(self@.1)
            },
    {
        let raw = self.raw_seq.as_slice();
        let out = decode(raw);
        match out {
            Some(v) => {
                proof {
                    assert(decode.ensures((raw,), Some(v)));
                    assert(raw@ == self@.1);
                }
                let r: Result<S, ParseError> = Ok(v);
                proof {
                    assert(r matches Ok(w) && w == v);
                }
                r
            },
            None => Err(ParseError::InvalidSequence(text_of(raw))),
        }
    }

    /// The quality scores, one per quality byte; `InvalidQuality` for a
    /// record without quality (FASTA).
    pub fn quality(&self) -> (r: Result<Vec<Phred>, ParseError>)
        ensures
            self@.2 is None ==> r == Err::<Vec<Phred>, ParseError>(ParseError::InvalidQuality),
            self@.2 matches Some(q) ==> r matches Ok(v) && v@.len() == q.len() && forall|i: int|
                0 <= i < q.len() ==> #[trigger] v@[i] == Phred(q[i]),
    {
        match &self.raw_quality {
            None => Err(ParseError::InvalidQuality),
            Some(q) => {
                let mut v: Vec<Phred> = Vec::with_capacity(q.len());
                let mut i: usize = 0;
                while i < q.len()
                    invariant
                        i <= q@.len(),
                        v@.len() == i,
                        forall|j: int| 0 <= j < i ==> #[trigger] v@[j] == Phred(q@[j]),
                    decreases q@.len() - i,
                {
                    v.push(Phred(q[i]));
                    i = i + 1;
                }
                Ok(v)
            },
        }
    }
}

} // verus!
