//! The errors that parsing reports.

use vstd::prelude::*;
use vstd::string::StringExecFns;

verus! {

/// What went wrong with one record.
#[derive(Debug, PartialEq, Eq)]
pub enum ParseError {
    /// A FASTQ separator line is not exactly `+`.
    InvalidSeparationLine,
    /// A header line lacks its marker; holds the line's text.
    InvalidId(String),
    /// The input ended inside a record.
    TruncatedRecord,
    /// The sequence bytes could not be decoded; holds their text.
    InvalidSequence(String),
    /// Quality and sequence lines differ in length, or a record has no quality.
    InvalidQuality,
    /// The underlying byte source failed.
    FileError,
    /// A record's fields are malformed.
    InvalidFields,
}

/// The text that `String::from_utf8_lossy` makes of some bytes.
pub uninterp spec fn lossy_text(b: Seq<u8>) -> Seq<char>;

/// Relies on `String::from_utf8_lossy`: the text depends on the bytes alone.
#[verifier::external_body]
pub(crate) fn text_of(b: &[u8]) -> (r: String)
    ensures
        r@ == lossy_text(b@),
{
    String::from_utf8_lossy(b).into_owned()
}

/// The message that describes an error.
pub open spec fn message_of(e: ParseError) -> Seq<char> {
    match e {
        ParseError::InvalidSeparationLine => "Invalid separation character"@,
        ParseError::InvalidId(id) => "Invalid id: "@ + id@,
        ParseError::TruncatedRecord => "Truncated record"@,
        ParseError::InvalidSequence(seq) => "Invalid sequence: "@ + seq@,
        ParseError::InvalidQuality => "Invalid quailty string"@,
        ParseError::FileError => "File error"@,
        ParseError::InvalidFields => "Invalid data fields"@,
    }
}

impl ParseError {
    /// A human-readable description of the error.
    pub fn message(&self) -> (s: String)
        ensures
            s@ == message_of(*self),
    {
        match self {
            ParseError::InvalidSeparationLine => String::from_str("Invalid separation character"),
            ParseError::InvalidId(id) => {
                let mut s = String::from_str("Invalid id: ");
                s.append(id.as_str());
                s
            },
            ParseError::TruncatedRecord => String::from_str("Truncated record"),
            ParseError::InvalidSequence(seq) => {
                let mut s = String::from_str("Invalid sequence: ");
                s.append(seq.as_str());
                s
            },
            ParseError::InvalidQuality => String::from_str("Invalid quailty string"),
            ParseError::FileError => String::from_str("File error"),
            ParseError::InvalidFields => String::from_str("Invalid data fields"),
        }
    }
}

} // verus!
