//! Streaming parsers for FASTA and FASTQ sequence files.
//!
//! The parsers turn bytes into [`record::Record`]s. Each step is verified
//! against a specification over the input bytes.

pub mod error;
pub mod fasta;
pub mod fastq;
pub mod lines;
pub mod pairs;
pub mod record;
pub mod sam;
pub mod stream;

pub use record::Record;
