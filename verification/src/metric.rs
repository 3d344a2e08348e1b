//! The records that a benchmark produces, and the failures that end one.

use vstd::prelude::*;

verus! {

/// What one timed run of a pipeline on one document yields: the length of
/// the compressed output and the wall-clock time that serializing and
/// compressing took together.
#[derive(Clone, Copy, Debug, PartialEq, Eq, Structural)]
pub struct Observation {
    /// Length of the compressed output, in bytes.
    pub size_bytes: u64,
    /// Elapsed wall-clock time, in picoseconds.
    pub elapsed_picos: u64,
}

/// The figures kept for one document of the corpus. A sequence of these,
/// one per document and in corpus order, is the result of a trial and also
/// the shape of a baseline.
#[derive(Clone, Copy, Debug, PartialEq, Eq, Structural)]
pub struct PerDocumentMetric {
    /// Compressed size, in bytes.
    pub size_bytes: u64,
    /// Latency averaged over the repetitions, in picoseconds.
    pub latency_picos: u64,
}

/// Why an operation of the harness failed. No failure is retried: the first
/// one ends the operation it occurs in.
#[derive(Clone, Copy, Debug, PartialEq, Eq, Structural)]
pub enum ErrorKind {
    /// A file could not be read or written.
    IoError,
    /// A document container or the snapshot in it could not be decoded.
    DecodeError,
    /// A snapshot could not be serialized.
    SerializationError,
    /// Serialized bytes could not be compressed.
    CompressionError,
}

impl ErrorKind {
    /// The name of the failure, as text.
    pub open spec fn name_text(self) -> Seq<char> {
        match self {
            ErrorKind::IoError => "IoError"@,
            ErrorKind::DecodeError => "DecodeError"@,
            ErrorKind::SerializationError => "SerializationError"@,
            ErrorKind::CompressionError => "CompressionError"@,
        }
    }

    /// The name of the failure, for a report to the user.
    pub fn name(&self) -> (text: &'static str)
        ensures
            text@ == self.name_text(),
    {
        match self {
            ErrorKind::IoError => "IoError",
            ErrorKind::DecodeError => "DecodeError",
            ErrorKind::SerializationError => "SerializationError",
            ErrorKind::CompressionError => "CompressionError",
        }
    }
}

} // verus!
