//! The strategies that make up a pipeline, and the names they are reported
//! under.

use vstd::prelude::*;
use vstd::string::StringExecFns;

use crate::decimal::{decimal, push_decimal};

verus! {

/// How a document snapshot is turned into bytes.
#[derive(Clone, Copy, Debug, PartialEq, Eq, Structural)]
pub enum SerializationStrategy {
    /// Text-based.
    Json,
    /// Compact binary.
    Bitcode,
    /// Schema-driven binary.
    Flatbuffers,
}

impl SerializationStrategy {
    /// The strategy's name, as text.
    pub open spec fn name_text(self) -> Seq<char> {
        match self {
            SerializationStrategy::Json => "Json"@,
            SerializationStrategy::Bitcode => "Bitcode"@,
            SerializationStrategy::Flatbuffers => "Flatbuffers"@,
        }
    }

    /// The strategy's name.
    pub fn name(&self) -> (text: &'static str)
        ensures
            text@ == self.name_text(),
    {
        match self {
            SerializationStrategy::Json => "Json",
            SerializationStrategy::Bitcode => "Bitcode",
            SerializationStrategy::Flatbuffers => "Flatbuffers",
        }
    }
}

/// How serialized bytes are made smaller. Each variant carries its
/// compression level.
#[derive(Clone, Copy, Debug, PartialEq, Eq, Structural)]
pub enum CompressionStrategy {
    /// The gzip family, general purpose.
    Gzip(u8),
    /// Zstandard.
    Zstd(u8),
}

impl CompressionStrategy {
    /// The compression level that the strategy carries.
    pub open spec fn level_of(self) -> u8 {
        match self {
            CompressionStrategy::Gzip(level) => level,
            CompressionStrategy::Zstd(level) => level,
        }
    }

    /// The name of the algorithm, as text.
    pub open spec fn codec_text(self) -> Seq<char> {
        match self {
            CompressionStrategy::Gzip(_) => "Gzip"@,
            CompressionStrategy::Zstd(_) => "Zstd"@,
        }
    }

    /// The descriptor that reports show: the algorithm's name with the level
    /// in round brackets, as in `Zstd(9)`.
    pub open spec fn descriptor_text(self) -> Seq<char> {
        self.codec_text() + "("@ + decimal(self.level_of() as nat) + ")"@
    }

    /// The compression level.
    pub fn level(&self) -> (level: u8)
        ensures
            level == self.level_of(),
    {
        match self {
            CompressionStrategy::Gzip(level) => *level,
            CompressionStrategy::Zstd(level) => *level,
        }
    }

    /// The name of the algorithm.
    pub fn codec(&self) -> (text: &'static str)
        ensures
            text@ == self.codec_text(),
    {
        match self {
            CompressionStrategy::Gzip(_) => "Gzip",
            CompressionStrategy::Zstd(_) => "Zstd",
        }
    }

    /// The descriptor that reports show.
    pub fn descriptor(&self) -> (text: String)
        ensures
            text@ == self.descriptor_text(),
    {
        let mut text = String::from_str(self.codec());
        text.append("(");
        push_decimal(&mut text, self.level() as u128);
        text.append(")");
        text
    }
}

/// A serialization strategy and a compression strategy under evaluation
/// together.
#[derive(Clone, Copy, Debug, PartialEq, Eq, Structural)]
pub struct Pipeline {
    pub serialization: SerializationStrategy,
    pub compression: CompressionStrategy,
}

impl Pipeline {
    /// The reference pipeline that baselines are measured with: text-based
    /// serialization, gzip at level 5.
    pub open spec fn baseline_spec() -> Pipeline {
        Pipeline {
            serialization: SerializationStrategy::Json,
            compression: CompressionStrategy::Gzip(5),
        }
    }

    /// The reference pipeline.
    pub fn baseline() -> (pipeline: Pipeline)
        ensures
            pipeline == Pipeline::baseline_spec(),
    {
        Pipeline {
            serialization: SerializationStrategy::Json,
            compression: CompressionStrategy::Gzip(5),
        }
    }
}

} // verus!
