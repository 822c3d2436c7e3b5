//! The failures that a run can end in.

use vstd::prelude::*;
use vstd::string::StringExecFns;
use crate::text::natural_text;
use crate::text::push_natural;

verus! {

/// Why a cell identifier could not be decoded.
#[derive(Clone, Copy, Debug, PartialEq, Eq, Structural)]
pub enum DecodeError {
    /// The identifier is no number and holds no `-`.
    MissingSeparator,
    /// What follows the first `-` is no unsigned number.
    BadSuffix,
    /// A character before the `-` is not one of `'a'` to `'p'`.
    BadCharacter,
    /// Nothing stands before the `-`.
    NoDigits,
    /// The digits before the `-` give a number above 32 bits.
    Overflow,
}

/// Why a run stopped.
#[derive(Clone, Copy, Debug, PartialEq, Eq, Structural)]
pub enum TileError {
    /// The tile width does not exceed the overlap.
    WidthNotAboveOverlap,
    /// The tile height does not exceed the overlap.
    HeightNotAboveOverlap,
    /// The input file is neither CSV nor Parquet by its name.
    UnsupportedInput,
    /// A size or a coordinate lies beyond `COORD_LIMIT`, or a coordinate's
    /// two whole numbers do not enclose one position.
    OutOfRange,
    /// Fewer transcripts are left after filtering than one tile must hold.
    TooFewTranscripts,
    /// The table is empty, so it has no bounds.
    EmptyDataset,
    /// The cell identifier of the row at position `row` is malformed.
    Decode { row: usize, cause: DecodeError },
    /// A tile holds too few transcripts however often it grows.
    SparseTile,
}

impl DecodeError {
    /// The failure in words.
    pub open spec fn text(self) -> Seq<char> {
        match self {
            DecodeError::MissingSeparator => "it is no number and holds no '-'"@,
            DecodeError::BadSuffix => "no unsigned number follows its first '-'"@,
            DecodeError::BadCharacter => "a character before its first '-' is not one of 'a' to 'p'"@,
            DecodeError::NoDigits => "nothing stands before its first '-'"@,
            DecodeError::Overflow => "its digits give a number above 32 bits"@,
        }
    }

    /// Says the failure in words.
    pub fn message(&self) -> (msg: String)
        ensures
            msg@ == self.text(),
    {
        match self {
            DecodeError::MissingSeparator => "it is no number and holds no '-'".to_owned(),
            DecodeError::BadSuffix => "no unsigned number follows its first '-'".to_owned(),
            DecodeError::BadCharacter => "a character before its first '-' is not one of 'a' to 'p'".to_owned(),
            DecodeError::NoDigits => "nothing stands before its first '-'".to_owned(),
            DecodeError::Overflow => "its digits give a number above 32 bits".to_owned(),
        }
    }
}

impl TileError {
    /// The failure in words.
    pub open spec fn text(self) -> Seq<char> {
        match self {
            TileError::WidthNotAboveOverlap => "The width of a tile cannot be smaller than the overlap."@,
            TileError::HeightNotAboveOverlap => "The height of a tile cannot be smaller than the overlap."@,
            TileError::UnsupportedInput => "Input file should be either CSV or Parquet."@,
            TileError::OutOfRange => "A tile size or a coordinate is too large to be handled exactly."@,
            TileError::TooFewTranscripts => "The number of transcripts that remain after excluding the non-gene transcripts is lower than the required minimal transcript number per tile. Please consider adjusting that value."@,
            TileError::EmptyDataset => "No transcripts remain, so the table has no bounds."@,
            TileError::Decode { row, cause } => "The cell identifier in row "@ + natural_text(
                row as nat,
            ) + " cannot be decoded: "@ + cause.text(),
            TileError::SparseTile => "A tile holds too few transcripts however far it grows."@,
        }
    }

    /// Says the failure in words.
    pub fn message(&self) -> (msg: String)
        ensures
            msg@ == self.text(),
    {
        match self {
            TileError::WidthNotAboveOverlap => "The width of a tile cannot be smaller than the overlap.".to_owned(),
            TileError::HeightNotAboveOverlap => "The height of a tile cannot be smaller than the overlap.".to_owned(),
            TileError::UnsupportedInput => "Input file should be either CSV or Parquet.".to_owned(),
            TileError::OutOfRange => "A tile size or a coordinate is too large to be handled exactly.".to_owned(),
            TileError::TooFewTranscripts => "The number of transcripts that remain after excluding the non-gene transcripts is lower than the required minimal transcript number per tile. Please consider adjusting that value.".to_owned(),
            TileError::EmptyDataset => "No transcripts remain, so the table has no bounds.".to_owned(),
            TileError::Decode { row, cause } => {
                let mut msg = "The cell identifier in row ".to_owned();
                push_natural(&mut msg, *row as u64);
                msg.append(" cannot be decoded: ");
                let why = cause.message();
                msg.append(why.as_str());
                msg
            },
            TileError::SparseTile => "A tile holds too few transcripts however far it grows.".to_owned(),
        }
    }
}

} // verus!
