//! The linguistic front-end of a text-to-speech pipeline: plain-text
//! normalization, markup (pause, pronunciation-override and say-as tag)
//! processing, and dictionary-driven pronunciation substitution over a closed
//! phone and punctuation vocabulary.
use vstd::prelude::*;

pub mod chunks;
pub mod dataset;
pub mod id_list;
pub mod sayas;
pub mod ssml;
pub mod textnorm;
pub mod units;

verus! {

/// The recoverable failure kinds surfaced to callers of the normalization
/// pipeline.
#[derive(Clone, Copy, Debug, PartialEq, Eq, Structural)]
pub enum NormError {
    /// A say-as numeral could not be read as a number.
    InvalidNumeral,
    /// A say-as kind outside cardinal, ordinal and characters.
    UnsupportedSayAs,
    /// A symbol string outside the closed phone and punctuation vocabulary.
    UnrecognizedSymbol,
    /// A markup event sequence an upstream collaborator promised never to send.
    ProtocolViolation,
    /// The markup document itself could not be parsed.
    ParseFailure,
}

} // verus!
