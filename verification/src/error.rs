//! Error types shared by the frame codec and the argument parser.

use vstd::prelude::*;

verus! {

/// Failure modes of the frame codec.
///
/// `Incomplete` is benign: the buffer does not yet hold a whole frame
/// and the caller should read more bytes. `Other` marks a malformed
/// stream; the connection must be closed.
#[derive(Debug)]
pub enum FrameError {
    Incomplete,
    Other(String),
}

/// Failure modes of the argument parser.
///
/// `EndOfStream` means the array frame ran out of elements; `Other`
/// marks a type mismatch or malformed field.
#[derive(Debug)]
pub enum ParserError {
    EndOfStream,
    Other(String),
}

} // verus!
