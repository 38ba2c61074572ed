//! The compute half of a connection: deciding whether a buffered
//! prefix holds a whole frame, decoding it, and serialising replies.
//!
//! The runtime owns the socket; it feeds the read buffer into
//! `parse_frame` after every read and drains the consumed prefix,
//! and writes the bytes of `Frame::wire_bytes` back, flushing before
//! the next read.

use crate::error::FrameError;
use crate::frame::{spec_check, spec_parse, CheckStatus, Frame, ParseStatus};
use vstd::prelude::*;

verus! {

/// Tries to decode one whole frame from the front of the read
/// buffer. Returns the frame and the number of bytes it consumed,
/// `None` when the buffer does not yet hold a whole frame, or an
/// error on a malformed stream, upon which the connection must be
/// closed.
pub fn parse_frame(buffer: &Vec<u8>) -> (r: Result<Option<(Frame, usize)>, FrameError>)
    ensures
        match r {
            Ok(Some((f, used))) => spec_parse(buffer@, 0) == ParseStatus::Complete(
                f@,
                used as int,
            ) && 0 < used <= buffer@.len(),
            Ok(None) => spec_check(buffer@, 0) is Partial,
            Err(e) => {
                &&& (e is Other ==> spec_check(buffer@, 0) is Malformed || spec_parse(
                    buffer@,
                    0,
                ) is Malformed)
                &&& (e is Incomplete ==> spec_check(buffer@, 0) is Complete && spec_parse(
                    buffer@,
                    0,
                ) is Partial)
            },
        },
{
    let mut pos: usize = 0;
    match Frame::check(buffer, &mut pos) {
        Ok(()) => {
            let mut start: usize = 0;
            match Frame::parse(buffer, &mut start) {
                Ok(frame) => Ok(Some((frame, start))),
                Err(e) => Err(e),
            }
        },
        Err(e) => {
            match e {
                FrameError::Incomplete => Ok(None),
                FrameError::Other(msg) => Err(FrameError::Other(msg)),
            }
        },
    }
}

} // verus!
