//! A single-pass cursor over the elements of an array frame, with
//! typed accessors for command fields.

use crate::error::ParserError;
use crate::frame::{
    all_digits, dec_val, is_dec_line, is_digit, is_utf8_range, Frame, FrameData, frames_view,
    lemma_dec_val_prefix, lemma_frames_view, DIGIT_ZERO,
};
use vstd::prelude::*;

verus! {

broadcast use vstd::seq::group_seq_axioms, vstd::std_specs::vec::group_vec_axioms;

/// What a frame yields when read as text: `Simple` as it stands,
/// `Bulk` only when it is valid UTF-8.
pub open spec fn text_of(d: FrameData) -> Option<Seq<u8>> {
    match d {
        FrameData::Simple(s) => Some(s),
        FrameData::Bulk(b) => if vstd::utf8::valid_utf8(b) {
            Some(b)
        } else {
            None
        },
        _ => None,
    }
}

/// What a frame yields when read as raw bytes.
pub open spec fn bytes_of(d: FrameData) -> Option<Seq<u8>> {
    match d {
        FrameData::Simple(s) => Some(s),
        FrameData::Bulk(b) => Some(b),
        _ => None,
    }
}

/// What a frame yields when read as an unsigned integer: `Integer`
/// as it stands, text parsed as decimal.
pub open spec fn int_of(d: FrameData) -> Option<u64> {
    match d {
        FrameData::Integer(v) => Some(v),
        FrameData::Simple(s) => if is_dec_line(s) {
            Some(dec_val(s) as u64)
        } else {
            None
        },
        FrameData::Bulk(b) => if is_dec_line(b) {
            Some(dec_val(b) as u64)
        } else {
            None
        },
        _ => None,
    }
}

/// Walks the elements of an array frame front to back.
pub struct Parser {
    parts: Vec<Frame>,
}

impl View for Parser {
    type V = Seq<FrameData>;

    closed spec fn view(&self) -> Seq<FrameData> {
        frames_view(self.parts@)
    }
}

/// Parses a whole byte vector as an unsigned decimal.
fn vec_to_u64(v: &Vec<u8>) -> (r: Option<u64>)
    ensures
        r == (if is_dec_line(v@) {
            Some(dec_val(v@) as u64)
        } else {
            None::<u64>
        }),
{
    if v.len() == 0 {
        return None;
    }
    let mut acc: u64 = 0;
    let mut i: usize = 0;
    while i < v.len()
        invariant
            i <= v@.len(),
            all_digits(v@.subrange(0, i as int)),
            acc == dec_val(v@.subrange(0, i as int)),
        decreases v@.len() - i,
    {
        let b = v[i];
        let ghost pre = v@.subrange(0, i as int);
        let ghost cur = v@.subrange(0, i as int + 1);
        proof {
            assert(cur.drop_last() =~= pre);
            assert(cur.last() == v@[i as int]);
        }
        if b < DIGIT_ZERO || b > 57 {
            proof {
                assert(!is_dec_line(v@)) by {
                    assert(!is_digit(v@[i as int]));
                }
            }
            return None;
        }
        let wide: u128 = (acc as u128) * 10 + ((b - DIGIT_ZERO) as u128);
        if wide > u64::MAX as u128 {
            proof {
                assert(dec_val(cur) > u64::MAX);
                assert(cur =~= v@.take(i as int + 1));
                lemma_dec_val_prefix(v@, i as int + 1);
                assert(!is_dec_line(v@));
            }
            return None;
        }
        acc = wide as u64;
        i = i + 1;
    }
    proof {
        assert(v@.subrange(0, v@.len() as int) =~= v@);
    }
    Some(acc)
}

impl Parser {
    /// Creates a parser over the contents of `frame`, which must be
    /// an array frame.
    pub fn new(frame: Frame) -> (r: Result<Parser, ParserError>)
        ensures
            match r {
                Ok(p) => frame@ matches FrameData::Array(es) && p@ == es,
                Err(e) => !(frame@ is Array) && (e is Other),
            },
    {
        match frame {
            Frame::Array(array) => Ok(Parser { parts: array }),
            _ => Err(ParserError::Other("protocol error; expected array".to_string())),
        }
    }

    /// Returns the next element, consuming it; fails with
    /// `EndOfStream` when none remain.
    pub fn next(&mut self) -> (r: Result<Frame, ParserError>)
        ensures
            match r {
                Ok(f) => old(self)@.len() > 0 && f@ == old(self)@[0] && final(self)@ == old(self)@.drop_first(),
                Err(e) => old(self)@.len() == 0 && (e is EndOfStream) && final(self)@ == old(self)@,
            },
    {
        proof {
            lemma_frames_view(self.parts@);
        }
        if self.parts.len() > 0 {
            let f = self.parts.remove(0);
            proof {
                lemma_frames_view(self.parts@);
                assert(self.parts@ =~= old(self).parts@.drop_first());
                assert(frames_view(self.parts@) =~= frames_view(old(self).parts@).drop_first());
            }
            Ok(f)
        } else {
            Err(ParserError::EndOfStream)
        }
    }

    /// Returns the next element as text. `Simple` is taken as it
    /// stands; `Bulk` must be valid UTF-8; other frames are a type
    /// error. The element is consumed in every case but end of
    /// stream.
    pub fn next_string(&mut self) -> (r: Result<Vec<u8>, ParserError>)
        ensures
            match r {
                Ok(v) => old(self)@.len() > 0 && text_of(old(self)@[0]) == Some(v@) && final(self)@ == old(self)@.drop_first(),
                Err(e) => {
                    &&& (e is EndOfStream <==> old(self)@.len() == 0)
                    &&& (old(self)@.len() == 0 ==> final(self)@ == old(self)@)
                    &&& (old(self)@.len() > 0 ==> text_of(old(self)@[0]) is None && final(self)@
                        == old(self)@.drop_first())
                },
            },
    {
        let f = match self.next() {
            Ok(f) => f,
            Err(e) => {
                return Err(e);
            },
        };
        match f {
            Frame::Simple(s) => Ok(s),
            Frame::Bulk(data) => {
                if is_utf8_range(&data, 0, data.len()) {
                    proof {
                        assert(data@.subrange(0, data@.len() as int) =~= data@);
                    }
                    Ok(data)
                } else {
                    proof {
                        assert(data@.subrange(0, data@.len() as int) =~= data@);
                    }
                    Err(ParserError::Other("protocol error; invalid string".to_string()))
                }
            },
            _ => Err(
                ParserError::Other(
                    "protocol error; expected simple frame or bulk frame".to_string(),
                ),
            ),
        }
    }

    /// Returns the next element as raw bytes; `Simple` and `Bulk`
    /// qualify. The element is consumed in every case but end of
    /// stream.
    pub fn next_bytes(&mut self) -> (r: Result<Vec<u8>, ParserError>)
        ensures
            match r {
                Ok(v) => old(self)@.len() > 0 && bytes_of(old(self)@[0]) == Some(v@) && final(self)@ == old(self)@.drop_first(),
                Err(e) => {
                    &&& (e is EndOfStream <==> old(self)@.len() == 0)
                    &&& (old(self)@.len() == 0 ==> final(self)@ == old(self)@)
                    &&& (old(self)@.len() > 0 ==> bytes_of(old(self)@[0]) is None && final(self)@
                        == old(self)@.drop_first())
                },
            },
    {
        let f = match self.next() {
            Ok(f) => f,
            Err(e) => {
                return Err(e);
            },
        };
        match f {
            Frame::Simple(s) => Ok(s),
            Frame::Bulk(data) => Ok(data),
            _ => Err(
                ParserError::Other(
                    "protocol error; expected simple frame or bulk frame".to_string(),
                ),
            ),
        }
    }

    /// Returns the next element as an unsigned integer: `Integer` as
    /// it stands, text parsed as decimal. The element is consumed in
    /// every case but end of stream.
    pub fn next_int(&mut self) -> (r: Result<u64, ParserError>)
        ensures
            match r {
                Ok(v) => old(self)@.len() > 0 && int_of(old(self)@[0]) == Some(v) && final(self)@
                    == old(self)@.drop_first(),
                Err(e) => {
                    &&& (e is EndOfStream <==> old(self)@.len() == 0)
                    &&& (old(self)@.len() == 0 ==> final(self)@ == old(self)@)
                    &&& (old(self)@.len() > 0 ==> int_of(old(self)@[0]) is None && final(self)@
                        == old(self)@.drop_first())
                },
            },
    {
        let f = match self.next() {
            Ok(f) => f,
            Err(e) => {
                return Err(e);
            },
        };
        match f {
            Frame::Integer(v) => Ok(v),
            Frame::Simple(data) => match vec_to_u64(&data) {
                Some(v) => Ok(v),
                None => Err(ParserError::Other("protocol error; invalid number".to_string())),
            },
            Frame::Bulk(data) => match vec_to_u64(&data) {
                Some(v) => Ok(v),
                None => Err(ParserError::Other("protocol error; invalid number".to_string())),
            },
            _ => Err(ParserError::Other("protocol error; expected int frame".to_string())),
        }
    }

    /// Succeeds only when every element has been consumed.
    pub fn finish(&mut self) -> (r: Result<(), ParserError>)
        ensures
            match r {
                Ok(()) => old(self)@.len() == 0 && final(self)@ == old(self)@,
                Err(e) => old(self)@.len() > 0 && (e is Other) && final(self)@ == old(self)@.drop_first(),
            },
    {
        match self.next() {
            Ok(_) => Err(
                ParserError::Other(
                    "protocol error; expected end of frame, but there was more".to_string(),
                ),
            ),
            Err(_) => Ok(()),
        }
    }
}

} // verus!
