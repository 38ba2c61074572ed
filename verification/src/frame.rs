//! The RESP frame type and its streaming codec.
//!
//! Two entry points walk a byte cursor over a borrowed buffer:
//! `Frame::check` advances over exactly one whole frame without
//! allocating, and `Frame::parse` re-walks the same bytes and
//! materialises a `Frame`. Encoding is done by `Frame::create_bytes`
//! for the non-recursive variants; array frames are emitted by the
//! connection writer through `wire_bytes`.

use crate::error::FrameError;
use vstd::prelude::*;

verus! {

broadcast use vstd::seq::group_seq_axioms, vstd::std_specs::vec::group_vec_axioms;

pub const CR: u8 = 13;
pub const LF: u8 = 10;
pub const PLUS: u8 = 43;
pub const MINUS: u8 = 45;
pub const COLON: u8 = 58;
pub const DOLLAR: u8 = 36;
pub const STAR: u8 = 42;
pub const DIGIT_ONE: u8 = 49;
pub const DIGIT_ZERO: u8 = 48;

/// True when a byte is an ASCII decimal digit.
pub open spec fn is_digit(b: u8) -> bool {
    DIGIT_ZERO <= b <= 57
}

/// True when every byte of `s` is an ASCII decimal digit.
pub open spec fn all_digits(s: Seq<u8>) -> bool {
    forall|i: int| 0 <= i < s.len() ==> is_digit(#[trigger] s[i])
}

/// Numeric value of a digit string, most significant digit first.
pub open spec fn dec_val(s: Seq<u8>) -> nat
    recommends
        all_digits(s),
    decreases s.len(),
{
    if s.len() == 0 {
        0
    } else {
        dec_val(s.drop_last()) * 10 + (if is_digit(s.last()) {
            (s.last() - DIGIT_ZERO) as nat
        } else {
            0
        })
    }
}

/// The canonical decimal digit string of `n` (no leading zeros,
/// except for `n == 0` itself which is written `0`).
pub open spec fn dec_digits(n: nat) -> Seq<u8>
    decreases n,
{
    if n < 10 {
        seq![(n + DIGIT_ZERO) as u8]
    } else {
        dec_digits(n / 10).push((n % 10 + DIGIT_ZERO) as u8)
    }
}

/// A line is readable as an unsigned decimal exactly when it is
/// non-empty, all digits, and its value fits in a `u64`.
pub open spec fn is_dec_line(s: Seq<u8>) -> bool {
    s.len() > 0 && all_digits(s) && dec_val(s) <= u64::MAX
}

/// The canonical digit string evaluates back to the number it was
/// printed from, consists of digits only, and is never empty.
pub proof fn lemma_dec_digits_val(n: nat)
    ensures
        dec_val(dec_digits(n)) == n,
        all_digits(dec_digits(n)),
        dec_digits(n).len() >= 1,
    decreases n,
{
    if n < 10 {
        let s = seq![(n + DIGIT_ZERO) as u8];
        assert(dec_digits(n) == s);
        assert(s.drop_last() =~= Seq::<u8>::empty());
        assert(dec_val(Seq::<u8>::empty()) == 0);
        assert(s.last() == (n + DIGIT_ZERO) as u8);
        assert(dec_val(s) == n);
    } else {
        lemma_dec_digits_val(n / 10);
        let s = dec_digits(n / 10);
        let d = (n % 10 + DIGIT_ZERO) as u8;
        assert(dec_digits(n) == s.push(d));
        assert(s.push(d).drop_last() =~= s);
        assert(s.push(d).last() == d);
        assert(dec_val(s.push(d)) == dec_val(s) * 10 + n % 10);
        assert(n / 10 * 10 + n % 10 == n) by (nonlinear_arith);
        assert forall|i: int| 0 <= i < s.push(d).len() implies is_digit(#[trigger] s.push(d)[i]) by {
            if i < s.len() {
                assert(s.push(d)[i] == s[i]);
            }
        }
    }
}

/// A prefix of a digit string never evaluates to more than the whole.
pub proof fn lemma_dec_val_prefix(s: Seq<u8>, i: int)
    requires
        0 <= i <= s.len(),
    ensures
        dec_val(s.take(i)) <= dec_val(s),
    decreases s.len(),
{
    if i < s.len() {
        assert(s.drop_last().take(i) =~= s.take(i));
        lemma_dec_val_prefix(s.drop_last(), i);
        assert(dec_val(s) >= dec_val(s.drop_last()) * 10);
        assert(dec_val(s.drop_last()) * 10 >= dec_val(s.drop_last())) by (nonlinear_arith);
    } else {
        assert(s.take(i) =~= s);
    }
}

/// Position of the first `\r\n` pair at or after `i`, where the pair
/// must end strictly before the end of the buffer's scan window
/// (the search looks up to the second-to-last byte).
pub open spec fn line_end(s: Seq<u8>, i: int) -> Option<int>
    decreases s.len() - i,
{
    if i + 1 >= s.len() || i < 0 {
        None
    } else if s[i] == CR && s[i + 1] == LF {
        Some(i)
    } else {
        line_end(s, i + 1)
    }
}

/// `line_end` skips over any positions known not to start a pair.
pub proof fn lemma_line_end_skip(s: Seq<u8>, p: int, q: int)
    requires
        0 <= p <= q,
        forall|j: int| p <= j < q ==> !(#[trigger] s[j] == CR && s[j + 1] == LF),
    ensures
        line_end(s, p) == line_end(s, q),
    decreases q - p,
{
    if p < q {
        if p + 1 >= s.len() {
            assert(q + 1 >= s.len());
        } else {
            lemma_line_end_skip(s, p + 1, q);
        }
    }
}

/// Whatever `line_end` finds lies in bounds, is a `\r\n` pair, and is
/// the first such pair at or after `i`.
pub proof fn lemma_line_end_some(s: Seq<u8>, i: int, e: int)
    requires
        line_end(s, i) == Some(e),
    ensures
        i <= e,
        e + 1 < s.len(),
        s[e] == CR && s[e + 1] == LF,
        forall|j: int| i <= j < e ==> !(#[trigger] s[j] == CR && s[j + 1] == LF),
    decreases s.len() - i,
{
    if i + 1 >= s.len() || i < 0 {
    } else if s[i] == CR && s[i + 1] == LF {
    } else {
        lemma_line_end_some(s, i + 1, e);
    }
}

/// Returns the byte at the cursor without advancing.
///
/// Fails with `Incomplete` when the cursor is at or past the end.
pub fn peek_u8(buf: &Vec<u8>, pos: &mut usize) -> (r: Result<u8, FrameError>)
    ensures
        *final(pos) == *old(pos),
        match r {
            Ok(b) => *old(pos) < buf@.len() && b == buf@[*old(pos) as int],
            Err(e) => *old(pos) >= buf@.len() && (e is Incomplete),
        },
{
    if *pos < buf.len() {
        Ok(buf[*pos])
    } else {
        Err(FrameError::Incomplete)
    }
}

/// Returns the byte at the cursor and advances past it.
pub fn get_u8(buf: &Vec<u8>, pos: &mut usize) -> (r: Result<u8, FrameError>)
    ensures
        match r {
            Ok(b) => *old(pos) < buf@.len() && b == buf@[*old(pos) as int] && *final(pos) == *old(
                pos,
            ) + 1,
            Err(e) => *old(pos) >= buf@.len() && (e is Incomplete) && *final(pos) == *old(pos),
        },
{
    if *pos < buf.len() {
        let b = buf[*pos];
        *pos = *pos + 1;
        Ok(b)
    } else {
        Err(FrameError::Incomplete)
    }
}

/// Advances the cursor by `n` bytes, or fails with `Incomplete` when
/// fewer than `n` bytes remain.
pub fn skip(buf: &Vec<u8>, pos: &mut usize, n: usize) -> (r: Result<(), FrameError>)
    ensures
        match r {
            Ok(()) => *old(pos) + n <= buf@.len() && *final(pos) == *old(pos) + n,
            Err(e) => *old(pos) > buf@.len() - n && (e is Incomplete) && *final(pos) == *old(pos),
        },
{
    if *pos <= buf.len() && n <= buf.len() - *pos {
        *pos = *pos + n;
        Ok(())
    } else {
        Err(FrameError::Incomplete)
    }
}

/// Finds the next `\r\n`-terminated line.
///
/// On success the cursor lands just past the `\n` and the result
/// holds the half-open byte range of the line's content.
pub fn get_line(buf: &Vec<u8>, pos: &mut usize) -> (r: Result<(usize, usize), FrameError>)
    ensures
        match r {
            Ok((start, e)) => {
                &&& start == *old(pos)
                &&& line_end(buf@, *old(pos) as int) == Some(e as int)
                &&& *final(pos) == e + 2
                &&& *old(pos) <= e
                &&& e + 2 <= buf@.len()
            },
            Err(err) => {
                &&& line_end(buf@, *old(pos) as int) is None
                &&& (err is Incomplete)
                &&& *final(pos) == *old(pos)
            },
        },
{
    let start: usize = *pos;
    if buf.len() == 0 {
        return Err(FrameError::Incomplete);
    }
    let end: usize = buf.len() - 1;
    let mut i: usize = start;
    while i < end
        invariant
            start <= i,
            start == *old(pos),
            *pos == *old(pos),
            end + 1 == buf@.len(),
            buf@.len() <= usize::MAX,
            forall|j: int| start <= j < i ==> !(#[trigger] buf@[j] == CR && buf@[j + 1] == LF),
        decreases end - i,
    {
        if buf[i] == CR && buf[i + 1] == LF {
            *pos = i + 2;
            proof {
                lemma_line_end_skip(buf@, start as int, i as int);
                assert(line_end(buf@, i as int) == Some(i as int));
                assert(line_end(buf@, start as int) == Some(i as int));
            }
            return Ok((start, i));
        }
        i = i + 1;
    }
    proof {
        lemma_line_end_skip(buf@, start as int, i as int);
        if i as int + 1 < buf@.len() {
            assert(i >= end);
            assert(false);
        }
    }
    Err(FrameError::Incomplete)
}

/// One self-delimited RESP value.
///
/// Text payloads (`Simple`, `Error`) and binary payloads (`Bulk`) are
/// byte vectors; the codec enforces UTF-8 where the wire format
/// requires text. `Array` is the only recursive case.
#[derive(Debug)]
pub enum Frame {
    Simple(Vec<u8>),
    Error(Vec<u8>),
    Integer(u64),
    Bulk(Vec<u8>),
    Null,
    Array(Vec<Frame>),
}

/// The mathematical model of a frame: the same shape with byte
/// vectors abstracted to sequences.
pub enum FrameData {
    Simple(Seq<u8>),
    Error(Seq<u8>),
    Integer(u64),
    Bulk(Seq<u8>),
    Null,
    Array(Seq<FrameData>),
}

/// Abstracts an executable frame into its model.
pub open spec fn frame_view(f: Frame) -> FrameData
    decreases f,
{
    match f {
        Frame::Simple(s) => FrameData::Simple(s@),
        Frame::Error(s) => FrameData::Error(s@),
        Frame::Integer(n) => FrameData::Integer(n),
        Frame::Bulk(b) => FrameData::Bulk(b@),
        Frame::Null => FrameData::Null,
        Frame::Array(v) => FrameData::Array(frames_view(v@)),
    }
}

/// Abstracts a sequence of executable frames element by element.
pub open spec fn frames_view(v: Seq<Frame>) -> Seq<FrameData>
    decreases v,
{
    if v.len() == 0 {
        Seq::empty()
    } else {
        seq![frame_view(v[0])] + frames_view(v.drop_first())
    }
}

/// `frames_view` is the element-wise image of `frame_view`.
pub proof fn lemma_frames_view(v: Seq<Frame>)
    ensures
        frames_view(v).len() == v.len(),
        forall|i: int| 0 <= i < v.len() ==> frames_view(v)[i] == frame_view(#[trigger] v[i]),
    decreases v.len(),
{
    if v.len() > 0 {
        lemma_frames_view(v.drop_first());
        assert forall|i: int| 0 <= i < v.len() implies frames_view(v)[i] == frame_view(
            #[trigger] v[i],
        ) by {
            if i > 0 {
                assert(v.drop_first()[i - 1] == v[i]);
                assert(frames_view(v)[i] == frames_view(v.drop_first())[i - 1]);
            }
        }
    }
}

impl View for Frame {
    type V = FrameData;

    open spec fn view(&self) -> FrameData {
        frame_view(*self)
    }
}

/// The wire encoding of a frame.
pub open spec fn frame_enc(d: FrameData) -> Seq<u8>
    decreases d,
{
    match d {
        FrameData::Simple(s) => seq![PLUS] + s + seq![CR, LF],
        FrameData::Error(s) => seq![MINUS] + s + seq![CR, LF],
        FrameData::Integer(n) => seq![COLON] + dec_digits(n as nat) + seq![CR, LF],
        FrameData::Null => seq![DOLLAR, MINUS, DIGIT_ONE, CR, LF],
        FrameData::Bulk(b) => seq![DOLLAR] + dec_digits(b.len()) + seq![CR, LF] + b + seq![CR, LF],
        FrameData::Array(elems) => seq![STAR] + dec_digits(elems.len()) + seq![CR, LF]
            + elems_enc(elems),
    }
}

/// The concatenated wire encodings of a sequence of frames.
pub open spec fn elems_enc(elems: Seq<FrameData>) -> Seq<u8>
    decreases elems,
{
    if elems.len() == 0 {
        Seq::empty()
    } else {
        frame_enc(elems[0]) + elems_enc(elems.drop_first())
    }
}

/// True when `s` nowhere contains the `\r\n` pair.
pub open spec fn no_crlf(s: Seq<u8>) -> bool {
    forall|i: int| 0 <= i < s.len() - 1 ==> !(#[trigger] s[i] == CR && s[i + 1] == LF)
}

/// Text payloads the codec can reproduce: valid UTF-8 with no
/// embedded line terminator.
pub open spec fn text_ok(s: Seq<u8>) -> bool {
    vstd::utf8::valid_utf8(s) && no_crlf(s)
}

/// Well-formed frames: those whose encoding decodes back to the same
/// frame. Text payloads must be terminator-free UTF-8 and sizes must
/// fit the machine.
pub open spec fn frame_wf(d: FrameData) -> bool
    decreases d,
{
    match d {
        FrameData::Simple(s) => text_ok(s),
        FrameData::Error(s) => text_ok(s),
        FrameData::Integer(_) => true,
        FrameData::Null => true,
        FrameData::Bulk(b) => b.len() <= usize::MAX,
        FrameData::Array(elems) => elems.len() <= usize::MAX && (forall|i: int|
            0 <= i < elems.len() ==> frame_wf(#[trigger] elems[i])),
    }
}

impl Frame {
    /// Returns an empty array frame.
    pub fn array() -> (f: Frame)
        ensures
            f@ matches FrameData::Array(v) && v =~= Seq::<FrameData>::empty(),
    {
        let v: Vec<Frame> = Vec::new();
        let f = Frame::Array(v);
        proof {
            assert(frames_view(v@) =~= Seq::<FrameData>::empty());
        }
        f
    }

    /// Pushes a bulk frame onto an array frame.
    ///
    /// The receiver must be an array; the original panics otherwise.
    pub fn push_bulk(&mut self, bytes: Vec<u8>)
        requires
            old(self)@ is Array,
        ensures
            final(self)@ matches FrameData::Array(v) && old(self)@ matches FrameData::Array(v0)
                && v =~= v0.push(FrameData::Bulk(bytes@)),
    {
        match self {
            Frame::Array(vec) => {
                vec.push(Frame::Bulk(bytes));
                proof {
                    lemma_frames_view_push(old(self)->Array_0@, Frame::Bulk(bytes));
                }
            },
            _ => {
                vstd::pervasive::unreached::<()>()
            },
        }
    }

    /// Pushes an integer frame onto an array frame.
    ///
    /// The receiver must be an array; the original panics otherwise.
    pub fn push_int(&mut self, value: u64)
        requires
            old(self)@ is Array,
        ensures
            final(self)@ matches FrameData::Array(v) && old(self)@ matches FrameData::Array(v0)
                && v =~= v0.push(FrameData::Integer(value)),
    {
        match self {
            Frame::Array(vec) => {
                vec.push(Frame::Integer(value));
                proof {
                    lemma_frames_view_push(old(self)->Array_0@, Frame::Integer(value));
                }
            },
            _ => {
                vstd::pervasive::unreached::<()>()
            },
        }
    }
}

/// True when a frame is an array only at the top level: what the
/// connection writer can put on the wire.
pub open spec fn flat_frame(d: FrameData) -> bool {
    match d {
        FrameData::Array(es) => forall|i: int| 0 <= i < es.len() ==> !((#[trigger] es[i]) is Array),
        _ => true,
    }
}

/// Appends every byte of `src` to `dst`.
pub fn append_bytes(dst: &mut Vec<u8>, src: &Vec<u8>)
    ensures
        final(dst)@ == old(dst)@ + src@,
{
    let mut j: usize = 0;
    while j < src.len()
        invariant
            j <= src@.len(),
            dst@ =~= old(dst)@ + src@.subrange(0, j as int),
        decreases src@.len() - j,
    {
        dst.push(src[j]);
        proof {
            assert(src@.subrange(0, j as int).push(src@[j as int]) =~= src@.subrange(
                0,
                j as int + 1,
            ));
        }
        j = j + 1;
    }
    proof {
        assert(src@.subrange(0, src@.len() as int) =~= src@);
        assert(dst@ =~= old(dst)@ + src@);
    }
}

/// Serialising a longer run of frames appends the last encoding.
pub proof fn lemma_elems_enc_push(es: Seq<FrameData>, d: FrameData)
    ensures
        elems_enc(es.push(d)) =~= elems_enc(es) + frame_enc(d),
    decreases es.len(),
{
    if es.len() == 0 {
        assert(es.push(d)[0] == d);
        assert(es.push(d).drop_first() =~= Seq::<FrameData>::empty());
        assert(elems_enc(Seq::<FrameData>::empty()) =~= Seq::<u8>::empty());
        assert(elems_enc(es) =~= Seq::<u8>::empty());
    } else {
        assert(es.push(d)[0] == es[0]);
        assert(es.push(d).drop_first() =~= es.drop_first().push(d));
        lemma_elems_enc_push(es.drop_first(), d);
    }
}

impl Frame {
    /// Serialises a non-array frame into its wire bytes.
    ///
    /// Arrays are excluded; the connection writer emits them header
    /// first through `wire_bytes`, and the original panics here.
    pub fn create_bytes(&self) -> (r: Vec<u8>)
        requires
            !(self@ is Array),
        ensures
            r@ == frame_enc(self@),
    {
        let mut buffer: Vec<u8> = Vec::new();
        match self {
            Frame::Simple(val) => {
                buffer.push(PLUS);
                append_bytes(&mut buffer, val);
                buffer.push(CR);
                buffer.push(LF);
                proof {
                    assert(buffer@ =~= seq![PLUS] + val@ + seq![CR, LF]);
                }
            },
            Frame::Error(val) => {
                buffer.push(MINUS);
                append_bytes(&mut buffer, val);
                buffer.push(CR);
                buffer.push(LF);
                proof {
                    assert(buffer@ =~= seq![MINUS] + val@ + seq![CR, LF]);
                }
            },
            Frame::Integer(val) => {
                buffer.push(COLON);
                let digits = u64_to_dec(*val);
                append_bytes(&mut buffer, &digits);
                buffer.push(CR);
                buffer.push(LF);
                proof {
                    assert(buffer@ =~= seq![COLON] + dec_digits(*val as nat) + seq![CR, LF]);
                }
            },
            Frame::Null => {
                buffer.push(DOLLAR);
                buffer.push(MINUS);
                buffer.push(DIGIT_ONE);
                buffer.push(CR);
                buffer.push(LF);
                proof {
                    assert(buffer@ =~= seq![DOLLAR, MINUS, DIGIT_ONE, CR, LF]);
                }
            },
            Frame::Bulk(val) => {
                let len = val.len();
                buffer.push(DOLLAR);
                let digits = u64_to_dec(len as u64);
                append_bytes(&mut buffer, &digits);
                buffer.push(CR);
                buffer.push(LF);
                append_bytes(&mut buffer, val);
                buffer.push(CR);
                buffer.push(LF);
                proof {
                    assert(buffer@ =~= seq![DOLLAR] + dec_digits(val@.len()) + seq![CR, LF] + val@
                        + seq![CR, LF]);
                }
            },
            Frame::Array(_) => {
                return vstd::pervasive::unreached();
            },
        }
        buffer
    }

    /// Serialises any frame as the connection writer puts it on the
    /// wire: arrays are written as the `*<len>\r\n` header followed
    /// by each element's bytes, so elements must not be arrays
    /// themselves (one level of nesting suffices for this protocol).
    pub fn wire_bytes(&self) -> (r: Vec<u8>)
        requires
            flat_frame(self@),
        ensures
            r@ == frame_enc(self@),
    {
        match self {
            Frame::Array(v) => {
                let ghost elems = frames_view(v@);
                proof {
                    lemma_frames_view(v@);
                    assert(self@ == FrameData::Array(elems));
                }
                let mut buffer: Vec<u8> = Vec::new();
                buffer.push(STAR);
                let digits = u64_to_dec(v.len() as u64);
                append_bytes(&mut buffer, &digits);
                buffer.push(CR);
                buffer.push(LF);
                let ghost header = seq![STAR] + dec_digits(elems.len()) + seq![CR, LF];
                proof {
                    assert(buffer@ =~= header);
                    assert(elems.take(0) =~= Seq::<FrameData>::empty());
                }
                let mut i: usize = 0;
                while i < v.len()
                    invariant
                        i <= v@.len(),
                        elems == frames_view(v@),
                        elems.len() == v@.len(),
                        forall|j: int| 0 <= j < v@.len() ==> elems[j] == frame_view(
                            #[trigger] v@[j],
                        ),
                        forall|j: int| 0 <= j < elems.len() ==> !((#[trigger] elems[j]) is Array),
                        buffer@ =~= header + elems_enc(elems.take(i as int)),
                    decreases v@.len() - i,
                {
                    let piece = vstd::std_specs::vec::vec_index(v, i).create_bytes();
                    append_bytes(&mut buffer, &piece);
                    proof {
                        assert(elems.take(i as int).push(elems[i as int]) =~= elems.take(
                            i as int + 1,
                        ));
                        lemma_elems_enc_push(elems.take(i as int), elems[i as int]);
                        assert(buffer@ =~= header + elems_enc(elems.take(i as int + 1)));
                    }
                    i = i + 1;
                }
                proof {
                    assert(elems.take(v@.len() as int) =~= elems);
                    assert(buffer@ =~= header + elems_enc(elems));
                }
                buffer
            },
            _ => self.create_bytes(),
        }
    }
}

/// A line whose content sits at `p` and is free of `\r\n`, followed
/// by its terminator, is exactly what the line scan finds.
proof fn lemma_line_end_at(s: Seq<u8>, p: int, content: Seq<u8>)
    requires
        0 <= p,
        no_crlf(content),
        p + content.len() + 2 <= s.len(),
        s.subrange(p, p + content.len()) == content,
        s[p + content.len()] == CR,
        s[p + content.len() + 1] == LF,
    ensures
        line_end(s, p) == Some(p + content.len() as int),
{
    let e = p + content.len() as int;
    assert forall|j: int| p <= j < e implies !(#[trigger] s[j] == CR && s[j + 1] == LF) by {
        assert(s[j] == content[j - p]);
        if j < e - 1 {
            assert(s[j + 1] == content[j + 1 - p]);
        } else {
            assert(s[j + 1] == CR);
        }
    }
    lemma_line_end_skip(s, p, e);
}

/// Digit strings contain no line terminator.
proof fn lemma_digits_no_crlf(t: Seq<u8>)
    requires
        all_digits(t),
    ensures
        no_crlf(t),
{
    assert forall|i: int| 0 <= i < t.len() - 1 implies !(#[trigger] t[i] == CR && t[i + 1] == LF)
        by {
        assert(is_digit(t[i]));
    }
}

/// Every frame encoding starts with a type byte and a payload of at
/// least two more bytes.
proof fn lemma_enc_len(d: FrameData)
    ensures
        frame_enc(d).len() >= 3,
{
    match d {
        FrameData::Integer(n) => {
            lemma_dec_digits_val(n as nat);
        },
        FrameData::Bulk(b) => {
            lemma_dec_digits_val(b.len());
        },
        FrameData::Array(es) => {
            lemma_dec_digits_val(es.len());
        },
        _ => {},
    }
}

/// Decoding at the position of a well-formed frame's encoding yields
/// exactly that frame and stops exactly after its bytes, whatever
/// else the buffer holds beyond them.
proof fn lemma_seq_at(s: Seq<u8>, pos: int, enc: Seq<u8>, i: int)
    requires
        0 <= pos,
        pos + enc.len() <= s.len(),
        s.subrange(pos, pos + enc.len() as int) == enc,
        0 <= i < enc.len(),
    ensures
        s[pos + i] == enc[i],
{
    assert(s.subrange(pos, pos + enc.len() as int)[i] == s[pos + i]);
}

proof fn lemma_sub_at(s: Seq<u8>, pos: int, enc: Seq<u8>, a: int, b: int)
    requires
        0 <= pos,
        pos + enc.len() <= s.len(),
        s.subrange(pos, pos + enc.len() as int) == enc,
        0 <= a <= b <= enc.len(),
    ensures
        s.subrange(pos + a, pos + b) == enc.subrange(a, b),
{
    assert forall|i: int| 0 <= i < b - a implies s.subrange(pos + a, pos + b)[i] == enc.subrange(
        a,
        b,
    )[i] by {
        lemma_seq_at(s, pos, enc, a + i);
    }
    assert(s.subrange(pos + a, pos + b) =~= enc.subrange(a, b));
}

pub proof fn lemma_parse_at_enc(d: FrameData, s: Seq<u8>, pos: int)
    requires
        frame_wf(d),
        0 <= pos,
        pos + frame_enc(d).len() <= s.len(),
        s.subrange(pos, pos + frame_enc(d).len() as int) == frame_enc(d),
    ensures
        spec_parse(s, pos) == ParseStatus::Complete(d, pos + frame_enc(d).len() as int),
    decreases d,
{
    let enc = frame_enc(d);
    let len = enc.len() as int;
    let p = pos + 1;
    match d {
        FrameData::Simple(c) => {
            let cl = c.len() as int;
            lemma_seq_at(s, pos, enc, 0);
            lemma_seq_at(s, pos, enc, 1 + cl);
            lemma_seq_at(s, pos, enc, 2 + cl);
            lemma_sub_at(s, pos, enc, 1, 1 + cl);
            assert(enc.subrange(1, 1 + cl) =~= c);
            lemma_line_end_at(s, p, c);
        },
        FrameData::Error(c) => {
            let cl = c.len() as int;
            lemma_seq_at(s, pos, enc, 0);
            lemma_seq_at(s, pos, enc, 1 + cl);
            lemma_seq_at(s, pos, enc, 2 + cl);
            lemma_sub_at(s, pos, enc, 1, 1 + cl);
            assert(enc.subrange(1, 1 + cl) =~= c);
            lemma_line_end_at(s, p, c);
        },
        FrameData::Integer(n) => {
            let dd = dec_digits(n as nat);
            let dl = dd.len() as int;
            lemma_dec_digits_val(n as nat);
            lemma_digits_no_crlf(dd);
            lemma_seq_at(s, pos, enc, 0);
            lemma_seq_at(s, pos, enc, 1 + dl);
            lemma_seq_at(s, pos, enc, 2 + dl);
            lemma_sub_at(s, pos, enc, 1, 1 + dl);
            assert(enc.subrange(1, 1 + dl) =~= dd);
            lemma_line_end_at(s, p, dd);
            assert(is_dec_line(dd));
        },
        FrameData::Null => {
            let content = seq![MINUS, DIGIT_ONE];
            lemma_seq_at(s, pos, enc, 0);
            lemma_seq_at(s, pos, enc, 1);
            lemma_seq_at(s, pos, enc, 2);
            lemma_seq_at(s, pos, enc, 3);
            lemma_seq_at(s, pos, enc, 4);
            assert(no_crlf(content)) by {
                assert(content[0] == MINUS && content[1] == DIGIT_ONE);
            }
            assert(s.subrange(p, p + 2) =~= content);
            lemma_line_end_at(s, p, content);
        },
        FrameData::Bulk(b) => {
            let dd = dec_digits(b.len());
            let dl = dd.len() as int;
            let bl = b.len() as int;
            lemma_dec_digits_val(b.len());
            lemma_digits_no_crlf(dd);
            lemma_seq_at(s, pos, enc, 0);
            lemma_seq_at(s, pos, enc, 1);
            lemma_seq_at(s, pos, enc, 1 + dl);
            lemma_seq_at(s, pos, enc, 2 + dl);
            lemma_sub_at(s, pos, enc, 1, 1 + dl);
            assert(enc.subrange(1, 1 + dl) =~= dd);
            assert(s[p] == dd[0]);
            assert(is_digit(dd[0]));
            lemma_line_end_at(s, p, dd);
            let e = p + dl;
            assert(is_dec_line(dd));
            lemma_sub_at(s, pos, enc, 3 + dl, 3 + dl + bl);
            assert(enc.subrange(3 + dl, 3 + dl + bl) =~= b);
            assert(s.subrange(e + 2, e + 2 + bl) == b);
        },
        FrameData::Array(es) => {
            let dd = dec_digits(es.len());
            let dl = dd.len() as int;
            let el = elems_enc(es).len() as int;
            lemma_dec_digits_val(es.len());
            lemma_digits_no_crlf(dd);
            lemma_seq_at(s, pos, enc, 0);
            lemma_seq_at(s, pos, enc, 1 + dl);
            lemma_seq_at(s, pos, enc, 2 + dl);
            lemma_sub_at(s, pos, enc, 1, 1 + dl);
            assert(enc.subrange(1, 1 + dl) =~= dd);
            lemma_line_end_at(s, p, dd);
            let e = p + dl;
            assert(is_dec_line(dd));
            lemma_sub_at(s, pos, enc, 3 + dl, 3 + dl + el);
            assert(enc.subrange(3 + dl, 3 + dl + el) =~= elems_enc(es));
            assert(s.subrange(e + 2, e + 2 + el) == elems_enc(es));
            lemma_parse_elems_at_enc(es, s, e + 2);
        },
    }
}

/// Companion to `lemma_parse_at_enc` for a run of encoded frames.
pub proof fn lemma_parse_elems_at_enc(es: Seq<FrameData>, s: Seq<u8>, pos: int)
    requires
        forall|i: int| 0 <= i < es.len() ==> frame_wf(#[trigger] es[i]),
        0 <= pos,
        pos + elems_enc(es).len() <= s.len(),
        s.subrange(pos, pos + elems_enc(es).len() as int) == elems_enc(es),
    ensures
        spec_parse_elems(s, pos, es.len()) == ParseElemsStatus::Complete(
            es,
            pos + elems_enc(es).len() as int,
        ),
    decreases es,
{
    if es.len() == 0 {
        assert(es =~= Seq::<FrameData>::empty());
    } else {
        let d0 = es[0];
        let rest = es.drop_first();
        let l0 = frame_enc(d0).len() as int;
        let ltail = elems_enc(rest).len() as int;
        assert(elems_enc(es) == frame_enc(d0) + elems_enc(rest));
        lemma_sub_at(s, pos, elems_enc(es), 0, l0);
        assert(elems_enc(es).subrange(0, l0) =~= frame_enc(d0));
        assert(s.subrange(pos + 0, pos + l0) == s.subrange(pos, pos + l0));
        lemma_parse_at_enc(d0, s, pos);
        lemma_enc_len(d0);
        lemma_sub_at(s, pos, elems_enc(es), l0, l0 + ltail);
        assert(elems_enc(es).subrange(l0, l0 + ltail) =~= elems_enc(rest));
        lemma_parse_elems_at_enc(rest, s, pos + l0);
        assert(seq![d0] + rest =~= es);
    }
}

/// Round-trip law: a well-formed non-array frame parses back from
/// the bytes `create_bytes` emits for it, consuming exactly those
/// bytes.
pub proof fn lemma_create_bytes_parse(d: FrameData)
    requires
        frame_wf(d),
        !(d is Array),
    ensures
        spec_parse(frame_enc(d), 0) == ParseStatus::Complete(d, frame_enc(d).len() as int),
{
    let s = frame_enc(d);
    assert(s.subrange(0, s.len() as int) =~= s);
    lemma_parse_at_enc(d, s, 0);
}

/// Round-trip law: an array of non-array frames written by the
/// connection writer (`wire_bytes`: header, then each element)
/// parses back to an equal frame.
pub proof fn lemma_wire_write_read(d: FrameData)
    requires
        frame_wf(d),
        d is Array,
        flat_frame(d),
    ensures
        spec_parse(frame_enc(d), 0) == ParseStatus::Complete(d, frame_enc(d).len() as int),
{
    let s = frame_enc(d);
    assert(s.subrange(0, s.len() as int) =~= s);
    lemma_parse_at_enc(d, s, 0);
}

/// How truncating a buffer changes the line scan: a line whose
/// terminator survives the cut is still found; one cut off is not.
proof fn lemma_line_end_take(s: Seq<u8>, p: int, m: int)
    requires
        0 <= p,
        0 <= m <= s.len(),
    ensures
        match line_end(s, p) {
            Some(e) => if e + 2 <= m {
                line_end(s.take(m), p) == Some(e)
            } else {
                line_end(s.take(m), p) is None
            },
            None => line_end(s.take(m), p) is None,
        },
    decreases s.len() - p,
{
    if let Some(e) = line_end(s, p) {
        lemma_line_end_some(s, p, e);
    }
    if p + 1 >= m {
        if line_end(s.take(m), p) is Some {
            lemma_line_end_some(s.take(m), p, line_end(s.take(m), p)->0);
        }
    } else {
        assert(s.take(m)[p] == s[p]);
        assert(s.take(m)[p + 1] == s[p + 1]);
        if s[p] == CR && s[p + 1] == LF {
        } else {
            lemma_line_end_take(s, p + 1, m);
        }
    }
}

/// A scan that completes within the first `m` bytes completes the
/// same way on the truncated buffer.
proof fn lemma_check_take_stable(s: Seq<u8>, pos: int, m: int, end: int)
    requires
        0 <= pos,
        spec_check(s, pos) == CheckStatus::Complete(end),
        end <= m <= s.len(),
    ensures
        spec_check(s.take(m), pos) == CheckStatus::Complete(end),
    decreases s.len() - pos, 0int, 0int,
{
    let t = s.take(m);
    lemma_check_advances(s, pos);
    let p = pos + 1;
    assert(t[pos] == s[pos]);
    if s[pos] == DOLLAR && p < s.len() && s[p] == MINUS {
        assert(t[p] == s[p]);
    } else if s[pos] == PLUS || s[pos] == MINUS || s[pos] == COLON || s[pos] == DOLLAR || s[pos]
        == STAR {
        let e = match line_end(s, p) {
            Some(e) => e,
            None => 0int,
        };
        lemma_line_end_some(s, p, e);
        lemma_line_end_take(s, p, m);
        if s[pos] == STAR {
            lemma_check_elems_advances(s, e + 2, dec_val(s.subrange(p, e)));
        }
        assert(e + 2 <= end);
        assert(s.subrange(p, e) =~= t.subrange(p, e));
        if s[pos] == DOLLAR {
            assert(t[p] == s[p]);
        } else if s[pos] == STAR {
            let line = s.subrange(p, e);
            lemma_check_elems_take_stable(s, e + 2, dec_val(line), m, end);
        }
    }
}

/// Companion to `lemma_check_take_stable` for element runs.
proof fn lemma_check_elems_take_stable(s: Seq<u8>, pos: int, k: nat, m: int, end: int)
    requires
        0 <= pos <= s.len(),
        spec_check_elems(s, pos, k) == CheckStatus::Complete(end),
        end <= m <= s.len(),
    ensures
        spec_check_elems(s.take(m), pos, k) == CheckStatus::Complete(end),
    decreases s.len() - pos, 1int, k,
{
    if k > 0 {
        lemma_check_advances(s, pos);
        if let CheckStatus::Complete(e1) = spec_check(s, pos) {
            lemma_check_elems_advances(s, e1, (k - 1) as nat);
            lemma_check_take_stable(s, pos, m, e1);
            lemma_check_elems_take_stable(s, e1, (k - 1) as nat, m, end);
        }
    }
}

/// Truncating a buffer strictly before the end of a complete frame
/// leaves a scan that asks for more bytes.
proof fn lemma_check_take_partial(s: Seq<u8>, pos: int, m: int)
    requires
        0 <= pos,
        0 <= m <= s.len(),
        spec_check(s, pos) matches CheckStatus::Complete(end) && m < end,
    ensures
        spec_check(s.take(m), pos) is Partial,
    decreases s.len() - pos, 0int, 0int,
{
    let t = s.take(m);
    let end = match spec_check(s, pos) {
        CheckStatus::Complete(e) => e,
        _ => 0int,
    };
    lemma_check_advances(s, pos);
    if pos >= m {
    } else {
        assert(t[pos] == s[pos]);
        let p = pos + 1;
        if s[pos] == DOLLAR && p < s.len() && s[p] == MINUS {
            if p < m {
                assert(t[p] == s[p]);
            }
            assert(end == p + 4);
            assert(t.len() - p < 4);
        } else {
            let e = match line_end(s, p) {
                Some(e) => e,
                None => 0int,
            };
            lemma_line_end_some(s, p, e);
            lemma_line_end_take(s, p, m);
            if s[pos] == PLUS || s[pos] == MINUS || s[pos] == COLON {
                assert(end == e + 2);
                assert(line_end(t, p) is None);
            } else if s[pos] == DOLLAR {
                if p < m {
                    assert(t[p] == s[p]);
                }
                if e + 2 <= m {
                    assert(s.subrange(p, e) =~= t.subrange(p, e));
                    let line = s.subrange(p, e);
                    assert(t.len() - (e + 2) < dec_val(line) + 2);
                }
            } else {
                // '*'
                let line = s.subrange(p, e);
                if e + 2 <= m {
                    assert(s.subrange(p, e) =~= t.subrange(p, e));
                    lemma_check_elems_take_partial(s, e + 2, dec_val(line), m);
                }
            }
        }
    }
}

/// Companion to `lemma_check_take_partial` for element runs.
proof fn lemma_check_elems_take_partial(s: Seq<u8>, pos: int, k: nat, m: int)
    requires
        0 <= pos <= s.len(),
        pos <= m <= s.len(),
        spec_check_elems(s, pos, k) matches CheckStatus::Complete(end) && m < end,
    ensures
        spec_check_elems(s.take(m), pos, k) is Partial,
    decreases s.len() - pos, 1int, k,
{
    if k > 0 {
        lemma_check_advances(s, pos);
        if let CheckStatus::Complete(e1) = spec_check(s, pos) {
            lemma_check_elems_advances(s, e1, (k - 1) as nat);
            if m < e1 {
                lemma_check_take_partial(s, pos, m);
            } else {
                lemma_check_take_stable(s, pos, m, e1);
                lemma_check_elems_take_partial(s, e1, (k - 1) as nat, m);
            }
        }
    }
}

/// Framing law: for every proper byte prefix of the encoding of a
/// well-formed frame, `check` reports that the frame is incomplete.
pub proof fn lemma_prefix_incomplete(d: FrameData, m: int)
    requires
        frame_wf(d),
        0 <= m < frame_enc(d).len(),
    ensures
        spec_check(frame_enc(d).take(m), 0) is Partial,
{
    let s = frame_enc(d);
    assert(s.subrange(0, s.len() as int) =~= s);
    lemma_parse_at_enc(d, s, 0);
    lemma_parse_implies_check(s, 0);
    lemma_check_take_partial(s, 0, m);
}

/// A successful decode certifies a successful scan ending at the
/// same position.
pub proof fn lemma_parse_implies_check(s: Seq<u8>, pos: int)
    requires
        spec_parse(s, pos) is Complete,
    ensures
        spec_parse(s, pos) matches ParseStatus::Complete(d, end) ==> spec_check(s, pos)
            == CheckStatus::Complete(end),
    decreases s.len() - pos, 0int, 0int,
{
    if 0 <= pos < s.len() {
        let p = pos + 1;
        let t = s[pos];
        if t == DOLLAR && p < s.len() && s[p] == MINUS {
            if let Some(e) = line_end(s, p) {
                lemma_line_end_some(s, p, e);
                if s.subrange(p, e) == seq![MINUS, DIGIT_ONE] {
                    assert(e == p + 2) by {
                        assert(s.subrange(p, e).len() == 2);
                    }
                }
            }
        } else if t == STAR {
            if let Some(e) = line_end(s, p) {
                lemma_line_end_some(s, p, e);
                let line = s.subrange(p, e);
                if is_dec_line(line) && dec_val(line) <= usize::MAX && e >= p && e + 2 <= s.len() {
                    lemma_parse_elems_implies_check(s, e + 2, dec_val(line));
                }
            }
        }
    }
}

/// Companion to `lemma_parse_implies_check` for element runs.
pub proof fn lemma_parse_elems_implies_check(s: Seq<u8>, pos: int, k: nat)
    requires
        0 <= pos <= s.len(),
        spec_parse_elems(s, pos, k) is Complete,
    ensures
        spec_parse_elems(s, pos, k) matches ParseElemsStatus::Complete(ds, end) ==> spec_check_elems(
            s,
            pos,
            k,
        ) == CheckStatus::Complete(end),
    decreases s.len() - pos, 1int, k,
{
    if k > 0 {
        if let ParseStatus::Complete(d0, e1) = spec_parse(s, pos) {
            lemma_parse_implies_check(s, pos);
            if pos < e1 <= s.len() {
                lemma_parse_elems_implies_check(s, e1, (k - 1) as nat);
            }
        }
    }
}

/// Appending one frame to a vector appends its model to the view.
pub proof fn lemma_frames_view_push(v: Seq<Frame>, f: Frame)
    ensures
        frames_view(v.push(f)) =~= frames_view(v).push(frame_view(f)),
    decreases v.len(),
{
    lemma_frames_view(v.push(f));
    lemma_frames_view(v);
    assert(v.push(f)[v.len() as int] == f);
    assert forall|i: int| 0 <= i < v.len() + 1 implies #[trigger] frames_view(v.push(f))[i]
        == frames_view(v).push(frame_view(f))[i] by {
        if i < v.len() {
            assert(v.push(f)[i] == v[i]);
        }
    }
}

/// Copies the byte range `[from, to)` of `buf` into a fresh vector.
pub fn copy_range(buf: &Vec<u8>, from: usize, to: usize) -> (r: Vec<u8>)
    requires
        from <= to <= buf@.len(),
    ensures
        r@ == buf@.subrange(from as int, to as int),
{
    let mut r: Vec<u8> = Vec::new();
    let mut j: usize = from;
    while j < to
        invariant
            from <= j <= to <= buf@.len(),
            r@ =~= buf@.subrange(from as int, j as int),
        decreases to - j,
    {
        r.push(buf[j]);
        proof {
            assert(r@ =~= buf@.subrange(from as int, j as int + 1));
        }
        j = j + 1;
    }
    proof {
        assert(r@ =~= buf@.subrange(from as int, to as int));
    }
    r
}

/// Decides whether the byte range `[from, to)` of `buf` is valid
/// UTF-8, walking one encoded scalar at a time.
pub fn is_utf8_range(buf: &Vec<u8>, from: usize, to: usize) -> (r: bool)
    requires
        from <= to <= buf@.len(),
    ensures
        r == vstd::utf8::valid_utf8(buf@.subrange(from as int, to as int)),
{
    let ghost whole = buf@.subrange(from as int, to as int);
    let mut i: usize = from;
    while i < to
        invariant
            from <= i <= to <= buf@.len(),
            whole == buf@.subrange(from as int, to as int),
            vstd::utf8::valid_utf8(whole) == vstd::utf8::valid_utf8(
                buf@.subrange(i as int, to as int),
            ),
        decreases to - i,
    {
        let ghost suf = buf@.subrange(i as int, to as int);
        proof {
            assert(suf.len() > 0);
            assert(suf[0] == buf@[i as int]);
        }
        let b1 = buf[i];
        let w: usize;
        if b1 < 0x80 {
            proof {
                assert(b1 & 0x7f == b1) by (bit_vector)
                    requires
                        b1 < 0x80,
                ;
                assert(vstd::utf8::valid_first_scalar(suf));
                assert(vstd::utf8::length_of_first_scalar(suf) == 1);
            }
            w = 1;
        } else if b1 < 0xc0 {
            proof {
                assert(!vstd::utf8::valid_first_scalar(suf));
            }
            return false;
        } else if b1 <= 0xdf {
            if to - i < 2 {
                proof {
                    assert(!vstd::utf8::valid_first_scalar(suf));
                }
                return false;
            }
            let b2 = buf[i + 1];
            proof {
                assert(suf[1] == buf@[i as int + 1]);
            }
            if !(0x80 <= b2 && b2 <= 0xbf) {
                proof {
                    assert(!vstd::utf8::valid_first_scalar(suf));
                }
                return false;
            }
            let cp: u32 = (((b1 & 0x1f) as u32) << 6) | ((b2 & 0x3f) as u32);
            if cp < 0x80 {
                proof {
                    assert(!vstd::utf8::valid_first_scalar(suf));
                }
                return false;
            }
            proof {
                assert((((b1 & 0x1f) as u32) << 6) | ((b2 & 0x3f) as u32) <= 0x7ff) by (bit_vector);
                assert(vstd::utf8::valid_first_scalar(suf));
                assert(vstd::utf8::length_of_first_scalar(suf) == 2);
            }
            w = 2;
        } else if b1 <= 0xef {
            if to - i < 3 {
                proof {
                    assert(!vstd::utf8::valid_first_scalar(suf));
                }
                return false;
            }
            let b2 = buf[i + 1];
            let b3 = buf[i + 2];
            proof {
                assert(suf[1] == buf@[i as int + 1]);
                assert(suf[2] == buf@[i as int + 2]);
            }
            if !(0x80 <= b2 && b2 <= 0xbf) || !(0x80 <= b3 && b3 <= 0xbf) {
                proof {
                    assert(!vstd::utf8::valid_first_scalar(suf));
                }
                return false;
            }
            let cp: u32 = (((b1 & 0x0f) as u32) << 12) | (((b2 & 0x3f) as u32) << 6) | ((b3
                & 0x3f) as u32);
            if cp < 0x800 || (0xd800 <= cp && cp <= 0xdfff) {
                proof {
                    assert(!vstd::utf8::valid_first_scalar(suf));
                }
                return false;
            }
            proof {
                assert(vstd::utf8::valid_first_scalar(suf));
                assert(vstd::utf8::length_of_first_scalar(suf) == 3);
            }
            w = 3;
        } else if b1 <= 0xf7 {
            if to - i < 4 {
                proof {
                    assert(!vstd::utf8::valid_first_scalar(suf));
                }
                return false;
            }
            let b2 = buf[i + 1];
            let b3 = buf[i + 2];
            let b4 = buf[i + 3];
            proof {
                assert(suf[1] == buf@[i as int + 1]);
                assert(suf[2] == buf@[i as int + 2]);
                assert(suf[3] == buf@[i as int + 3]);
            }
            if !(0x80 <= b2 && b2 <= 0xbf) || !(0x80 <= b3 && b3 <= 0xbf) || !(0x80 <= b4 && b4
                <= 0xbf) {
                proof {
                    assert(!vstd::utf8::valid_first_scalar(suf));
                }
                return false;
            }
            let cp: u32 = (((b1 & 0x07) as u32) << 18) | (((b2 & 0x3f) as u32) << 12) | (((b3
                & 0x3f) as u32) << 6) | ((b4 & 0x3f) as u32);
            if cp < 0x10000 || cp > 0x10ffff {
                proof {
                    assert(!vstd::utf8::valid_first_scalar(suf));
                }
                return false;
            }
            proof {
                assert(vstd::utf8::valid_first_scalar(suf));
                assert(vstd::utf8::length_of_first_scalar(suf) == 4);
            }
            w = 4;
        } else {
            proof {
                assert(!vstd::utf8::valid_first_scalar(suf));
            }
            return false;
        }
        proof {
            assert(vstd::utf8::pop_first_scalar(suf) =~= buf@.subrange(i as int + w, to as int));
            assert(vstd::utf8::valid_utf8(suf) == vstd::utf8::valid_utf8(
                buf@.subrange(i as int + w, to as int),
            ));
        }
        i = i + w;
    }
    proof {
        assert(buf@.subrange(i as int, to as int).len() == 0);
        assert(vstd::utf8::valid_utf8(buf@.subrange(i as int, to as int)));
    }
    true
}

/// Compares two byte vectors element by element.
pub fn bytes_eq(a: &Vec<u8>, b: &Vec<u8>) -> (r: bool)
    ensures
        r == (a@ == b@),
{
    if a.len() != b.len() {
        return false;
    }
    let mut i: usize = 0;
    while i < a.len()
        invariant
            i <= a@.len(),
            a@.len() == b@.len(),
            forall|j: int| 0 <= j < i ==> a@[j] == b@[j],
        decreases a@.len() - i,
    {
        if a[i] != b[i] {
            return false;
        }
        i = i + 1;
    }
    proof {
        assert(a@ =~= b@);
    }
    true
}

/// Compares two frame vectors element by element.
fn frames_eq(a: &Vec<Frame>, b: &Vec<Frame>) -> (r: bool)
    ensures
        r == (frames_view(a@) == frames_view(b@)),
    decreases a,
{
    proof {
        lemma_frames_view(a@);
        lemma_frames_view(b@);
    }
    if a.len() != b.len() {
        proof {
            assert(frames_view(a@).len() != frames_view(b@).len());
        }
        return false;
    }
    let mut i: usize = 0;
    while i < a.len()
        invariant
            i <= a@.len(),
            a@.len() == b@.len(),
            frames_view(a@).len() == a@.len(),
            frames_view(b@).len() == b@.len(),
            forall|j: int| 0 <= j < a@.len() ==> frames_view(a@)[j] == frame_view(
                #[trigger] a@[j],
            ),
            forall|j: int| 0 <= j < b@.len() ==> frames_view(b@)[j] == frame_view(
                #[trigger] b@[j],
            ),
            forall|j: int| 0 <= j < i ==> frames_view(a@)[j] == #[trigger] frames_view(b@)[j],
        decreases a@.len() - i,
    {
        let same = vstd::std_specs::vec::vec_index(a, i).eq(vstd::std_specs::vec::vec_index(b, i));
        if !same {
            proof {
                assert(frames_view(a@)[i as int] != frames_view(b@)[i as int]);
            }
            return false;
        }
        i = i + 1;
    }
    proof {
        assert(frames_view(a@) =~= frames_view(b@));
    }
    true
}

impl PartialEq for Frame {
    /// Structural equality: two frames are equal exactly when their
    /// models are.
    fn eq(&self, other: &Frame) -> (r: bool)
        decreases self,
    {
        match (self, other) {
            (Frame::Simple(l0), Frame::Simple(r0)) => bytes_eq(l0, r0),
            (Frame::Error(l0), Frame::Error(r0)) => bytes_eq(l0, r0),
            (Frame::Integer(l0), Frame::Integer(r0)) => l0 == r0,
            (Frame::Bulk(l0), Frame::Bulk(r0)) => bytes_eq(l0, r0),
            (Frame::Null, Frame::Null) => true,
            (Frame::Array(l0), Frame::Array(r0)) => frames_eq(l0, r0),
            _ => false,
        }
    }
}

impl vstd::std_specs::cmp::PartialEqSpecImpl for Frame {
    open spec fn obeys_eq_spec() -> bool {
        true
    }

    open spec fn eq_spec(&self, other: &Frame) -> bool {
        self@ == other@
    }
}

impl Frame {
    /// Describes the frame as an "unexpected frame" error message,
    /// as the client helpers report a reply of the wrong shape.
    pub fn to_error(&self) -> (r: String)
        ensures
            r@ == "unexpected frame"@,
    {
        let r = "unexpected frame".to_string();
        proof {
            vstd::string::to_string_from_display_ensures_for_str("unexpected frame", r);
        }
        r
    }
}

/// Outcome of scanning one frame: the cursor position after a whole
/// frame, a need for more bytes, or a malformed stream.
pub enum CheckStatus {
    Complete(int),
    Partial,
    Malformed,
}

/// What `Frame::check` decides on buffer `s` with the cursor at `pos`.
pub open spec fn spec_check(s: Seq<u8>, pos: int) -> CheckStatus
    decreases s.len() - pos, 0int, 0int,
{
    if pos < 0 || pos >= s.len() {
        CheckStatus::Partial
    } else {
        let t = s[pos];
        let p = pos + 1;
        if t == PLUS || t == MINUS {
            match line_end(s, p) {
                Some(e) => CheckStatus::Complete(e + 2),
                None => CheckStatus::Partial,
            }
        } else if t == COLON {
            match line_end(s, p) {
                Some(e) => if is_dec_line(s.subrange(p, e)) {
                    CheckStatus::Complete(e + 2)
                } else {
                    CheckStatus::Malformed
                },
                None => CheckStatus::Partial,
            }
        } else if t == DOLLAR {
            if p >= s.len() {
                CheckStatus::Partial
            } else if s[p] == MINUS {
                if s.len() - p < 4 {
                    CheckStatus::Partial
                } else {
                    CheckStatus::Complete(p + 4)
                }
            } else {
                match line_end(s, p) {
                    Some(e) => {
                        let line = s.subrange(p, e);
                        if !is_dec_line(line) || dec_val(line) > usize::MAX {
                            CheckStatus::Malformed
                        } else if s.len() - (e + 2) < dec_val(line) + 2 {
                            CheckStatus::Partial
                        } else {
                            CheckStatus::Complete(e + 2 + dec_val(line) + 2)
                        }
                    },
                    None => CheckStatus::Partial,
                }
            }
        } else if t == STAR {
            match line_end(s, p) {
                Some(e) => {
                    let line = s.subrange(p, e);
                    if !is_dec_line(line) {
                        CheckStatus::Malformed
                    } else if e < p || e + 2 > s.len() {
                        // line_end never yields this; the branch only
                        // bounds the recursion
                        CheckStatus::Malformed
                    } else {
                        spec_check_elems(s, e + 2, dec_val(line))
                    }
                },
                None => CheckStatus::Partial,
            }
        } else {
            CheckStatus::Malformed
        }
    }
}

/// Scans `k` consecutive frames starting at `pos`.
pub open spec fn spec_check_elems(s: Seq<u8>, pos: int, k: nat) -> CheckStatus
    decreases s.len() - pos, 1int, k,
{
    if k == 0 {
        CheckStatus::Complete(pos)
    } else {
        match spec_check(s, pos) {
            CheckStatus::Complete(end) => if end <= pos || end > s.len() {
                // a completed frame always advances within bounds;
                // the branch only bounds the recursion
                CheckStatus::Malformed
            } else {
                spec_check_elems(s, end, (k - 1) as nat)
            },
            r => r,
        }
    }
}

/// A completed scan always lands strictly past its start and inside
/// the buffer, so the guard branches in the scan are never taken.
pub proof fn lemma_check_advances(s: Seq<u8>, pos: int)
    ensures
        spec_check(s, pos) matches CheckStatus::Complete(end) ==> pos < end <= s.len(),
    decreases s.len() - pos, 0int, 0int,
{
    if 0 <= pos < s.len() {
        let t = s[pos];
        let p = pos + 1;
        if t == PLUS || t == MINUS || t == COLON {
            if let Some(e) = line_end(s, p) {
                lemma_line_end_some(s, p, e);
            }
        } else if t == DOLLAR {
            if p < s.len() && s[p] != MINUS {
                if let Some(e) = line_end(s, p) {
                    lemma_line_end_some(s, p, e);
                }
            }
        } else if t == STAR {
            if let Some(e) = line_end(s, p) {
                lemma_line_end_some(s, p, e);
                let line = s.subrange(p, e);
                if is_dec_line(line) {
                    lemma_check_elems_advances(s, e + 2, dec_val(line));
                }
            }
        }
    }
}

/// Companion to `lemma_check_advances` for element sequences.
pub proof fn lemma_check_elems_advances(s: Seq<u8>, pos: int, k: nat)
    requires
        0 <= pos <= s.len(),
    ensures
        spec_check_elems(s, pos, k) matches CheckStatus::Complete(end) ==> pos <= end <= s.len(),
    decreases s.len() - pos, 1int, k,
{
    if k > 0 {
        lemma_check_advances(s, pos);
        if let CheckStatus::Complete(end) = spec_check(s, pos) {
            if pos < end <= s.len() {
                lemma_check_elems_advances(s, end, (k - 1) as nat);
            }
        }
    }
}

/// Outcome of decoding one frame: the decoded model and the cursor
/// position after it, a need for more bytes, or a malformed stream.
pub enum ParseStatus {
    Complete(FrameData, int),
    Partial,
    Malformed,
}

/// Outcome of decoding a run of consecutive frames.
pub enum ParseElemsStatus {
    Complete(Seq<FrameData>, int),
    Partial,
    Malformed,
}

/// What `Frame::parse` decodes on buffer `s` with the cursor at
/// `pos`. Beyond `spec_check` it validates UTF-8 in text payloads
/// and the exact `-1` of the null sentinel.
pub open spec fn spec_parse(s: Seq<u8>, pos: int) -> ParseStatus
    decreases s.len() - pos, 0int, 0int,
{
    if pos < 0 || pos >= s.len() {
        ParseStatus::Partial
    } else {
        let t = s[pos];
        let p = pos + 1;
        if t == PLUS || t == MINUS {
            match line_end(s, p) {
                Some(e) => if vstd::utf8::valid_utf8(s.subrange(p, e)) {
                    if t == PLUS {
                        ParseStatus::Complete(FrameData::Simple(s.subrange(p, e)), e + 2)
                    } else {
                        ParseStatus::Complete(FrameData::Error(s.subrange(p, e)), e + 2)
                    }
                } else {
                    ParseStatus::Malformed
                },
                None => ParseStatus::Partial,
            }
        } else if t == COLON {
            match line_end(s, p) {
                Some(e) => if is_dec_line(s.subrange(p, e)) {
                    ParseStatus::Complete(
                        FrameData::Integer(dec_val(s.subrange(p, e)) as u64),
                        e + 2,
                    )
                } else {
                    ParseStatus::Malformed
                },
                None => ParseStatus::Partial,
            }
        } else if t == DOLLAR {
            if p >= s.len() {
                ParseStatus::Partial
            } else if s[p] == MINUS {
                match line_end(s, p) {
                    Some(e) => if s.subrange(p, e) == seq![MINUS, DIGIT_ONE] {
                        ParseStatus::Complete(FrameData::Null, e + 2)
                    } else {
                        ParseStatus::Malformed
                    },
                    None => ParseStatus::Partial,
                }
            } else {
                match line_end(s, p) {
                    Some(e) => {
                        let line = s.subrange(p, e);
                        if !is_dec_line(line) || dec_val(line) > usize::MAX {
                            ParseStatus::Malformed
                        } else if s.len() - (e + 2) < dec_val(line) + 2 {
                            ParseStatus::Partial
                        } else {
                            ParseStatus::Complete(
                                FrameData::Bulk(s.subrange(e + 2, e + 2 + dec_val(line))),
                                e + 2 + dec_val(line) + 2,
                            )
                        }
                    },
                    None => ParseStatus::Partial,
                }
            }
        } else if t == STAR {
            match line_end(s, p) {
                Some(e) => {
                    let line = s.subrange(p, e);
                    if !is_dec_line(line) || dec_val(line) > usize::MAX {
                        ParseStatus::Malformed
                    } else if e < p || e + 2 > s.len() {
                        // line_end never yields this; the branch only
                        // bounds the recursion
                        ParseStatus::Malformed
                    } else {
                        match spec_parse_elems(s, e + 2, dec_val(line)) {
                            ParseElemsStatus::Complete(ds, end) => ParseStatus::Complete(
                                FrameData::Array(ds),
                                end,
                            ),
                            ParseElemsStatus::Partial => ParseStatus::Partial,
                            ParseElemsStatus::Malformed => ParseStatus::Malformed,
                        }
                    }
                },
                None => ParseStatus::Partial,
            }
        } else {
            ParseStatus::Malformed
        }
    }
}

/// Decodes `k` consecutive frames starting at `pos`.
pub open spec fn spec_parse_elems(s: Seq<u8>, pos: int, k: nat) -> ParseElemsStatus
    decreases s.len() - pos, 1int, k,
{
    if k == 0 {
        ParseElemsStatus::Complete(Seq::empty(), pos)
    } else {
        match spec_parse(s, pos) {
            ParseStatus::Complete(d, end) => if end <= pos || end > s.len() {
                // a decoded frame always advances within bounds;
                // the branch only bounds the recursion
                ParseElemsStatus::Malformed
            } else {
                match spec_parse_elems(s, end, (k - 1) as nat) {
                    ParseElemsStatus::Complete(rest, end2) => ParseElemsStatus::Complete(
                        seq![d] + rest,
                        end2,
                    ),
                    r => r,
                }
            },
            ParseStatus::Partial => ParseElemsStatus::Partial,
            ParseStatus::Malformed => ParseElemsStatus::Malformed,
        }
    }
}

/// Reads a `\r\n`-terminated unsigned decimal at the cursor.
///
/// Fails with `Incomplete` when no whole line is buffered, and as
/// malformed when the line is empty, contains a non-digit, or
/// overflows a `u64`.
pub fn get_decimal(buf: &Vec<u8>, pos: &mut usize) -> (r: Result<u64, FrameError>)
    ensures
        match r {
            Ok(v) => {
                &&& line_end(buf@, *old(pos) as int) matches Some(e) && is_dec_line(
                    buf@.subrange(*old(pos) as int, e),
                ) && v == dec_val(buf@.subrange(*old(pos) as int, e)) && *final(pos) == e + 2
                    && *old(pos) <= e && e + 2 <= buf@.len()
            },
            Err(err) => {
                &&& (err is Incomplete <==> line_end(buf@, *old(pos) as int) is None)
                &&& (err is Incomplete ==> *final(pos) == *old(pos))
                &&& (err is Other ==> (line_end(buf@, *old(pos) as int) matches Some(e)
                    && !is_dec_line(buf@.subrange(*old(pos) as int, e))))
            },
        },
{
    let (start, e) = match get_line(buf, pos) {
        Ok(se) => se,
        Err(err) => {
            return Err(err);
        },
    };
    if start == e {
        return Err(FrameError::Other("protocol error; invalid frame format".to_string()));
    }
    let ghost line = buf@.subrange(start as int, e as int);
    let mut acc: u64 = 0;
    let mut i: usize = start;
    while i < e
        invariant
            start <= i <= e,
            e + 2 <= buf@.len(),
            start == *old(pos),
            line_end(buf@, *old(pos) as int) == Some(e as int),
            line == buf@.subrange(start as int, e as int),
            all_digits(buf@.subrange(start as int, i as int)),
            acc == dec_val(buf@.subrange(start as int, i as int)),
        decreases e - i,
    {
        let b = buf[i];
        let ghost pre = buf@.subrange(start as int, i as int);
        let ghost cur = buf@.subrange(start as int, i as int + 1);
        proof {
            assert(cur.drop_last() =~= pre);
            assert(cur.last() == buf@[i as int]);
        }
        if b < DIGIT_ZERO || b > 57 {
            proof {
                assert(line[i - start as int] == buf@[i as int]);
                assert(!is_dec_line(line));
            }
            return Err(FrameError::Other("protocol error; invalid frame format".to_string()));
        }
        let wide: u128 = (acc as u128) * 10 + ((b - DIGIT_ZERO) as u128);
        if wide > u64::MAX as u128 {
            proof {
                assert(dec_val(cur) > u64::MAX);
                assert(cur =~= line.take(i as int + 1 - start as int));
                lemma_dec_val_prefix(line, i as int + 1 - start as int);
                assert(!is_dec_line(line));
            }
            return Err(FrameError::Other("protocol error; invalid frame format".to_string()));
        }
        acc = wide as u64;
        i = i + 1;
    }
    proof {
        assert(buf@.subrange(start as int, e as int) == line);
    }
    Ok(acc)
}

impl Frame {
    /// Checks whether one whole frame can be decoded from `buf` at
    /// the cursor, advancing the cursor over it. Never allocates a
    /// frame and never reads outside the buffer.
    pub fn check(buf: &Vec<u8>, pos: &mut usize) -> (r: Result<(), FrameError>)
        ensures
            match r {
                Ok(()) => spec_check(buf@, *old(pos) as int) == CheckStatus::Complete(
                    *final(pos) as int,
                ) && *old(pos) < *final(pos) && *final(pos) <= buf@.len(),
                Err(e) => {
                    &&& (e is Incomplete <==> spec_check(buf@, *old(pos) as int) is Partial)
                    &&& (e is Other <==> spec_check(buf@, *old(pos) as int) is Malformed)
                },
            },
        decreases buf@.len() - *old(pos),
    {
        let ghost pos0 = *pos as int;
        let t = match get_u8(buf, pos) {
            Ok(b) => b,
            Err(e) => {
                return Err(e);
            },
        };
        let ghost p = pos0 + 1;
        if t == PLUS || t == MINUS {
            match get_line(buf, pos) {
                Ok(_) => Ok(()),
                Err(e) => Err(e),
            }
        } else if t == COLON {
            match get_decimal(buf, pos) {
                Ok(_) => Ok(()),
                Err(e) => Err(e),
            }
        } else if t == DOLLAR {
            let b = match peek_u8(buf, pos) {
                Ok(b) => b,
                Err(e) => {
                    return Err(e);
                },
            };
            if b == MINUS {
                // Skip '-1\r\n'
                match skip(buf, pos, 4) {
                    Ok(()) => Ok(()),
                    Err(e) => Err(e),
                }
            } else {
                let len = match get_decimal(buf, pos) {
                    Ok(v) => v,
                    Err(e) => {
                        return Err(e);
                    },
                };
                if len > usize::MAX as u64 {
                    return Err(FrameError::Other(
                        "protocol error; invalid frame format".to_string(),
                    ));
                }
                // Skip that number of bytes plus the trailing '\r\n'
                match skip(buf, pos, len as usize) {
                    Ok(()) => {},
                    Err(e) => {
                        return Err(e);
                    },
                }
                match skip(buf, pos, 2) {
                    Ok(()) => Ok(()),
                    Err(e) => Err(e),
                }
            }
        } else if t == STAR {
            let len = match get_decimal(buf, pos) {
                Ok(v) => v,
                Err(e) => {
                    return Err(e);
                },
            };
            let ghost hdr = *pos as int;
            let mut i: u64 = 0;
            while i < len
                invariant
                    0 <= i <= len,
                    pos0 == *old(pos),
                    pos0 < hdr <= *pos as int,
                    *pos <= buf@.len(),
                    spec_check(buf@, pos0) == spec_check_elems(buf@, hdr, len as nat),
                    spec_check_elems(buf@, hdr, len as nat) == spec_check_elems(
                        buf@,
                        *pos as int,
                        (len - i) as nat,
                    ),
                decreases len - i,
            {
                match Frame::check(buf, pos) {
                    Ok(()) => {},
                    Err(e) => {
                        return Err(e);
                    },
                }
                i = i + 1;
            }
            Ok(())
        } else {
            Err(FrameError::Other("protocol error; invalid frame type byte".to_string()))
        }
    }

    /// Decodes one whole frame from `buf` at the cursor. The cursor
    /// must stand where a matching `check` succeeded; beyond that
    /// scan, decoding validates UTF-8 in text payloads and the exact
    /// `-1` of the null sentinel, and fails as malformed otherwise.
    pub fn parse(buf: &Vec<u8>, pos: &mut usize) -> (r: Result<Frame, FrameError>)
        requires
            spec_check(buf@, *old(pos) as int) is Complete,
        ensures
            match r {
                Ok(f) => spec_parse(buf@, *old(pos) as int) == ParseStatus::Complete(
                    f@,
                    *final(pos) as int,
                ) && spec_check(buf@, *old(pos) as int) == CheckStatus::Complete(
                    *final(pos) as int,
                ) && *old(pos) < *final(pos) <= buf@.len(),
                Err(e) => {
                    &&& (e is Incomplete <==> spec_parse(buf@, *old(pos) as int) is Partial)
                    &&& (e is Other <==> spec_parse(buf@, *old(pos) as int) is Malformed)
                },
            },
        decreases buf@.len() - *old(pos),
    {
        let ghost pos0 = *pos as int;
        let t = match get_u8(buf, pos) {
            Ok(b) => b,
            Err(e) => {
                proof {
                    assert(false);
                }
                return Err(e);
            },
        };
        let ghost p = pos0 + 1;
        if t == PLUS || t == MINUS {
            let (start, e) = match get_line(buf, pos) {
                Ok(se) => se,
                Err(err) => {
                    proof {
                        assert(false);
                    }
                    return Err(err);
                },
            };
            if !is_utf8_range(buf, start, e) {
                return Err(FrameError::Other("protocol error; invalid frame format".to_string()));
            }
            let data = copy_range(buf, start, e);
            if t == PLUS {
                Ok(Frame::Simple(data))
            } else {
                Ok(Frame::Error(data))
            }
        } else if t == COLON {
            let v = match get_decimal(buf, pos) {
                Ok(v) => v,
                Err(err) => {
                    proof {
                        assert(false);
                    }
                    return Err(err);
                },
            };
            Ok(Frame::Integer(v))
        } else if t == DOLLAR {
            let b = match peek_u8(buf, pos) {
                Ok(b) => b,
                Err(err) => {
                    proof {
                        assert(false);
                    }
                    return Err(err);
                },
            };
            if b == MINUS {
                let (start, e) = match get_line(buf, pos) {
                    Ok(se) => se,
                    Err(err) => {
                        return Err(err);
                    },
                };
                let ghost line = buf@.subrange(start as int, e as int);
                if e - start == 2 && buf[start] == MINUS && buf[start + 1] == DIGIT_ONE {
                    proof {
                        assert(line =~= seq![MINUS, DIGIT_ONE]);
                        lemma_line_end_some(buf@, p, e as int);
                    }
                    Ok(Frame::Null)
                } else {
                    proof {
                        if line.len() == 2 {
                            assert(line[0] == buf@[start as int]);
                            assert(line[1] == buf@[start as int + 1]);
                            assert(line != seq![MINUS, DIGIT_ONE]);
                        } else {
                            assert(line != seq![MINUS, DIGIT_ONE]);
                        }
                    }
                    Err(FrameError::Other("protocol error; invalid frame format".to_string()))
                }
            } else {
                let len64 = match get_decimal(buf, pos) {
                    Ok(v) => v,
                    Err(err) => {
                        proof {
                            assert(false);
                        }
                        return Err(err);
                    },
                };
                if len64 > usize::MAX as u64 {
                    proof {
                        assert(false);
                    }
                    return Err(FrameError::Other(
                        "protocol error; invalid frame format".to_string(),
                    ));
                }
                let n = len64 as usize;
                let start2 = *pos;
                let total = buf.len();
                proof {
                    assert(start2 + n + 2 <= total);
                }
                let data = copy_range(buf, start2, start2 + n);
                match skip(buf, pos, n) {
                    Ok(()) => {},
                    Err(err) => {
                        proof {
                            assert(false);
                        }
                        return Err(err);
                    },
                }
                match skip(buf, pos, 2) {
                    Ok(()) => {},
                    Err(err) => {
                        proof {
                            assert(false);
                        }
                        return Err(err);
                    },
                }
                Ok(Frame::Bulk(data))
            }
        } else if t == STAR {
            let len64 = match get_decimal(buf, pos) {
                Ok(v) => v,
                Err(err) => {
                    proof {
                        assert(false);
                    }
                    return Err(err);
                },
            };
            if len64 > usize::MAX as u64 {
                return Err(FrameError::Other("protocol error; invalid frame format".to_string()));
            }
            let n = len64 as usize;
            let ghost hdr = *pos as int;
            let ghost endt = match spec_check(buf@, pos0) {
                CheckStatus::Complete(e) => e,
                _ => 0int,
            };
            proof {
                assert(spec_check_elems(buf@, hdr, n as nat) == CheckStatus::Complete(endt));
                match spec_parse_elems(buf@, hdr, n as nat) {
                    ParseElemsStatus::Complete(rest, e2) => {
                        assert(Seq::<FrameData>::empty() + rest =~= rest);
                    },
                    _ => {},
                }
            }
            let mut out: Vec<Frame> = Vec::new();
            let mut i: usize = 0;
            while i < n
                invariant
                    0 <= i <= n,
                    pos0 == *old(pos),
                    pos0 < hdr <= *pos as int,
                    *pos as int <= buf@.len(),
                    spec_check(buf@, pos0) == CheckStatus::Complete(endt),
                    spec_check_elems(buf@, *pos as int, (n - i) as nat) == CheckStatus::Complete(
                        endt,
                    ),
                    (match spec_parse_elems(buf@, *pos as int, (n - i) as nat) {
                        ParseElemsStatus::Complete(rest, e2) => spec_parse(buf@, pos0)
                            == ParseStatus::Complete(
                            FrameData::Array(frames_view(out@) + rest),
                            e2,
                        ),
                        ParseElemsStatus::Partial => spec_parse(buf@, pos0) is Partial,
                        ParseElemsStatus::Malformed => spec_parse(buf@, pos0) is Malformed,
                    }),
                decreases n - i,
            {
                let ghost cur = *pos as int;
                let ghost k = (n - i) as nat;
                proof {
                    assert(spec_check(buf@, cur) is Complete) by {
                        assert(spec_check_elems(buf@, cur, k) == CheckStatus::Complete(endt));
                    }
                }
                let f = match Frame::parse(buf, pos) {
                    Ok(f) => f,
                    Err(err) => {
                        return Err(err);
                    },
                };
                proof {
                    let newp = *pos as int;
                    assert(spec_check_elems(buf@, newp, (k - 1) as nat) == CheckStatus::Complete(
                        endt,
                    ));
                    match spec_parse_elems(buf@, newp, (k - 1) as nat) {
                        ParseElemsStatus::Complete(rest, e2) => {
                            assert(spec_parse_elems(buf@, cur, k)
                                == ParseElemsStatus::Complete(seq![f@] + rest, e2));
                            lemma_frames_view_push(out@, f);
                            assert(frames_view(out@) + (seq![f@] + rest) =~= frames_view(
                                out@.push(f),
                            ) + rest);
                        },
                        _ => {},
                    }
                }
                out.push(f);
                i = i + 1;
            }
            proof {
                assert(spec_check_elems(buf@, *pos as int, 0) == CheckStatus::Complete(
                    *pos as int,
                ));
                assert(endt == *pos as int);
                assert(frames_view(out@) + Seq::<FrameData>::empty() =~= frames_view(out@));
            }
            Ok(Frame::Array(out))
        } else {
            proof {
                assert(false);
            }
            Err(FrameError::Other("protocol error; invalid frame type byte".to_string()))
        }
    }
}

/// Converts a `u64` into its canonical decimal digit string.
pub fn u64_to_dec(n: u64) -> (r: Vec<u8>)
    ensures
        r@ == dec_digits(n as nat),
    decreases n,
{
    if n < 10 {
        let mut v: Vec<u8> = Vec::new();
        v.push((n as u8) + DIGIT_ZERO);
        assert(v@ =~= dec_digits(n as nat));
        v
    } else {
        let mut v = u64_to_dec(n / 10);
        v.push((n % 10) as u8 + DIGIT_ZERO);
        assert(v@ =~= dec_digits(n as nat));
        v
    }
}

} // verus!
