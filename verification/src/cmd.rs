//! Command parsing and dispatch: from a parsed frame to a store
//! operation and exactly one reply frame.

use crate::error::ParserError;
use crate::frame::{Frame, FrameData};
use crate::mini_redis::{spec_get, spec_set, MiniRedis, DEFAULT_TTL_MS};
use crate::parser::{bytes_of, text_of, Parser};
use vstd::prelude::*;

verus! {

broadcast use vstd::seq::group_seq_axioms, vstd::std_specs::vec::group_vec_axioms;

/// ASCII lowercasing of one byte.
pub open spec fn lower_byte(b: u8) -> u8 {
    if 65 <= b <= 90 {
        (b + 32) as u8
    } else {
        b
    }
}

/// ASCII lowercasing of a byte string, as applied to command names.
pub open spec fn ascii_lower(s: Seq<u8>) -> Seq<u8> {
    Seq::new(s.len(), |i: int| lower_byte(s[i]))
}

/// The bytes of the verb `get`.
pub open spec fn get_verb() -> Seq<u8> {
    seq![103u8, 101u8, 116u8]
}

/// The bytes of the verb `set`.
pub open spec fn set_verb() -> Seq<u8> {
    seq![115u8, 101u8, 116u8]
}

/// The mathematical model of a command.
pub enum CommandData {
    Get(Seq<u8>),
    SetCmd(Seq<u8>, Seq<u8>),
    Unknown(Seq<u8>),
}

/// How constructing a command from a frame fails.
pub enum CmdFailure {
    EndOfStream,
    Protocol,
}

/// What `Command::from_frame` makes of a frame: the root must be an
/// array; its first element names the verb case-insensitively; `get`
/// takes exactly a key, `set` exactly a key and a value; any other
/// verb is passed through as unknown, extra fields and all.
pub open spec fn spec_from_frame(d: FrameData) -> Result<CommandData, CmdFailure> {
    match d {
        FrameData::Array(es) => {
            if es.len() == 0 {
                Err(CmdFailure::EndOfStream)
            } else {
                match text_of(es[0]) {
                    None => Err(CmdFailure::Protocol),
                    Some(raw) => {
                        let name = ascii_lower(raw);
                        if name == get_verb() {
                            if es.len() < 2 {
                                Err(CmdFailure::EndOfStream)
                            } else {
                                match text_of(es[1]) {
                                    None => Err(CmdFailure::Protocol),
                                    Some(k) => if es.len() == 2 {
                                        Ok(CommandData::Get(k))
                                    } else {
                                        Err(CmdFailure::Protocol)
                                    },
                                }
                            }
                        } else if name == set_verb() {
                            if es.len() < 2 {
                                Err(CmdFailure::EndOfStream)
                            } else {
                                match text_of(es[1]) {
                                    None => Err(CmdFailure::Protocol),
                                    Some(k) => if es.len() < 3 {
                                        Err(CmdFailure::EndOfStream)
                                    } else {
                                        match bytes_of(es[2]) {
                                            None => Err(CmdFailure::Protocol),
                                            Some(v) => if es.len() == 3 {
                                                Ok(CommandData::SetCmd(k, v))
                                            } else {
                                                Err(CmdFailure::Protocol)
                                            },
                                        }
                                    },
                                }
                            }
                        } else {
                            Ok(CommandData::Unknown(name))
                        }
                    },
                }
            }
        },
        _ => Err(CmdFailure::Protocol),
    }
}

/// Lowercases ASCII letters in place, leaving other bytes alone.
fn ascii_lower_vec(v: &Vec<u8>) -> (r: Vec<u8>)
    ensures
        r@ == ascii_lower(v@),
{
    let mut r: Vec<u8> = Vec::new();
    let mut i: usize = 0;
    while i < v.len()
        invariant
            i <= v@.len(),
            r@.len() == i,
            forall|j: int| 0 <= j < i ==> #[trigger] r@[j] == lower_byte(v@[j]),
        decreases v@.len() - i,
    {
        let b = v[i];
        if 65 <= b && b <= 90 {
            r.push(b + 32);
        } else {
            r.push(b);
        }
        i = i + 1;
    }
    proof {
        assert(r@ =~= ascii_lower(v@));
    }
    r
}

/// A request to read one key.
pub struct Get {
    key: Vec<u8>,
}

impl View for Get {
    type V = Seq<u8>;

    closed spec fn view(&self) -> Seq<u8> {
        self.key@
    }
}

impl Get {
    /// Creates a `get` command for `key`.
    pub fn new(key: Vec<u8>) -> (g: Get)
        ensures
            g@ == key@,
    {
        Get { key }
    }

    /// Reads the key field from the remaining elements.
    pub fn parse_frames(parser: &mut Parser) -> (r: Result<Get, ParserError>)
        ensures
            match r {
                Ok(g) => old(parser)@.len() > 0 && text_of(old(parser)@[0]) == Some(g@) && final(parser)@ == old(parser)@.drop_first(),
                Err(e) => {
                    &&& (e is EndOfStream <==> old(parser)@.len() == 0)
                    &&& (old(parser)@.len() > 0 ==> text_of(old(parser)@[0]) is None)
                },
            },
    {
        let key = match parser.next_string() {
            Ok(k) => k,
            Err(e) => {
                return Err(e);
            },
        };
        Ok(Get { key })
    }

    /// The key this command reads.
    pub fn key(&self) -> (r: &Vec<u8>)
        ensures
            r@ == self@,
    {
        &self.key
    }

    /// Looks the key up in the in-memory store and builds the one
    /// reply frame: the value as a bulk frame, or null.
    pub fn apply(self, kv: &MiniRedis) -> (reply: Frame)
        requires
            kv.wf(),
        ensures
            match spec_get(kv.kv(), self@) {
                Some(v) => reply@ == FrameData::Bulk(v),
                None => reply@ == FrameData::Null,
            },
    {
        get_reply(kv.get(&self.key))
    }

    /// Renders the command as the array frame a client sends.
    pub fn into_frame(self) -> (f: Frame)
        ensures
            f@ == FrameData::Array(seq![FrameData::Bulk(get_verb()), FrameData::Bulk(self@)]),
    {
        let mut frame = Frame::array();
        let mut verb: Vec<u8> = Vec::new();
        verb.push(103);
        verb.push(101);
        verb.push(116);
        proof {
            assert(verb@ =~= get_verb());
        }
        frame.push_bulk(verb);
        frame.push_bulk(self.key);
        proof {
            assert(frame@->Array_0 =~= seq![
                FrameData::Bulk(get_verb()),
                FrameData::Bulk(self@),
            ]);
        }
        frame
    }
}

/// A request to write one key.
pub struct SetCmd {
    key: Vec<u8>,
    value: Vec<u8>,
}

/// The mathematical model of a `set` command.
pub struct SetData {
    pub key: Seq<u8>,
    pub value: Seq<u8>,
}

impl View for SetCmd {
    type V = SetData;

    closed spec fn view(&self) -> SetData {
        SetData { key: self.key@, value: self.value@ }
    }
}

impl SetCmd {
    /// Creates a `set` command binding `key` to `value`.
    pub fn new(key: Vec<u8>, value: Vec<u8>) -> (s: SetCmd)
        ensures
            s@.key == key@,
            s@.value == value@,
    {
        SetCmd { key, value }
    }

    /// Reads the key and value fields from the remaining elements.
    pub fn parse_frames(parser: &mut Parser) -> (r: Result<SetCmd, ParserError>)
        ensures
            match r {
                Ok(s) => {
                    &&& old(parser)@.len() >= 2
                    &&& text_of(old(parser)@[0]) == Some(s@.key)
                    &&& bytes_of(old(parser)@[1]) == Some(s@.value)
                    &&& final(parser)@ == old(parser)@.drop_first().drop_first()
                },
                Err(e) => {
                    &&& !(old(parser)@.len() >= 2 && text_of(old(parser)@[0]) is Some && bytes_of(
                        old(parser)@[1],
                    ) is Some)
                    &&& (e is EndOfStream <==> (old(parser)@.len() == 0 || (old(parser)@.len() == 1
                        && text_of(old(parser)@[0]) is Some)))
                    &&& (old(parser)@.len() > 0 && text_of(old(parser)@[0]) is None ==> e is Other)
                    &&& (old(parser)@.len() >= 2 && text_of(old(parser)@[0]) is Some && bytes_of(
                        old(parser)@[1],
                    ) is None ==> e is Other)
                },
            },
    {
        let key = match parser.next_string() {
            Ok(k) => k,
            Err(e) => {
                return Err(e);
            },
        };
        let value = match parser.next_bytes() {
            Ok(v) => v,
            Err(e) => {
                return Err(e);
            },
        };
        Ok(SetCmd { key, value })
    }

    /// Writes the pair into the in-memory store at time `now_ms` and
    /// builds the one reply frame, `+OK`. Returns the reply together
    /// with whether the purge task must be woken.
    pub fn apply(self, kv: &mut MiniRedis, now_ms: u64) -> (r: (Frame, bool))
        requires
            old(kv).wf(),
            old(kv).next_id < u64::MAX,
            now_ms + DEFAULT_TTL_MS <= u64::MAX,
        ensures
            final(kv).wf(),
            final(kv).kv() == spec_set(
                old(kv).kv(),
                self@.key,
                self@.value,
                old(kv).next_id,
                (now_ms + DEFAULT_TTL_MS) as u64,
            ),
            final(kv).next_id == old(kv).next_id + 1,
            final(kv).shutdown == old(kv).shutdown,
            r.0@ == FrameData::Simple(ok_reply()),
            r.1 == (match old(kv).spec_next_expiration() {
                Some(exp) => exp > now_ms + DEFAULT_TTL_MS,
                None => true,
            }),
    {
        let notify = kv.set(self.key, self.value, now_ms);
        (set_ok_reply(), notify)
    }

    /// Surrenders the key and value, in that order.
    pub fn into_parts(self) -> (r: (Vec<u8>, Vec<u8>))
        ensures
            r.0@ == self@.key,
            r.1@ == self@.value,
    {
        (self.key, self.value)
    }

    /// Renders the command as the array frame a client sends.
    pub fn into_frame(self) -> (f: Frame)
        ensures
            f@ == FrameData::Array(
                seq![
                    FrameData::Bulk(set_verb()),
                    FrameData::Bulk(self@.key),
                    FrameData::Bulk(self@.value),
                ],
            ),
    {
        let mut frame = Frame::array();
        let mut verb: Vec<u8> = Vec::new();
        verb.push(115);
        verb.push(101);
        verb.push(116);
        proof {
            assert(verb@ =~= set_verb());
        }
        frame.push_bulk(verb);
        frame.push_bulk(self.key);
        frame.push_bulk(self.value);
        proof {
            assert(frame@->Array_0 =~= seq![
                FrameData::Bulk(set_verb()),
                FrameData::Bulk(self@.key),
                FrameData::Bulk(self@.value),
            ]);
        }
        frame
    }
}

/// Builds the reply for a `get`, whichever engine answered it: the
/// value as a bulk frame when one was found, null otherwise.
pub fn get_reply(value: Option<Vec<u8>>) -> (reply: Frame)
    ensures
        match value {
            Some(v) => reply@ == FrameData::Bulk(v@),
            None => reply@ == FrameData::Null,
        },
{
    match value {
        Some(v) => Frame::Bulk(v),
        None => Frame::Null,
    }
}

/// Builds the reply for a successful `set`: `+OK`.
pub fn set_ok_reply() -> (reply: Frame)
    ensures
        reply@ == FrameData::Simple(ok_reply()),
{
    let mut ok: Vec<u8> = Vec::new();
    ok.push(79);
    ok.push(75);
    proof {
        assert(ok@ =~= ok_reply());
    }
    Frame::Simple(ok)
}

/// The bytes of the reply `OK`.
pub open spec fn ok_reply() -> Seq<u8> {
    seq![79u8, 75u8]
}

/// The error message sent for an unrecognised verb: `ERR unknown
/// command '<name>'`.
pub open spec fn unknown_reply(name: Seq<u8>) -> Seq<u8> {
    err_unknown_prefix() + name + seq![39u8]
}

/// The bytes of `ERR unknown command '`.
pub open spec fn err_unknown_prefix() -> Seq<u8> {
    seq![
        69u8, 82u8, 82u8, 32u8, 117u8, 110u8, 107u8, 110u8, 111u8, 119u8, 110u8, 32u8, 99u8,
        111u8, 109u8, 109u8, 97u8, 110u8, 100u8, 32u8, 39u8,
    ]
}

/// A command whose verb the server does not recognise.
pub struct Unknown {
    command_name: Vec<u8>,
}

impl View for Unknown {
    type V = Seq<u8>;

    closed spec fn view(&self) -> Seq<u8> {
        self.command_name@
    }
}

impl Unknown {
    /// The verb this command carries.
    pub fn name(&self) -> (r: &Vec<u8>)
        ensures
            r@ == self@,
    {
        &self.command_name
    }

    /// Creates an unknown command carrying the verb as received.
    pub fn new(key: Vec<u8>) -> (u: Unknown)
        ensures
            u@ == key@,
    {
        Unknown { command_name: key }
    }

    /// Builds the one reply frame: an error naming the verb. The
    /// connection stays open.
    pub fn apply(self) -> (reply: Frame)
        ensures
            reply@ == FrameData::Error(unknown_reply(self@)),
    {
        let mut msg: Vec<u8> = vec![
            69u8, 82u8, 82u8, 32u8, 117u8, 110u8, 107u8, 110u8, 111u8, 119u8, 110u8, 32u8, 99u8,
            111u8, 109u8, 109u8, 97u8, 110u8, 100u8, 32u8, 39u8,
        ];
        proof {
            assert(msg@ =~= err_unknown_prefix());
        }
        crate::frame::append_bytes(&mut msg, &self.command_name);
        msg.push(39);
        proof {
            assert(msg@ =~= unknown_reply(self@));
        }
        Frame::Error(msg)
    }
}

/// A parsed client request.
pub enum Command {
    Get(Get),
    SetCmd(SetCmd),
    Unknown(Unknown),
}

impl View for Command {
    type V = CommandData;

    open spec fn view(&self) -> CommandData {
        match self {
            Command::Get(g) => CommandData::Get(g@),
            Command::SetCmd(s) => CommandData::SetCmd(s@.key, s@.value),
            Command::Unknown(u) => CommandData::Unknown(u@),
        }
    }
}

impl Command {
    /// Builds a command from an array frame: the first element names
    /// the verb case-insensitively; recognised verbs must consume
    /// every field, while unknown verbs skip that check and carry
    /// their name to the error reply.
    pub fn from_frame(frame: Frame) -> (r: Result<Command, ParserError>)
        ensures
            match r {
                Ok(c) => spec_from_frame(frame@) == Ok::<CommandData, CmdFailure>(c@),
                Err(e) => {
                    &&& spec_from_frame(frame@) is Err
                    &&& ((e is EndOfStream) <==> spec_from_frame(frame@) == Err::<
                        CommandData,
                        CmdFailure,
                    >(CmdFailure::EndOfStream))
                },
            },
    {
        let mut parser = match Parser::new(frame) {
            Ok(p) => p,
            Err(e) => {
                return Err(e);
            },
        };
        let raw = match parser.next_string() {
            Ok(s) => s,
            Err(e) => {
                return Err(e);
            },
        };
        let command_name = ascii_lower_vec(&raw);
        let is_get = command_name.len() == 3 && command_name[0] == 103 && command_name[1] == 101
            && command_name[2] == 116;
        let is_set = command_name.len() == 3 && command_name[0] == 115 && command_name[1] == 101
            && command_name[2] == 116;
        proof {
            if command_name@.len() == 3 {
                assert(command_name@ =~= seq![command_name@[0], command_name@[1], command_name@[2]]);
            }
            assert(is_get == (command_name@ == get_verb()));
            assert(is_set == (command_name@ == set_verb()));
        }
        let command = if is_get {
            match Get::parse_frames(&mut parser) {
                Ok(g) => Command::Get(g),
                Err(e) => {
                    return Err(e);
                },
            }
        } else if is_set {
            match SetCmd::parse_frames(&mut parser) {
                Ok(s) => Command::SetCmd(s),
                Err(e) => {
                    return Err(e);
                },
            }
        } else {
            // the command is not recognised; skip the finish() check,
            // as unconsumed fields may remain
            return Ok(Command::Unknown(Unknown { command_name }));
        };
        match parser.finish() {
            Ok(()) => Ok(command),
            Err(e) => Err(e),
        }
    }

    /// Runs the command against the in-memory store at time `now_ms`
    /// and returns the one reply frame to write back, together with
    /// whether the purge task must be woken.
    pub fn apply(self, kv: &mut MiniRedis, now_ms: u64) -> (r: (Frame, bool))
        requires
            old(kv).wf(),
            old(kv).next_id < u64::MAX,
            now_ms + DEFAULT_TTL_MS <= u64::MAX,
        ensures
            final(kv).wf(),
            match self@ {
                CommandData::Get(k) => *final(kv) == *old(kv) && !r.1 && (match spec_get(old(kv).kv(), k) {
                    Some(v) => r.0@ == FrameData::Bulk(v),
                    None => r.0@ == FrameData::Null,
                }),
                CommandData::SetCmd(k, v) => final(kv).kv() == spec_set(
                    old(kv).kv(),
                    k,
                    v,
                    old(kv).next_id,
                    (now_ms + DEFAULT_TTL_MS) as u64,
                ) && final(kv).next_id == old(kv).next_id + 1 && final(kv).shutdown == old(kv).shutdown && r.0@ == FrameData::Simple(ok_reply()),
                CommandData::Unknown(name) => *final(kv) == *old(kv) && !r.1 && r.0@
                    == FrameData::Error(unknown_reply(name)),
            },
    {
        match self {
            Command::Get(cmd) => (cmd.apply(kv), false),
            Command::SetCmd(cmd) => cmd.apply(kv, now_ms),
            Command::Unknown(cmd) => (cmd.apply(), false),
        }
    }
}

} // verus!
