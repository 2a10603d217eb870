//! The wire protocol payloads: requests (`Get`, `Put`, `Delete`) and
//! replies (`Error`, `Ok`, `Msg`), each a tag byte followed by
//! length-prefixed UTF-8 runs.  The byte layouts are fixed by
//! `spec_request_bytes` and `spec_reply_bytes`; building and parsing are
//! proved against them, and parsing inverts building.

use crate::codec::be32;
use crate::error::KvsError;
use crate::wal::{enc_lp, enc_str, lemma_parse_lp_encode, parse_lp, push_lp_str, read_lp_str};
use vstd::prelude::*;
use vstd::utf8::{
    decode_utf8, encode_utf8_decode_utf8, encode_utf8_valid_utf8, valid_utf8,
};

verus! {

/// What a client asks of the store.
#[derive(Debug, Clone, Copy, PartialEq, Eq, Structural)]
pub enum RequestType {
    Get,
    Put,
    Delete,
}

/// What the server answers: a bare failure, a bare success, or a
/// message carrying a value.
#[derive(Debug, Clone, Copy, PartialEq, Eq, Structural)]
pub enum ReplyType {
    Error,
    Okay,
    Msg,
}

/// The opcode byte of a request.
pub open spec fn request_code(t: RequestType) -> u8 {
    match t {
        RequestType::Get => 1,
        RequestType::Put => 2,
        RequestType::Delete => 3,
    }
}

/// The status byte of a reply.
pub open spec fn reply_code(t: ReplyType) -> u8 {
    match t {
        ReplyType::Error => 1,
        ReplyType::Okay => 2,
        ReplyType::Msg => 3,
    }
}

/// Reads an opcode byte; any byte but the three opcodes is an invalid
/// request.
pub fn parse_request_type(t: u8) -> (r: Result<RequestType, KvsError>)
    ensures
        match r {
            Ok(rt) => request_code(rt) == t,
            Err(e) => e == KvsError::InvalidRequest && t != 1 && t != 2 && t != 3,
        },
{
    match t {
        1u8 => Ok(RequestType::Get),
        2u8 => Ok(RequestType::Put),
        3u8 => Ok(RequestType::Delete),
        _ => Err(KvsError::InvalidRequest),
    }
}

/// Reads a status byte; any byte but the three statuses is an invalid
/// reply.
pub fn parse_reply_type(t: u8) -> (r: Result<ReplyType, KvsError>)
    ensures
        match r {
            Ok(rt) => reply_code(rt) == t,
            Err(e) => e == KvsError::InvalidReply && t != 1 && t != 2 && t != 3,
        },
{
    match t {
        1u8 => Ok(ReplyType::Error),
        2u8 => Ok(ReplyType::Okay),
        3u8 => Ok(ReplyType::Msg),
        _ => Err(KvsError::InvalidReply),
    }
}

/// A decoded request.
#[derive(Debug)]
pub struct RequestMsg {
    pub request_type: RequestType,
    pub key: String,
    pub value: Option<String>,
}

/// A decoded reply.
#[derive(Debug)]
pub struct ReplyMsg {
    pub reply_type: ReplyType,
    pub value: Option<String>,
}

/// The payload bytes of a request: the opcode, the length-prefixed key,
/// and — whenever a value is given — the length-prefixed value.
pub open spec fn spec_request_bytes(
    t: RequestType,
    key: Seq<char>,
    value: Option<Seq<char>>,
) -> Seq<u8> {
    seq![request_code(t)] + enc_lp(enc_str(key)) + (match value {
        Some(v) => enc_lp(enc_str(v)),
        None => Seq::empty(),
    })
}

/// The payload bytes of a reply: the status byte, then — whenever a
/// value is given — the length-prefixed value.
pub open spec fn spec_reply_bytes(t: ReplyType, value: Option<Seq<char>>) -> Seq<u8> {
    seq![reply_code(t)] + (match value {
        Some(v) => enc_lp(enc_str(v)),
        None => Seq::empty(),
    })
}

/// Parses a request payload: the opcode, the key, and for `Put` a
/// value; trailing bytes are ignored.
pub open spec fn spec_parse_request(d: Seq<u8>) -> Option<
    (RequestType, Seq<char>, Option<Seq<char>>),
> {
    if d.len() < 1 {
        None
    } else {
        let t = d[0];
        if t == 1 || t == 2 || t == 3 {
            match parse_lp(d, 1) {
                Some((kb, p2)) => if valid_utf8(kb) {
                    if t == 2 {
                        match parse_lp(d, p2) {
                            Some((vb, _p3)) => if valid_utf8(vb) {
                                Some((RequestType::Put, decode_utf8(kb), Some(decode_utf8(vb))))
                            } else {
                                None
                            },
                            None => None,
                        }
                    } else {
                        Some(
                            (
                                if t == 1 {
                                    RequestType::Get
                                } else {
                                    RequestType::Delete
                                },
                                decode_utf8(kb),
                                None,
                            ),
                        )
                    }
                } else {
                    None
                },
                None => None,
            }
        } else {
            None
        }
    }
}

/// Parses a reply payload: the status byte, and for `Msg` the value —
/// a bare `Msg` with no body stands for "no value".  Trailing bytes
/// after an `Error` or `Ok` status are ignored.
pub open spec fn spec_parse_reply(d: Seq<u8>) -> Option<(ReplyType, Option<Seq<char>>)> {
    if d.len() < 1 {
        None
    } else {
        let t = d[0];
        if t == 1 || t == 2 {
            Some(
                (
                    if t == 1 {
                        ReplyType::Error
                    } else {
                        ReplyType::Okay
                    },
                    None,
                ),
            )
        } else if t == 3 {
            if d.len() == 1 {
                Some((ReplyType::Msg, None))
            } else {
                match parse_lp(d, 1) {
                    Some((vb, _p2)) => if valid_utf8(vb) {
                        Some((ReplyType::Msg, Some(decode_utf8(vb))))
                    } else {
                        None
                    },
                    None => None,
                }
            }
        } else {
            None
        }
    }
}

impl RequestMsg {
    /// Encodes a request payload, exactly as `spec_request_bytes` says.
    pub fn build(request_type: RequestType, key: String, value: Option<String>) -> (r: Vec<u8>)
        requires
            enc_str(key@).len() <= u32::MAX,
            value matches Some(v) ==> enc_str(v@).len() <= u32::MAX,
        ensures
            r@ == spec_request_bytes(request_type, key@, value.deep_view()),
    {
        let mut buf: Vec<u8> = Vec::new();
        let code: u8 = match request_type {
            RequestType::Get => 1,
            RequestType::Put => 2,
            RequestType::Delete => 3,
        };
        buf.push(code);
        push_lp_str(&mut buf, &key);
        match &value {
            Some(v) => {
                push_lp_str(&mut buf, v);
            }
            None => {}
        }
        proof {
            assert(buf@ =~= spec_request_bytes(request_type, key@, value.deep_view()));
        }
        buf
    }

    /// Decodes a request payload, exactly as `spec_parse_request` says;
    /// anything malformed is an invalid request.
    pub fn parse(buf: &[u8]) -> (r: Result<RequestMsg, KvsError>)
        ensures
            match r {
                Ok(m) => {
                    &&& spec_parse_request(buf@) == Some(
                        (m.request_type, m.key@, m.value.deep_view()),
                    )
                    &&& enc_str(m.key@).len() <= u32::MAX
                    &&& (m.value matches Some(v) ==> enc_str(v@).len() <= u32::MAX)
                    &&& (m.request_type == RequestType::Put <==> m.value is Some)
                },
                Err(e) => e == KvsError::InvalidRequest && spec_parse_request(buf@) is None,
            },
    {
        broadcast use vstd::utf8::decode_utf8_encode_utf8;

        if buf.len() < 1 {
            return Err(KvsError::InvalidRequest);
        }
        let request_type = match parse_request_type(buf[0]) {
            Ok(t) => t,
            Err(e) => {
                return Err(e);
            }
        };
        let (key, p2) = match read_lp_str(buf, 1) {
            Some(p) => p,
            None => {
                return Err(KvsError::InvalidRequest);
            }
        };
        match request_type {
            RequestType::Put => {
                let (value, _p3) = match read_lp_str(buf, p2) {
                    Some(p) => p,
                    None => {
                        return Err(KvsError::InvalidRequest);
                    }
                };
                Ok(RequestMsg { request_type, key, value: Some(value) })
            }
            _ => Ok(RequestMsg { request_type, key, value: None }),
        }
    }
}

impl ReplyMsg {
    /// Encodes a reply payload, exactly as `spec_reply_bytes` says.
    pub fn build(self) -> (r: Vec<u8>)
        requires
            self.value matches Some(v) ==> enc_str(v@).len() <= u32::MAX,
        ensures
            r@ == spec_reply_bytes(self.reply_type, self.value.deep_view()),
    {
        let mut buf: Vec<u8> = Vec::new();
        let code: u8 = match self.reply_type {
            ReplyType::Error => 1,
            ReplyType::Okay => 2,
            ReplyType::Msg => 3,
        };
        buf.push(code);
        match &self.value {
            Some(v) => {
                push_lp_str(&mut buf, v);
            }
            None => {}
        }
        proof {
            assert(buf@ =~= spec_reply_bytes(self.reply_type, self.value.deep_view()));
        }
        buf
    }

    /// Decodes a reply payload, exactly as `spec_parse_reply` says;
    /// anything malformed is an invalid reply.
    pub fn parse(buf: &[u8]) -> (r: Result<ReplyMsg, KvsError>)
        ensures
            match r {
                Ok(m) => spec_parse_reply(buf@) == Some((m.reply_type, m.value.deep_view())),
                Err(e) => e == KvsError::InvalidReply && spec_parse_reply(buf@) is None,
            },
    {
        if buf.len() < 1 {
            return Err(KvsError::InvalidReply);
        }
        let reply_type = match parse_reply_type(buf[0]) {
            Ok(t) => t,
            Err(e) => {
                return Err(e);
            }
        };
        match reply_type {
            ReplyType::Msg => {
                if buf.len() == 1 {
                    return Ok(ReplyMsg { reply_type, value: None });
                }
                let (value, _p2) = match read_lp_str(buf, 1) {
                    Some(p) => p,
                    None => {
                        return Err(KvsError::InvalidReply);
                    }
                };
                Ok(ReplyMsg { reply_type, value: Some(value) })
            }
            _ => Ok(ReplyMsg { reply_type, value: None }),
        }
    }
}

/// Parsing inverts building: a request whose value accompanies exactly
/// the `Put` opcode reads back as it was written.
pub proof fn lemma_request_round_trip(t: RequestType, key: Seq<char>, value: Option<Seq<char>>)
    requires
        enc_str(key).len() <= u32::MAX,
        value matches Some(v) ==> enc_str(v).len() <= u32::MAX,
        value is Some <==> t == RequestType::Put,
    ensures
        spec_parse_request(spec_request_bytes(t, key, value)) == Some((t, key, value)),
{
    broadcast use encode_utf8_valid_utf8, encode_utf8_decode_utf8;

    let d = spec_request_bytes(t, key, value);
    let kb = enc_str(key);
    let klp = enc_lp(kb);
    assert(d[0] == request_code(t));
    assert(d.subrange(1, 1 + klp.len() as int) =~= klp) by {
        assert forall|i: int| 0 <= i < klp.len() implies d.subrange(1, 1 + klp.len() as int)[i]
            == klp[i] by {
            assert(d[1 + i] == klp[i]);
        }
    };
    lemma_parse_lp_encode(kb, d, 1);
    match value {
        Some(v) => {
            let vb = enc_str(v);
            let vlp = enc_lp(vb);
            let p2: int = 1 + klp.len() as int;
            assert(d.subrange(p2, p2 + vlp.len() as int) =~= vlp) by {
                assert forall|i: int| 0 <= i < vlp.len() implies d.subrange(
                    p2,
                    p2 + vlp.len() as int,
                )[i] == vlp[i] by {
                    assert(d[p2 + i] == vlp[i]);
                }
            };
            lemma_parse_lp_encode(vb, d, p2);
        }
        None => {}
    }
}

/// Parsing inverts building: a reply whose value accompanies exactly
/// the `Msg` status reads back as it was written.
pub proof fn lemma_reply_round_trip(t: ReplyType, value: Option<Seq<char>>)
    requires
        value matches Some(v) ==> enc_str(v).len() <= u32::MAX,
        value is Some ==> t == ReplyType::Msg,
    ensures
        spec_parse_reply(spec_reply_bytes(t, value)) == Some((t, value)),
{
    broadcast use encode_utf8_valid_utf8, encode_utf8_decode_utf8;

    let d = spec_reply_bytes(t, value);
    assert(d[0] == reply_code(t));
    match value {
        Some(v) => {
            let vb = enc_str(v);
            let vlp = enc_lp(vb);
            assert(d.subrange(1, 1 + vlp.len() as int) =~= vlp) by {
                assert forall|i: int|
                    0 <= i < vlp.len() implies d.subrange(1, 1 + vlp.len() as int)[i]
                    == vlp[i] by {
                    assert(d[1 + i] == vlp[i]);
                }
            };
            lemma_parse_lp_encode(vb, d, 1);
        }
        None => {
            assert(d.len() == 1);
        }
    }
}

/// Frames a payload for the stream: its length as four big-endian
/// bytes, then the payload itself.
pub fn frame(payload: &Vec<u8>) -> (r: Vec<u8>)
    requires
        payload@.len() <= u32::MAX,
    ensures
        r@ == be32(payload@.len() as u32) + payload@,
{
    let mut buf: Vec<u8> = Vec::new();
    crate::codec::push_be32(&mut buf, payload.len() as u32);
    let mut tail = payload.clone();
    buf.append(&mut tail);
    proof {
        assert(buf@ =~= be32(payload@.len() as u32) + payload@);
    }
    buf
}

} // verus!
