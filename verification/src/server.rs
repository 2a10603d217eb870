//! The server side of the wire protocol: one request payload in, one
//! reply payload out.  The surrounding program only frames bytes on and
//! off the stream; every decision is made — and proved — here.

use crate::common::{
    lemma_reply_round_trip, spec_parse_reply, spec_parse_request, spec_reply_bytes, ReplyMsg,
    ReplyType, RequestMsg, RequestType,
};
use crate::store::KvStore;
use crate::wal::enc_str;
use vstd::prelude::*;

verus! {

/// Builds a bodyless reply of the given status.
fn bare_reply(t: ReplyType) -> (r: Vec<u8>)
    ensures
        r@ == spec_reply_bytes(t, None),
        spec_parse_reply(r@) == Some((t, None::<Seq<char>>)),
{
    proof {
        lemma_reply_round_trip(t, None);
    }
    ReplyMsg { reply_type: t, value: None }.build()
}

/// Builds a `Msg` reply carrying the value, or a bare one for "no
/// value".
fn msg_reply(value: Option<String>) -> (r: Vec<u8>)
    requires
        value matches Some(v) ==> enc_str(v@).len() <= u32::MAX,
    ensures
        r@ == spec_reply_bytes(ReplyType::Msg, value.deep_view()),
        spec_parse_reply(r@) == Some((ReplyType::Msg, value.deep_view())),
{
    proof {
        lemma_reply_round_trip(ReplyType::Msg, value.deep_view());
    }
    ReplyMsg { reply_type: ReplyType::Msg, value }.build()
}

/// Serves one request payload against the store and builds the reply
/// payload: `Put` and `Delete` answer `Okay`, `Get` answers a `Msg`
/// carrying the value — an empty-bodied `Msg` for an absent key — and a
/// malformed request, a delete of an absent key, or an engine failure
/// answers `Error`.  No input makes it panic, the store stays
/// well-formed, and the answer always parses as a reply.
pub fn handle_request(store: &mut KvStore, buf: &[u8]) -> (r: Vec<u8>)
    requires
        old(store).wf(),
    ensures
        final(store).wf(),
        spec_parse_reply(r@) is Some,
        match spec_parse_request(buf@) {
            Some((t, k, v)) => {
                &&& (t == RequestType::Get ==> *final(store) == *old(store) && r@
                    == spec_reply_bytes(
                    ReplyType::Msg,
                    if old(store)@.contains_key(k) {
                        Some(old(store)@[k])
                    } else {
                        None
                    },
                ))
                &&& (t == RequestType::Put ==> final(store)@ == old(store)@.insert(k, v.unwrap())
                    && (old(store).current_gen() <= u64::MAX - 2 ==> r@ == spec_reply_bytes(
                    ReplyType::Okay,
                    None,
                )))
                &&& (t == RequestType::Delete ==> {
                    &&& (old(store)@.contains_key(k) ==> final(store)@ == old(store)@.remove(k) && (
                    old(store).current_gen() <= u64::MAX - 2 ==> r@ == spec_reply_bytes(
                        ReplyType::Okay,
                        None,
                    )))
                    &&& (!old(store)@.contains_key(k) ==> *final(store) == *old(store) && r@
                        == spec_reply_bytes(ReplyType::Error, None))
                })
            },
            None => *final(store) == *old(store) && r@ == spec_reply_bytes(ReplyType::Error, None),
        },
{
    let msg = match RequestMsg::parse(buf) {
        Ok(m) => m,
        Err(_e) => {
            return bare_reply(ReplyType::Error);
        }
    };
    match msg.request_type {
        RequestType::Put => {
            let value = match msg.value {
                Some(v) => v,
                None => {
                    proof {
                        assert(false);
                    }
                    return bare_reply(ReplyType::Error);
                }
            };
            match store.set(msg.key, value) {
                Ok(()) => bare_reply(ReplyType::Okay),
                Err(_e) => bare_reply(ReplyType::Error),
            }
        }
        RequestType::Delete => {
            match store.remove(msg.key) {
                Ok(()) => bare_reply(ReplyType::Okay),
                Err(_e) => bare_reply(ReplyType::Error),
            }
        }
        RequestType::Get => {
            match store.get(msg.key) {
                Ok(v) => msg_reply(v),
                Err(_e) => {
                    proof {
                        assert(false);
                    }
                    bare_reply(ReplyType::Error)
                }
            }
        }
    }
}

} // verus!
