use kvs::common::{
    frame, parse_reply_type, parse_request_type, ReplyMsg, ReplyType, RequestMsg, RequestType,
};
use kvs::error::KvsError;
use kvs::server::handle_request;
use kvs::store::KvStore;

#[test]
fn request_build_exact_bytes() {
    let put = RequestMsg::build(RequestType::Put, "a".to_string(), Some("1".to_string()));
    assert_eq!(put, vec![2u8, 0, 0, 0, 1, b'a', 0, 0, 0, 1, b'1']);
    let get = RequestMsg::build(RequestType::Get, "a".to_string(), None);
    assert_eq!(get, vec![1u8, 0, 0, 0, 1, b'a']);
    let del = RequestMsg::build(RequestType::Delete, "z".to_string(), None);
    assert_eq!(del, vec![3u8, 0, 0, 0, 1, b'z']);
}

#[test]
fn request_parse_inverts_build() {
    let bytes = RequestMsg::build(RequestType::Put, "key".to_string(), Some("val".to_string()));
    let msg = RequestMsg::parse(&bytes).unwrap();
    assert!(matches!(msg.request_type, RequestType::Put));
    assert_eq!(msg.key, "key");
    assert_eq!(msg.value, Some("val".to_string()));

    let bytes = RequestMsg::build(RequestType::Get, "key".to_string(), None);
    let msg = RequestMsg::parse(&bytes).unwrap();
    assert!(matches!(msg.request_type, RequestType::Get));
    assert_eq!(msg.key, "key");
    assert_eq!(msg.value, None);
}

#[test]
fn request_parse_rejects_malformed_payloads() {
    assert_eq!(RequestMsg::parse(&[]).unwrap_err(), KvsError::InvalidRequest);
    assert_eq!(
        RequestMsg::parse(&[9u8, 0, 0, 0, 1, b'a']).unwrap_err(),
        KvsError::InvalidRequest
    );
    // Truncated key run.
    assert_eq!(
        RequestMsg::parse(&[1u8, 0, 0, 0, 9, b'a']).unwrap_err(),
        KvsError::InvalidRequest
    );
    // Put without a value run.
    assert_eq!(
        RequestMsg::parse(&[2u8, 0, 0, 0, 1, b'a']).unwrap_err(),
        KvsError::InvalidRequest
    );
    // Invalid UTF-8 in the key.
    assert_eq!(
        RequestMsg::parse(&[1u8, 0, 0, 0, 1, 0xFF]).unwrap_err(),
        KvsError::InvalidRequest
    );
}

#[test]
fn reply_build_and_parse() {
    let ok = ReplyMsg { reply_type: ReplyType::Okay, value: None }.build();
    assert_eq!(ok, vec![2u8]);
    let err = ReplyMsg { reply_type: ReplyType::Error, value: None }.build();
    assert_eq!(err, vec![1u8]);
    let msg = ReplyMsg { reply_type: ReplyType::Msg, value: Some("1".to_string()) }.build();
    assert_eq!(msg, vec![3u8, 0, 0, 0, 1, b'1']);

    let parsed = ReplyMsg::parse(&msg).unwrap();
    assert!(matches!(parsed.reply_type, ReplyType::Msg));
    assert_eq!(parsed.value, Some("1".to_string()));

    let parsed = ReplyMsg::parse(&ok).unwrap();
    assert!(matches!(parsed.reply_type, ReplyType::Okay));
    assert_eq!(parsed.value, None);

    // A bare Msg status stands for "no stored value".
    let parsed = ReplyMsg::parse(&[3u8]).unwrap();
    assert!(matches!(parsed.reply_type, ReplyType::Msg));
    assert_eq!(parsed.value, None);

    assert_eq!(ReplyMsg::parse(&[]).unwrap_err(), KvsError::InvalidReply);
    assert_eq!(ReplyMsg::parse(&[4u8]).unwrap_err(), KvsError::InvalidReply);
    assert_eq!(
        ReplyMsg::parse(&[3u8, 0, 0, 0, 9, b'a']).unwrap_err(),
        KvsError::InvalidReply
    );
}

#[test]
fn type_codes_parse_exactly() {
    assert!(matches!(parse_request_type(1), Ok(RequestType::Get)));
    assert!(matches!(parse_request_type(2), Ok(RequestType::Put)));
    assert!(matches!(parse_request_type(3), Ok(RequestType::Delete)));
    assert_eq!(parse_request_type(0).unwrap_err(), KvsError::InvalidRequest);
    assert_eq!(parse_request_type(4).unwrap_err(), KvsError::InvalidRequest);
    assert!(matches!(parse_reply_type(1), Ok(ReplyType::Error)));
    assert!(matches!(parse_reply_type(2), Ok(ReplyType::Okay)));
    assert!(matches!(parse_reply_type(3), Ok(ReplyType::Msg)));
    assert_eq!(parse_reply_type(0).unwrap_err(), KvsError::InvalidReply);
}

#[test]
fn error_messages_name_each_failure() {
    assert_eq!(KvsError::KeyNotFound.message(), "key not found");
    assert_eq!(KvsError::InvalidRequest.message(), "invalid request");
    assert_eq!(KvsError::InvalidReply.message(), "invalid reply");
    assert_eq!(KvsError::Serde.message(), "serialization failure");
}

#[test]
fn frame_prefixes_big_endian_length() {
    let payload = vec![7u8, 8, 9];
    assert_eq!(frame(&payload), vec![0u8, 0, 0, 3, 7, 8, 9]);
}

#[test]
fn protocol_scenario_put_get_delete() {
    let mut store = KvStore::open(Vec::new()).unwrap();

    // Put "a" -> "1".
    let put = vec![0x02u8, 0, 0, 0, 1, b'a', 0, 0, 0, 1, b'1'];
    let reply = handle_request(&mut store, &put);
    assert_eq!(reply, vec![2u8]);

    // Get "a" answers a Msg carrying "1".
    let get = vec![0x01u8, 0, 0, 0, 1, b'a'];
    let reply = handle_request(&mut store, &get);
    assert_eq!(reply, vec![3u8, 0, 0, 0, 1, b'1']);

    // Delete "z", never set, answers an Error reply.
    let del = vec![0x03u8, 0, 0, 0, 1, b'z'];
    let reply = handle_request(&mut store, &del);
    assert_eq!(reply, vec![1u8]);

    // Delete "a", which is set, answers Okay, and the key is gone.
    let del = vec![0x03u8, 0, 0, 0, 1, b'a'];
    assert_eq!(handle_request(&mut store, &del), vec![2u8]);
    let get = vec![0x01u8, 0, 0, 0, 1, b'a'];
    assert_eq!(handle_request(&mut store, &get), vec![3u8]);
}

#[test]
fn malformed_request_answers_error_and_keeps_serving() {
    let mut store = KvStore::open(Vec::new()).unwrap();
    let reply = handle_request(&mut store, &[0xEEu8, 1, 2]);
    assert_eq!(reply, vec![1u8]);
    // The store is untouched and still serves requests.
    let put = vec![0x02u8, 0, 0, 0, 1, b'k', 0, 0, 0, 1, b'v'];
    assert_eq!(handle_request(&mut store, &put), vec![2u8]);
    let get = vec![0x01u8, 0, 0, 0, 1, b'k'];
    assert_eq!(handle_request(&mut store, &get), vec![3u8, 0, 0, 0, 1, b'v']);
}

#[test]
fn get_of_absent_key_answers_bare_msg() {
    let mut store = KvStore::open(Vec::new()).unwrap();
    let get = vec![0x01u8, 0, 0, 0, 1, b'q'];
    assert_eq!(handle_request(&mut store, &get), vec![3u8]);
}
