use raftfwk::mpc::{MpcReply, MpcReplyCode};

#[test]
fn new_reply_is_empty_ok() {
    let r = MpcReply::new();
    assert_eq!(r.get_code(), MpcReplyCode::OK);
    assert_eq!(r.get_msg(), "");
    assert!(r.get_context().is_empty());
}

#[test]
fn reply_setters_and_clearers() {
    let mut r = MpcReply::new();
    r.set_code(MpcReplyCode::ERR);
    r.set_msg(String::from("no"));
    r.set_context(vec![1, 2, 3]);
    assert_eq!(r.get_code(), MpcReplyCode::ERR);
    assert_eq!(r.get_msg(), "no");
    assert_eq!(r.get_context(), &[1, 2, 3]);
    r.clear_code();
    r.clear_msg();
    r.clear_context();
    assert_eq!(r.get_code(), MpcReplyCode::OK);
    assert_eq!(r.get_msg(), "");
    assert!(r.get_context().is_empty());
}

#[test]
fn reply_take_and_mut() {
    let mut r = MpcReply::new();
    r.mut_msg().push_str("hello");
    r.mut_context().push(9);
    assert_eq!(r.take_msg(), "hello");
    assert_eq!(r.get_msg(), "");
    assert_eq!(r.take_context(), vec![9]);
    assert!(r.get_context().is_empty());
}

#[test]
fn reply_code_numbers() {
    assert_eq!(MpcReplyCode::OK.value(), 0);
    assert_eq!(MpcReplyCode::ERR.value(), 1);
    assert_eq!(MpcReplyCode::from_i32(0), Some(MpcReplyCode::OK));
    assert_eq!(MpcReplyCode::from_i32(1), Some(MpcReplyCode::ERR));
    assert_eq!(MpcReplyCode::from_i32(2), None);
    assert_eq!(MpcReplyCode::default(), MpcReplyCode::OK);
}

use raftfwk::mpc::{decode_reply, encode_reply};

fn reply(code: MpcReplyCode, msg: &str, context: &[u8]) -> MpcReply {
    let mut r = MpcReply::new();
    r.set_code(code);
    r.set_msg(String::from(msg));
    r.set_context(context.to_vec());
    r
}

#[test]
fn default_reply_is_empty_ok() {
    let r = MpcReply::default();
    assert_eq!(r.get_code(), MpcReplyCode::OK);
    assert_eq!(r.get_msg(), "");
    assert!(r.get_context().is_empty());
}

#[test]
fn encode_reply_exact_bytes() {
    assert!(encode_reply(&MpcReply::new()).is_empty());
    assert_eq!(
        encode_reply(&reply(MpcReplyCode::ERR, "no", &[7, 8])),
        vec![0x08, 0x01, 0x12, 0x02, b'n', b'o', 0x1a, 0x02, 7, 8]
    );
    assert_eq!(encode_reply(&reply(MpcReplyCode::OK, "", &[1])), vec![0x1a, 0x01, 1]);
    let long = vec![5u8; 300];
    let b = encode_reply(&reply(MpcReplyCode::OK, "", &long));
    assert_eq!(&b[..3], &[0x1a, 0xac, 0x02]);
    assert_eq!(b.len(), 303);
}

#[test]
fn encode_reply_matches_protobuf() {
    let mut expected = Vec::new();
    {
        let mut os = protobuf::CodedOutputStream::vec(&mut expected);
        os.write_enum(1, 1).unwrap();
        os.write_string(2, "héllo").unwrap();
        os.write_bytes(3, &[0u8; 200]).unwrap();
        os.flush().unwrap();
    }
    assert_eq!(encode_reply(&reply(MpcReplyCode::ERR, "héllo", &[0u8; 200])), expected);
}

#[test]
fn decode_reply_round_trip() {
    for r in [
        MpcReply::new(),
        reply(MpcReplyCode::ERR, "", &[]),
        reply(MpcReplyCode::OK, "leader is 3", b"127.0.0.1:5000"),
        reply(MpcReplyCode::ERR, "ünïcode", &[0u8; 1000]),
    ] {
        let back = decode_reply(&encode_reply(&r)).unwrap();
        assert_eq!(back.get_code(), r.get_code());
        assert_eq!(back.get_msg(), r.get_msg());
        assert_eq!(back.get_context(), r.get_context());
    }
}

#[test]
fn decode_reply_skips_unknown_fields() {
    let mut bytes = Vec::new();
    {
        let mut os = protobuf::CodedOutputStream::vec(&mut bytes);
        os.write_uint64(9, 300).unwrap();
        os.write_string(2, "a").unwrap();
        os.write_fixed32(10, 5).unwrap();
        os.write_fixed64(11, 6).unwrap();
        os.write_bytes(12, b"zz").unwrap();
        os.write_enum(1, 1).unwrap();
        os.flush().unwrap();
    }
    // a group of field 13 holding a varint, then its end tag
    bytes.extend_from_slice(&[0x6b, 0x08, 0x05, 0x6c]);
    let r = decode_reply(&bytes).unwrap();
    assert_eq!(r.get_code(), MpcReplyCode::ERR);
    assert_eq!(r.get_msg(), "a");
    assert!(r.get_context().is_empty());
    // the unknown fields are kept, in the order read; the group is not
    let mut unknown = vec![0x48, 0xac, 0x02, 0x55, 5, 0, 0, 0, 0x59, 6, 0, 0, 0, 0, 0, 0, 0];
    unknown.extend_from_slice(&[0x62, 0x02, b'z', b'z']);
    assert_eq!(r.unknown_fields, unknown);
}

#[test]
fn unknown_fields_are_written_back() {
    let r = decode_reply(&[0x12, 0x01, b'b', 0x48, 0x05, 0x08, 0x07]).unwrap();
    assert_eq!(r.unknown_fields, vec![0x48, 0x05, 0x08, 0x07]);
    let b = encode_reply(&r);
    assert_eq!(b, vec![0x12, 0x01, b'b', 0x48, 0x05, 0x08, 0x07]);
    let back = decode_reply(&b).unwrap();
    assert_eq!(back.get_msg(), "b");
    assert_eq!(back.get_code(), MpcReplyCode::OK);
    assert_eq!(back.unknown_fields, r.unknown_fields);
}

#[test]
fn decode_reply_last_value_wins_and_unknown_code_keeps() {
    let r = decode_reply(&[0x12, 0x01, b'a', 0x12, 0x01, b'b', 0x08, 0x01, 0x08, 0x07]).unwrap();
    assert_eq!(r.get_msg(), "b");
    assert_eq!(r.get_code(), MpcReplyCode::ERR);
    assert_eq!(r.unknown_fields, vec![0x08, 0x07]);
    let r = decode_reply(&[0x08, 0x01, 0x08, 0x00]).unwrap();
    assert_eq!(r.get_code(), MpcReplyCode::OK);
}

#[test]
fn decode_reply_refuses_bad_input() {
    // message bytes that are not UTF-8
    assert!(decode_reply(&[0x12, 0x02, 0xff, 0xfe]).is_none());
    // a length past the end
    assert!(decode_reply(&[0x1a, 0x05, 1, 2]).is_none());
    // a varint cut short
    assert!(decode_reply(&[0x08, 0x80]).is_none());
    // field number 0
    assert!(decode_reply(&[0x00, 0x00]).is_none());
    // wire type 6
    assert!(decode_reply(&[0x0e]).is_none());
    // the code with the wrong wire type
    assert!(decode_reply(&[0x0a, 0x00]).is_none());
    // an end group tag outside a group
    assert!(decode_reply(&[0x6c]).is_none());
    // a group that does not end
    assert!(decode_reply(&[0x6b, 0x08, 0x05]).is_none());
    // an eleven-byte varint
    assert!(decode_reply(&[0x48, 0xff, 0xff, 0xff, 0xff, 0xff, 0xff, 0xff, 0xff, 0xff, 0xff, 0x01]).is_none());
    assert!(decode_reply(&[]).is_some());
}
