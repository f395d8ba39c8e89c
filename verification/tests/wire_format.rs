use bytes::BytesMut;
use service_bus::decoder::{GsbMessageDecoder, IncomingGsbMessage};
use service_bus::encoder::encode;
use service_bus::gsb_api::{CallReply, CallRequest, RegisterRequest, ReplyBody, UnregisterRequest};
use service_bus::header::MessageHeader;
use service_bus::record::{get_bytes, get_text, get_varint, push_bytes, push_text, push_varint};
use service_bus::text::{bytes_of, text_of};
use service_bus::varint::{read_varint, varint_len};
use service_bus::wire::{decode_fields, encode_fields, put_field, Field, Payload};

fn prost_varint(value: u64) -> Vec<u8> {
    let mut out = Vec::new();
    prost::encoding::encode_varint(value, &mut out);
    out
}

fn framed(msg_type: i32, body: &[u8]) -> Vec<u8> {
    let mut header = Vec::new();
    if msg_type != 0 {
        prost::encoding::int32::encode(1, &msg_type, &mut header);
    }
    let length = body.len() as u64;
    if length != 0 {
        prost::encoding::uint64::encode(2, &length, &mut header);
    }
    let mut frame = Vec::new();
    prost::encode_length_delimiter(header.len(), &mut frame).unwrap();
    frame.extend_from_slice(&header);
    prost::encode_length_delimiter(body.len(), &mut frame).unwrap();
    frame.extend_from_slice(body);
    frame
}

#[test]
fn read_varint_values() {
    assert_eq!(read_varint(&[0x00]), Some((0, 1)));
    assert_eq!(read_varint(&[0x01]), Some((1, 1)));
    assert_eq!(read_varint(&[0x7f]), Some((127, 1)));
    assert_eq!(read_varint(&[0x80, 0x01]), Some((128, 2)));
    assert_eq!(read_varint(&[0xac, 0x02]), Some((300, 2)));
    assert_eq!(read_varint(&[0xac, 0x02, 0x55, 0x66]), Some((300, 2)));
    assert_eq!(read_varint(&[0xff, 0xff, 0x03]), Some((65_535, 3)));
    let mut max = vec![0xff; 9];
    max.push(0x01);
    assert_eq!(read_varint(&max), Some((u64::MAX, 10)));
}

#[test]
fn read_varint_refuses() {
    assert_eq!(read_varint(&[]), None);
    assert_eq!(read_varint(&[0x80]), None);
    assert_eq!(read_varint(&[0xff, 0xff]), None);
    assert_eq!(read_varint(&[0x80; 10]), None);
    assert_eq!(read_varint(&[0x80; 11]), None);
    // ten bytes, but the last one carries bits beyond the 64th
    let mut overflow = vec![0xff; 9];
    overflow.push(0x02);
    assert_eq!(read_varint(&overflow), None);
    // eleven bytes before the end
    let mut long = vec![0x80; 10];
    long.push(0x01);
    assert_eq!(read_varint(&long), None);
}

#[test]
fn varint_len_looks_at_ten_bytes() {
    assert_eq!(varint_len(&[]), None);
    assert_eq!(varint_len(&[0x05]), Some(1));
    assert_eq!(varint_len(&[0x85, 0x05]), Some(2));
    assert_eq!(varint_len(&[0x85, 0x85]), None);
    let mut ten = vec![0x80; 9];
    ten.push(0x7f);
    assert_eq!(varint_len(&ten), Some(10));
    let mut eleven = vec![0x80; 10];
    eleven.push(0x00);
    assert_eq!(varint_len(&eleven), None);
}

#[test]
fn varint_round_trip_through_fields() {
    for value in [
        0u64,
        1,
        127,
        128,
        300,
        16_383,
        16_384,
        u32::MAX as u64,
        1 << 35,
        (1 << 63) - 1,
        1 << 63,
        u64::MAX,
    ] {
        let field = Field { tag: 3, payload: Payload::Varint(value) };
        let mut out = Vec::new();
        put_field(&field, &mut out);
        let mut expected = vec![0x18];
        expected.extend_from_slice(&prost_varint(value));
        assert_eq!(out, expected);
        assert_eq!(read_varint(&out[1..]), Some((value, out.len() - 1)));
        assert_eq!(decode_fields(&out), Some(vec![field]));
    }
}

#[test]
fn put_field_appends() {
    let mut out = vec![0xaa];
    put_field(&Field { tag: 1, payload: Payload::Bytes(vec![1, 2]) }, &mut out);
    put_field(&Field { tag: 2, payload: Payload::Varint(300) }, &mut out);
    put_field(&Field { tag: 3, payload: Payload::Fixed32(vec![1, 2, 3, 4]) }, &mut out);
    put_field(&Field { tag: 4, payload: Payload::Fixed64(vec![1, 2, 3, 4, 5, 6, 7, 8]) }, &mut out);
    assert_eq!(
        out,
        vec![
            0xaa, 0x0a, 0x02, 1, 2, 0x10, 0xac, 0x02, 0x1d, 1, 2, 3, 4, 0x21, 1, 2, 3, 4, 5, 6, 7,
            8,
        ]
    );
}

#[test]
fn fields_round_trip() {
    let fields = vec![
        Field { tag: 1, payload: Payload::Bytes(b"hello".to_vec()) },
        Field { tag: 0x1fff_ffff, payload: Payload::Varint(u64::MAX) },
        Field { tag: 16, payload: Payload::Fixed32(vec![1, 2, 3, 4]) },
        Field { tag: 2, payload: Payload::Fixed64(vec![8, 7, 6, 5, 4, 3, 2, 1]) },
        Field { tag: 1, payload: Payload::Bytes(vec![]) },
        Field { tag: 9, payload: Payload::Bytes(vec![0x5a; 200]) },
    ];
    let bytes = encode_fields(&fields);
    assert_eq!(decode_fields(&bytes), Some(fields));
    assert_eq!(encode_fields(&vec![]), Vec::<u8>::new());
    assert_eq!(decode_fields(&[]), Some(vec![]));
}

#[test]
fn malformed_fields() {
    // key cut short
    assert_eq!(decode_fields(&[0x80]), None);
    // field number zero
    assert_eq!(decode_fields(&[0x02, 0x00]), None);
    // key beyond 32 bits
    assert_eq!(decode_fields(&[0x80, 0x80, 0x80, 0x80, 0x10, 0x00]), None);
    // wire types 3, 4, 6, 7
    for wire_type in [3u8, 4, 6, 7] {
        assert_eq!(decode_fields(&[0x08 | wire_type, 0x00]), None);
    }
    // payloads cut short
    assert_eq!(decode_fields(&[0x08]), None);
    assert_eq!(decode_fields(&[0x0a, 0x02, 0x01]), None);
    assert_eq!(decode_fields(&[0x0d, 1, 2, 3]), None);
    assert_eq!(decode_fields(&[0x09, 1, 2, 3, 4, 5, 6, 7]), None);
    // a good field followed by rubbish
    assert_eq!(decode_fields(&[0x08, 0x01, 0xff]), None);
}

#[test]
fn lookups_take_the_last_occurrence() {
    let fields = vec![
        Field { tag: 1, payload: Payload::Varint(5) },
        Field { tag: 2, payload: Payload::Bytes(b"one".to_vec()) },
        Field { tag: 1, payload: Payload::Varint(6) },
        Field { tag: 2, payload: Payload::Bytes(b"two".to_vec()) },
        Field { tag: 3, payload: Payload::Bytes(vec![0xff]) },
    ];
    assert_eq!(get_varint(&fields, 1), Some(6));
    assert_eq!(get_text(&fields, 2), Some("two".to_string()));
    assert_eq!(get_bytes(&fields, 2), Some(b"two".to_vec()));
    assert_eq!(get_bytes(&fields, 3), Some(vec![0xff]));
    // absent fields have the empty or zero value
    assert_eq!(get_varint(&fields, 7), Some(0));
    assert_eq!(get_text(&fields, 7), Some(String::new()));
    assert_eq!(get_bytes(&fields, 7), Some(vec![]));
    // every occurrence has to be of the right kind
    assert_eq!(get_varint(&fields, 2), None);
    assert_eq!(get_bytes(&fields, 1), None);
    assert_eq!(get_text(&fields, 1), None);
    assert_eq!(get_text(&fields, 3), None);
    let mixed = vec![
        Field { tag: 1, payload: Payload::Bytes(vec![0xff]) },
        Field { tag: 1, payload: Payload::Bytes(b"ok".to_vec()) },
    ];
    assert_eq!(get_text(&mixed, 1), None);
    assert_eq!(get_bytes(&mixed, 1), Some(b"ok".to_vec()));
}

#[test]
fn pushes_leave_out_empty_values() {
    let mut fields = Vec::new();
    push_varint(&mut fields, 1, 0);
    push_bytes(&mut fields, 2, &vec![]);
    push_text(&mut fields, 3, &String::new());
    assert_eq!(fields, vec![]);
    push_varint(&mut fields, 1, 9);
    push_bytes(&mut fields, 2, &vec![1]);
    push_text(&mut fields, 3, &"\u{e9}".to_string());
    assert_eq!(
        fields,
        vec![
            Field { tag: 1, payload: Payload::Varint(9) },
            Field { tag: 2, payload: Payload::Bytes(vec![1]) },
            Field { tag: 3, payload: Payload::Bytes(vec![0xc3, 0xa9]) },
        ]
    );
}

#[test]
fn text_is_utf8() {
    assert_eq!(text_of(b"svc"), Some("svc".to_string()));
    assert_eq!(text_of(&[0xe4, 0xb8, 0x96]), Some("\u{4e16}".to_string()));
    assert_eq!(text_of(&[]), Some(String::new()));
    assert_eq!(text_of(&[0xff]), None);
    assert_eq!(text_of(&[0xc3]), None);
    assert_eq!(text_of(&[0xed, 0xa0, 0x80]), None);
    assert_eq!(bytes_of(&"\u{1f600}".to_string()), vec![0xf0, 0x9f, 0x98, 0x80]);
    assert_eq!(bytes_of(&String::new()), Vec::<u8>::new());
}

#[test]
fn header_bytes() {
    assert_eq!(MessageHeader { msg_type: 0, msg_length: 0 }.encode(), Vec::<u8>::new());
    assert_eq!(MessageHeader { msg_type: 2, msg_length: 14 }.encode(), vec![0x08, 0x02, 0x10, 0x0e]);
    assert_eq!(MessageHeader { msg_type: 0, msg_length: 300 }.encode(), vec![0x10, 0xac, 0x02]);
    assert_eq!(
        MessageHeader { msg_type: -1, msg_length: 0 }.encode(),
        vec![0x08, 0xff, 0xff, 0xff, 0xff, 0xff, 0xff, 0xff, 0xff, 0xff, 0x01]
    );
}

#[test]
fn header_round_trip() {
    for msg_type in [0, 1, 2, 3, 4, 1000, -1, -2, i32::MAX, i32::MIN] {
        for msg_length in [0u64, 1, 127, 128, 1 << 32, u64::MAX] {
            let header = MessageHeader { msg_type, msg_length };
            assert_eq!(MessageHeader::decode(&header.encode()), Some(header));
        }
    }
}

#[test]
fn header_reading() {
    // no fields: kind zero, length zero
    assert_eq!(MessageHeader::decode(&[]), Some(MessageHeader { msg_type: 0, msg_length: 0 }));
    // fields in the other order, with a field nobody knows in between
    assert_eq!(
        MessageHeader::decode(&[0x10, 0x05, 0x4a, 0x01, 0x00, 0x08, 0x03]),
        Some(MessageHeader { msg_type: 3, msg_length: 5 })
    );
    // the kind is the low 32 bits of its varint
    assert_eq!(
        MessageHeader::decode(&[0x08, 0x81, 0x80, 0x80, 0x80, 0x10]),
        Some(MessageHeader { msg_type: 1, msg_length: 0 })
    );
    assert_eq!(
        MessageHeader::decode(&[0x08, 0xff, 0xff, 0xff, 0xff, 0x0f]),
        Some(MessageHeader { msg_type: -1, msg_length: 0 })
    );
    assert_eq!(MessageHeader::decode(&[0x08]), None);
    assert_eq!(MessageHeader::decode(&[0x12, 0x00]), None);
}

#[test]
fn bodies_are_written_as_prost_writes_them() {
    let mut expected = Vec::new();
    prost::encoding::string::encode(1, &"svc".to_string(), &mut expected);
    assert_eq!(RegisterRequest { service_id: "svc".to_string() }.encode(), expected);
    assert_eq!(UnregisterRequest { service_id: "svc".to_string() }.encode(), expected);

    let mut expected = Vec::new();
    prost::encoding::string::encode(1, &"me".to_string(), &mut expected);
    prost::encoding::string::encode(2, &"/local/raw/echo".to_string(), &mut expected);
    prost::encoding::bytes::encode(3, &vec![1u8; 500], &mut expected);
    assert_eq!(
        CallRequest {
            caller: "me".to_string(),
            address: "/local/raw/echo".to_string(),
            body: vec![1u8; 500],
        }
        .encode(),
        expected
    );

    let mut expected = Vec::new();
    prost::encoding::bytes::encode(1, &b"pong".to_vec(), &mut expected);
    assert_eq!(CallReply { body: ReplyBody::Data(b"pong".to_vec()) }.encode(), expected);

    let mut expected = Vec::new();
    prost::encoding::string::encode(2, &"no such service".to_string(), &mut expected);
    assert_eq!(
        CallReply { body: ReplyBody::Failure("no such service".to_string()) }.encode(),
        expected
    );
}

#[test]
fn frames_are_written_as_prost_writes_them() {
    let body = CallRequest {
        caller: "me".to_string(),
        address: "svc".to_string(),
        body: vec![3u8; 1_000],
    };
    let expected = framed(2, &body.encode());
    assert_eq!(encode(&IncomingGsbMessage::ServiceCallRequest(body)), expected);

    let body = RegisterRequest { service_id: "svc".to_string() };
    let expected = framed(0, &body.encode());
    assert_eq!(encode(&IncomingGsbMessage::RegisterRequest(body)), expected);

    let body = CallReply { body: ReplyBody::Failure("boom".to_string()) };
    let expected = framed(3, &body.encode());
    assert_eq!(encode(&IncomingGsbMessage::CallReply(body)), expected);
}

#[test]
fn frames_written_by_prost_are_read() {
    let mut body = Vec::new();
    prost::encoding::string::encode(2, &"svc".to_string(), &mut body);
    prost::encoding::uint64::encode(15, &77, &mut body);
    prost::encoding::bytes::encode(3, &b"ping".to_vec(), &mut body);
    prost::encoding::fixed32::encode(16, &0xdead_beef, &mut body);
    prost::encoding::string::encode(1, &"x".to_string(), &mut body);
    prost::encoding::fixed64::encode(17, &1, &mut body);
    let frame = framed(2, &body);
    let mut decoder = GsbMessageDecoder::new();
    let mut buf = BytesMut::from(&frame[..]);
    assert_eq!(
        decoder.decode(&mut buf),
        Ok(Some(IncomingGsbMessage::ServiceCallRequest(CallRequest {
            caller: "x".to_string(),
            address: "svc".to_string(),
            body: b"ping".to_vec(),
        })))
    );
    assert!(buf.is_empty());
}

#[test]
fn message_reading() {
    // a field nobody knows is skipped
    assert_eq!(
        RegisterRequest::decode(&[0x0a, 0x03, 0x73, 0x76, 0x63, 0x48, 0x01]),
        Some(RegisterRequest { service_id: "svc".to_string() })
    );
    // the last occurrence wins
    assert_eq!(
        UnregisterRequest::decode(&[0x0a, 0x01, 0x61, 0x0a, 0x01, 0x62]),
        Some(UnregisterRequest { service_id: "b".to_string() })
    );
    // but every occurrence has to be text
    assert_eq!(RegisterRequest::decode(&[0x0a, 0x01, 0xff, 0x0a, 0x01, 0x62]), None);
    // nothing at all is the empty message
    assert_eq!(
        CallRequest::decode(&[]),
        Some(CallRequest { caller: String::new(), address: String::new(), body: vec![] })
    );
    // a body need not be text
    assert_eq!(
        CallRequest::decode(&[0x1a, 0x02, 0xff, 0xfe]),
        Some(CallRequest { caller: String::new(), address: String::new(), body: vec![0xff, 0xfe] })
    );
    assert_eq!(CallRequest::decode(&[0x18, 0x02]), None);
    assert_eq!(CallRequest::decode(&[0x12, 0x01, 0xff]), None);
}

#[test]
fn reply_reading() {
    assert_eq!(CallReply::decode(&[]), Some(CallReply { body: ReplyBody::Data(vec![]) }));
    assert_eq!(
        CallReply::decode(&[0x0a, 0x01, 0x07]),
        Some(CallReply { body: ReplyBody::Data(vec![7]) })
    );
    // result and failure: the one that comes last decides
    assert_eq!(
        CallReply::decode(&[0x0a, 0x01, 0x07, 0x12, 0x02, 0x6e, 0x6f]),
        Some(CallReply { body: ReplyBody::Failure("no".to_string()) })
    );
    assert_eq!(
        CallReply::decode(&[0x12, 0x02, 0x6e, 0x6f, 0x0a, 0x01, 0x07, 0x20, 0x05]),
        Some(CallReply { body: ReplyBody::Data(vec![7]) })
    );
    assert_eq!(CallReply::decode(&[0x12, 0x01, 0xff, 0x0a, 0x01, 0x07]), None);
    assert_eq!(CallReply::decode(&[0x08, 0x01]), None);
    assert_eq!(CallReply::decode(&[0x10, 0x01]), None);
}
