use bytes::BytesMut;
use service_bus::decoder::{
    parse_header, parse_message, peek_length, GsbMessageDecoder, IncomingGsbMessage, LengthPrefix,
};
use service_bus::encoder::{encode, kind_of};
use service_bus::error::FrameError;
use service_bus::gsb_api::{CallReply, CallRequest, RegisterRequest, ReplyBody, UnregisterRequest};
use service_bus::header::{MessageHeader, MessageType};

fn register(id: &str) -> IncomingGsbMessage {
    IncomingGsbMessage::RegisterRequest(RegisterRequest { service_id: id.to_string() })
}

fn unregister(id: &str) -> IncomingGsbMessage {
    IncomingGsbMessage::UnregisterRequest(UnregisterRequest { service_id: id.to_string() })
}

fn call(caller: &str, address: &str, body: &[u8]) -> IncomingGsbMessage {
    IncomingGsbMessage::ServiceCallRequest(CallRequest {
        caller: caller.to_string(),
        address: address.to_string(),
        body: body.to_vec(),
    })
}

fn reply_data(body: &[u8]) -> IncomingGsbMessage {
    IncomingGsbMessage::CallReply(CallReply { body: ReplyBody::Data(body.to_vec()) })
}

fn reply_failure(reason: &str) -> IncomingGsbMessage {
    IncomingGsbMessage::CallReply(CallReply { body: ReplyBody::Failure(reason.to_string()) })
}

fn samples() -> Vec<IncomingGsbMessage> {
    vec![
        register("svc"),
        register(""),
        register("/local/raw/echo"),
        register("gr\u{fc}\u{df}e/\u{4e16}\u{754c}/\u{1f600}"),
        unregister("svc"),
        unregister(""),
        call("x", "svc", b"ping"),
        call("", "", b""),
        call("me", "/local/raw/echo", &vec![7u8; 300]),
        call("caller", "", &[0, 255, 128, 127]),
        reply_data(b"ping"),
        reply_data(b""),
        reply_data(&vec![0xabu8; 20_000]),
        reply_failure("no"),
        reply_failure(""),
    ]
}

fn decode_whole(frame: &[u8]) -> Result<Option<IncomingGsbMessage>, FrameError> {
    let mut decoder = GsbMessageDecoder::new();
    let mut buf = BytesMut::from(frame);
    decoder.decode(&mut buf)
}

#[test]
fn register_frame_bytes() {
    let frame = encode(&register("svc"));
    assert_eq!(frame, vec![0x02, 0x10, 0x05, 0x05, 0x0a, 0x03, 0x73, 0x76, 0x63]);
}

#[test]
fn unregister_frame_bytes() {
    let frame = encode(&unregister("svc"));
    assert_eq!(
        frame,
        vec![0x04, 0x08, 0x01, 0x10, 0x05, 0x05, 0x0a, 0x03, 0x73, 0x76, 0x63]
    );
}

#[test]
fn call_frame_bytes() {
    let frame = encode(&call("x", "svc", b"ping"));
    assert_eq!(
        frame,
        vec![
            0x04, 0x08, 0x02, 0x10, 0x0e, 0x0e, 0x0a, 0x01, 0x78, 0x12, 0x03, 0x73, 0x76, 0x63,
            0x1a, 0x04, 0x70, 0x69, 0x6e, 0x67,
        ]
    );
}

#[test]
fn reply_frame_bytes() {
    assert_eq!(
        encode(&reply_data(b"ping")),
        vec![0x04, 0x08, 0x03, 0x10, 0x06, 0x06, 0x0a, 0x04, 0x70, 0x69, 0x6e, 0x67]
    );
    assert_eq!(
        encode(&reply_failure("no")),
        vec![0x04, 0x08, 0x03, 0x10, 0x04, 0x04, 0x12, 0x02, 0x6e, 0x6f]
    );
    assert_eq!(encode(&reply_data(b"")), vec![0x04, 0x08, 0x03, 0x10, 0x02, 0x02, 0x0a, 0x00]);
}

#[test]
fn empty_register_is_two_zero_bytes() {
    assert_eq!(encode(&register("")), vec![0x00, 0x00]);
    assert_eq!(decode_whole(&[0x00, 0x00]), Ok(Some(register(""))));
}

#[test]
fn long_body_takes_two_byte_lengths() {
    let frame = encode(&call("", "", &vec![7u8; 300]));
    // body: key 0x1a, length 300 as 0xac 0x02, then 300 bytes
    let mut expected = vec![0x05, 0x08, 0x02, 0x10, 0xaf, 0x02, 0xaf, 0x02, 0x1a, 0xac, 0x02];
    expected.extend_from_slice(&vec![7u8; 300]);
    assert_eq!(frame, expected);
}

#[test]
fn frame_round_trip() {
    for msg in samples() {
        let frame = encode(&msg);
        let mut decoder = GsbMessageDecoder::new();
        let mut buf = BytesMut::from(&frame[..]);
        assert_eq!(decoder.decode(&mut buf), Ok(Some(msg)));
        assert!(buf.is_empty());
        assert_eq!(decoder.pending_header(), None);
        assert_eq!(decoder.decode(&mut buf), Ok(None));
    }
}

#[test]
fn split_at_every_byte_boundary() {
    for msg in samples() {
        let frame = encode(&msg);
        if frame.len() > 2_000 {
            continue;
        }
        for cut in 0..frame.len() {
            let mut decoder = GsbMessageDecoder::new();
            let mut buf = BytesMut::from(&frame[..cut]);
            assert_eq!(decoder.decode(&mut buf), Ok(None), "cut at {}", cut);
            buf.extend_from_slice(&frame[cut..]);
            assert_eq!(decoder.decode(&mut buf), Ok(Some(msg.clone())), "cut at {}", cut);
            assert!(buf.is_empty());
            assert_eq!(decoder.decode(&mut buf), Ok(None));
        }
    }
}

#[test]
fn one_byte_at_a_time() {
    for msg in samples() {
        let frame = encode(&msg);
        if frame.len() > 2_000 {
            continue;
        }
        let mut decoder = GsbMessageDecoder::new();
        let mut buf = BytesMut::new();
        let mut delivered = Vec::new();
        for byte in &frame {
            buf.extend_from_slice(&[*byte]);
            if let Some(m) = decoder.decode(&mut buf).unwrap() {
                delivered.push(m);
            }
        }
        assert_eq!(delivered, vec![msg]);
        assert!(buf.is_empty());
    }
}

#[test]
fn body_larger_than_any_chunk() {
    let msg = reply_data(&vec![0xabu8; 20_000]);
    let frame = encode(&msg);
    let mut decoder = GsbMessageDecoder::new();
    let mut buf = BytesMut::new();
    let mut delivered = Vec::new();
    let mut calls_without_message = 0;
    for chunk in frame.chunks(7) {
        buf.extend_from_slice(chunk);
        match decoder.decode(&mut buf).unwrap() {
            Some(m) => delivered.push(m),
            None => calls_without_message += 1,
        }
    }
    assert_eq!(delivered, vec![msg]);
    assert_eq!(calls_without_message, frame.chunks(7).count() - 1);
    assert!(buf.is_empty());
}

#[test]
fn header_is_kept_between_calls() {
    let frame = encode(&call("x", "svc", b"ping"));
    let mut decoder = GsbMessageDecoder::new();
    let mut buf = BytesMut::from(&frame[..3]);
    assert_eq!(decoder.decode(&mut buf), Ok(None));
    assert_eq!(decoder.pending_header(), None);
    assert_eq!(&buf[..], &frame[..3]);
    buf.extend_from_slice(&frame[3..8]);
    assert_eq!(decoder.decode(&mut buf), Ok(None));
    assert_eq!(decoder.pending_header(), Some(MessageHeader { msg_type: 2, msg_length: 14 }));
    assert_eq!(&buf[..], &frame[5..8]);
    buf.extend_from_slice(&frame[8..]);
    assert_eq!(decoder.decode(&mut buf), Ok(Some(call("x", "svc", b"ping"))));
    assert_eq!(decoder.pending_header(), None);
}

#[test]
fn two_frames_in_one_buffer() {
    let mut bytes = encode(&register("a"));
    bytes.extend_from_slice(&encode(&call("x", "a", b"1")));
    bytes.extend_from_slice(&[0x02]);
    let mut decoder = GsbMessageDecoder::new();
    let mut buf = BytesMut::from(&bytes[..]);
    assert_eq!(decoder.decode(&mut buf), Ok(Some(register("a"))));
    assert_eq!(decoder.decode(&mut buf), Ok(Some(call("x", "a", b"1"))));
    assert_eq!(decoder.decode(&mut buf), Ok(None));
    assert_eq!(&buf[..], &[0x02]);
}

#[test]
fn unknown_type_is_rejected() {
    for bad in [4i32, 5, 7, 100, -1, i32::MAX, i32::MIN] {
        let header = MessageHeader { msg_type: bad, msg_length: 5 }.encode();
        let mut frame = vec![header.len() as u8];
        frame.extend_from_slice(&header);
        frame.extend_from_slice(&[0x05, 0x0a, 0x03, 0x73, 0x76, 0x63]);
        assert_eq!(decode_whole(&frame), Err(FrameError::UnsupportedMessageType), "type {}", bad);
    }
}

#[test]
fn unknown_type_is_rejected_once_the_body_is_there() {
    let frame = [0x04, 0x08, 0x07, 0x10, 0x05, 0x05, 0x0a, 0x03, 0x73, 0x76, 0x63];
    let mut decoder = GsbMessageDecoder::new();
    let mut buf = BytesMut::from(&frame[..8]);
    assert_eq!(decoder.decode(&mut buf), Ok(None));
    assert_eq!(decoder.pending_header(), Some(MessageHeader { msg_type: 7, msg_length: 5 }));
    buf.extend_from_slice(&frame[8..]);
    assert_eq!(decoder.decode(&mut buf), Err(FrameError::UnsupportedMessageType));
    assert!(buf.is_empty());
}

#[test]
fn known_types_are_the_first_four_numbers() {
    assert_eq!(MessageType::from_i32(0), Some(MessageType::RegisterRequest));
    assert_eq!(MessageType::from_i32(1), Some(MessageType::UnregisterRequest));
    assert_eq!(MessageType::from_i32(2), Some(MessageType::CallRequest));
    assert_eq!(MessageType::from_i32(3), Some(MessageType::CallReply));
    assert_eq!(MessageType::from_i32(4), None);
    assert_eq!(MessageType::from_i32(-1), None);
    for kind in [
        MessageType::RegisterRequest,
        MessageType::UnregisterRequest,
        MessageType::CallRequest,
        MessageType::CallReply,
    ] {
        assert_eq!(MessageType::from_i32(kind.to_i32()), Some(kind));
    }
    assert_eq!(kind_of(&register("a")), MessageType::RegisterRequest);
    assert_eq!(kind_of(&unregister("a")), MessageType::UnregisterRequest);
    assert_eq!(kind_of(&call("a", "b", b"c")), MessageType::CallRequest);
    assert_eq!(kind_of(&reply_data(b"")), MessageType::CallReply);
}

#[test]
fn invalid_delimiter() {
    assert_eq!(decode_whole(&[0x80; 10]), Err(FrameError::InvalidDelimiter));
    assert_eq!(decode_whole(&[0x80; 25]), Err(FrameError::InvalidDelimiter));
    // ten bytes that end, but the value does not fit in 64 bits
    let mut overflow = vec![0xff; 9];
    overflow.push(0x02);
    assert_eq!(decode_whole(&overflow), Err(FrameError::InvalidDelimiter));
    // nine bytes that have not ended yet may still become a delimiter
    assert_eq!(decode_whole(&[0x80; 9]), Ok(None));
    assert_eq!(decode_whole(&[]), Ok(None));
}

#[test]
fn oversized_length() {
    let mut huge = vec![0xff; 9];
    huge.push(0x01);
    huge.extend_from_slice(&[1, 2, 3]);
    let mut decoder = GsbMessageDecoder::new();
    let mut buf = BytesMut::from(&huge[..]);
    assert_eq!(decoder.decode(&mut buf), Err(FrameError::Oversized));
    assert_eq!(&buf[..], &huge[..]);
}

#[test]
fn invalid_header() {
    // key 0x0f: field 1 with wire type 7
    assert_eq!(decode_whole(&[0x01, 0x0f]), Err(FrameError::InvalidHeader));
    // msg_type carried as bytes instead of a varint
    assert_eq!(decode_whole(&[0x02, 0x0a, 0x00]), Err(FrameError::InvalidHeader));
    // msg_length cut short
    assert_eq!(decode_whole(&[0x01, 0x10]), Err(FrameError::InvalidHeader));
    // field number zero
    assert_eq!(decode_whole(&[0x02, 0x00, 0x01]), Err(FrameError::InvalidHeader));
}

#[test]
fn header_error_takes_the_header_and_keeps_nothing() {
    let mut decoder = GsbMessageDecoder::new();
    let mut buf = BytesMut::from(&[0x01u8, 0x0f, 0x55][..]);
    assert_eq!(decoder.decode(&mut buf), Err(FrameError::InvalidHeader));
    assert_eq!(decoder.pending_header(), None);
    assert_eq!(&buf[..], &[0x55]);
}

#[test]
fn length_mismatch() {
    let frame = [0x02, 0x10, 0x05, 0x04, 0x0a, 0x02, 0x73, 0x76];
    let mut decoder = GsbMessageDecoder::new();
    let mut buf = BytesMut::from(&frame[..]);
    assert_eq!(decoder.decode(&mut buf), Err(FrameError::LengthMismatch));
    assert_eq!(decoder.pending_header(), Some(MessageHeader { msg_type: 0, msg_length: 5 }));
    assert_eq!(&buf[..], &frame[3..]);
}

#[test]
fn invalid_body() {
    // service_id is not UTF-8
    assert_eq!(
        decode_whole(&[0x02, 0x10, 0x03, 0x03, 0x0a, 0x01, 0xff]),
        Err(FrameError::InvalidBody)
    );
    // service_id carried as a varint
    assert_eq!(decode_whole(&[0x02, 0x10, 0x02, 0x02, 0x08, 0x01]), Err(FrameError::InvalidBody));
    // a field that claims more bytes than the body has
    assert_eq!(
        decode_whole(&[0x02, 0x10, 0x03, 0x03, 0x0a, 0x05, 0x61]),
        Err(FrameError::InvalidBody)
    );
    // a reply whose failure is not text
    assert_eq!(
        decode_whole(&[0x04, 0x08, 0x03, 0x10, 0x03, 0x03, 0x12, 0x01, 0xc0]),
        Err(FrameError::InvalidBody)
    );
    // a group marker
    assert_eq!(decode_whole(&[0x02, 0x10, 0x01, 0x01, 0x4b]), Err(FrameError::InvalidBody));
}

#[test]
fn error_messages() {
    assert_eq!(FrameError::UnsupportedMessageType.message(), "Unsupported message type");
    for e in [
        FrameError::InvalidDelimiter,
        FrameError::Oversized,
        FrameError::InvalidHeader,
        FrameError::LengthMismatch,
        FrameError::InvalidBody,
    ] {
        assert!(!e.message().is_empty());
    }
}

#[test]
fn parse_header_takes_exactly_the_header() {
    let frame = encode(&call("x", "svc", b"ping"));
    let mut buf = BytesMut::from(&frame[..]);
    assert_eq!(parse_header(&mut buf), Ok(Some(MessageHeader { msg_type: 2, msg_length: 14 })));
    assert_eq!(&buf[..], &frame[5..]);

    let mut short = BytesMut::from(&frame[..4]);
    assert_eq!(parse_header(&mut short), Ok(None));
    assert_eq!(&short[..], &frame[..4]);
}

#[test]
fn parse_message_takes_exactly_the_body() {
    let frame = encode(&call("x", "svc", b"ping"));
    let header = MessageHeader { msg_type: 2, msg_length: 14 };
    let mut buf = BytesMut::from(&frame[5..]);
    buf.extend_from_slice(&[9, 9]);
    assert_eq!(parse_message(&mut buf, &header), Ok(Some(call("x", "svc", b"ping"))));
    assert_eq!(&buf[..], &[9, 9]);

    let mut short = BytesMut::from(&frame[5..frame.len() - 1]);
    assert_eq!(parse_message(&mut short, &header), Ok(None));
    assert_eq!(&short[..], &frame[5..frame.len() - 1]);
}

#[test]
fn parse_message_reads_the_body_by_the_headers_kind() {
    // the same five bytes are a registration or an unregistration
    let body = [0x05, 0x0a, 0x03, 0x73, 0x76, 0x63];
    let mut buf = BytesMut::from(&body[..]);
    let as_register = MessageHeader { msg_type: 0, msg_length: 5 };
    assert_eq!(parse_message(&mut buf, &as_register), Ok(Some(register("svc"))));
    let mut buf = BytesMut::from(&body[..]);
    let as_unregister = MessageHeader { msg_type: 1, msg_length: 5 };
    assert_eq!(parse_message(&mut buf, &as_unregister), Ok(Some(unregister("svc"))));
}

#[test]
fn peek_length_cases() {
    assert_eq!(peek_length(&[]), LengthPrefix::Incomplete);
    assert_eq!(peek_length(&[0x80, 0x80]), LengthPrefix::Incomplete);
    assert_eq!(peek_length(&[0x05, 0x01]), LengthPrefix::Found { length: 5, width: 1 });
    assert_eq!(peek_length(&[0xac, 0x02, 0xff]), LengthPrefix::Found { length: 300, width: 2 });
    // padded with a zero group: still a length, two bytes wide
    assert_eq!(peek_length(&[0x81, 0x00]), LengthPrefix::Found { length: 1, width: 2 });
    assert_eq!(peek_length(&[0x80; 10]), LengthPrefix::Corrupt);
    assert_eq!(peek_length(&[0x80; 11]), LengthPrefix::Corrupt);
}

#[test]
fn padded_delimiters_are_followed() {
    // header length 2 written as 0x82 0x00, body length 5 written as 0x85 0x00
    let frame = [0x82, 0x00, 0x10, 0x05, 0x85, 0x00, 0x0a, 0x03, 0x73, 0x76, 0x63];
    assert_eq!(decode_whole(&frame), Ok(Some(register("svc"))));
}
