use bytes::BytesMut;
use service_bus::connection::{Command, Connection, RpcRawCall};
use service_bus::decoder::{GsbMessageDecoder, IncomingGsbMessage};
use service_bus::encoder::encode;
use service_bus::error::Error;
use service_bus::gsb_api::{CallReply, CallRequest, RegisterRequest, ReplyBody, UnregisterRequest};

fn raw_call(caller: &str, addr: &str, body: &[u8]) -> RpcRawCall {
    RpcRawCall { caller: caller.to_string(), addr: addr.to_string(), body: body.to_vec() }
}

fn request(caller: &str, address: &str, body: &[u8]) -> IncomingGsbMessage {
    IncomingGsbMessage::ServiceCallRequest(CallRequest {
        caller: caller.to_string(),
        address: address.to_string(),
        body: body.to_vec(),
    })
}

fn reply(body: &[u8]) -> IncomingGsbMessage {
    IncomingGsbMessage::CallReply(CallReply { body: ReplyBody::Data(body.to_vec()) })
}

fn read_frame(frame: &[u8]) -> IncomingGsbMessage {
    let mut decoder = GsbMessageDecoder::new();
    let mut buf = BytesMut::from(frame);
    let msg = decoder.decode(&mut buf).unwrap().unwrap();
    assert!(buf.is_empty());
    msg
}

#[test]
fn fresh_connection() {
    let connection: Connection<u32> = Connection::new();
    assert!(connection.connected());
    assert_eq!(connection.outstanding(), 0);
}

#[test]
fn bind_writes_one_register_frame() {
    let connection: Connection<u32> = Connection::new();
    let frame = connection.bind("svc".to_string()).unwrap();
    assert_eq!(frame, vec![0x02, 0x10, 0x05, 0x05, 0x0a, 0x03, 0x73, 0x76, 0x63]);
    assert_eq!(
        read_frame(&frame),
        IncomingGsbMessage::RegisterRequest(RegisterRequest { service_id: "svc".to_string() })
    );
    assert_eq!(connection.outstanding(), 0);
}

#[test]
fn call_writes_one_frame_and_waits() {
    let mut connection: Connection<u32> = Connection::new();
    let command = connection.call(raw_call("x", "svc", b"ping"), 7);
    match command {
        Command::Write(frame) => assert_eq!(read_frame(&frame), request("x", "svc", b"ping")),
        other => panic!("unexpected {:?}", other),
    }
    assert_eq!(connection.outstanding(), 1);
    // nothing resolves by itself
    assert_eq!(connection.outstanding(), 1);
    assert!(connection.connected());
}

#[test]
fn replies_are_matched_in_send_order() {
    let mut connection: Connection<&'static str> = Connection::new();
    connection.call(raw_call("x", "svc", b"1"), "first");
    connection.call(raw_call("x", "svc", b"2"), "second");
    connection.call(raw_call("x", "svc", b"3"), "third");
    assert_eq!(connection.outstanding(), 3);
    assert_eq!(
        connection.handle_message(reply(b"a")),
        Some(Command::Resolve("first", Ok(b"a".to_vec())))
    );
    assert_eq!(
        connection.handle_message(IncomingGsbMessage::CallReply(CallReply {
            body: ReplyBody::Failure("remote said no".to_string()),
        })),
        Some(Command::Resolve("second", Err(Error::RemoteError("remote said no".to_string()))))
    );
    assert_eq!(connection.outstanding(), 1);
    assert_eq!(
        connection.handle_message(reply(b"")),
        Some(Command::Resolve("third", Ok(vec![])))
    );
    assert_eq!(connection.outstanding(), 0);
}

#[test]
fn reply_without_open_call_is_dropped() {
    let mut connection: Connection<u32> = Connection::new();
    assert_eq!(connection.handle_message(reply(b"late")), None);
    assert_eq!(connection.outstanding(), 0);
    assert!(connection.connected());
}

#[test]
fn inbound_request_goes_to_the_dispatcher() {
    let mut connection: Connection<u32> = Connection::new();
    connection.call(raw_call("x", "svc", b"1"), 1);
    let command = connection.handle_message(request("peer", "/local/raw/echo", b"hello"));
    assert_eq!(
        command,
        Some(Command::Dispatch(CallRequest {
            caller: "peer".to_string(),
            address: "/local/raw/echo".to_string(),
            body: b"hello".to_vec(),
        }))
    );
    // the open call is untouched
    assert_eq!(connection.outstanding(), 1);
}

#[test]
fn registrations_from_the_wire_are_dropped() {
    let mut connection: Connection<u32> = Connection::new();
    connection.call(raw_call("x", "svc", b"1"), 1);
    assert_eq!(
        connection.handle_message(IncomingGsbMessage::RegisterRequest(RegisterRequest {
            service_id: "a".to_string(),
        })),
        None
    );
    assert_eq!(
        connection.handle_message(IncomingGsbMessage::UnregisterRequest(UnregisterRequest {
            service_id: "a".to_string(),
        })),
        None
    );
    assert_eq!(connection.outstanding(), 1);
}

#[test]
fn reply_frames() {
    let connection: Connection<u32> = Connection::new();
    let ok = connection.reply(ReplyBody::Data(b"pong".to_vec())).unwrap();
    assert_eq!(ok, vec![0x04, 0x08, 0x03, 0x10, 0x06, 0x06, 0x0a, 0x04, 0x70, 0x6f, 0x6e, 0x67]);
    let failed = connection.reply(ReplyBody::Failure("handler failed".to_string())).unwrap();
    assert_eq!(
        read_frame(&failed),
        IncomingGsbMessage::CallReply(CallReply {
            body: ReplyBody::Failure("handler failed".to_string()),
        })
    );
    assert!(connection.connected());
}

#[test]
fn failure_fails_every_open_call() {
    let mut connection: Connection<u32> = Connection::new();
    for slot in 0..5u32 {
        connection.call(raw_call("x", "svc", &[slot as u8]), slot);
    }
    connection.handle_message(reply(b"zero"));
    let commands = connection.fail();
    assert_eq!(
        commands,
        vec![
            Command::Resolve(1, Err(Error::Closed)),
            Command::Resolve(2, Err(Error::Closed)),
            Command::Resolve(3, Err(Error::Closed)),
            Command::Resolve(4, Err(Error::Closed)),
        ]
    );
    assert!(!connection.connected());
    assert_eq!(connection.outstanding(), 0);
    // failing again finds nobody left
    assert_eq!(connection.fail(), vec![]);
}

#[test]
fn failure_with_nothing_open() {
    let mut connection: Connection<u32> = Connection::new();
    assert_eq!(connection.fail(), vec![]);
    assert!(!connection.connected());
}

#[test]
fn dead_connection_refuses() {
    let mut connection: Connection<u32> = Connection::new();
    connection.fail();
    assert_eq!(connection.bind("svc".to_string()), Err(Error::Closed));
    assert_eq!(connection.reply(ReplyBody::Data(vec![])), Err(Error::Closed));
    assert_eq!(
        connection.call(raw_call("x", "svc", b"ping"), 3),
        Command::Resolve(3, Err(Error::Closed))
    );
    assert_eq!(connection.outstanding(), 0);
    assert_eq!(connection.handle_message(reply(b"late")), None);
    assert_eq!(connection.handle_message(request("a", "b", b"c")), None);
}

#[test]
fn encode_and_bind_agree() {
    let connection: Connection<u32> = Connection::new();
    let id = "/local/raw/echo";
    assert_eq!(
        connection.bind(id.to_string()).unwrap(),
        encode(&IncomingGsbMessage::RegisterRequest(RegisterRequest {
            service_id: id.to_string(),
        }))
    );
}
