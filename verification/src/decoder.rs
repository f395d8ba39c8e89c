//! Cutting a byte stream into messages.
//!
//! A frame is a header and a body, each behind its own varint length:
//!
//! ```text
//! varint(len(header)) header varint(len(body)) body
//! ```
//!
//! The transport hands bytes over in chunks of any size, so the decoder is
//! asked again and again on a growing buffer. It takes bytes out of the
//! buffer only when a whole header or a whole body is there, and it keeps a
//! header it has read until the body has arrived.

use crate::buffer::{buf_bytes, buf_split_to, buffered};
use crate::error::FrameError;
use crate::gsb_api::{
    CallReply, CallReplyView, CallRequest, CallRequestView, RegisterRequest, RegisterRequestView,
    UnregisterRequest, UnregisterRequestView,
};
use crate::header::{MessageHeader, MessageType};
use crate::varint::{
    lemma_varint_extend, read_varint, varint_decoding, varint_len, varint_width,
};
use vstd::prelude::*;
use vstd::slice::slice_subrange;

verus! {

/// A message as it comes off the wire.
#[derive(Clone, Debug, PartialEq, Eq)]
pub enum IncomingGsbMessage {
    RegisterRequest(RegisterRequest),
    UnregisterRequest(UnregisterRequest),
    ServiceCallRequest(CallRequest),
    CallReply(CallReply),
}

/// The mathematical content of an [`IncomingGsbMessage`].
pub enum MessageView {
    RegisterRequest(RegisterRequestView),
    UnregisterRequest(UnregisterRequestView),
    ServiceCallRequest(CallRequestView),
    CallReply(CallReplyView),
}

impl View for IncomingGsbMessage {
    type V = MessageView;

    open spec fn view(&self) -> MessageView {
        match self {
            IncomingGsbMessage::RegisterRequest(m) => MessageView::RegisterRequest(m@),
            IncomingGsbMessage::UnregisterRequest(m) => MessageView::UnregisterRequest(m@),
            IncomingGsbMessage::ServiceCallRequest(m) => MessageView::ServiceCallRequest(m@),
            IncomingGsbMessage::CallReply(m) => MessageView::CallReply(m@),
        }
    }
}

impl MessageView {
    /// The kind that the header announces for this message.
    pub open spec fn kind(self) -> MessageType {
        match self {
            MessageView::RegisterRequest(_) => MessageType::RegisterRequest,
            MessageView::UnregisterRequest(_) => MessageType::UnregisterRequest,
            MessageView::ServiceCallRequest(_) => MessageType::CallRequest,
            MessageView::CallReply(_) => MessageType::CallReply,
        }
    }

    /// The body of this message.
    pub open spec fn body(self) -> Seq<u8> {
        match self {
            MessageView::RegisterRequest(m) => m.encoding(),
            MessageView::UnregisterRequest(m) => m.encoding(),
            MessageView::ServiceCallRequest(m) => m.encoding(),
            MessageView::CallReply(m) => m.encoding(),
        }
    }

    /// A message whose parts are short enough for their lengths to be
    /// written.
    pub open spec fn well_formed(self) -> bool {
        match self {
            MessageView::RegisterRequest(m) => m.well_formed(),
            MessageView::UnregisterRequest(m) => m.well_formed(),
            MessageView::ServiceCallRequest(m) => m.well_formed(),
            MessageView::CallReply(m) => m.well_formed(),
        }
    }
}

/// The message of the given kind that a body holds, if it holds one.
pub open spec fn body_decoding(kind: MessageType, body: Seq<u8>) -> Option<MessageView> {
    match kind {
        MessageType::RegisterRequest => match RegisterRequestView::decoding(body) {
            Some(m) => Some(MessageView::RegisterRequest(m)),
            None => None,
        },
        MessageType::UnregisterRequest => match UnregisterRequestView::decoding(body) {
            Some(m) => Some(MessageView::UnregisterRequest(m)),
            None => None,
        },
        MessageType::CallRequest => match CallRequestView::decoding(body) {
            Some(m) => Some(MessageView::ServiceCallRequest(m)),
            None => None,
        },
        MessageType::CallReply => match CallReplyView::decoding(body) {
            Some(m) => Some(MessageView::CallReply(m)),
            None => None,
        },
    }
}

/// What stands at the front of a buffer where a length prefix is expected.
#[derive(Clone, Copy, Debug, PartialEq, Eq, Structural)]
pub enum LengthPrefix {
    /// The varint has not ended yet and may still end within ten bytes.
    Incomplete,
    /// The bytes cannot be the beginning of a length prefix.
    Corrupt,
    /// A complete prefix of `width` bytes announcing `length` bytes.
    Found { length: u64, width: usize },
}

/// Reads the front of `buf` as a length prefix.
pub open spec fn length_prefix(buf: Seq<u8>) -> LengthPrefix {
    match varint_width(buf) {
        None => if buf.len() < 10 {
            LengthPrefix::Incomplete
        } else {
            LengthPrefix::Corrupt
        },
        Some(width) => match varint_decoding(buf) {
            Some(length) => LengthPrefix::Found { length, width: width as usize },
            None => LengthPrefix::Corrupt,
        },
    }
}

/// What an attempt to read from a buffer did: how many bytes it took from
/// the front, and what it found.
pub struct Step<T> {
    pub consumed: nat,
    pub outcome: Result<Option<T>, FrameError>,
}

/// The attempt to read a delimited chunk from the front of `buf`: the chunk
/// without its prefix once all of it is there, nothing while bytes are
/// missing, an error when the prefix is corrupt or the chunk could not be
/// addressed. Bytes are taken only together with a whole chunk.
pub open spec fn chunk_step(buf: Seq<u8>) -> Step<Seq<u8>> {
    match length_prefix(buf) {
        LengthPrefix::Incomplete => Step { consumed: 0, outcome: Ok(None) },
        LengthPrefix::Corrupt => Step { consumed: 0, outcome: Err(FrameError::InvalidDelimiter) },
        LengthPrefix::Found { length, width } => if width + length > usize::MAX {
            Step { consumed: 0, outcome: Err(FrameError::Oversized) }
        } else if buf.len() < width + length {
            Step { consumed: 0, outcome: Ok(None) }
        } else {
            Step {
                consumed: (width + length) as nat,
                outcome: Ok(Some(buf.subrange(width as int, width + length))),
            }
        },
    }
}

/// The attempt to read a header from the front of `buf`.
pub open spec fn header_step(buf: Seq<u8>) -> Step<MessageHeader> {
    let chunk = chunk_step(buf);
    match chunk.outcome {
        Ok(Some(bytes)) => Step {
            consumed: chunk.consumed,
            outcome: match MessageHeader::decoding(bytes) {
                Some(header) => Ok(Some(header)),
                None => Err(FrameError::InvalidHeader),
            },
        },
        Ok(None) => Step { consumed: 0, outcome: Ok(None) },
        Err(e) => Step { consumed: 0, outcome: Err(e) },
    }
}

/// The attempt to read the body that `header` announces from the front of
/// `buf`. The body's own length prefix has to agree with the header; the
/// kind is looked at once the whole body is there.
pub open spec fn message_step(buf: Seq<u8>, header: MessageHeader) -> Step<MessageView> {
    if header.msg_length > usize::MAX {
        Step { consumed: 0, outcome: Err(FrameError::Oversized) }
    } else {
        match length_prefix(buf) {
            LengthPrefix::Found { length, width } => if length != header.msg_length {
                Step { consumed: 0, outcome: Err(FrameError::LengthMismatch) }
            } else {
                let chunk = chunk_step(buf);
                match chunk.outcome {
                    Ok(Some(bytes)) => Step {
                        consumed: chunk.consumed,
                        outcome: match MessageType::of_number(header.msg_type) {
                            None => Err(FrameError::UnsupportedMessageType),
                            Some(kind) => match body_decoding(kind, bytes) {
                                Some(msg) => Ok(Some(msg)),
                                None => Err(FrameError::InvalidBody),
                            },
                        },
                    },
                    Ok(None) => Step { consumed: 0, outcome: Ok(None) },
                    Err(e) => Step { consumed: 0, outcome: Err(e) },
                }
            },
            LengthPrefix::Incomplete => Step { consumed: 0, outcome: Ok(None) },
            LengthPrefix::Corrupt => Step {
                consumed: 0,
                outcome: Err(FrameError::InvalidDelimiter),
            },
        }
    }
}

/// The decoder and its buffer after one call, with what the call returned.
pub struct Decoded {
    /// The header that is kept for the next call.
    pub held: Option<MessageHeader>,
    /// What is left in the buffer.
    pub rest: Seq<u8>,
    /// What the call returns.
    pub outcome: Result<Option<MessageView>, FrameError>,
}

/// One call of the decoder that holds `held` on the buffer `buf`: read a
/// header unless one is held, then read its body. A header stays held until
/// its body has been delivered.
pub open spec fn decode_step(held: Option<MessageHeader>, buf: Seq<u8>) -> Decoded {
    match held {
        Some(header) => body_step(header, buf),
        None => {
            let step = header_step(buf);
            match step.outcome {
                Ok(Some(header)) => body_step(header, buf.skip(step.consumed as int)),
                Ok(None) => Decoded { held: None, rest: buf, outcome: Ok(None) },
                Err(e) => Decoded {
                    held: None,
                    rest: buf.skip(step.consumed as int),
                    outcome: Err(e),
                },
            }
        },
    }
}

/// The second half of a call: the decoder holds `header` and looks for its
/// body at the front of `buf`.
pub open spec fn body_step(header: MessageHeader, buf: Seq<u8>) -> Decoded {
    let step = message_step(buf, header);
    Decoded {
        held: match step.outcome {
            Ok(Some(_)) => None,
            _ => Some(header),
        },
        rest: buf.skip(step.consumed as int),
        outcome: step.outcome,
    }
}

/// What a call returned, in terms of the message's content.
pub open spec fn outcome_view(
    r: Result<Option<IncomingGsbMessage>, FrameError>,
) -> Result<Option<MessageView>, FrameError> {
    match r {
        Ok(Some(msg)) => Ok(Some(msg@)),
        Ok(None) => Ok(None),
        Err(e) => Err(e),
    }
}

/// Reads the front of `bytes` as a length prefix.
pub fn peek_length(bytes: &[u8]) -> (r: LengthPrefix)
    ensures
        r == length_prefix(bytes@),
        r matches LengthPrefix::Found { width, .. } ==> 1 <= width <= 10 && width <= bytes.len(),
{
    match varint_len(bytes) {
        None => {
            proof {
                if let Some(w) = varint_width(bytes@) {
                    lemma_varint_extend(bytes@, Seq::empty());
                }
            }
            if bytes.len() < 10 {
                LengthPrefix::Incomplete
            } else {
                LengthPrefix::Corrupt
            }
        },
        Some(_) => match read_varint(bytes) {
            Some((length, width)) => LengthPrefix::Found { length, width },
            None => LengthPrefix::Corrupt,
        },
    }
}

/// Takes a delimited chunk from the front of the buffer, if all of it is
/// there, and returns it without its prefix.
fn take_chunk(src: &mut bytes::BytesMut) -> (r: Result<Option<Vec<u8>>, FrameError>)
    ensures
        match r {
            Ok(Some(bytes)) => chunk_step(buffered(*old(src))).outcome == Ok::<
                Option<Seq<u8>>,
                FrameError,
            >(Some(bytes@)),
            Ok(None) => chunk_step(buffered(*old(src))).outcome == Ok::<
                Option<Seq<u8>>,
                FrameError,
            >(None),
            Err(e) => chunk_step(buffered(*old(src))).outcome == Err::<
                Option<Seq<u8>>,
                FrameError,
            >(e),
        },
        buffered(*final(src)) == buffered(*old(src)).skip(
            chunk_step(buffered(*old(src))).consumed as int,
        ),
{
    let ghost before = buffered(*src);
    assert(before.skip(0) =~= before);
    let (length, width) = match peek_length(buf_bytes(src)) {
        LengthPrefix::Incomplete => {
            return Ok(None);
        },
        LengthPrefix::Corrupt => {
            return Err(FrameError::InvalidDelimiter);
        },
        LengthPrefix::Found { length, width } => (length, width),
    };
    if length > (usize::MAX - width) as u64 {
        return Err(FrameError::Oversized);
    }
    let end = width + length as usize;
    if buf_bytes(src).len() < end {
        return Ok(None);
    }
    let chunk = buf_split_to(src, end);
    let whole = buf_bytes(&chunk);
    let bytes = vstd::slice::slice_to_vec(slice_subrange(whole, width, end));
    assert(bytes@ =~= before.subrange(width as int, end as int));
    Ok(Some(bytes))
}

/// Takes a header from the front of the buffer, if all of it is there.
/// Nothing is taken while bytes are missing.
pub fn parse_header(src: &mut bytes::BytesMut) -> (r: Result<Option<MessageHeader>, FrameError>)
    ensures
        r == header_step(buffered(*old(src))).outcome,
        buffered(*final(src)) == buffered(*old(src)).skip(
            header_step(buffered(*old(src))).consumed as int,
        ),
{
    let ghost before = buffered(*src);
    assert(before.skip(0) =~= before);
    match take_chunk(src) {
        Ok(Some(bytes)) => match MessageHeader::decode(bytes.as_slice()) {
            Some(header) => Ok(Some(header)),
            None => Err(FrameError::InvalidHeader),
        },
        Ok(None) => Ok(None),
        Err(e) => Err(e),
    }
}

/// Reads a body of the given kind.
fn decode_body(kind: MessageType, bytes: &[u8]) -> (r: Option<IncomingGsbMessage>)
    ensures
        match r {
            Some(msg) => body_decoding(kind, bytes@) == Some(msg@),
            None => body_decoding(kind, bytes@) is None,
        },
{
    match kind {
        MessageType::RegisterRequest => match RegisterRequest::decode(bytes) {
            Some(m) => Some(IncomingGsbMessage::RegisterRequest(m)),
            None => None,
        },
        MessageType::UnregisterRequest => match UnregisterRequest::decode(bytes) {
            Some(m) => Some(IncomingGsbMessage::UnregisterRequest(m)),
            None => None,
        },
        MessageType::CallRequest => match CallRequest::decode(bytes) {
            Some(m) => Some(IncomingGsbMessage::ServiceCallRequest(m)),
            None => None,
        },
        MessageType::CallReply => match CallReply::decode(bytes) {
            Some(m) => Some(IncomingGsbMessage::CallReply(m)),
            None => None,
        },
    }
}

/// Takes the body that `header` announces from the front of the buffer, if
/// all of it is there, and reads it as a message of the header's kind.
/// Nothing is taken while bytes are missing.
pub fn parse_message(src: &mut bytes::BytesMut, header: &MessageHeader) -> (r: Result<
    Option<IncomingGsbMessage>,
    FrameError,
>)
    ensures
        outcome_view(r) == message_step(buffered(*old(src)), *header).outcome,
        buffered(*final(src)) == buffered(*old(src)).skip(
            message_step(buffered(*old(src)), *header).consumed as int,
        ),
{
    let ghost before = buffered(*src);
    assert(before.skip(0) =~= before);
    if header.msg_length > usize::MAX as u64 {
        return Err(FrameError::Oversized);
    }
    match peek_length(buf_bytes(src)) {
        LengthPrefix::Incomplete => {
            return Ok(None);
        },
        LengthPrefix::Corrupt => {
            return Err(FrameError::InvalidDelimiter);
        },
        LengthPrefix::Found { length, width } => {
            if length != header.msg_length {
                return Err(FrameError::LengthMismatch);
            }
        },
    }
    match take_chunk(src) {
        Ok(Some(bytes)) => match MessageType::from_i32(header.msg_type) {
            None => Err(FrameError::UnsupportedMessageType),
            Some(kind) => match decode_body(kind, bytes.as_slice()) {
                Some(msg) => Ok(Some(msg)),
                None => Err(FrameError::InvalidBody),
            },
        },
        Ok(None) => Ok(None),
        Err(e) => Err(e),
    }
}

/// Turns a byte stream into messages, one call at a time.
pub struct GsbMessageDecoder {
    msg_header: Option<MessageHeader>,
}

impl GsbMessageDecoder {
    /// The header whose body the decoder is waiting for, if it has read one.
    pub closed spec fn held(&self) -> Option<MessageHeader> {
        self.msg_header
    }

    /// A decoder at the start of a stream: no header read yet.
    pub fn new() -> (decoder: Self)
        ensures
            decoder.held() is None,
    {
        GsbMessageDecoder { msg_header: None }
    }

    /// The header whose body the decoder is waiting for, if it has read one.
    pub fn pending_header(&self) -> (header: Option<MessageHeader>)
        ensures
            header == self.held(),
    {
        self.msg_header
    }

    /// Takes the next message from the front of the buffer, if all of it is
    /// there. Returns `Ok(None)` while bytes are missing; what has been read
    /// of the frame so far is remembered. Any error means that the stream
    /// cannot be followed any further.
    pub fn decode(&mut self, src: &mut bytes::BytesMut) -> (r: Result<
        Option<IncomingGsbMessage>,
        FrameError,
    >)
        ensures
            outcome_view(r) == decode_step(old(self).held(), buffered(*old(src))).outcome,
            final(self).held() == decode_step(old(self).held(), buffered(*old(src))).held,
            buffered(*final(src)) == decode_step(old(self).held(), buffered(*old(src))).rest,
    {
        let ghost before = buffered(*src);
        assert(before.skip(0) =~= before);
        if self.msg_header.is_none() {
            match parse_header(src) {
                Ok(header) => {
                    self.msg_header = header;
                },
                Err(e) => {
                    return Err(e);
                },
            }
        }
        match self.msg_header {
            None => Ok(None),
            Some(header) => {
                let ghost middle = buffered(*src);
                assert(middle.skip(0) =~= middle);
                match parse_message(src, &header) {
                    Ok(None) => Ok(None),
                    Ok(Some(msg)) => {
                        self.msg_header = None;
                        Ok(Some(msg))
                    },
                    Err(e) => Err(e),
                }
            },
        }
    }
}

} // verus!
