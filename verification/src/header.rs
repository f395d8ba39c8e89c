//! The header that precedes every message body: what kind of message
//! follows and how many bytes it takes.

use crate::record::{
    all_varint, get_varint, lemma_last_payload_step, push_varint, varint_entry, varint_field,
};
use crate::wire::{
    FieldView, decode_fields, encode_fields, field_views, fields_encoding, fields_of,
    lemma_fields_round_trip,
};
use vstd::prelude::*;

verus! {

/// Field number of the message kind.
pub const TAG_MSG_TYPE: u32 = 1;

/// Field number of the body length.
pub const TAG_MSG_LENGTH: u32 = 2;

/// The kinds of message that travel on the bus.
#[derive(Clone, Copy, Debug, PartialEq, Eq, Structural)]
pub enum MessageType {
    RegisterRequest,
    UnregisterRequest,
    CallRequest,
    CallReply,
}

impl MessageType {
    /// The number that stands for this kind in a header.
    pub open spec fn number(self) -> i32 {
        match self {
            MessageType::RegisterRequest => 0,
            MessageType::UnregisterRequest => 1,
            MessageType::CallRequest => 2,
            MessageType::CallReply => 3,
        }
    }

    /// The kind a number stands for, if any.
    pub open spec fn of_number(value: i32) -> Option<MessageType> {
        if value == 0 {
            Some(MessageType::RegisterRequest)
        } else if value == 1 {
            Some(MessageType::UnregisterRequest)
        } else if value == 2 {
            Some(MessageType::CallRequest)
        } else if value == 3 {
            Some(MessageType::CallReply)
        } else {
            None
        }
    }

    /// The number that stands for this kind in a header.
    pub fn to_i32(self) -> (r: i32)
        ensures
            r == self.number(),
            MessageType::of_number(r) == Some(self),
    {
        match self {
            MessageType::RegisterRequest => 0,
            MessageType::UnregisterRequest => 1,
            MessageType::CallRequest => 2,
            MessageType::CallReply => 3,
        }
    }

    /// The kind a number stands for; `None` for a number that stands for none.
    pub fn from_i32(value: i32) -> (r: Option<MessageType>)
        ensures
            r == MessageType::of_number(value),
            r is Some <==> 0 <= value <= 3,
    {
        if value == 0 {
            Some(MessageType::RegisterRequest)
        } else if value == 1 {
            Some(MessageType::UnregisterRequest)
        } else if value == 2 {
            Some(MessageType::CallRequest)
        } else if value == 3 {
            Some(MessageType::CallReply)
        } else {
            None
        }
    }
}

/// A signed 32-bit number as a varint carries it: sign-extended to 64 bits.
pub open spec fn int32_to_wire(value: i32) -> u64 {
    if value >= 0 {
        value as u64
    } else {
        (0x1_0000_0000_0000_0000 + value) as u64
    }
}

/// The signed 32-bit number in a varint: its low 32 bits, read as two's
/// complement.
pub open spec fn int32_from_wire(value: u64) -> i32 {
    let low = value % 0x1_0000_0000;
    if low < 0x8000_0000 {
        low as i32
    } else {
        (low - 0x1_0000_0000) as i32
    }
}

/// Widening and narrowing a signed number gives the number back.
pub proof fn lemma_int32_round_trip(value: i32)
    ensures
        int32_from_wire(int32_to_wire(value)) == value,
{
}

fn int32_as_wire(value: i32) -> (r: u64)
    ensures
        r == int32_to_wire(value),
{
    if value >= 0 {
        value as u64
    } else {
        u64::MAX - ((-(value as i64 + 1)) as u64)
    }
}

fn int32_of_wire(value: u64) -> (r: i32)
    ensures
        r == int32_from_wire(value),
{
    let low: u64 = value % 0x1_0000_0000;
    if low < 0x8000_0000 {
        low as i32
    } else {
        (low as i64 - 0x1_0000_0000) as i32
    }
}

/// What stands in front of a body.
#[derive(Clone, Copy, Debug, PartialEq, Eq, Structural)]
pub struct MessageHeader {
    /// The number of the message kind; see [`MessageType`].
    pub msg_type: i32,
    /// The exact number of bytes of the body that follows.
    pub msg_length: u64,
}

impl MessageHeader {
    /// The fields of a header, as they are written.
    pub open spec fn fields(self) -> Seq<FieldView> {
        varint_entry(TAG_MSG_TYPE, int32_to_wire(self.msg_type)) + varint_entry(
            TAG_MSG_LENGTH,
            self.msg_length,
        )
    }

    /// A header on the wire.
    pub open spec fn encoding(self) -> Seq<u8> {
        fields_encoding(self.fields())
    }

    /// The header that a run of fields describes, if they describe one.
    pub open spec fn of_fields(fields: Seq<FieldView>) -> Option<MessageHeader> {
        if all_varint(fields, TAG_MSG_TYPE) && all_varint(fields, TAG_MSG_LENGTH) {
            Some(
                MessageHeader {
                    msg_type: int32_from_wire(varint_field(fields, TAG_MSG_TYPE)),
                    msg_length: varint_field(fields, TAG_MSG_LENGTH),
                },
            )
        } else {
            None
        }
    }

    /// The header that `bytes` spell, if they spell one.
    pub open spec fn decoding(bytes: Seq<u8>) -> Option<MessageHeader> {
        match fields_of(bytes) {
            Some(fields) => MessageHeader::of_fields(fields),
            None => None,
        }
    }

    /// Writes the header.
    pub fn encode(&self) -> (out: Vec<u8>)
        ensures
            out@ == self.encoding(),
    {
        let mut fields = Vec::new();
        assert(field_views(fields@) =~= Seq::empty());
        push_varint(&mut fields, TAG_MSG_TYPE, int32_as_wire(self.msg_type));
        push_varint(&mut fields, TAG_MSG_LENGTH, self.msg_length);
        assert(field_views(fields@) =~= self.fields());
        encode_fields(&fields)
    }

    /// Reads a header. Returns `None` when the bytes are not a run of fields
    /// or one of the header's fields is not a varint.
    pub fn decode(bytes: &[u8]) -> (r: Option<MessageHeader>)
        ensures
            r == MessageHeader::decoding(bytes@),
    {
        let fields = match decode_fields(bytes) {
            Some(fields) => fields,
            None => {
                return None;
            },
        };
        let msg_type = match get_varint(&fields, TAG_MSG_TYPE) {
            Some(v) => int32_of_wire(v),
            None => {
                return None;
            },
        };
        let msg_length = match get_varint(&fields, TAG_MSG_LENGTH) {
            Some(v) => v,
            None => {
                return None;
            },
        };
        Some(MessageHeader { msg_type, msg_length })
    }

    /// A header is read back from its own bytes.
    pub proof fn lemma_round_trip(self)
        ensures
            MessageHeader::decoding(self.encoding()) == Some(self),
    {
        let fields = self.fields();
        let first = varint_entry(TAG_MSG_TYPE, int32_to_wire(self.msg_type));
        let second = varint_entry(TAG_MSG_LENGTH, self.msg_length);
        lemma_fields_round_trip(fields);
        lemma_int32_round_trip(self.msg_type);
        assert(fields.take(fields.len() as int) =~= fields);
        if fields.len() >= 1 {
            lemma_last_payload_step(fields, 0, TAG_MSG_TYPE);
            lemma_last_payload_step(fields, 0, TAG_MSG_LENGTH);
        }
        if fields.len() >= 2 {
            lemma_last_payload_step(fields, 1, TAG_MSG_TYPE);
            lemma_last_payload_step(fields, 1, TAG_MSG_LENGTH);
        }
        assert(fields.take(0).len() == 0);
    }
}

} // verus!
