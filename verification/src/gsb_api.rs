//! The messages of the bus and how each is laid out in a body.
//!
//! | message             | field 1            | field 2          | field 3      |
//! |---------------------|--------------------|------------------|--------------|
//! | `RegisterRequest`   | `service_id`, text |                  |              |
//! | `UnregisterRequest` | `service_id`, text |                  |              |
//! | `CallRequest`       | `caller`, text     | `address`, text  | `body`, bytes|
//! | `CallReply`         | result, bytes      | failure, text    |              |
//!
//! Empty text and empty bytes are not written, except in a reply, where
//! exactly one of the two fields is always written.

use crate::record::{
    all_bytes, all_text, bytes_entry, bytes_field, get_bytes, get_text, lemma_last_payload_step,
    push_bytes, push_text, text_field,
};
use crate::text::{bytes_of, text_of};
use crate::wire::{
    Field, FieldView, Payload, PayloadView, decode_fields, encode_fields, field_views,
    fields_encoding, fields_of, lemma_fields_round_trip,
};
use vstd::prelude::*;
use vstd::utf8::{decode_utf8, encode_utf8, valid_utf8};

verus! {

/// Declares a service of this process at the broker.
#[derive(Clone, Debug, PartialEq, Eq)]
pub struct RegisterRequest {
    pub service_id: String,
}

/// Withdraws a service of this process at the broker.
#[derive(Clone, Debug, PartialEq, Eq)]
pub struct UnregisterRequest {
    pub service_id: String,
}

/// Invokes `address` on behalf of `caller`.
#[derive(Clone, Debug, PartialEq, Eq)]
pub struct CallRequest {
    pub caller: String,
    pub address: String,
    pub body: Vec<u8>,
}

/// How a call ended at the far side.
#[derive(Clone, Debug, PartialEq, Eq)]
pub enum ReplyBody {
    /// The bytes the service returned.
    Data(Vec<u8>),
    /// The failure the service reported.
    Failure(String),
}

/// Answers the oldest call of the connection that is still open.
#[derive(Clone, Debug, PartialEq, Eq)]
pub struct CallReply {
    pub body: ReplyBody,
}

/// The mathematical content of a [`RegisterRequest`].
pub struct RegisterRequestView {
    pub service_id: Seq<char>,
}

/// The mathematical content of an [`UnregisterRequest`].
pub struct UnregisterRequestView {
    pub service_id: Seq<char>,
}

/// The mathematical content of a [`CallRequest`].
pub struct CallRequestView {
    pub caller: Seq<char>,
    pub address: Seq<char>,
    pub body: Seq<u8>,
}

/// The mathematical content of a [`ReplyBody`].
pub enum ReplyBodyView {
    Data(Seq<u8>),
    Failure(Seq<char>),
}

/// The mathematical content of a [`CallReply`].
pub struct CallReplyView {
    pub body: ReplyBodyView,
}

impl View for RegisterRequest {
    type V = RegisterRequestView;

    open spec fn view(&self) -> RegisterRequestView {
        RegisterRequestView { service_id: self.service_id@ }
    }
}

impl View for UnregisterRequest {
    type V = UnregisterRequestView;

    open spec fn view(&self) -> UnregisterRequestView {
        UnregisterRequestView { service_id: self.service_id@ }
    }
}

impl View for CallRequest {
    type V = CallRequestView;

    open spec fn view(&self) -> CallRequestView {
        CallRequestView { caller: self.caller@, address: self.address@, body: self.body@ }
    }
}

impl View for ReplyBody {
    type V = ReplyBodyView;

    open spec fn view(&self) -> ReplyBodyView {
        match self {
            ReplyBody::Data(data) => ReplyBodyView::Data(data@),
            ReplyBody::Failure(reason) => ReplyBodyView::Failure(reason@),
        }
    }
}

impl View for CallReply {
    type V = CallReplyView;

    open spec fn view(&self) -> CallReplyView {
        CallReplyView { body: self.body@ }
    }
}

/// Text comes back from its UTF-8 bytes.
pub proof fn lemma_text_round_trip(text: Seq<char>)
    ensures
        valid_utf8(encode_utf8(text)),
        decode_utf8(encode_utf8(text)) == text,
{
    vstd::utf8::encode_utf8_valid_utf8(text);
    vstd::utf8::encode_utf8_decode_utf8(text);
}

impl RegisterRequestView {
    /// The fields of the message, as they are written.
    pub open spec fn fields(self) -> Seq<FieldView> {
        bytes_entry(1, encode_utf8(self.service_id))
    }

    /// The message as a body.
    pub open spec fn encoding(self) -> Seq<u8> {
        fields_encoding(self.fields())
    }

    /// The message that a run of fields describes, if they describe one.
    pub open spec fn of_fields(fields: Seq<FieldView>) -> Option<RegisterRequestView> {
        if all_text(fields, 1) {
            Some(RegisterRequestView { service_id: text_field(fields, 1) })
        } else {
            None
        }
    }

    /// The message that a body holds, if it holds one.
    pub open spec fn decoding(bytes: Seq<u8>) -> Option<RegisterRequestView> {
        match fields_of(bytes) {
            Some(fields) => RegisterRequestView::of_fields(fields),
            None => None,
        }
    }

    /// A message whose parts are short enough for their lengths to be
    /// written.
    pub open spec fn well_formed(self) -> bool {
        encode_utf8(self.service_id).len() <= u64::MAX
    }

    /// The message is read back from its own body.
    pub proof fn lemma_round_trip(self)
        requires
            self.well_formed(),
        ensures
            RegisterRequestView::decoding(self.encoding()) == Some(self),
    {
        let fields = self.fields();
        lemma_fields_round_trip(fields);
        lemma_text_round_trip(self.service_id);
        assert(fields.take(fields.len() as int) =~= fields);
        if fields.len() >= 1 {
            lemma_last_payload_step(fields, 0, 1);
        }
        assert(bytes_field(fields, 1) =~= encode_utf8(self.service_id));
    }
}

impl RegisterRequest {
    /// Writes the message as a body.
    pub fn encode(&self) -> (out: Vec<u8>)
        ensures
            out@ == self@.encoding(),
            self@.well_formed(),
    {
        let mut fields = Vec::new();
        assert(field_views(fields@) =~= Seq::empty());
        push_text(&mut fields, 1, &self.service_id);
        assert(field_views(fields@) =~= self@.fields());
        encode_fields(&fields)
    }

    /// Reads the message from a body. Returns `None` when the body is not a
    /// run of fields or `service_id` is not text.
    pub fn decode(bytes: &[u8]) -> (r: Option<RegisterRequest>)
        ensures
            match r {
                Some(msg) => RegisterRequestView::decoding(bytes@) == Some(msg@),
                None => RegisterRequestView::decoding(bytes@) is None,
            },
    {
        let fields = match decode_fields(bytes) {
            Some(fields) => fields,
            None => {
                return None;
            },
        };
        match get_text(&fields, 1) {
            Some(service_id) => Some(RegisterRequest { service_id }),
            None => None,
        }
    }
}

impl UnregisterRequestView {
    /// The fields of the message, as they are written.
    pub open spec fn fields(self) -> Seq<FieldView> {
        bytes_entry(1, encode_utf8(self.service_id))
    }

    /// The message as a body.
    pub open spec fn encoding(self) -> Seq<u8> {
        fields_encoding(self.fields())
    }

    /// The message that a run of fields describes, if they describe one.
    pub open spec fn of_fields(fields: Seq<FieldView>) -> Option<UnregisterRequestView> {
        if all_text(fields, 1) {
            Some(UnregisterRequestView { service_id: text_field(fields, 1) })
        } else {
            None
        }
    }

    /// The message that a body holds, if it holds one.
    pub open spec fn decoding(bytes: Seq<u8>) -> Option<UnregisterRequestView> {
        match fields_of(bytes) {
            Some(fields) => UnregisterRequestView::of_fields(fields),
            None => None,
        }
    }

    /// A message whose parts are short enough for their lengths to be
    /// written.
    pub open spec fn well_formed(self) -> bool {
        encode_utf8(self.service_id).len() <= u64::MAX
    }

    /// The message is read back from its own body.
    pub proof fn lemma_round_trip(self)
        requires
            self.well_formed(),
        ensures
            UnregisterRequestView::decoding(self.encoding()) == Some(self),
    {
        let fields = self.fields();
        lemma_fields_round_trip(fields);
        lemma_text_round_trip(self.service_id);
        assert(fields.take(fields.len() as int) =~= fields);
        if fields.len() >= 1 {
            lemma_last_payload_step(fields, 0, 1);
        }
        assert(bytes_field(fields, 1) =~= encode_utf8(self.service_id));
    }
}

impl UnregisterRequest {
    /// Writes the message as a body.
    pub fn encode(&self) -> (out: Vec<u8>)
        ensures
            out@ == self@.encoding(),
            self@.well_formed(),
    {
        let mut fields = Vec::new();
        assert(field_views(fields@) =~= Seq::empty());
        push_text(&mut fields, 1, &self.service_id);
        assert(field_views(fields@) =~= self@.fields());
        encode_fields(&fields)
    }

    /// Reads the message from a body. Returns `None` when the body is not a
    /// run of fields or `service_id` is not text.
    pub fn decode(bytes: &[u8]) -> (r: Option<UnregisterRequest>)
        ensures
            match r {
                Some(msg) => UnregisterRequestView::decoding(bytes@) == Some(msg@),
                None => UnregisterRequestView::decoding(bytes@) is None,
            },
    {
        let fields = match decode_fields(bytes) {
            Some(fields) => fields,
            None => {
                return None;
            },
        };
        match get_text(&fields, 1) {
            Some(service_id) => Some(UnregisterRequest { service_id }),
            None => None,
        }
    }
}

impl CallRequestView {
    /// The fields of the message, as they are written.
    pub open spec fn fields(self) -> Seq<FieldView> {
        bytes_entry(1, encode_utf8(self.caller)) + bytes_entry(2, encode_utf8(self.address))
            + bytes_entry(3, self.body)
    }

    /// The message as a body.
    pub open spec fn encoding(self) -> Seq<u8> {
        fields_encoding(self.fields())
    }

    /// The message that a run of fields describes, if they describe one.
    pub open spec fn of_fields(fields: Seq<FieldView>) -> Option<CallRequestView> {
        if all_text(fields, 1) && all_text(fields, 2) && all_bytes(fields, 3) {
            Some(
                CallRequestView {
                    caller: text_field(fields, 1),
                    address: text_field(fields, 2),
                    body: bytes_field(fields, 3),
                },
            )
        } else {
            None
        }
    }

    /// The message that a body holds, if it holds one.
    pub open spec fn decoding(bytes: Seq<u8>) -> Option<CallRequestView> {
        match fields_of(bytes) {
            Some(fields) => CallRequestView::of_fields(fields),
            None => None,
        }
    }

    /// A message whose parts are short enough for their lengths to be
    /// written.
    pub open spec fn well_formed(self) -> bool {
        &&& encode_utf8(self.caller).len() <= u64::MAX
        &&& encode_utf8(self.address).len() <= u64::MAX
        &&& self.body.len() <= u64::MAX
    }

    /// The message is read back from its own body.
    pub proof fn lemma_round_trip(self)
        requires
            self.well_formed(),
        ensures
            CallRequestView::decoding(self.encoding()) == Some(self),
    {
        let fields = self.fields();
        lemma_fields_round_trip(fields);
        lemma_text_round_trip(self.caller);
        lemma_text_round_trip(self.address);
        assert(fields.take(fields.len() as int) =~= fields);
        assert(fields.take(0).len() == 0);
        if fields.len() >= 1 {
            lemma_last_payload_step(fields, 0, 1);
            lemma_last_payload_step(fields, 0, 2);
            lemma_last_payload_step(fields, 0, 3);
        }
        if fields.len() >= 2 {
            lemma_last_payload_step(fields, 1, 1);
            lemma_last_payload_step(fields, 1, 2);
            lemma_last_payload_step(fields, 1, 3);
        }
        if fields.len() >= 3 {
            lemma_last_payload_step(fields, 2, 1);
            lemma_last_payload_step(fields, 2, 2);
            lemma_last_payload_step(fields, 2, 3);
        }
        assert(bytes_field(fields, 1) =~= encode_utf8(self.caller));
        assert(bytes_field(fields, 2) =~= encode_utf8(self.address));
        assert(bytes_field(fields, 3) =~= self.body);
    }
}

impl CallRequest {
    /// Writes the message as a body.
    pub fn encode(&self) -> (out: Vec<u8>)
        ensures
            out@ == self@.encoding(),
            self@.well_formed(),
    {
        let mut fields = Vec::new();
        assert(field_views(fields@) =~= Seq::empty());
        push_text(&mut fields, 1, &self.caller);
        push_text(&mut fields, 2, &self.address);
        push_bytes(&mut fields, 3, &self.body);
        assert(field_views(fields@) =~= self@.fields());
        encode_fields(&fields)
    }

    /// Reads the message from a body. Returns `None` when the body is not a
    /// run of fields, `caller` or `address` is not text, or `body` is not
    /// length-delimited.
    pub fn decode(bytes: &[u8]) -> (r: Option<CallRequest>)
        ensures
            match r {
                Some(msg) => CallRequestView::decoding(bytes@) == Some(msg@),
                None => CallRequestView::decoding(bytes@) is None,
            },
    {
        let fields = match decode_fields(bytes) {
            Some(fields) => fields,
            None => {
                return None;
            },
        };
        let caller = match get_text(&fields, 1) {
            Some(caller) => caller,
            None => {
                return None;
            },
        };
        let address = match get_text(&fields, 2) {
            Some(address) => address,
            None => {
                return None;
            },
        };
        let body = match get_bytes(&fields, 3) {
            Some(body) => body,
            None => {
                return None;
            },
        };
        Some(CallRequest { caller, address, body })
    }
}

/// What the fields of a reply say of its outcome: the last field numbered 1
/// or 2 decides, and without one the reply carries no bytes.
pub open spec fn reply_body_of(fields: Seq<FieldView>) -> ReplyBodyView
    decreases fields.len(),
{
    if fields.len() == 0 {
        ReplyBodyView::Data(Seq::empty())
    } else {
        let last = fields.last();
        match last.payload {
            PayloadView::Bytes(raw) => if last.tag == 1 {
                ReplyBodyView::Data(raw)
            } else if last.tag == 2 {
                ReplyBodyView::Failure(decode_utf8(raw))
            } else {
                reply_body_of(fields.drop_last())
            },
            _ => reply_body_of(fields.drop_last()),
        }
    }
}

impl CallReplyView {
    /// The fields of the message, as they are written.
    pub open spec fn fields(self) -> Seq<FieldView> {
        match self.body {
            ReplyBodyView::Data(data) => seq![FieldView { tag: 1, payload: PayloadView::Bytes(data) }],
            ReplyBodyView::Failure(reason) => seq![
                FieldView { tag: 2, payload: PayloadView::Bytes(encode_utf8(reason)) },
            ],
        }
    }

    /// The message as a body.
    pub open spec fn encoding(self) -> Seq<u8> {
        fields_encoding(self.fields())
    }

    /// The message that a run of fields describes, if they describe one.
    pub open spec fn of_fields(fields: Seq<FieldView>) -> Option<CallReplyView> {
        if all_bytes(fields, 1) && all_text(fields, 2) {
            Some(CallReplyView { body: reply_body_of(fields) })
        } else {
            None
        }
    }

    /// The message that a body holds, if it holds one.
    pub open spec fn decoding(bytes: Seq<u8>) -> Option<CallReplyView> {
        match fields_of(bytes) {
            Some(fields) => CallReplyView::of_fields(fields),
            None => None,
        }
    }

    /// A message whose parts are short enough for their lengths to be
    /// written.
    pub open spec fn well_formed(self) -> bool {
        match self.body {
            ReplyBodyView::Data(data) => data.len() <= u64::MAX,
            ReplyBodyView::Failure(reason) => encode_utf8(reason).len() <= u64::MAX,
        }
    }

    /// The message is read back from its own body.
    pub proof fn lemma_round_trip(self)
        requires
            self.well_formed(),
        ensures
            CallReplyView::decoding(self.encoding()) == Some(self),
    {
        let fields = self.fields();
        lemma_fields_round_trip(fields);
        if let ReplyBodyView::Failure(reason) = self.body {
            lemma_text_round_trip(reason);
        }
        assert(fields.drop_last().len() == 0);
    }
}

impl CallReply {
    /// Writes the message as a body.
    pub fn encode(&self) -> (out: Vec<u8>)
        ensures
            out@ == self@.encoding(),
            self@.well_formed(),
    {
        let mut fields = Vec::new();
        match &self.body {
            ReplyBody::Data(data) => {
                let raw = vstd::slice::slice_to_vec(data.as_slice());
                assert(raw.len() <= usize::MAX);
                fields.push(Field { tag: 1, payload: Payload::Bytes(raw) });
            },
            ReplyBody::Failure(reason) => {
                let raw = bytes_of(reason);
                assert(raw.len() <= usize::MAX);
                fields.push(Field { tag: 2, payload: Payload::Bytes(raw) });
            },
        }
        assert(field_views(fields@) =~= self@.fields());
        encode_fields(&fields)
    }

    /// Reads the message from a body. Returns `None` when the body is not a
    /// run of fields, a result is not length-delimited, or a failure is not
    /// text.
    pub fn decode(bytes: &[u8]) -> (r: Option<CallReply>)
        ensures
            match r {
                Some(msg) => CallReplyView::decoding(bytes@) == Some(msg@),
                None => CallReplyView::decoding(bytes@) is None,
            },
    {
        let fields = match decode_fields(bytes) {
            Some(fields) => fields,
            None => {
                return None;
            },
        };
        let ghost all = field_views(fields@);
        let mut body = ReplyBody::Data(Vec::new());
        let mut i: usize = 0;
        while i < fields.len()
            invariant
                i <= fields.len(),
                all == field_views(fields@),
                fields_of(bytes@) == Some(all),
                all_bytes(all.take(i as int), 1),
                all_text(all.take(i as int), 2),
                body@ == reply_body_of(all.take(i as int)),
            decreases fields.len() - i,
        {
            assert(all.take(i + 1).drop_last() =~= all.take(i as int));
            assert(all.take(i + 1).last() == all[i as int]);
            if fields[i].tag == 1 {
                match &fields[i].payload {
                    Payload::Bytes(raw) => {
                        body = ReplyBody::Data(vstd::slice::slice_to_vec(raw.as_slice()));
                    },
                    _ => {
                        assert(all[i as int].tag == 1);
                        return None;
                    },
                }
            } else if fields[i].tag == 2 {
                match &fields[i].payload {
                    Payload::Bytes(raw) => {
                        match text_of(raw.as_slice()) {
                            Some(reason) => {
                                body = ReplyBody::Failure(reason);
                            },
                            None => {
                                assert(all[i as int].tag == 2);
                                return None;
                            },
                        }
                    },
                    _ => {
                        assert(all[i as int].tag == 2);
                        return None;
                    },
                }
            }
            assert forall|j: int| 0 <= j < i + 1 && (#[trigger] all.take(i + 1)[j]).tag
                == 1 implies all.take(i + 1)[j].payload is Bytes by {
                if j < i {
                    assert(all.take(i as int)[j] == all.take(i + 1)[j]);
                }
            }
            assert forall|j: int| 0 <= j < i + 1 && (#[trigger] all.take(i + 1)[j]).tag
                == 2 implies all.take(i + 1)[j].payload is Bytes && valid_utf8(
                all.take(i + 1)[j].payload->Bytes_0,
            ) by {
                if j < i {
                    assert(all.take(i as int)[j] == all.take(i + 1)[j]);
                }
            }
            i = i + 1;
        }
        assert(all.take(i as int) =~= all);
        Some(CallReply { body })
    }
}

} // verus!
