//! Tagged fields: the record layer under every message body.
//!
//! A body is a run of fields, each a key (field number and wire type in one
//! varint) followed by a payload whose extent the wire type determines. Four
//! wire types are understood; the two group markers are treated as malformed
//! input.

use crate::varint::{
    lemma_encoding_fits, lemma_varint_round_trip, put_varint, read_varint, varint_decoding,
    varint_encoding, varint_width,
};
use vstd::prelude::*;
use vstd::slice::*;

verus! {

/// Largest field number a key can carry.
pub const MAX_TAG: u32 = 0x1fff_ffff;

/// What follows a field's key.
#[derive(Clone, Debug, PartialEq, Eq)]
pub enum Payload {
    /// Wire type 0: one varint.
    Varint(u64),
    /// Wire type 1: eight raw bytes.
    Fixed64(Vec<u8>),
    /// Wire type 2: a varint length and that many bytes.
    Bytes(Vec<u8>),
    /// Wire type 5: four raw bytes.
    Fixed32(Vec<u8>),
}

/// One field of a body.
#[derive(Clone, Debug, PartialEq, Eq)]
pub struct Field {
    pub tag: u32,
    pub payload: Payload,
}

/// The mathematical content of a [`Payload`].
pub enum PayloadView {
    Varint(u64),
    Fixed64(Seq<u8>),
    Bytes(Seq<u8>),
    Fixed32(Seq<u8>),
}

/// The mathematical content of a [`Field`].
pub struct FieldView {
    pub tag: u32,
    pub payload: PayloadView,
}

impl View for Payload {
    type V = PayloadView;

    open spec fn view(&self) -> PayloadView {
        match self {
            Payload::Varint(v) => PayloadView::Varint(*v),
            Payload::Fixed64(b) => PayloadView::Fixed64(b@),
            Payload::Bytes(b) => PayloadView::Bytes(b@),
            Payload::Fixed32(b) => PayloadView::Fixed32(b@),
        }
    }
}

impl View for Field {
    type V = FieldView;

    open spec fn view(&self) -> FieldView {
        FieldView { tag: self.tag, payload: self.payload@ }
    }
}

/// The views of a run of fields, in order.
pub open spec fn field_views(fields: Seq<Field>) -> Seq<FieldView> {
    Seq::new(fields.len(), |i: int| fields[i]@)
}

impl PayloadView {
    /// The wire type announced in the key.
    pub open spec fn wire_type(self) -> nat {
        match self {
            PayloadView::Varint(_) => 0,
            PayloadView::Fixed64(_) => 1,
            PayloadView::Bytes(_) => 2,
            PayloadView::Fixed32(_) => 5,
        }
    }

    /// The bytes that follow the key.
    pub open spec fn encoding(self) -> Seq<u8> {
        match self {
            PayloadView::Varint(v) => varint_encoding(v as nat),
            PayloadView::Fixed64(b) => b,
            PayloadView::Bytes(b) => varint_encoding(b.len()) + b,
            PayloadView::Fixed32(b) => b,
        }
    }

    /// A payload that can be written and read back: fixed payloads have
    /// their fixed size, and a length fits in a varint.
    pub open spec fn well_formed(self) -> bool {
        match self {
            PayloadView::Varint(_) => true,
            PayloadView::Fixed64(b) => b.len() == 8,
            PayloadView::Bytes(b) => b.len() <= u64::MAX,
            PayloadView::Fixed32(b) => b.len() == 4,
        }
    }
}

impl FieldView {
    /// The key: the field number above the three bits of the wire type.
    pub open spec fn key(self) -> nat {
        (self.tag * 8 + self.payload.wire_type()) as nat
    }

    /// The field on the wire: key, then payload.
    pub open spec fn encoding(self) -> Seq<u8> {
        varint_encoding(self.key()) + self.payload.encoding()
    }

    /// A field that can be written and read back.
    pub open spec fn well_formed(self) -> bool {
        1 <= self.tag <= MAX_TAG && self.payload.well_formed()
    }
}

/// A run of fields on the wire: one after the other, nothing in between.
pub open spec fn fields_encoding(fields: Seq<FieldView>) -> Seq<u8>
    decreases fields.len(),
{
    if fields.len() == 0 {
        Seq::empty()
    } else {
        fields[0].encoding() + fields_encoding(fields.skip(1))
    }
}

/// The payload at the front of `bytes` for the given wire type, with the
/// number of bytes it takes; `None` when the bytes do not hold one.
pub open spec fn first_payload(wire_type: nat, bytes: Seq<u8>) -> Option<(PayloadView, nat)> {
    if wire_type == 0 {
        match varint_decoding(bytes) {
            Some(v) => Some((PayloadView::Varint(v), varint_width(bytes).unwrap())),
            None => None,
        }
    } else if wire_type == 1 {
        if bytes.len() >= 8 {
            Some((PayloadView::Fixed64(bytes.take(8)), 8))
        } else {
            None
        }
    } else if wire_type == 2 {
        match varint_decoding(bytes) {
            Some(len) => {
                let start = varint_width(bytes).unwrap();
                if start + len <= bytes.len() {
                    Some(
                        (
                            PayloadView::Bytes(bytes.subrange(start as int, start + len)),
                            (start + len) as nat,
                        ),
                    )
                } else {
                    None
                }
            },
            None => None,
        }
    } else if wire_type == 5 {
        if bytes.len() >= 4 {
            Some((PayloadView::Fixed32(bytes.take(4)), 4))
        } else {
            None
        }
    } else {
        None
    }
}

/// The field at the front of `bytes`, with the number of bytes it takes.
/// The key must fit in 32 bits and name a field number of at least one.
pub open spec fn first_field(bytes: Seq<u8>) -> Option<(FieldView, nat)> {
    match varint_decoding(bytes) {
        Some(key) => {
            let start = varint_width(bytes).unwrap();
            if key > u32::MAX || key / 8 == 0 {
                None
            } else {
                match first_payload((key % 8) as nat, bytes.skip(start as int)) {
                    Some((payload, width)) => Some(
                        (FieldView { tag: (key / 8) as u32, payload }, start + width),
                    ),
                    None => None,
                }
            }
        },
        None => None,
    }
}

/// All the fields of a body, in order; `None` when the bytes are not a run
/// of well-delimited fields from the first byte to the last.
pub open spec fn fields_of(bytes: Seq<u8>) -> Option<Seq<FieldView>>
    decreases bytes.len(),
{
    if bytes.len() == 0 {
        Some(Seq::empty())
    } else {
        match first_field(bytes) {
            Some((field, width)) => if 0 < width <= bytes.len() {
                match fields_of(bytes.skip(width as int)) {
                    Some(rest) => Some(seq![field] + rest),
                    None => None,
                }
            } else {
                None
            },
            None => None,
        }
    }
}

/// Appending a field to a run appends its bytes to the run's bytes.
pub proof fn lemma_fields_encoding_push(fields: Seq<FieldView>, field: FieldView)
    ensures
        fields_encoding(fields.push(field)) == fields_encoding(fields) + field.encoding(),
    decreases fields.len(),
{
    if fields.len() == 0 {
        assert(fields.push(field).skip(1) =~= Seq::empty());
        assert(fields_encoding(fields.push(field).skip(1)) =~= Seq::empty());
        assert(fields_encoding(fields.push(field)) =~= field.encoding());
    } else {
        assert(fields.push(field).skip(1) =~= fields.skip(1).push(field));
        lemma_fields_encoding_push(fields.skip(1), field);
        assert(fields_encoding(fields.push(field)) =~= fields_encoding(fields) + field.encoding());
    }
}

/// A well-formed field is read back from its own bytes, whatever follows.
pub proof fn lemma_first_field_round_trip(field: FieldView, rest: Seq<u8>)
    requires
        field.well_formed(),
    ensures
        first_field(field.encoding() + rest) == Some((field, field.encoding().len())),
        field.encoding().len() > 0,
{
    let key = field.key();
    let key_bytes = varint_encoding(key);
    let body = field.payload.encoding();
    let all = field.encoding() + rest;
    assert(all =~= key_bytes + (body + rest));
    lemma_varint_round_trip(key, body + rest);
    lemma_encoding_fits(key);
    assert(all.skip(key_bytes.len() as int) =~= body + rest);
    assert(key / 8 == field.tag && key % 8 == field.payload.wire_type());
    match field.payload {
        PayloadView::Varint(v) => {
            lemma_varint_round_trip(v as nat, rest);
            lemma_encoding_fits(v as nat);
        },
        PayloadView::Fixed64(b) => {
            assert((body + rest).take(8) =~= b);
        },
        PayloadView::Bytes(b) => {
            let len_bytes = varint_encoding(b.len());
            assert(body + rest =~= len_bytes + (b + rest));
            lemma_varint_round_trip(b.len(), b + rest);
            lemma_encoding_fits(b.len());
            let start = len_bytes.len() as int;
            assert((body + rest).subrange(start, start + b.len()) =~= b);
        },
        PayloadView::Fixed32(b) => {
            assert((body + rest).take(4) =~= b);
        },
    }
}

/// Reading undoes writing: a run of well-formed fields is read back, field
/// for field, from its encoding.
pub proof fn lemma_fields_round_trip(fields: Seq<FieldView>)
    requires
        forall|i: int| 0 <= i < fields.len() ==> (#[trigger] fields[i]).well_formed(),
    ensures
        fields_of(fields_encoding(fields)) == Some(fields),
    decreases fields.len(),
{
    if fields.len() > 0 {
        let head = fields[0];
        let tail = fields.skip(1);
        let rest = fields_encoding(tail);
        assert(head.well_formed());
        assert forall|i: int| 0 <= i < tail.len() implies (#[trigger] tail[i]).well_formed() by {
            assert(tail[i] == fields[i + 1]);
        }
        lemma_first_field_round_trip(head, rest);
        lemma_fields_round_trip(tail);
        let width = head.encoding().len() as int;
        assert((head.encoding() + rest).skip(width) =~= rest);
        assert(seq![head] + tail =~= fields);
    }
}

/// Reads the payload at the front of `bytes` for the given wire type.
fn read_payload(wire_type: u64, bytes: &[u8]) -> (r: Option<(Payload, usize)>)
    ensures
        match r {
            Some((payload, width)) => first_payload(wire_type as nat, bytes@) == Some(
                (payload@, width as nat),
            ) && width <= bytes.len(),
            None => first_payload(wire_type as nat, bytes@) is None,
        },
{
    if wire_type == 0 {
        match read_varint(bytes) {
            Some((value, width)) => Some((Payload::Varint(value), width)),
            None => None,
        }
    } else if wire_type == 1 {
        if bytes.len() >= 8 {
            let raw = slice_to_vec(slice_subrange(bytes, 0, 8));
            Some((Payload::Fixed64(raw), 8))
        } else {
            None
        }
    } else if wire_type == 2 {
        match read_varint(bytes) {
            Some((len, start)) => {
                if len <= (bytes.len() - start) as u64 {
                    let end = start + len as usize;
                    let raw = slice_to_vec(slice_subrange(bytes, start, end));
                    Some((Payload::Bytes(raw), end))
                } else {
                    None
                }
            },
            None => None,
        }
    } else if wire_type == 5 {
        if bytes.len() >= 4 {
            let raw = slice_to_vec(slice_subrange(bytes, 0, 4));
            Some((Payload::Fixed32(raw), 4))
        } else {
            None
        }
    } else {
        None
    }
}

/// Reads the field at the front of `bytes`.
fn read_field(bytes: &[u8]) -> (r: Option<(Field, usize)>)
    ensures
        match r {
            Some((field, width)) => first_field(bytes@) == Some((field@, width as nat)) && 0
                < width <= bytes.len(),
            None => first_field(bytes@) is None,
        },
{
    match read_varint(bytes) {
        Some((key, start)) => {
            if key > u32::MAX as u64 || key / 8 == 0 {
                None
            } else {
                let rest = slice_subrange(bytes, start, bytes.len());
                match read_payload(key % 8, rest) {
                    Some((payload, width)) => Some(
                        (Field { tag: (key / 8) as u32, payload }, start + width),
                    ),
                    None => None,
                }
            }
        },
        None => None,
    }
}

/// Splits a body into its fields. Returns `None` when the bytes are not a
/// run of well-delimited fields.
pub fn decode_fields(bytes: &[u8]) -> (r: Option<Vec<Field>>)
    ensures
        match r {
            Some(fields) => fields_of(bytes@) == Some(field_views(fields@)),
            None => fields_of(bytes@) is None,
        },
{
    let mut fields: Vec<Field> = Vec::new();
    let mut pos: usize = 0;
    assert(bytes@.skip(0) =~= bytes@);
    assert(field_views(fields@) =~= Seq::empty());
    while pos < bytes.len()
        invariant
            pos <= bytes.len(),
            fields_of(bytes@) == match fields_of(bytes@.skip(pos as int)) {
                Some(rest) => Some(field_views(fields@) + rest),
                None => None,
            },
        decreases bytes.len() - pos,
    {
        let tail = slice_subrange(bytes, pos, bytes.len());
        match read_field(tail) {
            Some((field, width)) => {
                proof {
                    let after = bytes@.skip(pos + width);
                    assert(tail@.skip(width as int) =~= after);
                    let seen = field_views(fields@);
                    assert(field_views(fields@.push(field)) =~= seen.push(field@));
                    if let Some(rest) = fields_of(after) {
                        assert(seen + (seq![field@] + rest) =~= seen.push(field@) + rest);
                    }
                }
                fields.push(field);
                pos = pos + width;
            },
            None => {
                return None;
            },
        }
    }
    proof {
        assert(field_views(fields@) + Seq::empty() =~= field_views(fields@));
    }
    Some(fields)
}

/// Appends one field, key first, to `out`.
pub fn put_field(field: &Field, out: &mut Vec<u8>)
    ensures
        final(out)@ == old(out)@ + field@.encoding(),
{
    let ghost before = out@;
    match &field.payload {
        Payload::Varint(value) => {
            put_varint(field.tag as u64 * 8, out);
            put_varint(*value, out);
        },
        Payload::Fixed64(raw) => {
            put_varint(field.tag as u64 * 8 + 1, out);
            out.extend_from_slice(raw.as_slice());
        },
        Payload::Bytes(raw) => {
            put_varint(field.tag as u64 * 8 + 2, out);
            put_varint(raw.len() as u64, out);
            out.extend_from_slice(raw.as_slice());
        },
        Payload::Fixed32(raw) => {
            put_varint(field.tag as u64 * 8 + 5, out);
            out.extend_from_slice(raw.as_slice());
        },
    }
    assert(out@ =~= before + field@.encoding());
}

/// Writes a run of fields, one after the other.
pub fn encode_fields(fields: &Vec<Field>) -> (out: Vec<u8>)
    ensures
        out@ == fields_encoding(field_views(fields@)),
{
    let mut out: Vec<u8> = Vec::new();
    let mut i: usize = 0;
    assert(field_views(fields@).take(0) =~= Seq::empty());
    while i < fields.len()
        invariant
            i <= fields.len(),
            out@ == fields_encoding(field_views(fields@).take(i as int)),
        decreases fields.len() - i,
    {
        proof {
            let all = field_views(fields@);
            lemma_fields_encoding_push(all.take(i as int), all[i as int]);
            assert(all.take(i as int).push(all[i as int]) =~= all.take(i + 1));
        }
        put_field(&fields[i], &mut out);
        i = i + 1;
    }
    assert(field_views(fields@).take(i as int) =~= field_views(fields@));
    out
}

} // verus!
