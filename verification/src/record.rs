//! Looking fields up by number.
//!
//! A message names a few field numbers and the kind of payload each must
//! carry. A field may occur any number of times; every occurrence must be of
//! the right kind, and the last one gives the value. A field that does not
//! occur has the empty or zero value. Fields with other numbers are skipped.

use crate::text::{bytes_of, text_of};
use crate::wire::{Field, FieldView, Payload, PayloadView, field_views};
use vstd::prelude::*;
use vstd::utf8::{decode_utf8, encode_utf8, valid_utf8};

verus! {

/// The payload of the last field numbered `tag`, if there is one.
pub open spec fn last_payload(fields: Seq<FieldView>, tag: u32) -> Option<PayloadView>
    decreases fields.len(),
{
    if fields.len() == 0 {
        None
    } else if fields.last().tag == tag {
        Some(fields.last().payload)
    } else {
        last_payload(fields.drop_last(), tag)
    }
}

/// Every field numbered `tag` carries a varint.
pub open spec fn all_varint(fields: Seq<FieldView>, tag: u32) -> bool {
    forall|i: int|
        0 <= i < fields.len() && (#[trigger] fields[i]).tag == tag ==> fields[i].payload is Varint
}

/// Every field numbered `tag` carries length-delimited bytes.
pub open spec fn all_bytes(fields: Seq<FieldView>, tag: u32) -> bool {
    forall|i: int|
        0 <= i < fields.len() && (#[trigger] fields[i]).tag == tag ==> fields[i].payload is Bytes
}

/// Every field numbered `tag` carries length-delimited, well-formed UTF-8.
pub open spec fn all_text(fields: Seq<FieldView>, tag: u32) -> bool {
    forall|i: int|
        0 <= i < fields.len() && (#[trigger] fields[i]).tag == tag ==> fields[i].payload is Bytes
            && valid_utf8(fields[i].payload->Bytes_0)
}

/// The number in field `tag`: the last occurrence, or zero.
pub open spec fn varint_field(fields: Seq<FieldView>, tag: u32) -> u64 {
    match last_payload(fields, tag) {
        Some(PayloadView::Varint(v)) => v,
        _ => 0,
    }
}

/// The bytes in field `tag`: the last occurrence, or none.
pub open spec fn bytes_field(fields: Seq<FieldView>, tag: u32) -> Seq<u8> {
    match last_payload(fields, tag) {
        Some(PayloadView::Bytes(b)) => b,
        _ => Seq::empty(),
    }
}

/// The text in field `tag`: the last occurrence, or the empty string.
pub open spec fn text_field(fields: Seq<FieldView>, tag: u32) -> Seq<char> {
    decode_utf8(bytes_field(fields, tag))
}

/// Looking one field further: the new field decides if it has the number
/// asked for, and otherwise changes nothing.
pub proof fn lemma_last_payload_step(fields: Seq<FieldView>, n: int, tag: u32)
    requires
        0 <= n < fields.len(),
    ensures
        last_payload(fields.take(n + 1), tag) == if fields[n].tag == tag {
            Some(fields[n].payload)
        } else {
            last_payload(fields.take(n), tag)
        },
{
    assert(fields.take(n + 1).drop_last() =~= fields.take(n));
}

/// Reads the number in field `tag`. Returns `None` when an occurrence of the
/// field carries something other than a varint.
pub fn get_varint(fields: &Vec<Field>, tag: u32) -> (r: Option<u64>)
    ensures
        match r {
            Some(v) => all_varint(field_views(fields@), tag) && v == varint_field(
                field_views(fields@),
                tag,
            ),
            None => !all_varint(field_views(fields@), tag),
        },
{
    let ghost all = field_views(fields@);
    let mut value: u64 = 0;
    let mut i: usize = 0;
    while i < fields.len()
        invariant
            i <= fields.len(),
            all == field_views(fields@),
            all_varint(all.take(i as int), tag),
            value == varint_field(all.take(i as int), tag),
        decreases fields.len() - i,
    {
        proof {
            lemma_last_payload_step(all, i as int, tag);
        }
        if fields[i].tag == tag {
            match &fields[i].payload {
                Payload::Varint(v) => {
                    value = *v;
                },
                _ => {
                    assert(all[i as int].tag == tag);
                    return None;
                },
            }
        }
        assert forall|j: int| 0 <= j < i + 1 && (#[trigger] all.take(i + 1)[j]).tag == tag implies all.take(
            i + 1,
        )[j].payload is Varint by {
            if j < i {
                assert(all.take(i as int)[j] == all.take(i + 1)[j]);
            }
        }
        i = i + 1;
    }
    assert(all.take(i as int) =~= all);
    Some(value)
}

/// Reads the bytes in field `tag`. Returns `None` when an occurrence of the
/// field is not length-delimited.
pub fn get_bytes(fields: &Vec<Field>, tag: u32) -> (r: Option<Vec<u8>>)
    ensures
        match r {
            Some(b) => all_bytes(field_views(fields@), tag) && b@ == bytes_field(
                field_views(fields@),
                tag,
            ),
            None => !all_bytes(field_views(fields@), tag),
        },
{
    let ghost all = field_views(fields@);
    let mut value: Vec<u8> = Vec::new();
    let mut i: usize = 0;
    while i < fields.len()
        invariant
            i <= fields.len(),
            all == field_views(fields@),
            all_bytes(all.take(i as int), tag),
            value@ == bytes_field(all.take(i as int), tag),
        decreases fields.len() - i,
    {
        proof {
            lemma_last_payload_step(all, i as int, tag);
        }
        if fields[i].tag == tag {
            match &fields[i].payload {
                Payload::Bytes(raw) => {
                    value = vstd::slice::slice_to_vec(raw.as_slice());
                },
                _ => {
                    assert(all[i as int].tag == tag);
                    return None;
                },
            }
        }
        assert forall|j: int| 0 <= j < i + 1 && (#[trigger] all.take(i + 1)[j]).tag == tag implies all.take(
            i + 1,
        )[j].payload is Bytes by {
            if j < i {
                assert(all.take(i as int)[j] == all.take(i + 1)[j]);
            }
        }
        i = i + 1;
    }
    assert(all.take(i as int) =~= all);
    Some(value)
}

/// Reads the text in field `tag`. Returns `None` when an occurrence of the
/// field is not length-delimited or is not well-formed UTF-8.
pub fn get_text(fields: &Vec<Field>, tag: u32) -> (r: Option<String>)
    ensures
        match r {
            Some(s) => all_text(field_views(fields@), tag) && s@ == text_field(
                field_views(fields@),
                tag,
            ),
            None => !all_text(field_views(fields@), tag),
        },
{
    let ghost all = field_views(fields@);
    let mut value: String = String::new();
    let mut i: usize = 0;
    proof {
        assert(decode_utf8(Seq::<u8>::empty()) =~= Seq::<char>::empty());
    }
    while i < fields.len()
        invariant
            i <= fields.len(),
            all == field_views(fields@),
            all_text(all.take(i as int), tag),
            value@ == text_field(all.take(i as int), tag),
        decreases fields.len() - i,
    {
        proof {
            lemma_last_payload_step(all, i as int, tag);
        }
        if fields[i].tag == tag {
            match &fields[i].payload {
                Payload::Bytes(raw) => {
                    match text_of(raw.as_slice()) {
                        Some(s) => {
                            value = s;
                        },
                        None => {
                            assert(all[i as int].tag == tag);
                            return None;
                        },
                    }
                },
                _ => {
                    assert(all[i as int].tag == tag);
                    return None;
                },
            }
        }
        assert forall|j: int| 0 <= j < i + 1 && (#[trigger] all.take(i + 1)[j]).tag == tag implies all.take(
            i + 1,
        )[j].payload is Bytes && valid_utf8(all.take(i + 1)[j].payload->Bytes_0) by {
            if j < i {
                assert(all.take(i as int)[j] == all.take(i + 1)[j]);
            }
        }
        i = i + 1;
    }
    assert(all.take(i as int) =~= all);
    Some(value)
}

/// Appends a varint field unless the value is zero.
pub fn push_varint(fields: &mut Vec<Field>, tag: u32, value: u64)
    ensures
        field_views(final(fields)@) == field_views(old(fields)@) + varint_entry(tag, value),
{
    let ghost before = field_views(fields@);
    if value != 0 {
        fields.push(Field { tag, payload: Payload::Varint(value) });
    }
    assert(field_views(fields@) =~= before + varint_entry(tag, value));
}

/// Appends a length-delimited field unless there are no bytes to carry.
pub fn push_bytes(fields: &mut Vec<Field>, tag: u32, value: &Vec<u8>)
    ensures
        field_views(final(fields)@) == field_views(old(fields)@) + bytes_entry(tag, value@),
        value@.len() <= usize::MAX,
{
    let ghost before = field_views(fields@);
    if value.len() != 0 {
        fields.push(
            Field { tag, payload: Payload::Bytes(vstd::slice::slice_to_vec(value.as_slice())) },
        );
    }
    assert(field_views(fields@) =~= before + bytes_entry(tag, value@));
}

/// Appends a text field unless the text is empty.
pub fn push_text(fields: &mut Vec<Field>, tag: u32, value: &String)
    ensures
        field_views(final(fields)@) == field_views(old(fields)@) + bytes_entry(
            tag,
            encode_utf8(value@),
        ),
        encode_utf8(value@).len() <= usize::MAX,
{
    let raw = bytes_of(value);
    push_bytes(fields, tag, &raw);
}

/// A number as it is written: one varint field, or nothing for zero.
pub open spec fn varint_entry(tag: u32, value: u64) -> Seq<FieldView> {
    if value == 0 {
        Seq::empty()
    } else {
        seq![FieldView { tag, payload: PayloadView::Varint(value) }]
    }
}

/// Bytes as they are written: one length-delimited field, or nothing when
/// there are none.
pub open spec fn bytes_entry(tag: u32, value: Seq<u8>) -> Seq<FieldView> {
    if value.len() == 0 {
        Seq::empty()
    } else {
        seq![FieldView { tag, payload: PayloadView::Bytes(value) }]
    }
}

} // verus!
