//! Base-128 variable-length integers, the building block of the wire format.
//!
//! The executable encoder and decoder are `prost`'s; this module states what
//! they compute and proves the facts the codec relies on.

use vstd::prelude::*;

verus! {

/// Longest varint that can hold a 64-bit value.
pub const MAX_VARINT_LEN: usize = 10;

/// The little-endian base-128 number spelled by the leading bytes of `bytes`,
/// up to and including the first byte below `0x80`.
pub open spec fn leb128_value(bytes: Seq<u8>) -> nat
    decreases bytes.len(),
{
    if bytes.len() == 0 {
        0
    } else if bytes[0] < 0x80 {
        bytes[0] as nat
    } else {
        ((bytes[0] - 0x80) + 128 * leb128_value(bytes.skip(1))) as nat
    }
}

/// Number of bytes up to and including the first byte below `0x80`, or `None`
/// when every byte has its continuation bit set.
pub open spec fn varint_width(bytes: Seq<u8>) -> Option<nat>
    decreases bytes.len(),
{
    if bytes.len() == 0 {
        None
    } else if bytes[0] < 0x80 {
        Some(1)
    } else {
        match varint_width(bytes.skip(1)) {
            Some(n) => Some(n + 1),
            None => None,
        }
    }
}

/// The 64-bit value at the front of `bytes`: present when the varint ends
/// within ten bytes and its value fits in 64 bits.
pub open spec fn varint_decoding(bytes: Seq<u8>) -> Option<u64> {
    match varint_width(bytes) {
        Some(n) => if n <= 10 && leb128_value(bytes) <= u64::MAX {
            Some(leb128_value(bytes) as u64)
        } else {
            None
        },
        None => None,
    }
}

/// The shortest varint for `value`: seven bits per byte, least significant
/// group first, the continuation bit set on every byte but the last.
pub open spec fn varint_encoding(value: nat) -> Seq<u8>
    decreases value,
{
    if value < 128 {
        seq![value as u8]
    } else {
        seq![(128 + value % 128) as u8] + varint_encoding(value / 128)
    }
}

/// `prost::DecodeError`, taken as it is: why `prost` refused its input.
/// Nothing is read from it.
#[verifier::external_type_specification]
#[verifier::external_body]
pub struct ExDecodeError(prost::DecodeError);

/// `prost::encoding::encode_varint` writing to a `Vec<u8>`: appends the
/// shortest base-128 encoding of `value` and leaves what was there untouched.
#[verifier::external_body]
pub(crate) fn put_varint(value: u64, out: &mut Vec<u8>)
    ensures
        final(out)@ == old(out)@ + varint_encoding(value as nat),
{
    prost::encoding::encode_varint(value, out)
}

/// `prost::encoding::decode_varint` reading from a byte slice: succeeds
/// exactly when the slice starts with a varint of at most ten bytes whose
/// value fits in 64 bits, and then returns that value.
#[verifier::external_body]
pub(crate) fn decode_varint(bytes: &[u8]) -> (r: Result<u64, prost::DecodeError>)
    ensures
        match r {
            Ok(v) => varint_decoding(bytes@) == Some(v),
            Err(_) => varint_decoding(bytes@) is None,
        },
{
    let mut view = bytes;
    prost::encoding::decode_varint(&mut view)
}

/// Skipping `n` bytes that all carry the continuation bit shifts the end of
/// the varint by `n` and its value by `n` groups of seven bits.
pub proof fn lemma_skip_continuation(bytes: Seq<u8>, n: nat)
    requires
        n <= bytes.len(),
        forall|j: int| 0 <= j < n ==> bytes[j] >= 0x80,
    ensures
        varint_width(bytes) == match varint_width(bytes.skip(n as int)) {
            Some(w) => Some(w + n),
            None => None,
        },
    decreases n,
{
    if n > 0 {
        let tail = bytes.skip(1);
        assert(tail.skip(n - 1) =~= bytes.skip(n as int));
        lemma_skip_continuation(tail, (n - 1) as nat);
    } else {
        assert(bytes.skip(0) =~= bytes);
    }
}

/// A varint ends inside the bytes it was found in, and bytes added behind it
/// change neither where it ends nor what it says.
pub proof fn lemma_varint_extend(bytes: Seq<u8>, more: Seq<u8>)
    requires
        varint_width(bytes) is Some,
    ensures
        1 <= varint_width(bytes).unwrap() <= bytes.len(),
        varint_width(bytes + more) == varint_width(bytes),
        leb128_value(bytes + more) == leb128_value(bytes),
    decreases bytes.len(),
{
    if bytes[0] >= 0x80 {
        assert((bytes + more).skip(1) =~= bytes.skip(1) + more);
        lemma_varint_extend(bytes.skip(1), more);
    }
}

/// `128^k`: one more than the largest value that `k` groups of seven bits hold.
pub open spec fn capacity(k: nat) -> nat
    decreases k,
{
    if k == 0 {
        1
    } else {
        128 * capacity((k - 1) as nat)
    }
}

/// A value below `128^k` has an encoding of at most `k` bytes.
pub proof fn lemma_encoding_len(value: nat, k: nat)
    requires
        k >= 1,
        value < capacity(k),
    ensures
        1 <= varint_encoding(value).len() <= k,
    decreases k,
{
    if value >= 128 {
        assert(capacity(1) == 128) by {
            reveal_with_fuel(capacity, 2);
        }
        lemma_encoding_len(value / 128, (k - 1) as nat);
    }
}

/// The encoding of a 64-bit value takes between one and ten bytes.
pub proof fn lemma_encoding_fits(value: nat)
    requires
        value <= u64::MAX,
    ensures
        1 <= varint_encoding(value).len() <= 10,
{
    assert(capacity(10) > u64::MAX) by {
        reveal_with_fuel(capacity, 11);
    }
    lemma_encoding_len(value, 10);
}

/// Decoding undoes encoding, whatever follows the encoded value.
pub proof fn lemma_varint_round_trip(value: nat, rest: Seq<u8>)
    ensures
        varint_width(varint_encoding(value) + rest) == Some(varint_encoding(value).len()),
        leb128_value(varint_encoding(value) + rest) == value,
    decreases value,
{
    let enc = varint_encoding(value);
    if value >= 128 {
        let tail = varint_encoding(value / 128);
        assert((enc + rest).skip(1) =~= tail + rest);
        lemma_varint_round_trip(value / 128, rest);
        assert((enc + rest)[0] == 128 + value % 128);
    } else {
        assert((enc + rest)[0] == value);
    }
}

/// As long as the encoding of a value is cut short, no varint ends in it.
pub proof fn lemma_truncated_encoding(value: nat, n: int)
    requires
        0 <= n < varint_encoding(value).len(),
    ensures
        varint_width(varint_encoding(value).take(n)) is None,
    decreases value,
{
    let enc = varint_encoding(value);
    if n > 0 {
        let tail = varint_encoding(value / 128);
        assert(value >= 128);
        assert(enc.take(n).skip(1) =~= tail.take(n - 1));
        lemma_truncated_encoding(value / 128, n - 1);
        assert(enc.take(n)[0] == 128 + value % 128);
    }
}

/// Finds where the varint at the front of `bytes` ends, looking at no more
/// than ten bytes.
pub fn varint_len(bytes: &[u8]) -> (r: Option<usize>)
    ensures
        match r {
            Some(n) => 1 <= n <= 10 && varint_width(bytes@) == Some(n as nat),
            None => match varint_width(bytes@) {
                Some(w) => w > 10,
                None => true,
            },
        },
{
    let mut i: usize = 0;
    while i < bytes.len() && i < MAX_VARINT_LEN
        invariant
            i <= bytes.len(),
            i <= 10,
            forall|j: int| 0 <= j < i ==> bytes@[j] >= 0x80,
        decreases bytes.len() - i,
    {
        if bytes[i] < 0x80 {
            proof {
                lemma_skip_continuation(bytes@, i as nat);
            }
            return Some(i + 1);
        }
        i += 1;
    }
    proof {
        lemma_skip_continuation(bytes@, i as nat);
        if i < bytes.len() {
            let tail = bytes@.skip(i as int);
            if varint_width(tail) is Some {
                lemma_varint_extend(tail, Seq::empty());
            }
        }
    }
    None
}

/// Reads the varint at the front of `bytes`: its value and its width.
pub fn read_varint(bytes: &[u8]) -> (r: Option<(u64, usize)>)
    ensures
        match r {
            Some((value, width)) => {
                &&& varint_decoding(bytes@) == Some(value)
                &&& varint_width(bytes@) == Some(width as nat)
                &&& 1 <= width <= 10
                &&& width <= bytes.len()
            },
            None => varint_decoding(bytes@) is None,
        },
{
    match varint_len(bytes) {
        None => None,
        Some(width) => {
            proof {
                lemma_varint_extend(bytes@, Seq::empty());
            }
            match decode_varint(bytes) {
                Ok(value) => Some((value, width)),
                Err(_) => None,
            }
        },
    }
}

} // verus!
