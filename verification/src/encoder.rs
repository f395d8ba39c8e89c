//! Writing frames, and what the decoder makes of them.

use crate::decoder::{
    Decoded, IncomingGsbMessage, LengthPrefix, MessageView, Step, body_decoding, body_step,
    chunk_step, decode_step, length_prefix,
};
use crate::error::FrameError;
use crate::header::{MessageHeader, MessageType};
use crate::varint::{
    lemma_encoding_fits, lemma_truncated_encoding, lemma_varint_round_trip, put_varint,
    varint_encoding,
};
use vstd::prelude::*;

verus! {

/// Bytes behind the varint of their number.
pub open spec fn delimited(bytes: Seq<u8>) -> Seq<u8> {
    varint_encoding(bytes.len()) + bytes
}

/// The header that goes in front of a message: its kind and the exact length
/// of its body.
pub open spec fn header_of(msg: MessageView) -> MessageHeader {
    MessageHeader { msg_type: msg.kind().number(), msg_length: msg.body().len() as u64 }
}

/// A message as a frame: the delimited header, then the delimited body.
pub open spec fn frame_encoding(msg: MessageView) -> Seq<u8> {
    delimited(header_of(msg).encoding()) + delimited(msg.body())
}

/// A message whose frame this machine can hold in memory.
pub open spec fn sendable(msg: MessageView) -> bool {
    msg.well_formed() && frame_encoding(msg).len() <= usize::MAX
}

/// A decoder that has just delivered `msg` and has nothing left to read.
pub open spec fn delivered(msg: MessageView) -> Decoded {
    Decoded { held: None, rest: Seq::empty(), outcome: Ok(Some(msg)) }
}

/// Writes the body of a message.
fn encode_body(msg: &IncomingGsbMessage) -> (out: Vec<u8>)
    ensures
        out@ == msg@.body(),
        msg@.well_formed(),
{
    match msg {
        IncomingGsbMessage::RegisterRequest(m) => m.encode(),
        IncomingGsbMessage::UnregisterRequest(m) => m.encode(),
        IncomingGsbMessage::ServiceCallRequest(m) => m.encode(),
        IncomingGsbMessage::CallReply(m) => m.encode(),
    }
}

/// The kind of a message.
pub fn kind_of(msg: &IncomingGsbMessage) -> (kind: MessageType)
    ensures
        kind == msg@.kind(),
{
    match msg {
        IncomingGsbMessage::RegisterRequest(_) => MessageType::RegisterRequest,
        IncomingGsbMessage::UnregisterRequest(_) => MessageType::UnregisterRequest,
        IncomingGsbMessage::ServiceCallRequest(_) => MessageType::CallRequest,
        IncomingGsbMessage::CallReply(_) => MessageType::CallReply,
    }
}

/// Appends `bytes` behind the varint of their number.
fn put_delimited(bytes: &Vec<u8>, out: &mut Vec<u8>)
    ensures
        final(out)@ == old(out)@ + delimited(bytes@),
{
    let ghost before = out@;
    put_varint(bytes.len() as u64, out);
    out.extend_from_slice(bytes.as_slice());
    assert(out@ =~= before + delimited(bytes@));
}

/// Writes a message as one frame.
pub fn encode(msg: &IncomingGsbMessage) -> (out: Vec<u8>)
    ensures
        out@ == frame_encoding(msg@),
        sendable(msg@),
{
    let body = encode_body(msg);
    let header = MessageHeader { msg_type: kind_of(msg).to_i32(), msg_length: body.len() as u64 };
    let head = header.encode();
    let mut out: Vec<u8> = Vec::new();
    put_delimited(&head, &mut out);
    put_delimited(&body, &mut out);
    assert(out@ =~= frame_encoding(msg@));
    assert(out.len() <= usize::MAX);
    out
}

/// A message is read back from its own body.
pub proof fn lemma_body_round_trip(msg: MessageView)
    requires
        msg.well_formed(),
    ensures
        body_decoding(msg.kind(), msg.body()) == Some(msg),
{
    match msg {
        MessageView::RegisterRequest(m) => m.lemma_round_trip(),
        MessageView::UnregisterRequest(m) => m.lemma_round_trip(),
        MessageView::ServiceCallRequest(m) => m.lemma_round_trip(),
        MessageView::CallReply(m) => m.lemma_round_trip(),
    }
}

/// As long as a delimited chunk has not fully arrived, nothing is taken
/// from the buffer, and a prefix that can already be read announces the
/// chunk's length.
pub proof fn lemma_chunk_partial(payload: Seq<u8>, n: int)
    requires
        delimited(payload).len() <= usize::MAX,
        0 <= n < delimited(payload).len(),
    ensures
        chunk_step(delimited(payload).take(n)) == (Step::<Seq<u8>> {
            consumed: 0,
            outcome: Ok(None),
        }),
        match length_prefix(delimited(payload).take(n)) {
            LengthPrefix::Incomplete => true,
            LengthPrefix::Corrupt => false,
            LengthPrefix::Found { length, width } => length == payload.len(),
        },
{
    let prefix = varint_encoding(payload.len());
    let width = prefix.len() as int;
    let seen = delimited(payload).take(n);
    lemma_encoding_fits(payload.len());
    if n < width {
        assert(seen =~= prefix.take(n));
        lemma_truncated_encoding(payload.len(), n);
    } else {
        assert(seen =~= prefix + payload.take(n - width));
        lemma_varint_round_trip(payload.len(), payload.take(n - width));
    }
}

/// Once a delimited chunk has fully arrived, it is taken from the buffer
/// whole, whatever follows it.
pub proof fn lemma_chunk_whole(payload: Seq<u8>, rest: Seq<u8>)
    requires
        delimited(payload).len() <= usize::MAX,
    ensures
        chunk_step(delimited(payload) + rest) == (Step::<Seq<u8>> {
            consumed: delimited(payload).len(),
            outcome: Ok(Some(payload)),
        }),
        length_prefix(delimited(payload) + rest) == (LengthPrefix::Found {
            length: payload.len() as u64,
            width: varint_encoding(payload.len()).len() as usize,
        }),
{
    let prefix = varint_encoding(payload.len());
    let width = prefix.len() as int;
    let all = delimited(payload) + rest;
    lemma_encoding_fits(payload.len());
    assert(all =~= prefix + (payload + rest));
    lemma_varint_round_trip(payload.len(), payload + rest);
    assert(all.subrange(width, width + payload.len()) =~= payload);
}

/// How far a decoder has come with the frame of `msg` when exactly the
/// first `n` bytes of the frame have been handed to it, in whatever chunks:
/// before the header is complete nothing has been taken from the buffer;
/// afterwards the header is held and the buffer holds what has arrived of
/// the delimited body.
pub open spec fn tracking(msg: MessageView, n: int, held: Option<MessageHeader>, buf: Seq<u8>) -> bool {
    let frame = frame_encoding(msg);
    let head = delimited(header_of(msg).encoding()).len() as int;
    if n < head {
        held is None && buf == frame.take(n)
    } else {
        held == Some(header_of(msg)) && buf == frame.subrange(head, n)
    }
}

/// The step of the decoder that holds the header of `msg` when the first
/// `k` bytes of the delimited body are in its buffer.
proof fn lemma_body_progress(msg: MessageView, k: int)
    requires
        sendable(msg),
        0 <= k <= delimited(msg.body()).len(),
    ensures
        k < delimited(msg.body()).len() ==> body_step(
            header_of(msg),
            delimited(msg.body()).take(k),
        ) == (Decoded {
            held: Some(header_of(msg)),
            rest: delimited(msg.body()).take(k),
            outcome: Ok(None),
        }),
        k == delimited(msg.body()).len() ==> body_step(
            header_of(msg),
            delimited(msg.body()).take(k),
        ) == delivered(msg),
{
    let body = msg.body();
    let header = header_of(msg);
    let seen = delimited(body).take(k);
    if k < delimited(body).len() {
        lemma_chunk_partial(body, k);
        assert(seen.skip(0) =~= seen);
    } else {
        assert(seen =~= delimited(body) + Seq::<u8>::empty());
        lemma_chunk_whole(body, Seq::empty());
        lemma_body_round_trip(msg);
        assert(seen.skip(k) =~= Seq::<u8>::empty());
    }
}

/// Handing further bytes of a frame to a decoder that has followed the frame
/// so far: while the frame is incomplete the decoder delivers nothing and
/// keeps following it; with the last byte it delivers the message and is
/// left with an empty buffer and no header.
pub proof fn lemma_feed(
    msg: MessageView,
    n: int,
    m: int,
    held: Option<MessageHeader>,
    buf: Seq<u8>,
)
    requires
        sendable(msg),
        0 <= n <= m <= frame_encoding(msg).len(),
        tracking(msg, n, held, buf),
    ensures
        ({
            let after = decode_step(held, buf + frame_encoding(msg).subrange(n, m));
            if m < frame_encoding(msg).len() {
                after.outcome == Ok::<Option<MessageView>, FrameError>(None) && tracking(
                    msg,
                    m,
                    after.held,
                    after.rest,
                )
            } else {
                after == delivered(msg)
            }
        }),
{
    let frame = frame_encoding(msg);
    let header = header_of(msg);
    let head_bytes = header.encoding();
    let head = delimited(head_bytes).len() as int;
    let body_part = delimited(msg.body());
    let chunk = frame.subrange(n, m);
    let now = buf + chunk;
    lemma_encoding_fits(head_bytes.len());
    if held is None {
        assert(now =~= frame.take(m));
        if m < head {
            assert(frame.take(m) =~= delimited(head_bytes).take(m));
            lemma_chunk_partial(head_bytes, m);
        } else {
            let tail = body_part.take(m - head);
            assert(frame.take(m) =~= delimited(head_bytes) + tail);
            lemma_chunk_whole(head_bytes, tail);
            header.lemma_round_trip();
            assert(now.skip(head) =~= tail);
            lemma_body_progress(msg, m - head);
            assert(tail =~= frame.subrange(head, m));
        }
    } else {
        let tail = body_part.take(m - head);
        assert(now =~= tail);
        lemma_body_progress(msg, m - head);
        assert(tail =~= frame.subrange(head, m));
    }
}

/// Decoding undoes encoding: a decoder at the start of a stream that is
/// given the frame of a message delivers that very message, keeps no header
/// and leaves nothing in the buffer.
pub proof fn lemma_frame_round_trip(msg: MessageView)
    requires
        sendable(msg),
    ensures
        decode_step(None, frame_encoding(msg)) == delivered(msg),
{
    let frame = frame_encoding(msg);
    lemma_encoding_fits(header_of(msg).encoding().len());
    assert(frame.take(0) =~= Seq::<u8>::empty());
    lemma_feed(msg, 0, frame.len() as int, None, Seq::empty());
    assert(Seq::<u8>::empty() + frame.subrange(0, frame.len() as int) =~= frame);
}

/// A frame cut in two at any byte boundary: the first piece alone delivers
/// nothing, and the second piece, added to what the first call left behind,
/// delivers the message exactly as the whole frame does.
pub proof fn lemma_split_feed(msg: MessageView, cut: int)
    requires
        sendable(msg),
        0 <= cut < frame_encoding(msg).len(),
    ensures
        ({
            let first = decode_step(None, frame_encoding(msg).take(cut));
            let second = decode_step(first.held, first.rest + frame_encoding(msg).skip(cut));
            &&& first.outcome == Ok::<Option<MessageView>, FrameError>(None)
            &&& second == delivered(msg)
            &&& second == decode_step(None, frame_encoding(msg))
        }),
{
    let frame = frame_encoding(msg);
    let len = frame.len() as int;
    lemma_encoding_fits(header_of(msg).encoding().len());
    assert(frame.take(0) =~= Seq::<u8>::empty());
    lemma_feed(msg, 0, cut, None, Seq::empty());
    assert(Seq::<u8>::empty() + frame.subrange(0, cut) =~= frame.take(cut));
    let first = decode_step(None, frame.take(cut));
    lemma_feed(msg, cut, len, first.held, first.rest);
    assert(frame.subrange(cut, len) =~= frame.skip(cut));
    lemma_frame_round_trip(msg);
}

/// The pieces of a stream, one after the other.
pub open spec fn joined(chunks: Seq<Seq<u8>>) -> Seq<u8>
    decreases chunks.len(),
{
    if chunks.len() == 0 {
        Seq::empty()
    } else {
        chunks[0] + joined(chunks.skip(1))
    }
}

/// The calls of a decoder that is handed `chunks` one at a time, each added
/// to what the call before left in the buffer.
pub open spec fn run(held: Option<MessageHeader>, buf: Seq<u8>, chunks: Seq<Seq<u8>>) -> Seq<Decoded>
    decreases chunks.len(),
{
    if chunks.len() == 0 {
        Seq::empty()
    } else {
        let step = decode_step(held, buf + chunks[0]);
        seq![step] + run(step.held, step.rest, chunks.skip(1))
    }
}

/// The rest of a frame handed in non-empty pieces to a decoder that has
/// followed the frame so far: every call but the last delivers nothing, and
/// the last delivers the message.
pub proof fn lemma_run(
    msg: MessageView,
    n: int,
    held: Option<MessageHeader>,
    buf: Seq<u8>,
    chunks: Seq<Seq<u8>>,
)
    requires
        sendable(msg),
        0 <= n <= frame_encoding(msg).len(),
        tracking(msg, n, held, buf),
        chunks.len() > 0,
        forall|i: int| 0 <= i < chunks.len() ==> (#[trigger] chunks[i]).len() > 0,
        joined(chunks) == frame_encoding(msg).skip(n),
    ensures
        run(held, buf, chunks).len() == chunks.len(),
        forall|i: int|
            0 <= i < chunks.len() - 1 ==> (#[trigger] run(held, buf, chunks)[i]).outcome == Ok::<
                Option<MessageView>,
                FrameError,
            >(None),
        run(held, buf, chunks).last() == delivered(msg),
    decreases chunks.len(),
{
    let frame = frame_encoding(msg);
    let first = chunks[0];
    let later = chunks.skip(1);
    let m = n + first.len();
    assert(first.len() > 0);
    assert(frame.skip(n).len() == first.len() + joined(later).len());
    assert(frame.subrange(n, m) =~= first) by {
        assert(frame.skip(n).take(first.len() as int) =~= first);
    }
    lemma_feed(msg, n, m, held, buf);
    let step = decode_step(held, buf + first);
    let steps = run(held, buf, chunks);
    if later.len() == 0 {
        assert(joined(later).len() == 0);
        assert(run(step.held, step.rest, later) =~= Seq::<Decoded>::empty());
        assert(steps =~= seq![step]);
    } else {
        assert(later[0].len() > 0);
        assert(joined(later).len() >= later[0].len());
        assert(joined(later) =~= frame.skip(m)) by {
            assert(frame.skip(n).skip(first.len() as int) =~= joined(later));
        }
        assert forall|i: int| 0 <= i < later.len() implies (#[trigger] later[i]).len() > 0 by {
            assert(later[i] == chunks[i + 1]);
        }
        lemma_run(msg, m, step.held, step.rest, later);
        let tail = run(step.held, step.rest, later);
        assert(steps =~= seq![step] + tail);
        assert forall|i: int| 0 <= i < chunks.len() - 1 implies (#[trigger] steps[i]).outcome
            == Ok::<Option<MessageView>, FrameError>(None) by {
            if i > 0 {
                assert(steps[i] == tail[i - 1]);
            }
        }
        assert(steps.last() == tail.last());
    }
}

/// Feeding a frame piece by piece: however the frame is cut into non-empty
/// pieces, a decoder at the start of a stream delivers nothing until the
/// last piece and then delivers the message, once, exactly as it does for
/// the whole frame.
pub proof fn lemma_incremental_feed(msg: MessageView, chunks: Seq<Seq<u8>>)
    requires
        sendable(msg),
        forall|i: int| 0 <= i < chunks.len() ==> (#[trigger] chunks[i]).len() > 0,
        joined(chunks) == frame_encoding(msg),
    ensures
        run(None, Seq::empty(), chunks).len() == chunks.len(),
        chunks.len() > 0,
        forall|i: int|
            0 <= i < chunks.len() - 1 ==> (#[trigger] run(None, Seq::empty(), chunks)[i]).outcome
                == Ok::<Option<MessageView>, FrameError>(None),
        run(None, Seq::empty(), chunks).last() == decode_step(None, frame_encoding(msg)),
        run(None, Seq::empty(), chunks).last() == delivered(msg),
{
    let frame = frame_encoding(msg);
    lemma_encoding_fits(header_of(msg).encoding().len());
    assert(frame.len() > 0);
    assert(frame.take(0) =~= Seq::<u8>::empty());
    assert(frame.skip(0) =~= frame);
    lemma_run(msg, 0, None, Seq::empty(), chunks);
    lemma_frame_round_trip(msg);
}

/// A frame whose header names a kind of message that does not exist is
/// refused as soon as it is complete, whatever its body holds and whatever
/// follows it.
pub proof fn lemma_unknown_type_rejected(header: MessageHeader, body: Seq<u8>, rest: Seq<u8>)
    requires
        MessageType::of_number(header.msg_type) is None,
        header.msg_length == body.len(),
        (delimited(header.encoding()) + delimited(body)).len() <= usize::MAX,
    ensures
        decode_step(None, delimited(header.encoding()) + delimited(body) + rest).outcome == Err::<
            Option<MessageView>,
            FrameError,
        >(FrameError::UnsupportedMessageType),
{
    let head_bytes = header.encoding();
    let head = delimited(head_bytes).len() as int;
    let all = delimited(head_bytes) + delimited(body) + rest;
    let tail = delimited(body) + rest;
    assert(all =~= delimited(head_bytes) + tail);
    lemma_chunk_whole(head_bytes, tail);
    header.lemma_round_trip();
    assert(all.skip(head) =~= tail);
    lemma_chunk_whole(body, rest);
}

} // verus!
