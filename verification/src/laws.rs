//! The laws of the Beast wire format, proved once and for all against
//! the specification functions of the decoder module: escaping is
//! undone exactly, encoding and decoding round-trip, streams decode in
//! order with no drops or duplicates, receiver-identity frames vanish
//! without a trace, and a truncated frame is always an error, never a
//! partial result.

use crate::decoder::DecodeError;
use crate::decoder::ESCAPE_BYTE;
use crate::decoder::FrameModel;
use crate::decoder::RECEIVER_ID_LEN;
use crate::decoder::RECEIVER_ID_MARKER;
use crate::decoder::TIMESTAMP_LEN;
use crate::decoder::lemma_be_bytes_len;
use crate::decoder::lemma_be_bytes_value;
use crate::decoder::lemma_escape_append;
use crate::decoder::pow256;
use crate::decoder::spec_assemble;
use crate::decoder::spec_be_bytes;
use crate::decoder::spec_decode_all;
use crate::decoder::spec_encode_frame;
use crate::decoder::spec_encode_stream;
use crate::decoder::spec_escape;
use crate::decoder::spec_escape_byte;
use crate::decoder::spec_frame_type;
use crate::decoder::spec_marker;
use crate::decoder::spec_next_frame;
use crate::decoder::spec_payload_len;
use crate::decoder::spec_prepend;
use crate::decoder::spec_unescape;
use vstd::prelude::*;

verus! {

/// Escape correctness, one pair: a doubled `0x1A 0x1A` on the wire
/// decodes to exactly one logical `0x1A` and advances the raw cursor
/// by two bytes, whatever follows.
pub proof fn lemma_escaped_pair(rest: Seq<u8>, count: nat)
    requires
        count >= 1,
    ensures
        spec_unescape(seq![ESCAPE_BYTE, ESCAPE_BYTE] + rest, count) == spec_prepend(
            seq![ESCAPE_BYTE],
            spec_unescape(rest, (count - 1) as nat),
        ),
{
    let s = seq![ESCAPE_BYTE, ESCAPE_BYTE] + rest;
    assert(s[0] == ESCAPE_BYTE && s[1] == ESCAPE_BYTE);
    assert(s.skip(2) =~= rest);
}

/// Escape correctness, whole fields: the wire encoding of a logical
/// field, with anything after it, escape-decodes back to exactly that
/// field, consuming exactly the encoding.
pub proof fn lemma_escape_round_trip(field: Seq<u8>, rest: Seq<u8>)
    ensures
        spec_unescape(spec_escape(field) + rest, field.len()) == Ok::<_, DecodeError>(
            (field, rest),
        ),
    decreases field.len(),
{
    if field.len() == 0 {
        assert(spec_escape(field) + rest =~= rest);
        assert(field =~= Seq::<u8>::empty());
    } else {
        let b = field[0];
        let tail = field.skip(1);
        lemma_escape_round_trip(tail, rest);
        let s = spec_escape(field) + rest;
        assert(s =~= spec_escape_byte(b) + (spec_escape(tail) + rest));
        if b == ESCAPE_BYTE {
            assert(s[0] == ESCAPE_BYTE && s[1] == ESCAPE_BYTE);
            assert(s.skip(2) =~= spec_escape(tail) + rest);
            assert(seq![ESCAPE_BYTE] + tail =~= field);
        } else {
            assert(s[0] == b);
            assert(s.skip(1) =~= spec_escape(tail) + rest);
            assert(seq![b] + tail =~= field);
        }
    }
}

/// The wire encoding of a frame seen as one escaped body after the
/// two header bytes.
proof fn lemma_encode_frame_shape(f: FrameModel, rest: Seq<u8>)
    requires
        f.wf(),
    ensures
        ({
            let body = spec_be_bytes(f.timestamp as int, TIMESTAMP_LEN as nat) + seq![f.rssi]
                + f.data;
            spec_encode_frame(f) + rest =~= seq![ESCAPE_BYTE, spec_marker(f.frame_type)] + (
            spec_escape(body) + rest) && body.len() == (TIMESTAMP_LEN + 1) as nat
                + spec_payload_len(f.frame_type)
        }),
{
    let ts = spec_be_bytes(f.timestamp as int, TIMESTAMP_LEN as nat);
    let body = ts + seq![f.rssi] + f.data;
    lemma_be_bytes_len(f.timestamp as int, TIMESTAMP_LEN as nat);
    lemma_escape_append(ts, seq![f.rssi]);
    lemma_escape_append(ts + seq![f.rssi], f.data);
    assert(spec_encode_frame(f) + rest =~= seq![ESCAPE_BYTE, spec_marker(f.frame_type)] + (
    spec_escape(body) + rest));
}

/// Round trip with a remainder: the wire bytes of any well-formed
/// frame, followed by anything, decode to exactly that frame and leave
/// exactly that remainder.
pub proof fn lemma_decode_encoded_frame(f: FrameModel, rest: Seq<u8>)
    requires
        f.wf(),
    ensures
        spec_next_frame(spec_encode_frame(f) + rest) == Ok::<_, DecodeError>(Some((f, rest))),
{
    let ts = spec_be_bytes(f.timestamp as int, TIMESTAMP_LEN as nat);
    let body = ts + seq![f.rssi] + f.data;
    let s = spec_encode_frame(f) + rest;
    lemma_encode_frame_shape(f, rest);
    let marker = spec_marker(f.frame_type);
    assert(s[0] == ESCAPE_BYTE && s[1] == marker);
    assert(marker != RECEIVER_ID_MARKER && spec_frame_type(marker) == Some(f.frame_type));
    assert(s.skip(2) =~= spec_escape(body) + rest);
    lemma_escape_round_trip(body, rest);
    lemma_be_bytes_len(f.timestamp as int, TIMESTAMP_LEN as nat);
    assert(body.take(TIMESTAMP_LEN as int) =~= ts);
    assert(body[TIMESTAMP_LEN as int] == f.rssi);
    assert(body.skip(TIMESTAMP_LEN as int + 1) =~= f.data);
    assert(pow256(TIMESTAMP_LEN as nat) == 0x1000000000000) by {
        reveal_with_fuel(pow256, 7);
    }
    lemma_be_bytes_value(f.timestamp as int, TIMESTAMP_LEN as nat);
    assert(spec_assemble(f.frame_type, body) =~= f);
}

/// Round trip: encoding any well-formed frame and decoding the result
/// yields the identical frame and ends exactly at the stream's end.
pub proof fn lemma_frame_round_trip(f: FrameModel)
    requires
        f.wf(),
    ensures
        spec_next_frame(spec_encode_frame(f)) == Ok::<_, DecodeError>(
            Some((f, Seq::<u8>::empty())),
        ),
{
    assert(spec_encode_frame(f) =~= spec_encode_frame(f) + Seq::<u8>::empty());
    lemma_decode_encoded_frame(f, Seq::<u8>::empty());
}

/// Sequencing: a concatenation of encoded well-formed frames decodes
/// to exactly those frames, in order, with no drops or duplicates.
pub proof fn lemma_stream_round_trip(frames: Seq<FrameModel>)
    requires
        forall|i: int| 0 <= i < frames.len() ==> frames[i].wf(),
    ensures
        spec_decode_all(spec_encode_stream(frames)) == Ok::<_, DecodeError>(frames),
    decreases frames.len(),
{
    if frames.len() == 0 {
        assert(frames =~= Seq::<FrameModel>::empty());
    } else {
        let tail = frames.skip(1);
        lemma_decode_encoded_frame(frames[0], spec_encode_stream(tail));
        lemma_stream_round_trip(tail);
        assert(seq![frames[0]] + tail =~= frames);
    }
}

/// Receiver-identity suppression, one step: a stream that opens with
/// an identity frame decodes exactly as the stream after it.
pub proof fn lemma_identity_frame_suppressed(identity: Seq<u8>, rest: Seq<u8>)
    requires
        identity.len() == RECEIVER_ID_LEN,
    ensures
        spec_next_frame(
            seq![ESCAPE_BYTE, RECEIVER_ID_MARKER] + (spec_escape(identity) + rest),
        ) == spec_next_frame(rest),
{
    let s = seq![ESCAPE_BYTE, RECEIVER_ID_MARKER] + (spec_escape(identity) + rest);
    assert(s[0] == ESCAPE_BYTE && s[1] == RECEIVER_ID_MARKER);
    assert(s.skip(2) =~= spec_escape(identity) + rest);
    lemma_escape_round_trip(identity, rest);
}

/// Receiver-identity suppression, whole streams: dropping a leading
/// identity frame changes nothing about what a stream decodes to.
pub proof fn lemma_identity_frame_suppressed_stream(identity: Seq<u8>, rest: Seq<u8>)
    requires
        identity.len() == RECEIVER_ID_LEN,
    ensures
        spec_decode_all(
            seq![ESCAPE_BYTE, RECEIVER_ID_MARKER] + (spec_escape(identity) + rest),
        ) == spec_decode_all(rest),
{
    lemma_identity_frame_suppressed(identity, rest);
}

/// A strict prefix of an escaped field never escape-decodes: it fails
/// with a truncation error, whether it ends between logical bytes or
/// inside an escape pair.
pub proof fn lemma_unescape_truncated(field: Seq<u8>, cut: int)
    requires
        0 <= cut < spec_escape(field).len(),
    ensures
        spec_unescape(spec_escape(field).take(cut), field.len()) == Err::<(Seq<u8>, Seq<u8>), _>(
            DecodeError::TruncatedFrame,
        ),
    decreases field.len(),
{
    let b = field[0];
    let tail = field.skip(1);
    let eb = spec_escape_byte(b);
    let s = spec_escape(field).take(cut);
    if cut == 0 {
        assert(s =~= Seq::<u8>::empty());
    } else if cut == 1 && b == ESCAPE_BYTE {
        assert(s =~= seq![ESCAPE_BYTE]);
    } else {
        assert(s =~= eb + spec_escape(tail).take(cut - eb.len()));
        lemma_unescape_truncated(tail, cut - eb.len());
        if b == ESCAPE_BYTE {
            assert(s[0] == ESCAPE_BYTE && s[1] == ESCAPE_BYTE);
            assert(s.skip(2) =~= spec_escape(tail).take(cut - 2));
        } else {
            assert(s[0] == b);
            assert(s.skip(1) =~= spec_escape(tail).take(cut - 1));
        }
    }
}

/// Truncation is an error, never a partial result: cutting the wire
/// bytes of a well-formed frame anywhere after its lead byte fails
/// with a truncation error.
pub proof fn lemma_truncated_frame(f: FrameModel, cut: int)
    requires
        f.wf(),
        1 <= cut < spec_encode_frame(f).len(),
    ensures
        spec_next_frame(spec_encode_frame(f).take(cut)) == Err::<
            Option<(FrameModel, Seq<u8>)>,
            _,
        >(DecodeError::TruncatedFrame),
{
    let ts = spec_be_bytes(f.timestamp as int, TIMESTAMP_LEN as nat);
    let body = ts + seq![f.rssi] + f.data;
    lemma_encode_frame_shape(f, Seq::<u8>::empty());
    assert(spec_encode_frame(f) =~= spec_encode_frame(f) + Seq::<u8>::empty());
    assert(spec_escape(body) + Seq::<u8>::empty() =~= spec_escape(body));
    let s = spec_encode_frame(f).take(cut);
    let marker = spec_marker(f.frame_type);
    if cut == 1 {
        assert(s =~= seq![ESCAPE_BYTE]);
    } else {
        assert(s =~= seq![ESCAPE_BYTE, marker] + spec_escape(body).take(cut - 2));
        assert(s[0] == ESCAPE_BYTE && s[1] == marker);
        lemma_unescape_truncated(body, cut - 2);
        assert(s.skip(2) =~= spec_escape(body).take(cut - 2));
    }
}

/// Truncation inside the last frame of a stream fails the whole
/// decode, however many complete frames stand before the cut.
pub proof fn lemma_truncated_stream(frames: Seq<FrameModel>, f: FrameModel, cut: int)
    requires
        forall|i: int| 0 <= i < frames.len() ==> frames[i].wf(),
        f.wf(),
        1 <= cut < spec_encode_frame(f).len(),
    ensures
        spec_decode_all(spec_encode_stream(frames) + spec_encode_frame(f).take(cut)) == Err::<
            Seq<FrameModel>,
            _,
        >(DecodeError::TruncatedFrame),
    decreases frames.len(),
{
    if frames.len() == 0 {
        lemma_truncated_frame(f, cut);
        assert(spec_encode_stream(frames) + spec_encode_frame(f).take(cut) =~= spec_encode_frame(
            f,
        ).take(cut));
    } else {
        let tail = frames.skip(1);
        let rest = spec_encode_stream(tail) + spec_encode_frame(f).take(cut);
        lemma_decode_encoded_frame(frames[0], rest);
        lemma_truncated_stream(tail, f, cut);
        assert(spec_encode_stream(frames) + spec_encode_frame(f).take(cut) =~= spec_encode_frame(
            frames[0],
        ) + rest);
    }
}

} // verus!
