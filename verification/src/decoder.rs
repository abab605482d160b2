//! The Beast framing protocol: wire model, streaming decoder, encoder.
//!
//! A frame on the wire is `0x1A`, a frame-type marker, and a body of
//! escape-encoded fields.  Inside a field every logical `0x1A` byte is
//! doubled (`0x1A 0x1A`), which makes the lead byte of a frame
//! unambiguous.  Data frames carry a 6-byte big-endian timestamp, a
//! signal-level byte and a payload whose length the marker determines;
//! receiver-identity frames carry an 8-byte body and are consumed
//! without being surfaced.

use vstd::prelude::*;

verus! {

/// The escape marker: lead byte of every frame, and the byte that is
/// doubled inside escape-encoded fields.
pub const ESCAPE_BYTE: u8 = 0x1a;

/// Frame-type marker of a Mode-AC frame (2-byte payload).
pub const MODE_AC_MARKER: u8 = 0x31;

/// Frame-type marker of a Mode-S short frame (7-byte payload).
pub const MODE_S_SHORT_MARKER: u8 = 0x32;

/// Frame-type marker of a Mode-S long frame (14-byte payload).
pub const MODE_S_LONG_MARKER: u8 = 0x33;

/// Frame-type marker of a receiver-identity frame, consumed silently.
pub const RECEIVER_ID_MARKER: u8 = 0xe3;

/// Logical length of a receiver-identity body.
pub const RECEIVER_ID_LEN: usize = 8;

/// Logical length of the timestamp field of a data frame.
pub const TIMESTAMP_LEN: usize = 6;

/// The timestamp is reconstructed from 6 bytes, so it is below 2^48.
pub const TIMESTAMP_LIMIT: u64 = 0x1000000000000;

/// The kind of a surfaced frame; it determines the payload length.
#[derive(Clone, Copy, Debug, PartialEq, Eq, Structural)]
pub enum FrameType {
    /// Mode-AC reply: 2 payload bytes.
    ModeAC,
    /// Mode-S short reply: 7 payload bytes.
    ModeSShort,
    /// Mode-S long reply: 14 payload bytes.
    ModeSLong,
}

/// Why a decode attempt failed.  End of input at a frame boundary is
/// not an error and is reported as a clean end of the sequence.
#[derive(Clone, Copy, Debug, PartialEq, Eq, Structural)]
pub enum DecodeError {
    /// A byte expected to be the `0x1A` lead marker was something else.
    UnexpectedLeadByte,
    /// The byte after the lead marker names no known frame type.
    UnknownFrameType,
    /// Inside a field, an escape marker was not followed by a second one.
    InvalidEscapeSequence,
    /// The input ended before the current field or frame was complete.
    TruncatedFrame,
}

/// Payload length implied by a frame type.
pub open spec fn spec_payload_len(t: FrameType) -> nat {
    match t {
        FrameType::ModeAC => 2,
        FrameType::ModeSShort => 7,
        FrameType::ModeSLong => 14,
    }
}

/// The frame type a data-frame marker byte names, if any.
pub open spec fn spec_frame_type(marker: u8) -> Option<FrameType> {
    if marker == MODE_AC_MARKER {
        Some(FrameType::ModeAC)
    } else if marker == MODE_S_SHORT_MARKER {
        Some(FrameType::ModeSShort)
    } else if marker == MODE_S_LONG_MARKER {
        Some(FrameType::ModeSLong)
    } else {
        None
    }
}

/// The marker byte that encodes a frame type.
pub open spec fn spec_marker(t: FrameType) -> u8 {
    match t {
        FrameType::ModeAC => MODE_AC_MARKER,
        FrameType::ModeSShort => MODE_S_SHORT_MARKER,
        FrameType::ModeSLong => MODE_S_LONG_MARKER,
    }
}

impl FrameType {
    /// Payload length implied by this frame type.
    pub fn payload_len(&self) -> (n: usize)
        ensures
            n == spec_payload_len(*self),
    {
        match self {
            FrameType::ModeAC => 2,
            FrameType::ModeSShort => 7,
            FrameType::ModeSLong => 14,
        }
    }
}

/// Mathematical model of a decoded frame: the payload as a sequence.
#[verifier::ext_equal]
pub struct FrameModel {
    /// Kind of the frame.
    pub frame_type: FrameType,
    /// 48-bit hardware tick counter, big-endian on the wire.
    pub timestamp: u64,
    /// Raw signal-level sample.
    pub rssi: u8,
    /// Payload bytes, opaque to the decoder.
    pub data: Seq<u8>,
}

impl FrameModel {
    /// A frame the decoder can produce: the payload length matches the
    /// kind and the timestamp fits in 48 bits.
    pub open spec fn wf(self) -> bool {
        &&& self.data.len() == spec_payload_len(self.frame_type)
        &&& self.timestamp < TIMESTAMP_LIMIT
    }
}

/// One decoded frame, as handed to the caller.
#[derive(Debug)]
pub struct BeastFrame {
    /// Kind of the frame.
    pub frame_type: FrameType,
    /// 48-bit hardware tick counter, big-endian on the wire.
    pub timestamp: u64,
    /// Raw signal-level sample.
    pub rssi: u8,
    /// Payload bytes; the length is determined by `frame_type`.
    pub data: Vec<u8>,
}

impl View for BeastFrame {
    type V = FrameModel;

    open spec fn view(&self) -> FrameModel {
        FrameModel {
            frame_type: self.frame_type,
            timestamp: self.timestamp,
            rssi: self.rssi,
            data: self.data@,
        }
    }
}

impl PartialEq for BeastFrame {
    /// Two frames are equal when their models are: same kind, same
    /// timestamp, same signal level and the same payload bytes.
    fn eq(&self, other: &Self) -> (r: bool) {
        let r = self.frame_type == other.frame_type && self.timestamp == other.timestamp
            && self.rssi == other.rssi && self.data == other.data;
        proof {
            if r {
                assert(self.data@ =~= other.data@);
                assert(self@ =~= other@);
            } else if self@ == other@ {
                assert(self.data@ =~= other.data@);
                assert(self.data =~= other.data);
            }
        }
        r
    }
}

impl vstd::std_specs::cmp::PartialEqSpecImpl for BeastFrame {
    open spec fn obeys_eq_spec() -> bool {
        true
    }

    open spec fn eq_spec(&self, other: &Self) -> bool {
        self@ == other@
    }
}

/// Escape-decode `count` logical bytes from the head of `s`: a wire
/// `0x1A 0x1A` pair stands for one logical `0x1A`.  On success the
/// result is the logical field and the unconsumed remainder of `s`.
pub open spec fn spec_unescape(s: Seq<u8>, count: nat) -> Result<(Seq<u8>, Seq<u8>), DecodeError>
    decreases count,
{
    if count == 0 {
        Ok((Seq::empty(), s))
    } else if s.len() == 0 {
        Err(DecodeError::TruncatedFrame)
    } else if s[0] == ESCAPE_BYTE {
        if s.len() == 1 {
            Err(DecodeError::TruncatedFrame)
        } else if s[1] != ESCAPE_BYTE {
            Err(DecodeError::InvalidEscapeSequence)
        } else {
            match spec_unescape(s.skip(2), (count - 1) as nat) {
                Ok(r) => Ok((seq![ESCAPE_BYTE] + r.0, r.1)),
                Err(e) => Err(e),
            }
        }
    } else {
        match spec_unescape(s.skip(1), (count - 1) as nat) {
            Ok(r) => Ok((seq![s[0]] + r.0, r.1)),
            Err(e) => Err(e),
        }
    }
}

/// On success the field has exactly the requested length and the
/// remainder is no longer than the input less that length.
pub proof fn lemma_unescape_ok_len(s: Seq<u8>, count: nat)
    ensures
        spec_unescape(s, count) matches Ok(r) ==> r.0.len() == count && r.1.len() + count
            <= s.len(),
    decreases count,
{
    if count > 0 && s.len() > 0 {
        if s[0] == ESCAPE_BYTE {
            if s.len() > 1 && s[1] == ESCAPE_BYTE {
                lemma_unescape_ok_len(s.skip(2), (count - 1) as nat);
            }
        } else {
            lemma_unescape_ok_len(s.skip(1), (count - 1) as nat);
        }
    }
}

/// The wire encoding of one logical byte.
pub open spec fn spec_escape_byte(b: u8) -> Seq<u8> {
    if b == ESCAPE_BYTE {
        seq![ESCAPE_BYTE, ESCAPE_BYTE]
    } else {
        seq![b]
    }
}

/// The wire encoding of a logical field: every `0x1A` byte doubled.
pub open spec fn spec_escape(field: Seq<u8>) -> Seq<u8>
    decreases field.len(),
{
    if field.len() == 0 {
        Seq::empty()
    } else {
        spec_escape_byte(field[0]) + spec_escape(field.skip(1))
    }
}

/// Value of a big-endian byte sequence.
pub open spec fn spec_be_value(b: Seq<u8>) -> int
    decreases b.len(),
{
    if b.len() == 0 {
        0
    } else {
        spec_be_value(b.drop_last()) * 256 + b.last()
    }
}

/// Escape-decoding `l1 + l2` logical bytes is escape-decoding `l1`
/// and then `l2` from the remainder: fields read back to back compose.
pub proof fn lemma_unescape_split(s: Seq<u8>, l1: nat, l2: nat)
    ensures
        spec_unescape(s, l1 + l2) == (match spec_unescape(s, l1) {
            Ok(p) => spec_prepend(p.0, spec_unescape(p.1, l2)),
            Err(e) => Err(e),
        }),
    decreases l1,
{
    if l1 == 0 {
        match spec_unescape(s, l2) {
            Ok(p) => {
                assert(Seq::<u8>::empty() + p.0 =~= p.0);
            },
            Err(_) => (),
        }
    } else if s.len() == 0 {
    } else if s[0] == ESCAPE_BYTE {
        if s.len() > 1 && s[1] == ESCAPE_BYTE {
            lemma_unescape_split(s.skip(2), (l1 - 1) as nat, l2);
            match spec_unescape(s.skip(2), (l1 - 1) as nat) {
                Ok(q) => match spec_unescape(q.1, l2) {
                    Ok(w) => {
                        assert(seq![ESCAPE_BYTE] + (q.0 + w.0) =~= (seq![ESCAPE_BYTE] + q.0)
                            + w.0);
                    },
                    Err(_) => (),
                },
                Err(_) => (),
            }
        }
    } else {
        lemma_unescape_split(s.skip(1), (l1 - 1) as nat, l2);
        match spec_unescape(s.skip(1), (l1 - 1) as nat) {
            Ok(q) => match spec_unescape(q.1, l2) {
                Ok(w) => {
                    assert(seq![s[0]] + (q.0 + w.0) =~= (seq![s[0]] + q.0) + w.0);
                },
                Err(_) => (),
            },
            Err(_) => (),
        }
    }
}

/// 256 to the power `n`: the number of values of `n` bytes.
pub open spec fn pow256(n: nat) -> int
    decreases n,
{
    if n == 0 {
        1
    } else {
        256 * pow256((n - 1) as nat)
    }
}

/// A big-endian byte sequence is a non-negative value below 256 to
/// the power of its length.
pub proof fn lemma_be_value_bound(b: Seq<u8>)
    ensures
        0 <= spec_be_value(b) < pow256(b.len()),
    decreases b.len(),
{
    if b.len() > 0 {
        lemma_be_value_bound(b.drop_last());
    }
}

/// The frame built from a marker's type and an unescaped body of
/// timestamp, signal level and payload.
pub open spec fn spec_assemble(t: FrameType, body: Seq<u8>) -> FrameModel {
    FrameModel {
        frame_type: t,
        timestamp: spec_be_value(body.take(TIMESTAMP_LEN as int)) as u64,
        rssi: body[TIMESTAMP_LEN as int],
        data: body.skip(TIMESTAMP_LEN as int + 1),
    }
}

/// Decode one frame from the head of `s`.  `Ok(None)` is the clean end
/// of the stream: no bytes left at a frame boundary.  `Ok(Some(..))`
/// carries the frame and the unconsumed remainder; receiver-identity
/// frames are consumed without being surfaced.
pub open spec fn spec_next_frame(s: Seq<u8>) -> Result<Option<(FrameModel, Seq<u8>)>, DecodeError>
    decreases s.len(),
    via spec_next_frame_decreases
{
    if s.len() == 0 {
        Ok(None)
    } else if s[0] != ESCAPE_BYTE {
        Err(DecodeError::UnexpectedLeadByte)
    } else if s.len() == 1 {
        Err(DecodeError::TruncatedFrame)
    } else if s[1] == RECEIVER_ID_MARKER {
        match spec_unescape(s.skip(2), RECEIVER_ID_LEN as nat) {
            Ok(r) => spec_next_frame(r.1),
            Err(e) => Err(e),
        }
    } else {
        match spec_frame_type(s[1]) {
            Some(t) => match spec_unescape(s.skip(2), (TIMESTAMP_LEN + 1) as nat + spec_payload_len(t)) {
                Ok(r) => Ok(Some((spec_assemble(t, r.0), r.1))),
                Err(e) => Err(e),
            },
            None => Err(DecodeError::UnknownFrameType),
        }
    }
}

#[via_fn]
proof fn spec_next_frame_decreases(s: Seq<u8>) {
    lemma_unescape_ok_len(s.skip(2), RECEIVER_ID_LEN as nat);
}

/// Consuming one frame strictly shortens the stream.
pub proof fn lemma_next_frame_consumes(s: Seq<u8>)
    ensures
        spec_next_frame(s) matches Ok(Some(r)) ==> r.1.len() < s.len(),
    decreases s.len(),
{
    if s.len() >= 2 && s[0] == ESCAPE_BYTE {
        if s[1] == RECEIVER_ID_MARKER {
            lemma_unescape_ok_len(s.skip(2), RECEIVER_ID_LEN as nat);
            match spec_unescape(s.skip(2), RECEIVER_ID_LEN as nat) {
                Ok(r) => lemma_next_frame_consumes(r.1),
                Err(_) => (),
            }
        } else {
            match spec_frame_type(s[1]) {
                Some(t) => {
                    lemma_unescape_ok_len(
                        s.skip(2),
                        (TIMESTAMP_LEN + 1) as nat + spec_payload_len(t),
                    );
                },
                None => (),
            }
        }
    }
}

/// Decode frames from `s` until its clean end, or fail with the first
/// error; a failure yields no frames at all.
pub open spec fn spec_decode_all(s: Seq<u8>) -> Result<Seq<FrameModel>, DecodeError>
    decreases s.len(),
    via spec_decode_all_decreases
{
    match spec_next_frame(s) {
        Ok(step) => match step {
            Some(r) => match spec_decode_all(r.1) {
                Ok(frames) => Ok(seq![r.0] + frames),
                Err(e) => Err(e),
            },
            None => Ok(Seq::empty()),
        },
        Err(e) => Err(e),
    }
}

#[via_fn]
proof fn spec_decode_all_decreases(s: Seq<u8>) {
    lemma_next_frame_consumes(s);
}

/// `pre` prepended to the frames of a whole-stream decoding result.
pub open spec fn spec_prepend_frames(
    pre: Seq<FrameModel>,
    r: Result<Seq<FrameModel>, DecodeError>,
) -> Result<Seq<FrameModel>, DecodeError> {
    match r {
        Ok(frames) => Ok(pre + frames),
        Err(e) => Err(e),
    }
}

/// Bytes standing for the value `v` in `n` big-endian bytes.
pub open spec fn spec_be_bytes(v: int, n: nat) -> Seq<u8>
    decreases n,
{
    if n == 0 {
        Seq::empty()
    } else {
        spec_be_bytes(v / 256, (n - 1) as nat) + seq![(v % 256) as u8]
    }
}

/// `spec_be_bytes` yields exactly the requested number of bytes.
pub proof fn lemma_be_bytes_len(v: int, n: nat)
    ensures
        spec_be_bytes(v, n).len() == n,
    decreases n,
{
    if n > 0 {
        lemma_be_bytes_len(v / 256, (n - 1) as nat);
    }
}

/// Reading the big-endian bytes of a value below 256 to the power `n`
/// gives the value back.
pub proof fn lemma_be_bytes_value(v: int, n: nat)
    requires
        0 <= v < pow256(n),
    ensures
        spec_be_value(spec_be_bytes(v, n)) == v,
    decreases n,
{
    if n == 0 {
        assert(spec_be_bytes(v, 0) =~= Seq::<u8>::empty());
    } else {
        vstd::arithmetic::div_mod::lemma_fundamental_div_mod(v, 256);
        vstd::arithmetic::div_mod::lemma_mod_division_less_than_divisor(v, 256);
        vstd::arithmetic::div_mod::lemma_div_pos_is_pos(v, 256);
        vstd::arithmetic::div_mod::lemma_multiply_divide_lt(v, 256, pow256((n - 1) as nat));
        lemma_be_bytes_value(v / 256, (n - 1) as nat);
        lemma_be_bytes_len(v / 256, (n - 1) as nat);
        let head = spec_be_bytes(v / 256, (n - 1) as nat);
        let whole = spec_be_bytes(v, n);
        assert(whole.drop_last() =~= head);
        assert(whole.last() == (v % 256) as u8);
        assert((v % 256) as u8 as int == v % 256);
    }
}

/// The wire bytes of one data frame: lead byte, marker, and the three
/// escape-encoded fields.
pub open spec fn spec_encode_frame(f: FrameModel) -> Seq<u8> {
    seq![ESCAPE_BYTE, spec_marker(f.frame_type)] + spec_escape(
        spec_be_bytes(f.timestamp as int, TIMESTAMP_LEN as nat),
    ) + spec_escape(seq![f.rssi]) + spec_escape(f.data)
}

/// The wire bytes of a whole sequence of data frames, back to back.
pub open spec fn spec_encode_stream(fs: Seq<FrameModel>) -> Seq<u8>
    decreases fs.len(),
{
    if fs.len() == 0 {
        Seq::empty()
    } else {
        spec_encode_frame(fs[0]) + spec_encode_stream(fs.skip(1))
    }
}

/// `pre` prepended to the field of an escape-decoding result.
pub open spec fn spec_prepend(pre: Seq<u8>, r: Result<(Seq<u8>, Seq<u8>), DecodeError>) -> Result<
    (Seq<u8>, Seq<u8>),
    DecodeError,
> {
    match r {
        Ok(p) => Ok((pre + p.0, p.1)),
        Err(e) => Err(e),
    }
}

/// Streaming decoder over an in-memory byte source.  Each successful
/// pull consumes the bytes of one frame; the source is not restartable.
pub struct BeastDecoder {
    input: Vec<u8>,
    pos: usize,
}

impl View for BeastDecoder {
    type V = Seq<u8>;

    /// The bytes not yet consumed.
    closed spec fn view(&self) -> Seq<u8> {
        self.input@.skip(self.pos as int)
    }
}

impl BeastDecoder {
    /// The cursor never runs past the end of the input.
    pub closed spec fn wf(&self) -> bool {
        self.pos <= self.input.len()
    }

    /// A decoder positioned at the start of `input`.
    pub fn new(input: Vec<u8>) -> (d: Self)
        ensures
            d.wf(),
            d@ == input@,
    {
        let d = BeastDecoder { input, pos: 0 };
        proof {
            assert(d@ =~= d.input@);
        }
        d
    }

    /// Consume and return the next raw byte, if one is left.
    fn read_byte(&mut self) -> (r: Option<u8>)
        requires
            old(self).wf(),
        ensures
            final(self).wf(),
            old(self)@.len() == 0 ==> r is None && *final(self) == *old(self),
            old(self)@.len() > 0 ==> r == Some(old(self)@[0]) && final(self)@ == old(self)@.skip(
                1,
            ),
    {
        if self.pos < self.input.len() {
            let b = self.input[self.pos];
            self.pos = self.pos + 1;
            proof {
                assert(self@ =~= old(self)@.skip(1));
            }
            Some(b)
        } else {
            proof {
                assert(old(self)@.len() == 0);
            }
            None
        }
    }

    /// Escape-decode `count` logical bytes from the input, undoing the
    /// doubling of `0x1A`.  Exactly the wire bytes of the field are
    /// consumed on success; on failure the error is the one the wire
    /// prefix forces.
    pub fn read_encoded(&mut self, count: usize) -> (r: Result<Vec<u8>, DecodeError>)
        requires
            old(self).wf(),
        ensures
            final(self).wf(),
            spec_unescape(old(self)@, count as nat) matches Ok(p) ==> r matches Ok(v) && v@ == p.0
                && final(self)@ == p.1,
            spec_unescape(old(self)@, count as nat) matches Err(e) ==> r == Result::<
                Vec<u8>,
                DecodeError,
            >::Err(e),
    {
        let ghost orig: Seq<u8> = self@;
        let mut escaped = false;
        let mut field: Vec<u8> = Vec::new();

        while field.len() < count
            invariant
                self.wf(),
                orig == old(self)@,
                field.len() <= count,
                !escaped ==> spec_unescape(orig, count as nat) == spec_prepend(
                    field@,
                    spec_unescape(self@, (count - field.len()) as nat),
                ),
                escaped ==> field.len() < count && spec_unescape(orig, count as nat)
                    == spec_prepend(
                    field@,
                    spec_unescape(seq![ESCAPE_BYTE] + self@, (count - field.len()) as nat),
                ),
            decreases self@.len(),
        {
            let ghost rem: Seq<u8> = self@;
            let byte = match self.read_byte() {
                Some(b) => b,
                None => {
                    proof {
                        assert(self@.len() == 0);
                        if escaped {
                            assert((seq![ESCAPE_BYTE] + self@).len() == 1);
                            assert((seq![ESCAPE_BYTE] + self@)[0] == ESCAPE_BYTE);
                        }
                    }
                    return Err(DecodeError::TruncatedFrame);
                },
            };
            proof {
                assert(rem =~= seq![rem[0]] + self@);
            }
            if escaped {
                proof {
                    assert((seq![ESCAPE_BYTE] + rem)[0] == ESCAPE_BYTE);
                    assert((seq![ESCAPE_BYTE] + rem)[1] == byte);
                    assert((seq![ESCAPE_BYTE] + rem).skip(2) =~= self@);
                }
                if byte == ESCAPE_BYTE {
                    let ghost before: Seq<u8> = field@;
                    field.push(byte);
                    escaped = false;
                    proof {
                        assert(field@ =~= before + seq![ESCAPE_BYTE]);
                        lemma_prepend_step(orig, before, ESCAPE_BYTE, self@, (count
                            - before.len()) as nat);
                    }
                } else {
                    return Err(DecodeError::InvalidEscapeSequence);
                }
            } else if byte == ESCAPE_BYTE {
                escaped = true;
                proof {
                    assert(seq![ESCAPE_BYTE] + self@ =~= rem);
                }
            } else {
                let ghost before: Seq<u8> = field@;
                field.push(byte);
                proof {
                    assert(field@ =~= before + seq![byte]);
                    lemma_prepend_step(orig, before, byte, self@, (count - before.len()) as nat);
                }
            }
        }
        proof {
            assert(spec_unescape(self@, 0) == Ok::<_, DecodeError>((Seq::<u8>::empty(), self@)));
            assert(field@ + Seq::<u8>::empty() =~= field@);
        }
        Ok(field)
    }

    /// Decode the next frame, or report the clean end of the stream as
    /// `Ok(None)`.  Receiver-identity frames are consumed silently; any
    /// malformed or incomplete frame fails with its `DecodeError`, and
    /// no partial frame is ever produced.
    pub fn next_frame(&mut self) -> (r: Result<Option<BeastFrame>, DecodeError>)
        requires
            old(self).wf(),
        ensures
            final(self).wf(),
            spec_next_frame(old(self)@) matches Ok(Some(p)) ==> r matches Ok(Some(f)) && f@ == p.0
                && final(self)@ == p.1,
            spec_next_frame(old(self)@) matches Ok(None::<(FrameModel, Seq<u8>)>) ==> r matches
                Ok(o) && o is None && final(self)@.len() == 0,
            spec_next_frame(old(self)@) matches Err(e) ==> r == Result::<
                Option<BeastFrame>,
                DecodeError,
            >::Err(e),
    {
        loop
            invariant
                self.wf(),
                spec_next_frame(old(self)@) == spec_next_frame(self@),
            decreases self@.len(),
        {
            let ghost s0: Seq<u8> = self@;
            let lead = match self.read_byte() {
                Some(b) => b,
                None => {
                    return Ok(None);
                },
            };
            if lead != ESCAPE_BYTE {
                return Err(DecodeError::UnexpectedLeadByte);
            }
            let marker = match self.read_byte() {
                Some(b) => b,
                None => {
                    return Err(DecodeError::TruncatedFrame);
                },
            };
            proof {
                assert(self@ =~= s0.skip(2));
            }
            if marker == RECEIVER_ID_MARKER {
                let ghost rem = self@;
                match self.read_encoded(RECEIVER_ID_LEN) {
                    Ok(_) => {
                        proof {
                            lemma_unescape_ok_len(rem, RECEIVER_ID_LEN as nat);
                        }
                    },
                    Err(e) => {
                        return Err(e);
                    },
                }
            } else {
                let frame_type = if marker == MODE_AC_MARKER {
                    FrameType::ModeAC
                } else if marker == MODE_S_SHORT_MARKER {
                    FrameType::ModeSShort
                } else if marker == MODE_S_LONG_MARKER {
                    FrameType::ModeSLong
                } else {
                    return Err(DecodeError::UnknownFrameType);
                };
                let ghost n = spec_payload_len(frame_type);
                let ghost rem = self@;
                proof {
                    assert(spec_frame_type(marker) == Some(frame_type));
                    lemma_unescape_split(rem, TIMESTAMP_LEN as nat, (1 + n) as nat);
                }
                let ts_bytes = match self.read_encoded(TIMESTAMP_LEN) {
                    Ok(v) => v,
                    Err(e) => {
                        return Err(e);
                    },
                };
                let ghost rem_level = self@;
                proof {
                    lemma_unescape_ok_len(rem, TIMESTAMP_LEN as nat);
                    lemma_unescape_split(rem_level, 1, n);
                }
                let level_bytes = match self.read_encoded(1) {
                    Ok(v) => v,
                    Err(e) => {
                        return Err(e);
                    },
                };
                proof {
                    lemma_unescape_ok_len(rem_level, 1);
                }
                let rssi = level_bytes[0];
                let data = match self.read_encoded(frame_type.payload_len()) {
                    Ok(v) => v,
                    Err(e) => {
                        return Err(e);
                    },
                };
                let timestamp = be_value_u64(&ts_bytes);
                proof {
                    let body = ts_bytes@ + level_bytes@ + data@;
                    assert((ts_bytes@ + (level_bytes@ + data@)) =~= body);
                    assert(spec_unescape(rem, (TIMESTAMP_LEN + 1) as nat + n) matches Ok(p)
                        && p.0 == body && p.1 == self@);
                    assert(body.take(TIMESTAMP_LEN as int) =~= ts_bytes@);
                    assert(body[TIMESTAMP_LEN as int] == rssi);
                    assert(body.skip(TIMESTAMP_LEN as int + 1) =~= data@);
                    lemma_be_value_bound(ts_bytes@);
                }
                let frame = BeastFrame { frame_type, timestamp, rssi, data };
                proof {
                    assert(frame@ == spec_assemble(frame_type, ts_bytes@ + level_bytes@
                        + data@));
                }
                return Ok(Some(frame));
            }
        }
    }

    /// Decode every remaining frame, in encounter order, or fail with
    /// the first error; on failure no frames are handed out.
    pub fn decode_all(&mut self) -> (r: Result<Vec<BeastFrame>, DecodeError>)
        requires
            old(self).wf(),
        ensures
            final(self).wf(),
            spec_decode_all(old(self)@) matches Ok(models) ==> r matches Ok(v) && v@.map_values(
                |f: BeastFrame| f@,
            ) == models && final(self)@.len() == 0,
            spec_decode_all(old(self)@) matches Err(e) ==> r == Result::<
                Vec<BeastFrame>,
                DecodeError,
            >::Err(e),
    {
        let mut frames: Vec<BeastFrame> = Vec::new();
        proof {
            assert(frames@.map_values(|f: BeastFrame| f@) =~= Seq::<FrameModel>::empty());
            match spec_decode_all(self@) {
                Ok(models) => {
                    assert(Seq::<FrameModel>::empty() + models =~= models);
                },
                Err(_) => (),
            }
        }
        loop
            invariant
                self.wf(),
                spec_decode_all(old(self)@) == spec_prepend_frames(
                    frames@.map_values(|f: BeastFrame| f@),
                    spec_decode_all(self@),
                ),
            decreases self@.len(),
        {
            let ghost s0: Seq<u8> = self@;
            let ghost pre = frames@.map_values(|f: BeastFrame| f@);
            match self.next_frame() {
                Ok(Some(frame)) => {
                    proof {
                        lemma_next_frame_consumes(s0);
                        match spec_decode_all(self@) {
                            Ok(models) => {
                                assert(pre + (seq![frame@] + models) =~= (pre + seq![frame@])
                                    + models);
                            },
                            Err(_) => (),
                        }
                    }
                    frames.push(frame);
                    proof {
                        assert(frames@.map_values(|f: BeastFrame| f@) =~= pre + seq![frame@]);
                    }
                },
                Ok(None) => {
                    proof {
                        assert(pre + Seq::<FrameModel>::empty() =~= pre);
                    }
                    return Ok(frames);
                },
                Err(e) => {
                    return Err(e);
                },
            }
        }
    }
}

/// Escape-encoding distributes over concatenation of logical fields.
pub proof fn lemma_escape_append(a: Seq<u8>, b: Seq<u8>)
    ensures
        spec_escape(a + b) == spec_escape(a) + spec_escape(b),
    decreases a.len(),
{
    if a.len() == 0 {
        assert(a + b =~= b);
        assert(Seq::<u8>::empty() + spec_escape(b) =~= spec_escape(b));
    } else {
        assert((a + b)[0] == a[0]);
        assert((a + b).skip(1) =~= a.skip(1) + b);
        lemma_escape_append(a.skip(1), b);
        assert(spec_escape_byte(a[0]) + (spec_escape(a.skip(1)) + spec_escape(b)) =~= (
        spec_escape_byte(a[0]) + spec_escape(a.skip(1))) + spec_escape(b));
    }
}

/// Append the wire encoding of `field` to `out`, doubling each `0x1A`.
fn append_escaped(out: &mut Vec<u8>, field: &Vec<u8>)
    ensures
        final(out)@ == old(out)@ + spec_escape(field@),
{
    let ghost orig: Seq<u8> = out@;
    let mut i: usize = 0;
    while i < field.len()
        invariant
            orig == old(out)@,
            i <= field@.len(),
            out@ == orig + spec_escape(field@.take(i as int)),
        decreases field@.len() - i,
    {
        let ghost done: Seq<u8> = out@;
        let b = field[i];
        out.push(b);
        if b == ESCAPE_BYTE {
            out.push(b);
        }
        proof {
            assert(out@ =~= done + spec_escape_byte(b));
            lemma_escape_append(field@.take(i as int), seq![b]);
            assert(field@.take(i as int + 1) =~= field@.take(i as int) + seq![b]);
            reveal_with_fuel(spec_escape, 2);
            assert(seq![b].skip(1) =~= Seq::<u8>::empty());
            assert(spec_escape_byte(b) + Seq::<u8>::empty() =~= spec_escape_byte(b));
            assert(spec_escape(seq![b]) =~= spec_escape_byte(b));
            assert(out@ =~= orig + spec_escape(field@.take(i as int + 1)));
        }
        i = i + 1;
    }
    proof {
        assert(field@.take(field@.len() as int) =~= field@);
    }
}

/// The `n` big-endian bytes standing for `v`.
fn be_bytes(v: u64, n: usize) -> (r: Vec<u8>)
    ensures
        r@ == spec_be_bytes(v as int, n as nat),
    decreases n,
{
    if n == 0 {
        Vec::new()
    } else {
        let mut r = be_bytes(v / 256, n - 1);
        r.push((v % 256) as u8);
        proof {
            assert(r@ =~= spec_be_bytes(v as int / 256, (n - 1) as nat) + seq![
                (v as int % 256) as u8,
            ]);
        }
        r
    }
}

/// Encode one frame to its wire bytes, escaping as the protocol asks.
/// Decoding the result yields the frame back (see the laws module).
pub fn encode_frame(f: &BeastFrame) -> (r: Vec<u8>)
    requires
        f@.wf(),
    ensures
        r@ == spec_encode_frame(f@),
{
    let mut out: Vec<u8> = Vec::new();
    out.push(ESCAPE_BYTE);
    let marker = match f.frame_type {
        FrameType::ModeAC => MODE_AC_MARKER,
        FrameType::ModeSShort => MODE_S_SHORT_MARKER,
        FrameType::ModeSLong => MODE_S_LONG_MARKER,
    };
    out.push(marker);
    proof {
        assert(out@ =~= seq![ESCAPE_BYTE, spec_marker(f@.frame_type)]);
    }
    let ts_bytes = be_bytes(f.timestamp, TIMESTAMP_LEN);
    append_escaped(&mut out, &ts_bytes);
    let level = vec![f.rssi];
    proof {
        assert(level@ =~= seq![f.rssi]);
    }
    append_escaped(&mut out, &level);
    append_escaped(&mut out, &f.data);
    proof {
        assert(out@ =~= spec_encode_frame(f@));
    }
    out
}

/// Value of a big-endian byte sequence of at most 6 bytes, which
/// always fits the 48-bit timestamp range.
fn be_value_u64(b: &Vec<u8>) -> (v: u64)
    requires
        b@.len() <= 6,
    ensures
        v == spec_be_value(b@),
        v < TIMESTAMP_LIMIT,
{
    let mut v: u64 = 0;
    let mut i: usize = 0;
    while i < b.len()
        invariant
            i <= b@.len() <= 6,
            v == spec_be_value(b@.take(i as int)),
            v < pow256(i as nat),
        decreases b@.len() - i,
    {
        proof {
            assert(b@.take(i as int + 1).drop_last() =~= b@.take(i as int));
            assert(b@.take(i as int + 1).last() == b@[i as int]);
            lemma_pow256_increases(i as nat, 5);
            reveal_with_fuel(pow256, 7);
        }
        v = v * 256 + (b[i] as u64);
        i = i + 1;
    }
    proof {
        assert(b@.take(b@.len() as int) =~= b@);
        lemma_pow256_increases(b@.len(), 6);
        reveal_with_fuel(pow256, 7);
    }
    v
}

/// `pow256` grows with its exponent.
proof fn lemma_pow256_increases(a: nat, b: nat)
    requires
        a <= b,
    ensures
        pow256(a) <= pow256(b),
    decreases b,
{
    if a < b {
        lemma_pow256_increases(a, (b - 1) as nat);
        assert(pow256((b - 1) as nat) <= 256 * pow256((b - 1) as nat)) by {
            lemma_pow256_positive((b - 1) as nat);
        }
    }
}

/// `pow256` is positive.
proof fn lemma_pow256_positive(n: nat)
    ensures
        pow256(n) >= 1,
    decreases n,
{
    if n > 0 {
        lemma_pow256_positive((n - 1) as nat);
    }
}

/// When one more logical byte `b` has been produced, folding it into
/// the collected prefix preserves the invariant of `read_encoded`.
proof fn lemma_prepend_step(orig: Seq<u8>, pre: Seq<u8>, b: u8, rest: Seq<u8>, count: nat)
    requires
        count > 0,
        spec_unescape(orig, pre.len() + count) == spec_prepend(
            pre,
            spec_prepend(seq![b], spec_unescape(rest, (count - 1) as nat)),
        ),
    ensures
        spec_unescape(orig, pre.len() + count) == spec_prepend(
            pre + seq![b],
            spec_unescape(rest, (count - 1) as nat),
        ),
{
    match spec_unescape(rest, (count - 1) as nat) {
        Ok(p) => {
            assert(pre + (seq![b] + p.0) =~= (pre + seq![b]) + p.0);
        },
        Err(_) => (),
    }
}

} // verus!
