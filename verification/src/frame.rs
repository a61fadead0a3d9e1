//! One WebSocket data frame, written and read.
//!
//! RFC 6455 framing, the subset a one-message exchange needs: a single final
//! binary frame. A client masks its payload; a server does not. No control
//! frame (ping, close) is written, and a received one is not told apart.
//!
//! ```text
//! 0x82 | mask bit + 7-bit length | 16- or 64-bit length | mask key | payload
//! ```

use vstd::prelude::*;

use crate::bytes::{append, from_be, push_be};
use crate::clock::reading;

verus! {

/// FIN set, opcode 2 (binary).
pub const FIN_BINARY: u8 = 0x82;

/// The top bit of the second byte: the payload is masked.
pub const MASK_BIT: u8 = 0x80;

/// The 7-bit length field's escape value for a 16-bit length to come.
pub const LEN_16: u8 = 126;

/// The 7-bit length field's escape value for a 64-bit length to come.
pub const LEN_64: u8 = 127;

/// The 7-bit length field that announces a payload of `length` bytes.
pub open spec fn seven_bits(length: nat) -> u8 {
    if length < 126 {
        length as u8
    } else if length <= 0xffff {
        LEN_16
    } else {
        LEN_64
    }
}

/// The extended length that follows the 7-bit field, empty where that field
/// says it all.
pub open spec fn extension(length: nat) -> Seq<u8> {
    if length < 126 {
        Seq::empty()
    } else if length <= 0xffff {
        crate::bytes::be_bytes(length, 2)
    } else {
        crate::bytes::be_bytes(length, 8)
    }
}

/// `payload` with byte `i` xored with byte `i % 4` of the key.
pub open spec fn apply_mask(payload: Seq<u8>, key: Seq<u8>) -> Seq<u8> {
    Seq::new(payload.len(), |i: int| payload[i] ^ key[i % 4])
}

/// What was sent as `carried`, masked under the key if there is one.
pub open spec fn unmasked(carried: Seq<u8>, key: Option<[u8; 4]>) -> Seq<u8> {
    match key {
        Some(key) => apply_mask(carried, key@),
        None => carried,
    }
}

/// The frame that carries `payload`, masked under the key if there is one.
pub open spec fn frame_bytes(payload: Seq<u8>, key: Option<[u8; 4]>) -> Seq<u8> {
    let seven = seven_bits(payload.len());
    match key {
        Some(key) => seq![FIN_BINARY, (MASK_BIT + seven) as u8] + extension(payload.len()) + key@
            + apply_mask(payload, key@),
        None => seq![FIN_BINARY, seven] + extension(payload.len()) + payload,
    }
}

/// What a reader was reading when its input ended.
#[derive(Clone, Copy, Debug, PartialEq, Eq, Structural)]
pub enum ReadStep {
    Header,
    ExtendedLength,
    MaskKey,
    Payload,
}

impl ReadStep {
    /// The step in words.
    pub open spec fn words(self) -> Seq<char> {
        match self {
            ReadStep::Header => "reading a frame header"@,
            ReadStep::ExtendedLength => "reading the extended length"@,
            ReadStep::MaskKey => "reading the mask key"@,
            ReadStep::Payload => "reading the frame payload"@,
        }
    }

    /// The step in words.
    pub fn describe(&self) -> (text: &'static str)
        ensures
            text@ == self.words(),
    {
        match self {
            ReadStep::Header => "reading a frame header",
            ReadStep::ExtendedLength => "reading the extended length",
            ReadStep::MaskKey => "reading the mask key",
            ReadStep::Payload => "reading the frame payload",
        }
    }
}

/// A frame that claims a payload of `length` bytes, to a reader that takes no
/// more than `limit`.
#[derive(Clone, Copy, Debug, PartialEq, Eq, Structural)]
pub struct TooLong {
    pub length: usize,
    pub limit: usize,
}

/// Why no payload came out of a frame.
#[derive(Clone, Copy, Debug, PartialEq, Eq, Structural)]
pub enum FrameError {
    /// The input ended in the middle of this step.
    Ended(ReadStep),
    /// The frame claims more bytes than the reader takes.
    TooLong(TooLong),
}

/// A payload and the number of input bytes that its frame took, or why not.
pub type Decoded = Result<(Seq<u8>, nat), FrameError>;

/// `decoded`, where `skipped` more bytes had been taken before.
pub open spec fn after(skipped: nat, decoded: Decoded) -> Decoded {
    match decoded {
        Ok((payload, taken)) => Ok((payload, skipped + taken)),
        Err(e) => Err(e),
    }
}

/// What `input` holds from the payload on.
pub open spec fn decode_payload(key: Option<[u8; 4]>, length: nat, input: Seq<u8>) -> Decoded {
    if input.len() < length {
        Err(FrameError::Ended(ReadStep::Payload))
    } else {
        Ok((unmasked(input.take(length as int), key), length))
    }
}

/// What `input` holds from the mask key on.
pub open spec fn decode_key(length: nat, input: Seq<u8>) -> Decoded {
    if input.len() < 4 {
        Err(FrameError::Ended(ReadStep::MaskKey))
    } else {
        after(
            4,
            decode_payload(
                Some([input[0], input[1], input[2], input[3]]),
                length,
                input.skip(4),
            ),
        )
    }
}

/// A declared length as the machine can hold it.
pub open spec fn clamped(declared: nat) -> usize {
    if declared > usize::MAX {
        usize::MAX
    } else {
        declared as usize
    }
}

/// What `input` holds once the length is known.
pub open spec fn decode_body(masked: bool, declared: nat, limit: usize, input: Seq<u8>) -> Decoded {
    let length = clamped(declared);
    if length > limit {
        Err(FrameError::TooLong(TooLong { length, limit }))
    } else if masked {
        decode_key(length as nat, input)
    } else {
        decode_payload(None, length as nat, input)
    }
}

/// What `input` holds from an extended length of `width` bytes on.
pub open spec fn decode_extended(masked: bool, width: nat, limit: usize, input: Seq<u8>) -> Decoded {
    if input.len() < width {
        Err(FrameError::Ended(ReadStep::ExtendedLength))
    } else {
        after(
            width,
            decode_body(
                masked,
                crate::bytes::be_value(input.take(width as int)),
                limit,
                input.skip(width as int),
            ),
        )
    }
}

/// What the frame at the start of `input` carries, to a reader that takes
/// payloads of up to `limit` bytes. The first byte is not looked at.
pub open spec fn decode(input: Seq<u8>, limit: usize) -> Decoded {
    if input.len() < 2 {
        Err(FrameError::Ended(ReadStep::Header))
    } else {
        let masked = input[1] >= MASK_BIT;
        let seven = input[1] % MASK_BIT;
        let rest = input.skip(2);
        after(
            2,
            if seven == LEN_16 {
                decode_extended(masked, 2, limit, rest)
            } else if seven == LEN_64 {
                decode_extended(masked, 8, limit, rest)
            } else {
                decode_body(masked, seven as nat, limit, rest)
            },
        )
    }
}

/// `payload` masked under `key`, or unmasked: it is the same operation.
pub fn mask(payload: &[u8], key: [u8; 4]) -> (masked: Vec<u8>)
    ensures
        masked@ == apply_mask(payload@, key@),
{
    let mut masked: Vec<u8> = Vec::new();
    let mut i: usize = 0;
    while i < payload.len()
        invariant
            i <= payload@.len(),
            masked@ == apply_mask(payload@, key@).take(i as int),
        decreases payload@.len() - i,
    {
        masked.push(payload[i] ^ key[i % 4]);
        i = i + 1;
        assert(masked@ =~= apply_mask(payload@, key@).take(i as int));
    }
    assert(masked@ =~= apply_mask(payload@, key@));
    masked
}

/// One binary frame that carries `payload`, masked under the key if there is
/// one.
pub fn encode(payload: &[u8], key: Option<[u8; 4]>) -> (frame: Vec<u8>)
    ensures
        frame@ == frame_bytes(payload@, key),
{
    let mut frame: Vec<u8> = Vec::new();
    frame.push(FIN_BINARY);

    let flag: u8 = if key.is_some() { MASK_BIT } else { 0 };
    let len: usize = payload.len();
    if len < 126 {
        frame.push(flag + len as u8);
    } else if len <= 0xffff {
        frame.push(flag + LEN_16);
        push_be(&mut frame, len as u64, 2);
    } else {
        frame.push(flag + LEN_64);
        push_be(&mut frame, len as u64, 8);
    }
    let ghost seven = seven_bits(len as nat);
    assert(frame@ =~= seq![FIN_BINARY, (flag + seven) as u8] + extension(len as nat));

    match key {
        Some(key) => {
            append(&mut frame, key.as_slice());
            append(&mut frame, mask(payload, key).as_slice());
        },
        None => append(&mut frame, payload),
    }
    frame
}

/// The clock's nanoseconds as a mask key, a fixed key where the clock says
/// nothing.
pub open spec fn key_at(elapsed: Option<(u64, u32)>) -> Seq<u8> {
    match elapsed {
        Some((_, nanos)) => crate::bytes::be_bytes(nanos as nat, 4),
        None => seq![0x12u8, 0x34u8, 0x56u8, 0x78u8],
    }
}

/// The mask key for a clock reading.
pub fn mask_key_at(elapsed: Option<(u64, u32)>) -> (key: [u8; 4])
    ensures
        key@ == key_at(elapsed),
{
    let nanos: u32 = match elapsed {
        Some((_, nanos)) => nanos,
        None => 0x1234_5678,
    };
    let mut spelled: Vec<u8> = Vec::new();
    push_be(&mut spelled, nanos as u64, 4);
    proof {
        crate::bytes::lemma_be_bytes_len(nanos as nat, 4);
        if elapsed is None {
            reveal_with_fuel(crate::bytes::be_bytes, 5);
            assert(spelled@ =~= key_at(elapsed));
        }
    }
    let key: [u8; 4] = [spelled[0], spelled[1], spelled[2], spelled[3]];
    assert(key@ =~= spelled@);
    key
}

/// Four bytes of non-secret mask key from the clock. Masking exists to keep
/// intermediaries from mistaking payload for framing, not to hide anything, so
/// the key need only vary.
pub fn mask_key() -> (key: [u8; 4])
    ensures
        exists|elapsed: Option<(u64, u32)>|
            crate::clock::is_reading(elapsed) && key@ == #[trigger] key_at(elapsed),
{
    let elapsed = reading();
    mask_key_at(elapsed)
}

/// Append `payload` to `stream` as one binary frame. `masked` is true from a
/// client, false from a server.
pub fn write(stream: &mut Vec<u8>, payload: &[u8], masked: bool)
    ensures
        !masked ==> final(stream)@ == old(stream)@ + frame_bytes(payload@, None),
        masked ==> exists|key: [u8; 4], elapsed: Option<(u64, u32)>|
            crate::clock::is_reading(elapsed) && key@ == #[trigger] key_at(elapsed)
                && final(stream)@ == old(stream)@ + #[trigger] frame_bytes(payload@, Some(key)),
{
    let key: Option<[u8; 4]> = if masked {
        Some(mask_key())
    } else {
        None
    };
    append(stream, encode(payload, key).as_slice());
}

/// The payload length that a frame declares, where it is within the limit. A
/// length that the machine cannot hold counts as the greatest that it can.
pub fn payload_length(declared: u64, limit: usize) -> (r: Result<usize, TooLong>)
    ensures
        match r {
            Ok(length) => length == clamped(declared as nat) && length <= limit,
            Err(e) => e == (TooLong { length: clamped(declared as nat), limit }) && e.length > limit,
        },
{
    let length: usize = if declared > usize::MAX as u64 {
        usize::MAX
    } else {
        declared as usize
    };
    if length > limit {
        Err(TooLong { length, limit })
    } else {
        Ok(length)
    }
}

/// A frame read piece by piece: what is still to come.
///
/// A reader says how many bytes it needs next ([`FrameReader::need`]) and for
/// what ([`FrameReader::step`]), and takes exactly those
/// ([`FrameReader::feed`]).
#[derive(Clone, Copy, Debug)]
pub enum FrameReader {
    /// The two bytes that every frame starts with.
    Header { limit: usize },
    /// The extended length: 64 bits where `wide`, 16 where not.
    ExtendedLength { limit: usize, masked: bool, wide: bool },
    /// The mask key of a payload of `length` bytes.
    MaskKey { length: usize },
    /// The payload.
    Payload { key: Option<[u8; 4]>, length: usize },
}

/// What a reader has after one more piece.
#[derive(Debug)]
pub enum Progress {
    /// The frame goes on.
    More(FrameReader),
    /// The frame is complete; this is its payload.
    Complete(Vec<u8>),
}

impl FrameReader {
    /// How many bytes the next piece has.
    pub open spec fn needed(self) -> nat {
        match self {
            FrameReader::Header { .. } => 2,
            FrameReader::ExtendedLength { wide, .. } => if wide {
                8
            } else {
                2
            },
            FrameReader::MaskKey { .. } => 4,
            FrameReader::Payload { length, .. } => length as nat,
        }
    }

    /// What the next piece is.
    pub open spec fn stage(self) -> ReadStep {
        match self {
            FrameReader::Header { .. } => ReadStep::Header,
            FrameReader::ExtendedLength { .. } => ReadStep::ExtendedLength,
            FrameReader::MaskKey { .. } => ReadStep::MaskKey,
            FrameReader::Payload { .. } => ReadStep::Payload,
        }
    }

    /// How many stages of a frame may still come after this one.
    pub open spec fn stages_left(self) -> nat {
        match self {
            FrameReader::Header { .. } => 3,
            FrameReader::ExtendedLength { .. } => 2,
            FrameReader::MaskKey { .. } => 1,
            FrameReader::Payload { .. } => 0,
        }
    }

    /// What the rest of the frame carries, where `input` is what follows.
    #[verifier::opaque]
    pub open spec fn outcome(self, input: Seq<u8>) -> Decoded {
        match self {
            FrameReader::Header { limit } => decode(input, limit),
            FrameReader::ExtendedLength { limit, masked, .. } => decode_extended(
                masked,
                self.needed(),
                limit,
                input,
            ),
            FrameReader::MaskKey { length } => decode_key(length as nat, input),
            FrameReader::Payload { key, length } => decode_payload(key, length as nat, input),
        }
    }

    /// The reader that comes next, once the frame has declared its length; a
    /// length over the limit is refused.
    pub open spec fn settled(masked: bool, declared: nat, limit: usize) -> Result<
        FrameReader,
        TooLong,
    > {
        let length = clamped(declared);
        if length > limit {
            Err(TooLong { length, limit })
        } else if masked {
            Ok(FrameReader::MaskKey { length })
        } else {
            Ok(FrameReader::Payload { key: None, length })
        }
    }

    /// The reader that comes after `piece`, where that is not the payload.
    pub open spec fn next(self, piece: Seq<u8>) -> Result<FrameReader, TooLong> {
        match self {
            FrameReader::Header { limit } => {
                let masked = piece[1] >= MASK_BIT;
                let seven = piece[1] % MASK_BIT;
                if seven == LEN_16 || seven == LEN_64 {
                    Ok(FrameReader::ExtendedLength { limit, masked, wide: seven == LEN_64 })
                } else {
                    Self::settled(masked, seven as nat, limit)
                }
            },
            FrameReader::ExtendedLength { limit, masked, .. } => Self::settled(
                masked,
                crate::bytes::be_value(piece),
                limit,
            ),
            FrameReader::MaskKey { length } => Ok(
                FrameReader::Payload {
                    key: Some([piece[0], piece[1], piece[2], piece[3]]),
                    length,
                },
            ),
            FrameReader::Payload { .. } => Ok(self),
        }
    }

    /// A reader at the start of a frame, which refuses payloads of more than
    /// `limit` bytes.
    pub fn new(limit: usize) -> (reader: FrameReader)
        ensures
            reader == (FrameReader::Header { limit }),
    {
        FrameReader::Header { limit }
    }

    /// How many bytes to read next.
    pub fn need(&self) -> (n: usize)
        ensures
            n == self.needed(),
    {
        match self {
            FrameReader::Header { .. } => 2,
            FrameReader::ExtendedLength { wide, .. } => if *wide {
                8
            } else {
                2
            },
            FrameReader::MaskKey { .. } => 4,
            FrameReader::Payload { length, .. } => *length,
        }
    }

    /// What the bytes to read next are.
    pub fn step(&self) -> (step: ReadStep)
        ensures
            step == self.stage(),
    {
        match self {
            FrameReader::Header { .. } => ReadStep::Header,
            FrameReader::ExtendedLength { .. } => ReadStep::ExtendedLength,
            FrameReader::MaskKey { .. } => ReadStep::MaskKey,
            FrameReader::Payload { .. } => ReadStep::Payload,
        }
    }

    /// The reader that comes next, once the frame has declared its length.
    fn settle(masked: bool, declared: u64, limit: usize) -> (next: Result<FrameReader, TooLong>)
        ensures
            next == Self::settled(masked, declared as nat, limit),
    {
        match payload_length(declared, limit) {
            Ok(length) => if masked {
                Ok(FrameReader::MaskKey { length })
            } else {
                Ok(FrameReader::Payload { key: None, length })
            },
            Err(e) => Err(e),
        }
    }

    /// Take the bytes that were needed.
    pub fn feed(self, piece: &[u8]) -> (progress: Result<Progress, TooLong>)
        requires
            piece@.len() == self.needed(),
        ensures
            match progress {
                Ok(Progress::Complete(payload)) => {
                    &&& self matches FrameReader::Payload { key, .. }
                    &&& payload@ == unmasked(piece@, key)
                },
                Ok(Progress::More(next)) => {
                    &&& !(self is Payload)
                    &&& self.next(piece@) == Ok::<FrameReader, TooLong>(next)
                },
                Err(e) => self.next(piece@) == Err::<FrameReader, TooLong>(e),
            },
    {
        let next: Result<FrameReader, TooLong> = match self {
            FrameReader::Header { limit } => {
                let masked = piece[1] >= MASK_BIT;
                let seven: u8 = piece[1] % MASK_BIT;
                if seven == LEN_16 || seven == LEN_64 {
                    Ok(FrameReader::ExtendedLength { limit, masked, wide: seven == LEN_64 })
                } else {
                    Self::settle(masked, seven as u64, limit)
                }
            },
            FrameReader::ExtendedLength { limit, masked, .. } => Self::settle(
                masked,
                from_be(piece),
                limit,
            ),
            FrameReader::MaskKey { length } => Ok(
                FrameReader::Payload {
                    key: Some([piece[0], piece[1], piece[2], piece[3]]),
                    length,
                },
            ),
            FrameReader::Payload { key, .. } => {
                let payload: Vec<u8> = match key {
                    Some(key) => mask(piece, key),
                    None => vstd::slice::slice_to_vec(piece),
                };
                return Ok(Progress::Complete(payload));
            },
        };
        match next {
            Ok(reader) => Ok(Progress::More(reader)),
            Err(e) => Err(e),
        }
    }
}

/// What a new reader makes of its input is what the input holds.
pub proof fn law_new_reader_decodes(input: Seq<u8>, limit: usize)
    ensures
        (FrameReader::Header { limit }).outcome(input) == decode(input, limit),
{
    reveal(FrameReader::outcome);
}

/// A reader that takes a piece goes on as if it had had the whole input.
pub proof fn law_reading_in_pieces(reader: FrameReader, piece: Seq<u8>, rest: Seq<u8>)
    requires
        !(reader is Payload),
        piece.len() == reader.needed(),
    ensures
        reader.outcome(piece + rest) == (match reader.next(piece) {
            Ok(next) => after(piece.len(), next.outcome(rest)),
            Err(e) => Err(FrameError::TooLong(e)),
        }),
{
    reveal(FrameReader::outcome);
    let input = piece + rest;
    assert(input.skip(piece.len() as int) =~= rest);
    assert(input.take(piece.len() as int) =~= piece);
    if reader is Header {
        assert(input[1] == piece[1]);
    }
}

/// A reader whose input ends before its piece does says so.
pub proof fn law_input_ends_in_a_piece(reader: FrameReader, input: Seq<u8>)
    requires
        input.len() < reader.needed(),
    ensures
        reader.outcome(input) == Err::<(Seq<u8>, nat), FrameError>(
            FrameError::Ended(reader.stage()),
        ),
{
    reveal(FrameReader::outcome);
}

/// A payload comes out as it was sent, under the key that it was sent with.
pub proof fn law_payload_completes_a_frame(
    key: Option<[u8; 4]>,
    length: usize,
    piece: Seq<u8>,
    rest: Seq<u8>,
)
    requires
        piece.len() == length,
    ensures
        (FrameReader::Payload { key, length }).outcome(piece + rest) == Ok::<
            (Seq<u8>, nat),
            FrameError,
        >((unmasked(piece, key), length as nat)),
{
    reveal(FrameReader::outcome);
    assert((piece + rest).take(length as int) =~= piece);
}

/// Read the frame at the start of `input`: its payload, unmasked if the sender
/// masked it, and the number of bytes that the frame took.
pub fn read(input: &[u8], limit: usize) -> (r: Result<(Vec<u8>, usize), FrameError>)
    ensures
        match r {
            Ok((payload, taken)) => decode(input@, limit) == Ok::<(Seq<u8>, nat), FrameError>(
                (payload@, taken as nat),
            ),
            Err(e) => decode(input@, limit) == Err::<(Seq<u8>, nat), FrameError>(e),
        },
{
    let mut reader = FrameReader::new(limit);
    let mut at: usize = 0;
    proof {
        law_new_reader_decodes(input@, limit);
        assert(input@.skip(0) =~= input@);
    }
    loop
        invariant
            at <= input@.len(),
            decode(input@, limit) == after(at as nat, reader.outcome(input@.skip(at as int))),
        decreases reader.stages_left(),
    {
        let n: usize = reader.need();
        let ghost left = input@.skip(at as int);
        if input.len() - at < n {
            proof {
                law_input_ends_in_a_piece(reader, left);
            }
            return Err(FrameError::Ended(reader.step()));
        }
        let piece = vstd::slice::slice_subrange(input, at, at + n);
        let ghost rest = input@.skip(at + n);
        proof {
            assert(left =~= piece@ + rest);
            match reader {
                FrameReader::Payload { key, length } => {
                    law_payload_completes_a_frame(key, length, piece@, rest);
                },
                _ => law_reading_in_pieces(reader, piece@, rest),
            }
        }
        match reader.feed(piece) {
            Ok(Progress::More(next)) => {
                reader = next;
                at = at + n;
            },
            Ok(Progress::Complete(payload)) => {
                return Ok((payload, at + n));
            },
            Err(e) => {
                return Err(FrameError::TooLong(e));
            },
        }
    }
}

/// Masking twice under one key gives the payload back.
pub proof fn law_unmasking_undoes_masking(payload: Seq<u8>, key: Seq<u8>)
    ensures
        apply_mask(apply_mask(payload, key), key) == payload,
{
    assert forall|i: int| 0 <= i < payload.len() implies apply_mask(
        apply_mask(payload, key),
        key,
    )[i] == payload[i] by {
        let b = payload[i];
        let k = key[i % 4];
        assert((b ^ k) ^ k == b) by (bit_vector);
    }
    assert(apply_mask(apply_mask(payload, key), key) =~= payload);
}

/// How long a frame is: two bytes, the extended length, the key if there is
/// one, and the payload.
pub open spec fn frame_length(payload: nat, masked: bool) -> nat {
    2 + (if payload < 126 {
        0nat
    } else if payload <= 0xffff {
        2nat
    } else {
        8nat
    }) + (if masked {
        4nat
    } else {
        0nat
    }) + payload
}

/// A frame starts with the binary opcode, sets the mask bit exactly where it
/// is masked, and is as long as its parts.
pub proof fn law_frame_layout(payload: Seq<u8>, key: Option<[u8; 4]>)
    ensures
        frame_bytes(payload, key).len() == frame_length(payload.len(), key is Some),
        frame_bytes(payload, key)[0] == FIN_BINARY,
        frame_bytes(payload, key)[1] >= MASK_BIT <==> key is Some,
        frame_bytes(payload, key)[1] % MASK_BIT == seven_bits(payload.len()),
{
    crate::bytes::lemma_be_bytes_len(payload.len(), 2);
    crate::bytes::lemma_be_bytes_len(payload.len(), 8);
}

/// From the mask key on, a frame is decoded as it was written.
proof fn lemma_body_decodes(payload: Seq<u8>, key: Option<[u8; 4]>, limit: usize, rest: Seq<u8>)
    requires
        payload.len() <= limit,
    ensures
        decode_body(
            key is Some,
            payload.len(),
            limit,
            body_bytes(payload, key, rest),
        ) == Ok::<(Seq<u8>, nat), FrameError>(
            (
                payload,
                payload.len() + if key is Some {
                    4nat
                } else {
                    0nat
                },
            ),
        ),
{
    match key {
        Some(k) => {
            let hidden = apply_mask(payload, k@);
            let input = k@ + hidden + rest;
            let read_key = [input[0], input[1], input[2], input[3]];
            assert(read_key@ =~= k@);
            assert(input.skip(4) =~= hidden + rest);
            assert((hidden + rest).take(payload.len() as int) =~= hidden);
            law_unmasking_undoes_masking(payload, k@);
        },
        None => {
            assert((payload + rest).take(payload.len() as int) =~= payload);
        },
    }
}

/// A header that announces `length` leads to the body, with that length.
proof fn lemma_header_decodes(masked: bool, length: nat, limit: usize, body: Seq<u8>)
    requires
        length < crate::bytes::span(8),
    ensures
        decode(
            seq![
                FIN_BINARY,
                (seven_bits(length) + if masked {
                    MASK_BIT
                } else {
                    0
                }) as u8,
            ] + extension(length) + body,
            limit,
        ) == after(2 + extension(length).len(), decode_body(masked, length, limit, body)),
{
    let second = (seven_bits(length) + if masked {
        MASK_BIT
    } else {
        0
    }) as u8;
    let ext = extension(length);
    let input = seq![FIN_BINARY, second] + ext + body;
    assert(input[1] == second);
    assert(second >= MASK_BIT <==> masked);
    assert(second % MASK_BIT == seven_bits(length));
    let rest = input.skip(2);
    assert(rest =~= ext + body);
    assert(rest.take(ext.len() as int) =~= ext);
    assert(rest.skip(ext.len() as int) =~= body);
    crate::bytes::lemma_spans();
    if length < 126 {
        assert(rest =~= body);
    } else if length <= 0xffff {
        crate::bytes::lemma_be_bytes_len(length, 2);
        crate::bytes::lemma_be_value_of_be_bytes(length, 2);
        assert(decode_extended(masked, 2, limit, rest) == after(
            2,
            decode_body(masked, length, limit, body),
        ));
    } else {
        crate::bytes::lemma_be_bytes_len(length, 8);
        crate::bytes::lemma_be_value_of_be_bytes(length, 8);
        assert(decode_extended(masked, 8, limit, rest) == after(
            8,
            decode_body(masked, length, limit, body),
        ));
    }
}

/// What follows the length in a frame, with what comes after the frame.
spec fn body_bytes(payload: Seq<u8>, key: Option<[u8; 4]>, rest: Seq<u8>) -> Seq<u8> {
    (match key {
        Some(key) => key@ + apply_mask(payload, key@),
        None => payload,
    }) + rest
}

/// The header of a frame leads to its body.
proof fn lemma_frame_decodes(payload: Seq<u8>, key: Option<[u8; 4]>, limit: usize, rest: Seq<u8>)
    requires
        payload.len() < crate::bytes::span(8),
    ensures
        decode(frame_bytes(payload, key) + rest, limit) == after(
            2 + extension(payload.len()).len(),
            decode_body(key is Some, payload.len(), limit, body_bytes(payload, key, rest)),
        ),
{
    let body = body_bytes(payload, key, rest);
    let ext = extension(payload.len());
    lemma_header_decodes(key is Some, payload.len(), limit, body);
    let second = (seven_bits(payload.len()) + if key is Some {
        MASK_BIT
    } else {
        0
    }) as u8;
    let start = seq![FIN_BINARY, second];
    match key {
        Some(key) => lemma_regroup(start + ext, key@, apply_mask(payload, key@), rest),
        None => lemma_regroup(start + ext, Seq::empty(), payload, rest),
    }
}

/// Concatenation does not mind how it is grouped.
proof fn lemma_regroup(a: Seq<u8>, b: Seq<u8>, c: Seq<u8>, d: Seq<u8>)
    ensures
        a + b + c + d == a + (b + c + d),
        a + c + d == a + (c + d),
{
    assert(a + b + c + d =~= a + (b + c + d));
    assert(a + c + d =~= a + (c + d));
}

/// A frame reads back as it was written, masked or not, under every key, and
/// nothing after it is touched.
pub proof fn law_frame_reads_back(
    payload: Seq<u8>,
    key: Option<[u8; 4]>,
    limit: usize,
    rest: Seq<u8>,
)
    requires
        payload.len() <= limit,
    ensures
        decode(frame_bytes(payload, key) + rest, limit) == Ok::<(Seq<u8>, nat), FrameError>(
            (payload, frame_bytes(payload, key).len()),
        ),
{
    crate::bytes::lemma_spans();
    law_frame_layout(payload, key);
    crate::bytes::lemma_be_bytes_len(payload.len(), 2);
    crate::bytes::lemma_be_bytes_len(payload.len(), 8);
    lemma_frame_decodes(payload, key, limit, rest);
    lemma_body_decodes(payload, key, limit, rest);
}

/// A frame that carries more than the reader takes is refused, with the length
/// that it claimed.
pub proof fn law_long_frame_is_refused(
    payload: Seq<u8>,
    key: Option<[u8; 4]>,
    limit: usize,
    rest: Seq<u8>,
)
    requires
        limit < payload.len() <= usize::MAX,
    ensures
        decode(frame_bytes(payload, key) + rest, limit) == Err::<(Seq<u8>, nat), FrameError>(
            FrameError::TooLong(TooLong { length: payload.len() as usize, limit }),
        ),
{
    crate::bytes::lemma_spans();
    lemma_frame_decodes(payload, key, limit, rest);
}

/// What was read of an input stays read of every longer one; a frame over the
/// limit stays refused. Only an input that ended can turn out otherwise.
pub proof fn law_more_input_changes_nothing(input: Seq<u8>, rest: Seq<u8>, limit: usize)
    ensures
        match decode(input, limit) {
            Ok((payload, taken)) => taken <= input.len() && decode(input + rest, limit) == decode(
                input,
                limit,
            ),
            Err(FrameError::TooLong(_)) => decode(input + rest, limit) == decode(input, limit),
            Err(FrameError::Ended(_)) => true,
        },
{
    lemma_prefix_of_reader(FrameReader::Header { limit }, input, rest);
    law_new_reader_decodes(input, limit);
    law_new_reader_decodes(input + rest, limit);
}

/// The same, of a reader in the middle of a frame.
proof fn lemma_prefix_of_reader(reader: FrameReader, input: Seq<u8>, rest: Seq<u8>)
    ensures
        match reader.outcome(input) {
            Ok((payload, taken)) => taken <= input.len() && reader.outcome(input + rest)
                == reader.outcome(input),
            Err(FrameError::TooLong(_)) => reader.outcome(input + rest) == reader.outcome(
                input,
            ),
            Err(FrameError::Ended(_)) => true,
        },
    decreases reader.stages_left(),
{
    let n = reader.needed() as int;
    if input.len() < n {
        law_input_ends_in_a_piece(reader, input);
    } else {
        let piece = input.take(n);
        let left = input.skip(n);
        assert(input =~= piece + left);
        assert(input + rest =~= piece + (left + rest));
        match reader {
            FrameReader::Payload { key, length } => {
                law_payload_completes_a_frame(key, length, piece, left);
                law_payload_completes_a_frame(key, length, piece, left + rest);
            },
            _ => {
                law_reading_in_pieces(reader, piece, left);
                law_reading_in_pieces(reader, piece, left + rest);
                if let Ok(next) = reader.next(piece) {
                    lemma_prefix_of_reader(next, left, rest);
                }
            },
        }
    }
}

/// A frame that was cut off, however little is missing, is not read.
pub proof fn law_cut_frame_is_refused(
    payload: Seq<u8>,
    key: Option<[u8; 4]>,
    limit: usize,
    kept: int,
)
    requires
        payload.len() <= limit,
        0 <= kept < frame_bytes(payload, key).len(),
    ensures
        decode(frame_bytes(payload, key).take(kept), limit) matches Err(FrameError::Ended(_)),
{
    let frame = frame_bytes(payload, key);
    law_frame_reads_back(payload, key, limit, Seq::empty());
    assert(frame + Seq::<u8>::empty() =~= frame);
    law_more_input_changes_nothing(frame.take(kept), frame.skip(kept), limit);
    assert(frame.take(kept) + frame.skip(kept) =~= frame);
}

/// Byte `i` of what was masked, xored with byte `i` modulo four of the key, is
/// byte `i` of what it was made from; so it is of what is unmasked, and what was
/// sent without a key comes as it is.
pub proof fn law_each_byte_is_masked_by_its_key_byte(carried: Seq<u8>, key: [u8; 4])
    ensures
        apply_mask(carried, key@).len() == carried.len(),
        unmasked(carried, Some(key)).len() == carried.len(),
        forall|i: int|
            0 <= i < carried.len() ==> #[trigger] apply_mask(carried, key@)[i] ^ key@[i % 4]
                == carried[i],
        forall|i: int|
            0 <= i < carried.len() ==> #[trigger] unmasked(carried, Some(key))[i] ^ key@[i % 4]
                == carried[i],
        unmasked(carried, None) == carried,
{
    assert forall|i: int| 0 <= i < carried.len() implies #[trigger] apply_mask(carried, key@)[i]
        ^ key@[i % 4] == carried[i] by {
        let b = carried[i];
        let k = key@[i % 4];
        assert((b ^ k) ^ k == b) by (bit_vector);
    }
    assert forall|i: int| 0 <= i < carried.len() implies #[trigger] unmasked(
        carried,
        Some(key),
    )[i] ^ key@[i % 4] == carried[i] by {
        assert(unmasked(carried, Some(key))[i] == apply_mask(carried, key@)[i]);
    }
}

/// Every byte of a frame: FIN and opcode 2, the mask bit and the length in its
/// 7 bits or in the 2 or 8 bytes that 126 and 127 announce, the key if there is
/// one, and the payload, byte `i` xored with byte `i` modulo four of the key.
pub proof fn law_every_byte_of_a_frame(payload: Seq<u8>, key: Option<[u8; 4]>)
    ensures
        ({
            let frame = frame_bytes(payload, key);
            let n = payload.len() as int;
            let flag: int = if key is Some { 0x80 } else { 0 };
            let at: int = if n < 126 { 2 } else if n < 0x1_0000 { 4 } else { 10 };
            let body: int = at + (if key is Some { 4int } else { 0 });
            &&& frame.len() == body + n
            &&& frame[0] == 0x82
            &&& frame[1] == flag + (if n < 126 { n } else if n < 0x1_0000 { 126 } else { 127 })
            &&& 126 <= n < 0x1_0000 ==> frame[2] * 0x100 + frame[3] == n
            &&& n >= 0x1_0000 ==> forall|i: int|
                0 <= i < 8 ==> #[trigger] frame.subrange(2, 10)[i] == n
                    / vstd::arithmetic::power::pow(256, (7 - i) as nat) % 256
            &&& key matches Some(k) ==> frame.subrange(at, body) == k@
            &&& key matches Some(k) ==> forall|i: int|
                0 <= i < n ==> #[trigger] frame[body + i] ^ k@[i % 4] == payload[i]
            &&& key is None ==> frame.skip(body) == payload
        }),
{
    let frame = frame_bytes(payload, key);
    let n = payload.len();
    let ext = extension(n);
    let at = 2 + ext.len() as int;
    crate::bytes::law_bytes_are_digits(n, 2);
    crate::bytes::law_bytes_are_digits(n, 8);
    if 126 <= n < 0x1_0000 {
        crate::bytes::lemma_spans();
        crate::bytes::lemma_be_value_of_be_bytes(n, 2);
        reveal_with_fuel(crate::bytes::be_value, 3);
        assert(frame[2] == ext[0] && frame[3] == ext[1]);
    } else if n >= 0x1_0000 {
        assert(frame.subrange(2, 10) =~= ext);
    }
    match key {
        Some(k) => {
            let masked = apply_mask(payload, k@);
            law_each_byte_is_masked_by_its_key_byte(payload, k);
            assert(frame.subrange(at, at + 4) =~= k@);
            assert forall|i: int| 0 <= i < n implies #[trigger] frame[at + 4 + i] ^ k@[i % 4]
                == payload[i] by {
                assert(frame[at + 4 + i] == masked[i]);
            }
        },
        None => {
            assert(frame.skip(at) =~= payload);
        },
    }
}

/// What a reader makes of an input that holds the length of its frame.
///
/// `ext` is how many bytes the extended length takes and `declared` what the
/// frame declares. A length that the machine cannot hold counts as the greatest
/// that it can. The frame is refused where its length is over the limit; where
/// it is not, the input ended in the key or in the payload, or the payload is
/// its bytes, each xored with its byte of the key.
pub proof fn law_what_a_frame_says(input: Seq<u8>, limit: usize, ext: int, declared: int)
    requires
        input.len() >= 2,
        ext == (if input[1] % 128 == 126 {
            2int
        } else if input[1] % 128 == 127 {
            8
        } else {
            0
        }),
        input.len() >= 2 + ext,
        ext == 0 ==> declared == input[1] % 128,
        ext == 2 ==> declared == input[2] * 0x100 + input[3],
        ext == 8 ==> declared == ((((((input[2] * 0x100 + input[3]) * 0x100 + input[4]) * 0x100
            + input[5]) * 0x100 + input[6]) * 0x100 + input[7]) * 0x100 + input[8]) * 0x100
            + input[9],
    ensures
        ({
            let masked = input[1] >= 128;
            let start = 2 + ext + (if masked { 4int } else { 0 });
            let length = if declared <= usize::MAX { declared } else { usize::MAX as int };
            match decode(input, limit) {
                Ok((payload, taken)) => {
                    &&& length <= limit
                    &&& taken == start + length
                    &&& taken <= input.len()
                    &&& payload.len() == length
                    &&& masked ==> forall|i: int|
                        0 <= i < length ==> #[trigger] payload[i] ^ input[2 + ext + i % 4]
                            == input[start + i]
                    &&& !masked ==> payload == input.subrange(start, start + length)
                },
                Err(FrameError::TooLong(e)) => {
                    &&& length > limit
                    &&& e.length == length
                    &&& e.limit == limit
                },
                Err(FrameError::Ended(ReadStep::MaskKey)) => {
                    &&& length <= limit
                    &&& masked
                    &&& input.len() < start
                },
                Err(FrameError::Ended(ReadStep::Payload)) => {
                    &&& length <= limit
                    &&& start <= input.len() < start + length
                },
                Err(FrameError::Ended(_)) => false,
            }
        }),
{
    let rest = input.skip(2);
    let body = input.skip(2 + ext);
    let masked = input[1] >= 128;
    if ext > 0 {
        lemma_extension_read(rest.take(ext));
        assert(rest.skip(ext) =~= body);
    } else {
        assert(rest =~= body);
    }
    assert(decode(input, limit) == after(
        (2 + ext) as nat,
        decode_body(masked, declared as nat, limit, body),
    ));
    lemma_body_says(masked, declared as nat, limit, body);
    if let Ok((payload, taken)) = decode(input, limit) {
        let start = 2 + ext + (if masked { 4int } else { 0 });
        let length = clamped(declared as nat) as int;
        if masked {
            assert forall|i: int| 0 <= i < length implies #[trigger] payload[i] ^ input[2 + ext + i
                % 4] == input[start + i] by {
                assert(body[i % 4] == input[2 + ext + i % 4]);
                assert(body[4 + i] == input[start + i]);
            }
        } else {
            assert(body.subrange(0, length) =~= input.subrange(start, start + length));
        }
    }
}

/// An input that ends before the length of its frame is known says so.
pub proof fn law_input_ends_before_the_length(input: Seq<u8>, limit: usize)
    ensures
        input.len() < 2 ==> decode(input, limit) == Err::<(Seq<u8>, nat), FrameError>(
            FrameError::Ended(ReadStep::Header),
        ),
        input.len() >= 2 && (input[1] % 128 == 126 && input.len() < 4 || input[1] % 128 == 127
            && input.len() < 10) ==> decode(input, limit) == Err::<(Seq<u8>, nat), FrameError>(
            FrameError::Ended(ReadStep::ExtendedLength),
        ),
{
}

/// What two or eight bytes of extended length say.
proof fn lemma_extension_read(ext: Seq<u8>)
    ensures
        ext.len() == 2 ==> crate::bytes::be_value(ext) == ext[0] * 0x100 + ext[1],
        ext.len() == 8 ==> crate::bytes::be_value(ext) == ((((((ext[0] * 0x100 + ext[1]) * 0x100
            + ext[2]) * 0x100 + ext[3]) * 0x100 + ext[4]) * 0x100 + ext[5]) * 0x100 + ext[6])
            * 0x100 + ext[7],
{
    reveal_with_fuel(crate::bytes::be_value, 9);
}

/// What the input says once the length is known.
proof fn lemma_body_says(masked: bool, declared: nat, limit: usize, body: Seq<u8>)
    ensures
        ({
            let length = clamped(declared) as int;
            let start: int = if masked { 4 } else { 0 };
            match decode_body(masked, declared, limit, body) {
                Ok((payload, taken)) => {
                    &&& length <= limit
                    &&& taken == start + length
                    &&& taken <= body.len()
                    &&& payload.len() == length
                    &&& masked ==> forall|i: int|
                        0 <= i < length ==> #[trigger] payload[i] ^ body[i % 4] == body[4 + i]
                    &&& !masked ==> payload == body.subrange(0, length)
                },
                Err(FrameError::TooLong(e)) => length > limit && e.length == length && e.limit
                    == limit,
                Err(FrameError::Ended(ReadStep::MaskKey)) => length <= limit && masked && body.len()
                    < 4,
                Err(FrameError::Ended(ReadStep::Payload)) => length <= limit && start <= body.len()
                    < start + length,
                Err(FrameError::Ended(_)) => false,
            }
        }),
{
    let length = clamped(declared) as int;
    if length <= limit {
        if masked {
            if body.len() >= 4 + length {
                let key = [body[0], body[1], body[2], body[3]];
                let carried = body.skip(4).take(length);
                law_each_byte_is_masked_by_its_key_byte(carried, key);
                assert forall|i: int| 0 <= i < length implies #[trigger] apply_mask(
                    carried,
                    key@,
                )[i] ^ body[i % 4] == body[4 + i] by {
                    assert(key@[i % 4] == body[i % 4]);
                    assert(carried[i] == body[4 + i]);
                }
            }
        } else if body.len() >= length {
            assert(body.take(length) =~= body.subrange(0, length));
        }
    }
}

/// How many bytes a reader needs, and what comes after them: the header tells
/// whether the frame is masked and how long it is, or how long its length is;
/// then comes the key of a masked frame, and then the payload.
pub proof fn law_pieces_of_a_frame(
    limit: usize,
    masked: bool,
    wide: bool,
    length: usize,
    key: Option<[u8; 4]>,
    piece: Seq<u8>,
)
    ensures
        ({
            let header = FrameReader::Header { limit };
            let extended = FrameReader::ExtendedLength { limit, masked, wide };
            let keyed = FrameReader::MaskKey { length };
            let last = FrameReader::Payload { key, length };
            &&& header.needed() == 2
            &&& extended.needed() == (if wide { 8int } else { 2 })
            &&& keyed.needed() == 4
            &&& last.needed() == length
            &&& header.stage() == ReadStep::Header
            &&& extended.stage() == ReadStep::ExtendedLength
            &&& keyed.stage() == ReadStep::MaskKey
            &&& last.stage() == ReadStep::Payload
            &&& piece.len() == 4 ==> (keyed.next(piece) matches Ok(FrameReader::Payload {
                key: Some(k),
                length: l,
            }) && k@ == piece && l == length)
            &&& piece.len() == 2 ==> match header.next(piece) {
                Ok(FrameReader::ExtendedLength { limit: m, masked: b, wide: w }) => m == limit && (b
                    <==> piece[1] >= 128) && piece[1] % 128 == (if w { 127int } else { 126 }),
                Ok(FrameReader::MaskKey { length: l }) => 128 <= piece[1] < 254 && l == piece[1]
                    - 128 && l <= limit,
                Ok(FrameReader::Payload { key: k, length: l }) => piece[1] < 126 && k is None && l
                    == piece[1] && l <= limit,
                Ok(FrameReader::Header { .. }) => false,
                Err(e) => piece[1] % 128 < 126 && e.length == piece[1] % 128 && e.limit == limit
                    && e.length > limit,
            }
        }),
{
    if piece.len() == 4 {
        assert([piece[0], piece[1], piece[2], piece[3]]@ =~= piece);
    }
}

/// What comes after an extended length that says `declared`: as after any other
/// length, a refusal, a key or a payload.
pub proof fn law_extended_length_is_held_to_the_limit(
    limit: usize,
    masked: bool,
    wide: bool,
    piece: Seq<u8>,
    declared: int,
)
    requires
        piece.len() == (if wide { 8int } else { 2 }),
        !wide ==> declared == piece[0] * 0x100 + piece[1],
        wide ==> declared == ((((((piece[0] * 0x100 + piece[1]) * 0x100 + piece[2]) * 0x100
            + piece[3]) * 0x100 + piece[4]) * 0x100 + piece[5]) * 0x100 + piece[6]) * 0x100
            + piece[7],
    ensures
        ({
            let length = if declared <= usize::MAX { declared } else { usize::MAX as int };
            match (FrameReader::ExtendedLength { limit, masked, wide }).next(piece) {
                Ok(FrameReader::MaskKey { length: l }) => masked && l == length && l <= limit,
                Ok(FrameReader::Payload { key: k, length: l }) => !masked && k is None && l
                    == length && l <= limit,
                Ok(_) => false,
                Err(e) => e.length == length && e.limit == limit && e.length > limit,
            }
        }),
{
    lemma_extension_read(piece);
}

/// A mask key spells the nanoseconds of the reading, the most significant byte
/// first, or a fixed number where the clock says nothing.
pub proof fn law_mask_key_spells_the_nanoseconds(elapsed: Option<(u64, u32)>)
    ensures
        key_at(elapsed).len() == 4,
        ((key_at(elapsed)[0] * 0x100 + key_at(elapsed)[1]) * 0x100 + key_at(elapsed)[2]) * 0x100
            + key_at(elapsed)[3] == (match elapsed {
            Some((_, nanos)) => nanos as int,
            None => 0x1234_5678,
        }),
{
    if let Some((_, nanos)) = elapsed {
        crate::bytes::lemma_be_bytes_len(nanos as nat, 4);
        crate::bytes::lemma_spans();
        crate::bytes::lemma_be_value_of_be_bytes(nanos as nat, 4);
        reveal_with_fuel(crate::bytes::be_value, 5);
    }
}

/// Readings with different nanoseconds have different mask keys.
pub proof fn law_mask_keys_differ_with_the_clock(left: (u64, u32), right: (u64, u32))
    requires
        left.1 != right.1,
    ensures
        key_at(Some(left)) != key_at(Some(right)),
{
    law_mask_key_spells_the_nanoseconds(Some(left));
    law_mask_key_spells_the_nanoseconds(Some(right));
}

} // verus!
