//! Framing: each message travels behind a header of a magic number and a length.
use crate::text::{decimal, decimal_spec, joined, law_decimal_reads_back, writes_out};
use vstd::prelude::*;
use vstd::slice::{slice_subrange, slice_to_vec};

verus! {

/// The number that opens every frame, "FOXS" in ASCII.
pub const PROTOCOL_MAGIC: u32 = 0x464F5853;

/// The largest payload of a frame: 64 MiB.
pub const MAX_FRAME_SIZE: usize = 64 * 1024 * 1024;

/// The length of a frame's header.
pub const HEADER_SIZE: usize = 8;

/// Why a frame cannot be written or read.
#[derive(Clone, Copy, Debug, PartialEq, Eq, Structural)]
pub enum FrameError {
    /// The payload to be sent is larger than a frame may be.
    TooLarge,
    /// The header does not begin with the magic number.
    InvalidMagic,
    /// The header announces a payload that is larger than a frame may be.
    Oversized(u32),
}

/// What is said of a framing error.
pub open spec fn frame_error_text(error: FrameError) -> Seq<char> {
    match error {
        FrameError::TooLarge => "frame too large"@,
        FrameError::InvalidMagic => "invalid protocol magic"@,
        FrameError::Oversized(len) => "frame too large: "@ + decimal_spec(len as nat) + " bytes"@,
    }
}

impl FrameError {
    /// The error in words.
    pub fn message(&self) -> (text: String)
        ensures
            text@ == frame_error_text(*self),
    {
        match self {
            FrameError::TooLarge => "frame too large".to_owned(),
            FrameError::InvalidMagic => "invalid protocol magic".to_owned(),
            FrameError::Oversized(len) => joined(
                joined("frame too large: ", decimal(*len as u64).as_str()).as_str(),
                " bytes",
            ),
        }
    }
}

/// A number of 32 bits as four bytes, the highest first.
pub open spec fn be_bytes(n: u32) -> Seq<u8> {
    seq![
        (n as int / 0x1000000) as u8,
        (n as int / 0x10000 % 0x100) as u8,
        (n as int / 0x100 % 0x100) as u8,
        (n as int % 0x100) as u8,
    ]
}

/// The number that four bytes from position `i` on stand for, the highest first.
pub open spec fn be_value(bytes: Seq<u8>, i: int) -> int {
    bytes[i] * 0x1000000 + bytes[i + 1] * 0x10000 + bytes[i + 2] * 0x100 + bytes[i + 3]
}

/// The frame around a payload.
pub open spec fn frame_spec(payload: Seq<u8>) -> Seq<u8> {
    be_bytes(PROTOCOL_MAGIC) + be_bytes(payload.len() as u32) + payload
}

fn push_be(out: &mut Vec<u8>, n: u32)
    ensures
        final(out)@ == old(out)@ + be_bytes(n),
{
    out.push((n / 0x1000000) as u8);
    out.push((n / 0x10000 % 0x100) as u8);
    out.push((n / 0x100 % 0x100) as u8);
    out.push((n % 0x100) as u8);
    assert(out@ =~= old(out)@ + be_bytes(n));
}

fn read_be(bytes: &[u8], i: usize) -> (n: u32)
    requires
        i + 4 <= bytes@.len(),
    ensures
        n == be_value(bytes@, i as int),
{
    bytes[i] as u32 * 0x1000000 + bytes[i + 1] as u32 * 0x10000 + bytes[i + 2] as u32 * 0x100
        + bytes[i + 3] as u32
}

/// Puts a payload in a frame. A payload above the limit is refused.
pub fn write_frame(payload: &[u8]) -> (res: Result<Vec<u8>, FrameError>)
    ensures
        match res {
            Ok(frame) => payload@.len() <= MAX_FRAME_SIZE && frame@ == frame_spec(payload@),
            Err(error) => payload@.len() > MAX_FRAME_SIZE && error == FrameError::TooLarge,
        },
{
    if payload.len() > MAX_FRAME_SIZE {
        return Err(FrameError::TooLarge);
    }
    let mut frame: Vec<u8> = Vec::with_capacity(HEADER_SIZE + payload.len());
    push_be(&mut frame, PROTOCOL_MAGIC);
    push_be(&mut frame, payload.len() as u32);
    frame.extend_from_slice(payload);
    assert(frame@ =~= frame_spec(payload@));
    Ok(frame)
}

/// Where the reading of a frame stands.
#[derive(Debug, PartialEq, Eq)]
pub enum FrameStep {
    /// So many more bytes have to be received before anything can be decided.
    Need(usize),
    /// The frame is complete, and this is its payload.
    Payload(Vec<u8>),
    /// The header is not acceptable.
    Bad(FrameError),
}

/// The mathematical value of a [`FrameStep`].
#[verifier::ext_equal]
pub enum FrameStepView {
    Need(int),
    Payload(Seq<u8>),
    Bad(FrameError),
}

impl View for FrameStep {
    type V = FrameStepView;

    open spec fn view(&self) -> FrameStepView {
        match self {
            FrameStep::Need(count) => FrameStepView::Need(*count as int),
            FrameStep::Payload(payload) => FrameStepView::Payload(payload@),
            FrameStep::Bad(error) => FrameStepView::Bad(*error),
        }
    }
}

/// What the bytes received so far tell of the frame that they begin.
pub open spec fn read_frame_spec(received: Seq<u8>) -> FrameStepView {
    if received.len() < HEADER_SIZE {
        FrameStepView::Need(HEADER_SIZE - received.len())
    } else if be_value(received, 0) != PROTOCOL_MAGIC {
        FrameStepView::Bad(FrameError::InvalidMagic)
    } else if be_value(received, 4) > MAX_FRAME_SIZE {
        FrameStepView::Bad(FrameError::Oversized(be_value(received, 4) as u32))
    } else if received.len() < HEADER_SIZE + be_value(received, 4) {
        FrameStepView::Need(HEADER_SIZE + be_value(received, 4) - received.len())
    } else {
        FrameStepView::Payload(
            received.subrange(HEADER_SIZE as int, HEADER_SIZE + be_value(received, 4)),
        )
    }
}

/// Reads the frame that begins with the bytes received so far.
pub fn read_frame(received: &[u8]) -> (step: FrameStep)
    ensures
        step@ == read_frame_spec(received@),
{
    if received.len() < HEADER_SIZE {
        return FrameStep::Need(HEADER_SIZE - received.len());
    }
    if read_be(received, 0) != PROTOCOL_MAGIC {
        return FrameStep::Bad(FrameError::InvalidMagic);
    }
    let announced: u32 = read_be(received, 4);
    if announced as usize > MAX_FRAME_SIZE {
        return FrameStep::Bad(FrameError::Oversized(announced));
    }
    let end: usize = HEADER_SIZE + announced as usize;
    if received.len() < end {
        return FrameStep::Need(end - received.len());
    }
    FrameStep::Payload(slice_to_vec(slice_subrange(received, HEADER_SIZE, end)))
}

proof fn lemma_be_round_trip(n: u32)
    ensures
        be_value(be_bytes(n), 0) == n,
{
    let x = n as int;
    assert(x / 0x1000000 < 0x100);
    assert(x == x / 0x1000000 * 0x1000000 + x / 0x10000 % 0x100 * 0x10000 + x / 0x100 % 0x100
        * 0x100 + x % 0x100);
}

/// Whatever payload a frame carries is what reading that frame gives back, and the
/// bytes behind the frame play no part in it.
pub proof fn law_frame_round_trip(payload: Seq<u8>, rest: Seq<u8>)
    requires
        payload.len() <= MAX_FRAME_SIZE,
    ensures
        read_frame_spec(frame_spec(payload) + rest) == FrameStepView::Payload(payload),
{
    let bytes = frame_spec(payload) + rest;
    let magic = be_bytes(PROTOCOL_MAGIC);
    let length = be_bytes(payload.len() as u32);
    lemma_be_round_trip(PROTOCOL_MAGIC);
    lemma_be_round_trip(payload.len() as u32);
    assert forall|k: int| 0 <= k < 4 implies bytes[k] == magic[k] && bytes[k + 4] == length[k] by {}
    assert(bytes[4] == length[0] && bytes[5] == length[1] && bytes[6] == length[2] && bytes[7]
        == length[3]);
    assert(be_value(bytes, 0) == PROTOCOL_MAGIC);
    assert(be_value(bytes, 4) == payload.len());
    assert(bytes.subrange(HEADER_SIZE as int, HEADER_SIZE + payload.len()) =~= payload);
}

/// While a frame is incomplete its reader asks for more, and never for bytes that
/// lie behind the frame.
pub proof fn law_frame_never_read_past(payload: Seq<u8>, have: int)
    requires
        payload.len() <= MAX_FRAME_SIZE,
        0 <= have < frame_spec(payload).len(),
    ensures
        read_frame_spec(frame_spec(payload).take(have)) matches FrameStepView::Need(more) && 0
            < more <= frame_spec(payload).len() - have,
{
    let whole = frame_spec(payload);
    let bytes = whole.take(have);
    if have >= HEADER_SIZE {
        law_frame_round_trip(payload, Seq::empty());
        assert(whole + Seq::<u8>::empty() =~= whole);
        let magic = be_bytes(PROTOCOL_MAGIC);
        let length = be_bytes(payload.len() as u32);
        lemma_be_round_trip(PROTOCOL_MAGIC);
        lemma_be_round_trip(payload.len() as u32);
        assert(bytes[4] == length[0] && bytes[5] == length[1] && bytes[6] == length[2] && bytes[7]
            == length[3]);
        assert(bytes[0] == magic[0] && bytes[1] == magic[1] && bytes[2] == magic[2] && bytes[3]
            == magic[3]);
        assert(be_value(bytes, 4) == payload.len());
    }
}

proof fn lemma_be_value_is_unique(a: Seq<u8>, i: int, n: u32)
    requires
        be_value(a, i) == n,
    ensures
        a[i] == be_bytes(n)[0],
        a[i + 1] == be_bytes(n)[1],
        a[i + 2] == be_bytes(n)[2],
        a[i + 3] == be_bytes(n)[3],
{
    let x = n as int;
    let low = a[i + 1] * 0x10000 + a[i + 2] * 0x100 + a[i + 3];
    assert(0 <= low < 0x1000000);
    assert(x == a[i] * 0x1000000 + low);
    assert(x / 0x1000000 == a[i]);
    assert(x / 0x10000 == a[i] * 0x100 + a[i + 1]);
    assert(x / 0x100 == a[i] * 0x10000 + a[i + 1] * 0x100 + a[i + 2]);
}

/// Only frames are read as frames: a payload that was read stands in the received
/// bytes behind its own header, and it is within the limit.
pub proof fn law_payload_was_framed(received: Seq<u8>, payload: Seq<u8>)
    requires
        read_frame_spec(received) == FrameStepView::Payload(payload),
    ensures
        payload.len() <= MAX_FRAME_SIZE,
        frame_spec(payload).is_prefix_of(received),
{
    let whole = frame_spec(payload);
    let n = payload.len() as u32;
    assert(be_value(received, 4) == n) by {
        assert(payload.len() == be_value(received, 4));
    }
    lemma_be_value_is_unique(received, 0, PROTOCOL_MAGIC);
    lemma_be_value_is_unique(received, 4, n);
    lemma_same_header(whole, received, payload);
}

proof fn lemma_same_header(whole: Seq<u8>, received: Seq<u8>, payload: Seq<u8>)
    requires
        whole == frame_spec(payload),
        received.len() >= 8 + payload.len(),
        payload == received.subrange(8, 8 + payload.len() as int),
        forall|k: int| 0 <= k < 4 ==> received[k] == #[trigger] be_bytes(PROTOCOL_MAGIC)[k],
        forall|k: int|
            0 <= k < 4 ==> received[k + 4] == #[trigger] be_bytes(payload.len() as u32)[k],
    ensures
        whole.is_prefix_of(received),
{
    assert forall|k: int| 0 <= k < whole.len() implies whole[k] == received[k] by {
        if k < 4 {
            assert(whole[k] == be_bytes(PROTOCOL_MAGIC)[k]);
        } else if k < 8 {
            assert(whole[k] == be_bytes(payload.len() as u32)[k - 4]);
        } else {
            assert(whole[k] == payload[k - 8]);
        }
    }
    assert(whole =~= received.subrange(0, whole.len() as int));
}

/// Every frame begins with the letters FOXS and the payload's length, the byte that weighs
/// most first, and ends with the payload itself.
pub proof fn law_frame_layout(payload: Seq<u8>)
    requires
        payload.len() <= 67108864,
    ensures
        frame_spec(payload).len() == 8 + payload.len(),
        frame_spec(payload)[0] == 0x46,
        frame_spec(payload)[1] == 0x4f,
        frame_spec(payload)[2] == 0x58,
        frame_spec(payload)[3] == 0x53,
        frame_spec(payload)[4] * 16777216 + frame_spec(payload)[5] * 65536 + frame_spec(payload)[6]
            * 256 + frame_spec(payload)[7] == payload.len(),
        frame_spec(payload).skip(8) == payload,
{
    let frame = frame_spec(payload);
    let n = payload.len() as u32;
    lemma_be_round_trip(n);
    let length = be_bytes(n);
    assert(frame[4] == length[0] && frame[5] == length[1] && frame[6] == length[2] && frame[7]
        == length[3]);
    let magic = be_bytes(PROTOCOL_MAGIC);
    assert(frame[0] == magic[0] && frame[1] == magic[1] && frame[2] == magic[2] && frame[3]
        == magic[3]);
    assert(frame.skip(8) =~= payload);
}

/// What is received is judged by its header alone: other letters than FOXS are refused, then
/// an announced length above 64 MiB, whose number is told; otherwise so many bytes behind the
/// header as it announces are the payload, and until they are there, they are asked for.
pub proof fn law_headers_are_judged(received: Seq<u8>)
    ensures
        received.len() < 8 ==> read_frame_spec(received) == FrameStepView::Need(8 - received.len()),
        received.len() >= 8 ==> {
            let announced = received[4] * 16777216 + received[5] * 65536 + received[6] * 256
                + received[7];
            if !(received[0] == 0x46 && received[1] == 0x4f && received[2] == 0x58 && received[3]
                == 0x53) {
                read_frame_spec(received) == FrameStepView::Bad(FrameError::InvalidMagic)
            } else if announced > 67108864 {
                read_frame_spec(received) == FrameStepView::Bad(
                    FrameError::Oversized(announced as u32),
                )
            } else if received.len() < 8 + announced {
                read_frame_spec(received) == FrameStepView::Need(8 + announced - received.len())
            } else {
                read_frame_spec(received) == FrameStepView::Payload(
                    received.subrange(8, 8 + announced),
                )
            }
        },
{
    if received.len() >= 8 && be_value(received, 0) == PROTOCOL_MAGIC {
        lemma_be_value_is_unique(received, 0, PROTOCOL_MAGIC);
    }
}

/// The words of a framing error; those of a length above the limit tell the length.
pub proof fn law_frame_errors_in_words(len: u32)
    ensures
        frame_error_text(FrameError::TooLarge) == "frame too large"@,
        frame_error_text(FrameError::InvalidMagic) == "invalid protocol magic"@,
        exists|digits: Seq<char>|
            #[trigger] writes_out(digits, len as int) && frame_error_text(FrameError::Oversized(len))
                == "frame too large: "@ + digits + " bytes"@,
{
    law_decimal_reads_back(len as nat);
    assert(writes_out(decimal_spec(len as nat), len as int));
}

/// A value of [`FrameStep`] is seen whole: as what it is, with all that it holds.
pub proof fn law_frame_steps_are_seen_whole(value: &FrameStep)
    ensures
        value@ == (match value {
            FrameStep::Need(count) => FrameStepView::Need(*count as int),
            FrameStep::Payload(payload) => FrameStepView::Payload(payload@),
            FrameStep::Bad(error) => FrameStepView::Bad(*error),
        }),
{
}

} // verus!
