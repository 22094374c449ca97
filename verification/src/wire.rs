//! Frames on a byte stream.
//!
//! Every message travels as a frame: the length of its payload as two bytes,
//! the high byte first, and then the payload. A payload therefore holds at
//! most 65535 bytes.

use vstd::prelude::*;

verus! {

/// The greatest number of bytes that one frame can carry.
pub const MAX_PAYLOAD: usize = 65535;

/// The two bytes that announce a payload of `length` bytes, high byte first.
pub open spec fn length_prefix(length: int) -> Seq<u8> {
    seq![(length / 256) as u8, (length % 256) as u8]
}

/// The length that the two bytes of a prefix announce.
pub open spec fn announced_length(high: u8, low: u8) -> int {
    high * 256 + low
}

/// The frame that carries `payload`.
pub open spec fn framed(payload: Seq<u8>) -> Seq<u8> {
    length_prefix(payload.len() as int) + payload
}

/// The payload of the frame that `buffer` starts with, if a whole frame is
/// there.
pub open spec fn first_frame(buffer: Seq<u8>) -> Option<Seq<u8>> {
    if buffer.len() >= 2 && buffer.len() >= 2 + announced_length(buffer[0], buffer[1]) {
        Some(buffer.subrange(2, 2 + announced_length(buffer[0], buffer[1])))
    } else {
        None
    }
}

/// A frame that is followed by anything at all is read back as the payload
/// that was framed.
pub proof fn lemma_frame_round_trip(payload: Seq<u8>, rest: Seq<u8>)
    requires
        payload.len() <= MAX_PAYLOAD,
    ensures
        first_frame(framed(payload) + rest) == Some(payload),
        framed(payload).len() == payload.len() + 2,
{
    let buffer = framed(payload) + rest;
    let length = payload.len() as int;
    assert(buffer[0] == (length / 256) as u8);
    assert(buffer[1] == (length % 256) as u8);
    assert(announced_length(buffer[0], buffer[1]) == length);
    assert(buffer.subrange(2, 2 + length) =~= payload);
}

/// The prefix of a frame announces a length that a frame can carry, and
/// announcing a length gives the prefix back.
pub proof fn lemma_prefix_round_trip(high: u8, low: u8)
    ensures
        announced_length(high, low) <= MAX_PAYLOAD,
        length_prefix(announced_length(high, low)) == seq![high, low],
{
    assert(length_prefix(announced_length(high, low)) =~= seq![high, low]);
}

/// Puts `payload` in a frame. A payload of more than 65535 bytes fits no
/// frame and gives `None`.
pub fn frame(payload: &[u8]) -> (sent: Option<Vec<u8>>)
    ensures
        match sent {
            Some(bytes) => payload@.len() <= MAX_PAYLOAD && bytes@ == framed(payload@),
            None => payload@.len() > MAX_PAYLOAD,
        },
{
    if payload.len() > MAX_PAYLOAD {
        return None;
    }
    let length: usize = payload.len();
    let mut bytes: Vec<u8> = Vec::with_capacity(length + 2);
    bytes.push((length / 256) as u8);
    bytes.push((length % 256) as u8);
    let ghost prefix = bytes@;
    let mut i: usize = 0;
    while i < payload.len()
        invariant
            i <= payload.len(),
            bytes@ == prefix + payload@.take(i as int),
        decreases payload.len() - i,
    {
        bytes.push(payload[i]);
        assert(payload@.take(i + 1) == payload@.take(i as int).push(payload@[i as int]));
        i += 1;
    }
    proof {
        assert(payload@.take(payload.len() as int) == payload@);
        assert(prefix == length_prefix(payload@.len() as int));
    }
    Some(bytes)
}

/// The length of the payload that the two bytes of a prefix announce.
pub fn payload_length(high: u8, low: u8) -> (length: usize)
    ensures
        length == announced_length(high, low),
        length <= MAX_PAYLOAD,
{
    (high as usize) * 256 + (low as usize)
}

/// Takes the first frame off `buffer`: its payload, and the number of bytes
/// that the frame fills. Gives `None` as long as the buffer does not hold a
/// whole frame.
pub fn unframe(buffer: &[u8]) -> (received: Option<(Vec<u8>, usize)>)
    ensures
        match received {
            Some((payload, used)) => first_frame(buffer@) == Some(payload@) && used
                == payload@.len() + 2,
            None => first_frame(buffer@) is None,
        },
{
    if buffer.len() < 2 {
        return None;
    }
    let length = payload_length(buffer[0], buffer[1]);
    if buffer.len() - 2 < length {
        return None;
    }
    let mut payload: Vec<u8> = Vec::with_capacity(length);
    let mut i: usize = 0;
    while i < length
        invariant
            i <= length,
            length + 2 <= buffer.len(),
            payload@ == buffer@.subrange(2, 2 + i),
        decreases length - i,
    {
        payload.push(buffer[i + 2]);
        assert(buffer@.subrange(2, 2 + i + 1) == buffer@.subrange(2, 2 + i).push(
            buffer@[2 + i],
        ));
        i += 1;
    }
    Some((payload, length + 2))
}

} // verus!
