//! The framing of messages between peers: each frame is the sender's
//! 32-byte verifying key, the message length as four little-endian bytes,
//! and the message bytes.
use vstd::prelude::*;
use crate::bytes::{
    copy_range, extend_bytes, lemma_u32_le_roundtrip, push_u32_le, read_u32_le, u32_from_le, u32_le,
};
use crate::codec::{verifying_key_accepts, verifying_key_is_valid};

verus! {

/// Length of the key that opens a frame.
pub open spec fn key_len() -> int {
    32
}

/// Length of a frame's header: the key and the message length.
pub open spec fn header_len() -> int {
    36
}

/// The bytes of a frame: the origin key, the message length (as 32 bits,
/// so modulo 2^32), and the message.
pub open spec fn frame_bytes(origin: Seq<u8>, message: Seq<u8>) -> Seq<u8> {
    origin + u32_le(message.len() % 0x1_0000_0000) + message
}

/// The frames that a receive buffer holds, as (origin key, message) pairs,
/// and the bytes left over. Frames are read from the front while a whole
/// one is there; a frame whose key is not a valid verifying key is not
/// read: the reader drops one byte and looks again.
pub open spec fn split_frames(buf: Seq<u8>) -> (Seq<(Seq<u8>, Seq<u8>)>, Seq<u8>)
    decreases buf.len(),
{
    if buf.len() < header_len() {
        (Seq::empty(), buf)
    } else {
        let n = u32_from_le(buf.subrange(32, 36));
        if buf.len() < header_len() + n {
            (Seq::empty(), buf)
        } else if !verifying_key_accepts(buf.take(32)) {
            split_frames(buf.drop_first())
        } else {
            let rest = split_frames(buf.skip(header_len() + n));
            (seq![(buf.take(32), buf.subrange(36, header_len() + n))] + rest.0, rest.1)
        }
    }
}

/// One message read from a peer, with the key of the peer that sent it.
pub struct Frame {
    pub origin: [u8; 32],
    pub message: Vec<u8>,
}

/// The (origin, message) views of frames.
pub open spec fn frame_views(frames: Seq<Frame>) -> Seq<(Seq<u8>, Seq<u8>)> {
    frames.map_values(|f: Frame| (f.origin@, f.message@))
}

/// The frame that carries `message` from `origin`.
pub fn encode_frame(origin: &[u8; 32], message: &Vec<u8>) -> (out: Vec<u8>)
    ensures
        out@ == frame_bytes(origin@, message@),
{
    let mut out: Vec<u8> = Vec::new();
    extend_bytes(&mut out, origin.as_slice());
    let len = ((message.len() as u64) % 0x1_0000_0000) as u32;
    push_u32_le(&mut out, len);
    extend_bytes(&mut out, message.as_slice());
    out
}

fn key_at(buf: &[u8], at: usize) -> (key: [u8; 32])
    requires
        at + 32 <= buf.len(),
    ensures
        key@ == buf@.subrange(at as int, at + 32),
{
    let mut key = [0u8; 32];
    let mut i: usize = 0;
    while i < 32
        invariant
            i <= 32,
            at + 32 <= buf.len(),
            key@.len() == 32,
            forall|j: int| 0 <= j < i ==> key@[j] == buf@[at + j],
        decreases 32 - i,
    {
        key[i] = buf[at + i];
        i = i + 1;
    }
    assert(key@ =~= buf@.subrange(at as int, at + 32));
    key
}

/// Takes every whole frame from the front of a receive buffer, as
/// `split_frames` says, leaving in the buffer the bytes that do not yet
/// make a whole frame.
pub fn take_frames(buf: &mut Vec<u8>) -> (frames: Vec<Frame>)
    ensures
        (frame_views(frames@), final(buf)@) == split_frames(old(buf)@),
{
    let ghost start = buf@;
    let mut frames: Vec<Frame> = Vec::new();
    let mut pos: usize = 0;
    assert(start.skip(0) =~= start);
    loop
        invariant
            buf@ == start,
            pos <= buf.len(),
            split_frames(start) == (
                frame_views(frames@) + split_frames(start.skip(pos as int)).0,
                split_frames(start.skip(pos as int)).1,
            ),
        ensures
            buf@ == start,
            pos <= buf.len(),
            split_frames(start) == (frame_views(frames@), start.skip(pos as int)),
        decreases buf.len() - pos,
    {
        let ghost rest = start.skip(pos as int);
        let avail = buf.len() - pos;
        if avail < 36 {
            assert(frame_views(frames@) + Seq::empty() =~= frame_views(frames@));
            break;
        }
        let n = read_u32_le(buf.as_slice(), pos + 32);
        assert(rest.subrange(32, 36) =~= start.subrange(pos + 32, pos + 36));
        if (avail as u64) < 36 + (n as u64) {
            assert(frame_views(frames@) + Seq::empty() =~= frame_views(frames@));
            break;
        }
        let origin = key_at(buf.as_slice(), pos);
        assert(rest.take(32) =~= start.subrange(pos as int, pos + 32));
        if !verifying_key_is_valid(&origin) {
            assert(rest.drop_first() =~= start.skip(pos + 1));
            pos = pos + 1;
        } else {
            let end = pos + 36 + n as usize;
            let message = copy_range(buf.as_slice(), pos + 36, end);
            assert(rest.subrange(36, 36 + n) =~= start.subrange(pos + 36, end as int));
            assert(rest.skip(36 + n) =~= start.skip(end as int));
            let ghost before = frames@;
            frames.push(Frame { origin, message });
            assert(frame_views(frames@) =~= frame_views(before).push(
                (rest.take(32), rest.subrange(36, 36 + n)),
            ));
            assert(frame_views(before) + (seq![(rest.take(32), rest.subrange(36, 36 + n))]
                + split_frames(start.skip(end as int)).0) =~= frame_views(frames@) + split_frames(
                start.skip(end as int),
            ).0);
            pos = end;
        }
    }
    let remainder = copy_range(buf.as_slice(), pos, buf.len());
    assert(remainder@ =~= start.skip(pos as int));
    *buf = remainder;
    frames
}

/// A frame read back is the frame written: a buffer that starts with the
/// frame of `message` from a valid key `origin` yields that frame first,
/// then whatever the rest of the buffer yields.
pub proof fn law_frame_roundtrip(origin: Seq<u8>, message: Seq<u8>, rest: Seq<u8>)
    requires
        origin.len() == 32,
        message.len() < 0x1_0000_0000,
        verifying_key_accepts(origin),
    ensures
        split_frames(frame_bytes(origin, message) + rest) == (
            seq![(origin, message)] + split_frames(rest).0,
            split_frames(rest).1,
        ),
{
    let buf = frame_bytes(origin, message) + rest;
    let n: int = message.len() as int;
    lemma_u32_le_roundtrip(n as nat);
    assert(buf.subrange(32, 36) =~= u32_le(n as nat));
    assert(buf.take(32) =~= origin);
    assert(buf.subrange(36, 36 + n) =~= message);
    assert(buf.skip(36 + n) =~= rest);
}

/// Frames read the same whatever the read boundaries: reading a buffer
/// `a`, then the bytes left over followed by the next bytes `b`, gives the
/// frames and the leftover that reading `a + b` at once gives.
pub proof fn law_frames_split_anywhere(a: Seq<u8>, b: Seq<u8>)
    ensures
        ({
            let (f1, r1) = split_frames(a);
            let (f2, r2) = split_frames(r1 + b);
            split_frames(a + b) == (f1 + f2, r2)
        }),
    decreases a.len(),
{
    let ab = a + b;
    if a.len() < header_len() {
        assert(Seq::<(Seq<u8>, Seq<u8>)>::empty() + split_frames(ab).0 =~= split_frames(ab).0);
    } else {
        let n = u32_from_le(a.subrange(32, 36));
        assert(ab.subrange(32, 36) =~= a.subrange(32, 36));
        if a.len() < header_len() + n {
            assert(Seq::<(Seq<u8>, Seq<u8>)>::empty() + split_frames(ab).0 =~= split_frames(ab).0);
        } else {
            assert(ab.take(32) =~= a.take(32));
            if !verifying_key_accepts(a.take(32)) {
                assert(ab.drop_first() =~= a.drop_first() + b);
                law_frames_split_anywhere(a.drop_first(), b);
            } else {
                assert(ab.subrange(36, header_len() + n) =~= a.subrange(36, header_len() + n));
                assert(ab.skip(header_len() + n) =~= a.skip(header_len() + n) + b);
                law_frames_split_anywhere(a.skip(header_len() + n), b);
                let head = seq![(a.take(32), a.subrange(36, header_len() + n))];
                let rest = split_frames(a.skip(header_len() + n));
                let more = split_frames(rest.1 + b);
                assert(head + (rest.0 + more.0) =~= (head + rest.0) + more.0);
            }
        }
    }
}

/// The bytes a sender writes for a sequence of (origin, message) frames.
pub open spec fn frames_bytes(frames: Seq<(Seq<u8>, Seq<u8>)>) -> Seq<u8>
    decreases frames.len(),
{
    if frames.len() == 0 {
        Seq::empty()
    } else {
        frame_bytes(frames[0].0, frames[0].1) + frames_bytes(frames.drop_first())
    }
}

/// Every frame a sender writes is read back, in order: a buffer that
/// starts with the frames of messages from valid keys yields those frames,
/// then what the rest of the buffer yields.
pub proof fn law_frames_roundtrip(frames: Seq<(Seq<u8>, Seq<u8>)>, rest: Seq<u8>)
    requires
        forall|i: int|
            0 <= i < frames.len() ==> (#[trigger] frames[i]).0.len() == 32 && frames[i].1.len()
                < 0x1_0000_0000 && verifying_key_accepts(frames[i].0),
    ensures
        split_frames(frames_bytes(frames) + rest) == (frames + split_frames(rest).0, split_frames(rest).1),
    decreases frames.len(),
{
    if frames.len() == 0 {
        assert(frames_bytes(frames) + rest =~= rest);
        assert(frames + split_frames(rest).0 =~= split_frames(rest).0);
    } else {
        let tail = frames.drop_first();
        assert forall|i: int| 0 <= i < tail.len() implies (#[trigger] tail[i]).0.len() == 32
            && tail[i].1.len() < 0x1_0000_0000 && verifying_key_accepts(tail[i].0) by {
            assert(tail[i] == frames[i + 1]);
        }
        law_frames_roundtrip(tail, rest);
        let f0 = frames[0];
        assert(frames_bytes(frames) + rest =~= frame_bytes(f0.0, f0.1) + (frames_bytes(tail) + rest));
        law_frame_roundtrip(f0.0, f0.1, frames_bytes(tail) + rest);
        assert(seq![(f0.0, f0.1)] + (tail + split_frames(rest).0) =~= frames + split_frames(rest).0);
    }
}

} // verus!
