//! Length-prefixed framing of encoded segments.
//!
//! A recording file is a concatenation of frames; each frame is the length
//! of its payload as a little-endian `u32`, followed by the payload.
use vstd::prelude::*;
use vstd::bytes::{
    spec_u32_to_le_bytes, spec_u32_from_le_bytes, u32_to_le_bytes, u32_from_le_bytes,
    lemma_auto_spec_u32_to_from_le_bytes,
};

verus! {

/// Number of bytes in a frame's length prefix.
pub const LENGTH_PREFIX_BYTES: usize = 4;

/// The frame that carries `payload`: its length, truncated to 32 bits, as a
/// little-endian prefix, then the payload itself.
pub open spec fn frame_of(payload: Seq<u8>) -> Seq<u8> {
    spec_u32_to_le_bytes(payload.len() as u32) + payload
}

/// The frames of `payloads`, one after the other.
pub open spec fn frames_of(payloads: Seq<Seq<u8>>) -> Seq<u8>
    decreases payloads.len(),
{
    if payloads.len() == 0 {
        Seq::empty()
    } else {
        frame_of(payloads[0]) + frames_of(payloads.drop_first())
    }
}

/// The payload length announced by the prefix at the start of `data`.
pub open spec fn announced_len(data: Seq<u8>) -> int
    recommends
        data.len() >= 4,
{
    spec_u32_from_le_bytes(data.subrange(0, 4)) as int
}

/// The payloads of the whole frames at the start of `data`, read in order.
///
/// Reading stops at the end of the data, or where the bytes that are left are
/// too few for a length prefix or for the payload that a prefix announces.
pub open spec fn framed_payloads(data: Seq<u8>) -> Seq<Seq<u8>>
    decreases data.len(),
{
    if data.len() < 4 {
        Seq::empty()
    } else if 4 + announced_len(data) > data.len() {
        Seq::empty()
    } else {
        let end = 4 + announced_len(data);
        seq![data.subrange(4, end)] + framed_payloads(data.subrange(end, data.len() as int))
    }
}

/// The views of a sequence of byte vectors.
pub open spec fn byte_views(vs: Seq<Vec<u8>>) -> Seq<Seq<u8>> {
    vs.map_values(|v: Vec<u8>| v@)
}

/// Builds the frame that carries `payload`.
///
/// The prefix holds the payload's length truncated to 32 bits, as the
/// recorder writes it.
pub fn encode_frame(payload: &[u8]) -> (frame: Vec<u8>)
    ensures
        frame@ == frame_of(payload@),
        frame@.len() == 4 + payload@.len(),
        spec_u32_from_le_bytes(frame@.take(4)) as int == payload@.len() % 0x1_0000_0000,
        frame@.skip(4) == payload@,
{
    proof {
        lemma_auto_spec_u32_to_from_le_bytes();
    }
    let n: usize = payload.len();
    #[verifier::truncate]
    let len = n as u32;
    let mut frame = u32_to_le_bytes(len);
    let mut body = vstd::slice::slice_to_vec(payload);
    frame.append(&mut body);
    proof {
        assert(frame@.take(4) == spec_u32_to_le_bytes(len));
        assert(frame@.skip(4) == payload@);
        assert(len as int == n as int % 0x1_0000_0000) by (bit_vector)
            requires
                len == n as u32;
    }
    frame
}

/// Splits `data` into the payloads of its whole frames, in order.
///
/// A trailing piece too short for a length prefix, or for the payload its
/// prefix announces, is left out.
pub fn split_frames(data: &[u8]) -> (payloads: Vec<Vec<u8>>)
    ensures
        byte_views(payloads@) == framed_payloads(data@),
{
    let mut payloads: Vec<Vec<u8>> = Vec::new();
    let mut offset: usize = 0;
    let n = data.len();
    assert(data@.subrange(0, n as int) == data@);
    assert(byte_views(payloads@) == Seq::<Seq<u8>>::empty());
    while offset < n
        invariant
            n == data@.len(),
            0 <= offset <= n,
            byte_views(payloads@) + framed_payloads(data@.subrange(offset as int, n as int))
                == framed_payloads(data@),
        ensures
            byte_views(payloads@) == framed_payloads(data@),
        decreases n - offset,
    {
        let ghost rest = data@.subrange(offset as int, n as int);
        if n - offset < LENGTH_PREFIX_BYTES {
            assert(framed_payloads(rest) == Seq::<Seq<u8>>::empty());
            assert(byte_views(payloads@) + Seq::<Seq<u8>>::empty() == byte_views(payloads@));
            break;
        }
        let prefix = &data[offset..offset + LENGTH_PREFIX_BYTES];
        assert(prefix@ == rest.subrange(0, 4));
        let len = u32_from_le_bytes(prefix) as usize;
        let start = offset + LENGTH_PREFIX_BYTES;
        if len > n - start {
            assert(framed_payloads(rest) == Seq::<Seq<u8>>::empty());
            assert(byte_views(payloads@) + Seq::<Seq<u8>>::empty() == byte_views(payloads@));
            break;
        }
        let end = start + len;
        let payload = vstd::slice::slice_to_vec(&data[start..end]);
        proof {
            assert(payload@ == rest.subrange(4, 4 + len));
            assert(data@.subrange(end as int, n as int) == rest.subrange(4 + len, rest.len() as int));
            assert(byte_views(payloads@.push(payload)) == byte_views(payloads@).push(payload@));
        }
        payloads.push(payload);
        offset = end;
        proof {
            if offset == n {
                assert(data@.subrange(offset as int, n as int) == Seq::<u8>::empty());
                assert(framed_payloads(Seq::<u8>::empty()) == Seq::<Seq<u8>>::empty());
                assert(byte_views(payloads@) + Seq::<Seq<u8>>::empty() == byte_views(payloads@));
            }
        }
    }
    payloads
}


/// Reading back a frame that was written in front of other bytes yields its
/// payload, then whatever those bytes yield, for a payload shorter than 4 GiB.
pub proof fn lemma_read_frame_then(payload: Seq<u8>, rest: Seq<u8>)
    requires
        payload.len() <= u32::MAX,
    ensures
        framed_payloads(frame_of(payload) + rest) == seq![payload] + framed_payloads(rest),
{
    lemma_auto_spec_u32_to_from_le_bytes();
    let data = frame_of(payload) + rest;
    let prefix = spec_u32_to_le_bytes(payload.len() as u32);
    assert(data.subrange(0, 4) == prefix);
    assert(announced_len(data) == payload.len());
    let end = 4 + payload.len() as int;
    assert(data.subrange(4, end) == payload);
    assert(data.subrange(end, data.len() as int) == rest);
}

/// Reading back frames written one after the other, in front of other bytes,
/// yields their payloads in order, then whatever those bytes yield, for
/// payloads shorter than 4 GiB each.
pub proof fn lemma_read_frames_then(payloads: Seq<Seq<u8>>, rest: Seq<u8>)
    requires
        forall|i: int| 0 <= i < payloads.len() ==> #[trigger] payloads[i].len() <= u32::MAX,
    ensures
        framed_payloads(frames_of(payloads) + rest) == payloads + framed_payloads(rest),
    decreases payloads.len(),
{
    if payloads.len() == 0 {
        assert(frames_of(payloads) + rest == rest);
        assert(payloads + framed_payloads(rest) == framed_payloads(rest));
    } else {
        let tail = payloads.drop_first();
        assert forall|i: int| 0 <= i < tail.len() implies #[trigger] tail[i].len() <= u32::MAX by {
            assert(tail[i] == payloads[i + 1]);
        }
        lemma_read_frames_then(tail, rest);
        assert(payloads[0].len() <= u32::MAX);
        lemma_read_frame_then(payloads[0], frames_of(tail) + rest);
        assert(frames_of(payloads) + rest == frame_of(payloads[0]) + (frames_of(tail) + rest));
        assert(payloads == seq![payloads[0]] + tail);
    }
}

/// Reading back frames written one after the other yields their payloads, in
/// order, for payloads shorter than 4 GiB each.
pub proof fn lemma_frames_round_trip(payloads: Seq<Seq<u8>>)
    requires
        forall|i: int| 0 <= i < payloads.len() ==> #[trigger] payloads[i].len() <= u32::MAX,
    ensures
        framed_payloads(frames_of(payloads)) == payloads,
{
    lemma_read_frames_then(payloads, Seq::empty());
    assert(frames_of(payloads) + Seq::<u8>::empty() == frames_of(payloads));
    assert(framed_payloads(Seq::<u8>::empty()) == Seq::<Seq<u8>>::empty());
    assert(payloads + Seq::<Seq<u8>>::empty() == payloads);
}

/// A tail too short to hold a length prefix yields no payload.
pub proof fn lemma_short_tail_yields_nothing(rest: Seq<u8>)
    requires
        rest.len() < 4,
    ensures
        framed_payloads(rest) == Seq::<Seq<u8>>::empty(),
{
}


/// The payloads read from `data` are its leading frames, one after the
/// other with nothing skipped: writing them back as frames gives a prefix of
/// `data`, and the bytes after that prefix hold no whole frame (fewer than 4
/// bytes, or a length prefix announcing more bytes than remain).
pub proof fn lemma_read_payloads_are_leading_frames(data: Seq<u8>)
    ensures
        ({
            let used = frames_of(framed_payloads(data)).len();
            let rest = data.skip(used as int);
            &&& used <= data.len()
            &&& data.take(used as int) == frames_of(framed_payloads(data))
            &&& (rest.len() < 4 || 4 + spec_u32_from_le_bytes(rest.take(4)) > rest.len())
        }),
    decreases data.len(),
{
    lemma_auto_spec_u32_to_from_le_bytes();
    if data.len() < 4 || 4 + announced_len(data) > data.len() {
        assert(framed_payloads(data) == Seq::<Seq<u8>>::empty());
        assert(frames_of(Seq::<Seq<u8>>::empty()) == Seq::<u8>::empty());
        assert(data.skip(0) == data);
        assert(data.take(0) == Seq::<u8>::empty());
        assert(data.subrange(0, 4) == data.take(4));
    } else {
        let end = 4 + announced_len(data);
        let payload = data.subrange(4, end);
        let tail = data.subrange(end, data.len() as int);
        lemma_read_payloads_are_leading_frames(tail);
        let ps = framed_payloads(data);
        assert(ps == seq![payload] + framed_payloads(tail));
        assert(ps[0] == payload);
        assert(ps.drop_first() == framed_payloads(tail));
        assert(payload.len() == announced_len(data));
        assert(spec_u32_from_le_bytes(data.subrange(0, 4)) as int == payload.len());
        assert(spec_u32_to_le_bytes(payload.len() as u32) == data.subrange(0, 4));
        assert(frame_of(payload) == data.take(end));
        let used_tail = frames_of(framed_payloads(tail)).len();
        assert(frames_of(ps) == frame_of(payload) + frames_of(framed_payloads(tail)));
        assert(data.take(end + used_tail) == data.take(end) + tail.take(used_tail as int));
        assert(data.skip(end + used_tail) == tail.skip(used_tail as int));
    }
}

} // verus!
