//! The frame codec: turns a payload into a length-prefixed wire frame and
//! splits an append-only inbound byte buffer back into complete frames,
//! leaving a trailing partial frame for the next read. Frame boundaries are
//! unambiguous no matter how the socket coalesced or split the bytes.

use vstd::prelude::*;

verus! {

/// The largest payload a frame may declare; a longer declared length is a
/// protocol violation, fatal to the connection.
pub const MAX_FRAME_LEN: usize = 16777216;

/// The four little-endian base-256 digits of a payload length.
pub open spec fn spec_len_bytes(n: int) -> Seq<u8> {
    seq![
        (n % 256) as u8,
        ((n / 256) % 256) as u8,
        ((n / 65536) % 256) as u8,
        ((n / 16777216) % 256) as u8,
    ]
}

/// A payload's wire form: its length, then its bytes.
pub open spec fn spec_encode_frame(payload: Seq<u8>) -> Seq<u8> {
    spec_len_bytes(payload.len() as int) + payload
}

/// The payload length a buffer's first four bytes declare.
pub open spec fn spec_declared_len(buf: Seq<u8>) -> int {
    buf[0] + 256 * buf[1] + 65536 * buf[2] + 16777216 * buf[3]
}

/// Serializes one payload with its length prefix.
pub fn encode_frame(payload: &Vec<u8>) -> (r: Vec<u8>)
    requires
        payload@.len() <= MAX_FRAME_LEN,
    ensures
        r@ == spec_encode_frame(payload@),
{
    let n: usize = payload.len();
    let mut r: Vec<u8> = Vec::new();
    r.push((n % 256) as u8);
    r.push(((n / 256) % 256) as u8);
    r.push(((n / 65536) % 256) as u8);
    r.push(((n / 16777216) % 256) as u8);
    r.extend_from_slice(payload.as_slice());
    proof {
        assert(r@ =~= spec_encode_frame(payload@));
    }
    r
}

/// What splitting a buffer yields.
pub enum DecodeOutcome {
    /// No complete frame yet; keep the bytes and read on.
    Incomplete,
    /// The declared length exceeds the maximum: a protocol violation.
    Malformed,
    /// One complete frame: its payload, and how many bytes it consumed.
    Decoded { payload: Vec<u8>, consumed: usize },
}

/// Splits the first complete frame off the front of the inbound buffer,
/// consuming exactly the bytes that formed it.
pub fn decode_frame(buf: &Vec<u8>) -> (r: DecodeOutcome)
    ensures
        buf@.len() < 4 ==> r is Incomplete,
        buf@.len() >= 4 && spec_declared_len(buf@) > MAX_FRAME_LEN ==> r is Malformed,
        buf@.len() >= 4 && spec_declared_len(buf@) <= MAX_FRAME_LEN && buf@.len() < 4
            + spec_declared_len(buf@) ==> r is Incomplete,
        buf@.len() >= 4 && spec_declared_len(buf@) <= MAX_FRAME_LEN && buf@.len() >= 4
            + spec_declared_len(buf@) ==> (r matches DecodeOutcome::Decoded { payload, consumed }
            && payload@ == buf@.subrange(4, 4 + spec_declared_len(buf@)) && consumed == 4
            + spec_declared_len(buf@)),
{
    if buf.len() < 4 {
        return DecodeOutcome::Incomplete;
    }
    let n: usize = (buf[0] as usize) + 256 * (buf[1] as usize) + 65536 * (buf[2] as usize)
        + 16777216 * (buf[3] as usize);
    if n > MAX_FRAME_LEN {
        return DecodeOutcome::Malformed;
    }
    if buf.len() < 4 + n {
        return DecodeOutcome::Incomplete;
    }
    let mut payload: Vec<u8> = Vec::new();
    let mut i: usize = 4;
    while i < 4 + n
        invariant
            n <= MAX_FRAME_LEN,
            4 <= i <= 4 + n,
            4 + n <= buf@.len(),
            n == spec_declared_len(buf@),
            payload@ =~= buf@.subrange(4, i as int),
        decreases 4 + n - i,
    {
        payload.push(buf[i]);
        proof {
            assert(payload@ =~= buf@.subrange(4, i + 1));
        }
        i = i + 1;
    }
    DecodeOutcome::Decoded { payload, consumed: 4 + n }
}

/// Decoding is the inverse of encoding: whatever bytes follow it in the
/// buffer, an encoded frame declares its own payload's length and decodes to
/// exactly that payload, consuming exactly its own bytes.
pub proof fn lemma_codec_round_trip(payload: Seq<u8>, rest: Seq<u8>)
    requires
        payload.len() <= MAX_FRAME_LEN,
    ensures
        (spec_encode_frame(payload) + rest).len() >= 4,
        spec_declared_len(spec_encode_frame(payload) + rest) == payload.len(),
        (spec_encode_frame(payload) + rest).subrange(4, 4 + payload.len() as int) == payload,
        (spec_encode_frame(payload) + rest).len() >= 4 + payload.len(),
{
    let n = payload.len() as int;
    let buf = spec_encode_frame(payload) + rest;
    assert(buf[0] == (n % 256) as u8);
    assert(buf[1] == ((n / 256) % 256) as u8);
    assert(buf[2] == ((n / 65536) % 256) as u8);
    assert(buf[3] == ((n / 16777216) % 256) as u8);
    assert(n % 256 + 256 * ((n / 256) % 256) + 65536 * ((n / 65536) % 256) + 16777216 * ((n
        / 16777216) % 256) == n);
    assert(buf.subrange(4, 4 + n) =~= payload);
}

} // verus!
