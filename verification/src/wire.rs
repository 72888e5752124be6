//! Length-prefixed, typed binary framing.
//!
//! A frame on the wire is a 9-byte header followed by the payload: the
//! payload length as a big-endian `u64` at offsets 0..8, the message type
//! byte at offset 8, and the payload bytes after that.

use vstd::prelude::*;

verus! {

/// Largest payload length a receiver accepts (16 MiB).
pub const MAX_PAYLOAD_LEN: u64 = 16777216;

/// Number of bytes in a frame header.
pub const HEADER_LEN: usize = 9;

/// Message type: client announces its public key.
pub const MSG_HELLO: u8 = 0x00;

/// Message type: client requests its shard.
pub const MSG_GET: u8 = 0x02;

/// Message type: server answers a Get with a sealed shard.
pub const MSG_OK_GET: u8 = 0x05;

/// Message type: client says farewell.
pub const MSG_BYE: u8 = 0x99;

/// The eight big-endian bytes of a 64-bit value.
pub open spec fn spec_u64_be(x: u64) -> Seq<u8> {
    seq![
        ((x >> 56) & 0xff) as u8,
        ((x >> 48) & 0xff) as u8,
        ((x >> 40) & 0xff) as u8,
        ((x >> 32) & 0xff) as u8,
        ((x >> 24) & 0xff) as u8,
        ((x >> 16) & 0xff) as u8,
        ((x >> 8) & 0xff) as u8,
        (x & 0xff) as u8,
    ]
}

/// The 64-bit value read from eight big-endian bytes.
pub open spec fn spec_u64_from_be(s: Seq<u8>) -> u64
    recommends
        s.len() == 8,
{
    ((s[0] as u64) << 56) | ((s[1] as u64) << 48) | ((s[2] as u64) << 40) | ((s[3] as u64) << 32)
        | ((s[4] as u64) << 24) | ((s[5] as u64) << 16) | ((s[6] as u64) << 8) | (s[7] as u64)
}

/// Reading back the big-endian bytes of a value yields the value.
pub proof fn lemma_u64_be_round_trip(x: u64)
    ensures
        spec_u64_from_be(spec_u64_be(x)) == x,
{
    assert(((((x >> 56) & 0xff) as u8 as u64) << 56) | ((((x >> 48) & 0xff) as u8 as u64) << 48) | (
    (((x >> 40) & 0xff) as u8 as u64) << 40) | ((((x >> 32) & 0xff) as u8 as u64) << 32) | ((((x
        >> 24) & 0xff) as u8 as u64) << 24) | ((((x >> 16) & 0xff) as u8 as u64) << 16) | ((((x
        >> 8) & 0xff) as u8 as u64) << 8) | ((x & 0xff) as u8 as u64) == x) by (bit_vector);
}

/// Eight bytes are the big-endian image of the value read from them.
pub proof fn lemma_u64_be_canonical(s: Seq<u8>)
    requires
        s.len() == 8,
    ensures
        spec_u64_be(spec_u64_from_be(s)) == s,
{
    let b0 = s[0];
    let b1 = s[1];
    let b2 = s[2];
    let b3 = s[3];
    let b4 = s[4];
    let b5 = s[5];
    let b6 = s[6];
    let b7 = s[7];
    let x = spec_u64_from_be(s);
    assert({
        let y = ((b0 as u64) << 56) | ((b1 as u64) << 48) | ((b2 as u64) << 40) | ((b3 as u64)
            << 32) | ((b4 as u64) << 24) | ((b5 as u64) << 16) | ((b6 as u64) << 8) | (b7 as u64);
        &&& ((y >> 56) & 0xff) as u8 == b0
        &&& ((y >> 48) & 0xff) as u8 == b1
        &&& ((y >> 40) & 0xff) as u8 == b2
        &&& ((y >> 32) & 0xff) as u8 == b3
        &&& ((y >> 24) & 0xff) as u8 == b4
        &&& ((y >> 16) & 0xff) as u8 == b5
        &&& ((y >> 8) & 0xff) as u8 == b6
        &&& (y & 0xff) as u8 == b7
    }) by (bit_vector);
    assert(spec_u64_be(x) =~= s);
}

/// Append the big-endian bytes of `x` to `out`.
pub fn push_u64_be(out: &mut Vec<u8>, x: u64)
    ensures
        final(out)@ == old(out)@ + spec_u64_be(x),
{
    out.push(((x >> 56) & 0xff) as u8);
    out.push(((x >> 48) & 0xff) as u8);
    out.push(((x >> 40) & 0xff) as u8);
    out.push(((x >> 32) & 0xff) as u8);
    out.push(((x >> 24) & 0xff) as u8);
    out.push(((x >> 16) & 0xff) as u8);
    out.push(((x >> 8) & 0xff) as u8);
    out.push((x & 0xff) as u8);
    assert(out@ =~= old(out)@ + spec_u64_be(x));
}

/// The four big-endian bytes of a 32-bit value.
pub open spec fn spec_u32_be(x: u32) -> Seq<u8> {
    seq![
        ((x >> 24) & 0xff) as u8,
        ((x >> 16) & 0xff) as u8,
        ((x >> 8) & 0xff) as u8,
        (x & 0xff) as u8,
    ]
}

/// The 32-bit value read from four big-endian bytes.
pub open spec fn spec_u32_from_be(s: Seq<u8>) -> u32
    recommends
        s.len() == 4,
{
    ((s[0] as u32) << 24) | ((s[1] as u32) << 16) | ((s[2] as u32) << 8) | (s[3] as u32)
}

/// Reading back the big-endian bytes of a 32-bit value yields the value.
pub proof fn lemma_u32_be_round_trip(x: u32)
    ensures
        spec_u32_from_be(spec_u32_be(x)) == x,
{
    assert(((((x >> 24) & 0xff) as u8 as u32) << 24) | ((((x >> 16) & 0xff) as u8 as u32) << 16) | (
    (((x >> 8) & 0xff) as u8 as u32) << 8) | ((x & 0xff) as u8 as u32) == x) by (bit_vector);
}

/// Four bytes are the big-endian image of the value read from them.
pub proof fn lemma_u32_be_canonical(s: Seq<u8>)
    requires
        s.len() == 4,
    ensures
        spec_u32_be(spec_u32_from_be(s)) == s,
{
    let b0 = s[0];
    let b1 = s[1];
    let b2 = s[2];
    let b3 = s[3];
    assert({
        let y = ((b0 as u32) << 24) | ((b1 as u32) << 16) | ((b2 as u32) << 8) | (b3 as u32);
        &&& ((y >> 24) & 0xff) as u8 == b0
        &&& ((y >> 16) & 0xff) as u8 == b1
        &&& ((y >> 8) & 0xff) as u8 == b2
        &&& (y & 0xff) as u8 == b3
    }) by (bit_vector);
    assert(spec_u32_be(spec_u32_from_be(s)) =~= s);
}

/// Append the big-endian bytes of `x` to `out`.
pub fn push_u32_be(out: &mut Vec<u8>, x: u32)
    ensures
        final(out)@ == old(out)@ + spec_u32_be(x),
{
    out.push(((x >> 24) & 0xff) as u8);
    out.push(((x >> 16) & 0xff) as u8);
    out.push(((x >> 8) & 0xff) as u8);
    out.push((x & 0xff) as u8);
    assert(out@ =~= old(out)@ + spec_u32_be(x));
}

/// Read a 32-bit big-endian value at `pos`.
pub fn u32_be_at(buf: &[u8], pos: usize) -> (r: u32)
    requires
        pos + 4 <= buf@.len(),
    ensures
        r == spec_u32_from_be(buf@.subrange(pos as int, pos as int + 4)),
{
    let r = ((buf[pos] as u32) << 24) | ((buf[pos + 1] as u32) << 16) | ((buf[pos + 2] as u32)
        << 8) | (buf[pos + 3] as u32);
    proof {
        let s = buf@.subrange(pos as int, pos as int + 4);
        assert(s[0] == buf@[pos as int] && s[1] == buf@[pos as int + 1] && s[2] == buf@[pos as int
            + 2] && s[3] == buf@[pos as int + 3]);
    }
    r
}

/// Read a 64-bit big-endian value at `pos`.
pub fn u64_be_at(buf: &[u8], pos: usize) -> (r: u64)
    requires
        pos + 8 <= buf@.len(),
    ensures
        r == spec_u64_from_be(buf@.subrange(pos as int, pos as int + 8)),
{
    let r = ((buf[pos] as u64) << 56) | ((buf[pos + 1] as u64) << 48) | ((buf[pos + 2] as u64)
        << 40) | ((buf[pos + 3] as u64) << 32) | ((buf[pos + 4] as u64) << 24) | ((buf[pos + 5]
        as u64) << 16) | ((buf[pos + 6] as u64) << 8) | (buf[pos + 7] as u64);
    proof {
        let s = buf@.subrange(pos as int, pos as int + 8);
        assert(s[0] == buf@[pos as int] && s[1] == buf@[pos as int + 1] && s[2] == buf@[pos as int
            + 2] && s[3] == buf@[pos as int + 3] && s[4] == buf@[pos as int + 4] && s[5]
            == buf@[pos as int + 5] && s[6] == buf@[pos as int + 6] && s[7] == buf@[pos as int
            + 7]);
    }
    r
}

/// Byte-for-byte equality of two slices.
pub fn bytes_eq(a: &[u8], b: &[u8]) -> (r: bool)
    ensures
        r == (a@ == b@),
{
    if a.len() != b.len() {
        proof {
            assert(a@ != b@);
        }
        return false;
    }
    let n = a.len();
    let mut i: usize = 0;
    while i < n
        invariant
            n == a@.len() && n == b@.len(),
            i <= n,
            forall|j: int| 0 <= j < i ==> a@[j] == b@[j],
        decreases n - i,
    {
        if a[i] != b[i] {
            proof {
                assert(a@[i as int] != b@[i as int]);
            }
            return false;
        }
        i = i + 1;
    }
    proof {
        assert(a@ =~= b@);
    }
    true
}

/// The bytes of `buf` from `start` to `end`, as an owned vector.
pub fn sub_vec(buf: &[u8], start: usize, end: usize) -> (r: Vec<u8>)
    requires
        start <= end <= buf@.len(),
    ensures
        r@ == buf@.subrange(start as int, end as int),
{
    let mut out: Vec<u8> = Vec::new();
    let mut i: usize = start;
    while i < end
        invariant
            start <= i <= end <= buf@.len(),
            out@ == buf@.subrange(start as int, i as int),
        decreases end - i,
    {
        out.push(buf[i]);
        proof {
            assert(out@ =~= buf@.subrange(start as int, i as int + 1));
        }
        i = i + 1;
    }
    out
}

/// A whole frame: payload length, then message type, then payload.
pub open spec fn spec_frame(msg_type: u8, payload: Seq<u8>) -> Seq<u8>
    recommends
        payload.len() <= u64::MAX,
{
    spec_u64_be(payload.len() as u64) + seq![msg_type] + payload
}

/// Build the bytes of one frame: 8-byte big-endian payload length,
/// the message type byte, then the payload.
pub fn framed(msg_type: u8, data: Vec<u8>) -> (r: Vec<u8>)
    ensures
        r@ == spec_frame(msg_type, data@),
{
    let ghost payload = data@;
    let mut frame: Vec<u8> = Vec::new();
    push_u64_be(&mut frame, data.len() as u64);
    frame.push(msg_type);
    let mut data = data;
    frame.append(&mut data);
    assert(frame@ =~= spec_frame(msg_type, payload));
    frame
}

/// Split a 9-byte header into the declared payload length and the
/// message type.
pub fn read_header(header: &[u8]) -> (r: (u64, u8))
    requires
        header@.len() == HEADER_LEN,
    ensures
        r.0 == spec_u64_from_be(header@.subrange(0, 8)),
        r.1 == header@[8],
{
    let len = ((header[0] as u64) << 56) | ((header[1] as u64) << 48) | ((header[2] as u64) << 40)
        | ((header[3] as u64) << 32) | ((header[4] as u64) << 24) | ((header[5] as u64) << 16) | ((
    header[6] as u64) << 8) | (header[7] as u64);
    let t = header[8];
    proof {
        let s = header@.subrange(0, 8);
        assert(s[0] == header@[0] && s[1] == header@[1] && s[2] == header@[2] && s[3] == header@[3]
            && s[4] == header@[4] && s[5] == header@[5] && s[6] == header@[6] && s[7] == header@[7]);
    }
    (len, t)
}

/// Whether a declared payload length is acceptable to a receiver.
pub open spec fn spec_header_len_ok(len: u64) -> bool {
    len <= MAX_PAYLOAD_LEN
}

/// Bound check on a declared payload length, guarding against a peer
/// that announces an enormous frame.
pub fn header_len_ok(len: u64) -> (r: bool)
    ensures
        r == spec_header_len_ok(len),
{
    len <= MAX_PAYLOAD_LEN
}

/// Frame round-trip: reading the bytes written for `(msg_type, payload)`
/// yields the declared length, the type, and the payload unchanged.
pub proof fn lemma_frame_round_trip(msg_type: u8, payload: Seq<u8>)
    requires
        payload.len() <= u64::MAX,
    ensures
        ({
            let f = spec_frame(msg_type, payload);
            &&& f.len() == 9 + payload.len()
            &&& spec_u64_from_be(f.subrange(0, 8)) == payload.len()
            &&& f[8] == msg_type
            &&& f.subrange(9, f.len() as int) == payload
        }),
{
    let f = spec_frame(msg_type, payload);
    assert(f.subrange(0, 8) =~= spec_u64_be(payload.len() as u64));
    lemma_u64_be_round_trip(payload.len() as u64);
    assert(f.subrange(9, f.len() as int) =~= payload);
}

} // verus!
