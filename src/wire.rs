use vstd::prelude::*;

use crate::{bytes_result, Error};

verus! {

/// The four little-endian bytes of `v`.
pub open spec fn le32(v: u32) -> Seq<u8> {
    seq![(v & 0xff) as u8, ((v >> 8u32) & 0xff) as u8, ((v >> 16u32) & 0xff) as u8, (v >> 24u32) as u8]
}

/// The `u32` whose little-endian bytes are `b[0..4]`.
pub open spec fn from_le32(b: Seq<u8>) -> u32
    recommends
        b.len() >= 4,
{
    (b[0] as u32) | ((b[1] as u32) << 8u32) | ((b[2] as u32) << 16u32) | ((b[3] as u32) << 24u32)
}

/// Reading back the bytes that `le32` gives yields the same number.
pub proof fn lemma_le32_round_trip(v: u32, rest: Seq<u8>)
    ensures
        from_le32(le32(v) + rest) == v,
        le32(v).len() == 4,
{
    let b = le32(v) + rest;
    assert(b[0] == (v & 0xff) as u8);
    assert(b[1] == ((v >> 8u32) & 0xff) as u8);
    assert(b[2] == ((v >> 16u32) & 0xff) as u8);
    assert(b[3] == (v >> 24u32) as u8);
    let (b0, b1, b2, b3) = (b[0], b[1], b[2], b[3]);
    assert(b0 == (v & 0xff) as u8 && b1 == ((v >> 8u32) & 0xff) as u8 && b2 == ((v >> 16u32)
        & 0xff) as u8 && b3 == (v >> 24u32) as u8 ==> ((b0 as u32) | ((b1 as u32) << 8u32) | ((
    b2 as u32) << 16u32) | ((b3 as u32) << 24u32)) == v) by (bit_vector);
}

/// The three checksums at the end of a file read back as written.
pub proof fn lemma_trailer(b: Seq<u8>, q: int, c1: u32, c2: u32, c3: u32)
    requires
        0 <= q,
        b.len() == q + 12,
        b.subrange(q, q + 12) == le32(c1) + le32(c2) + le32(c3),
    ensures
        from_le32(suffix(b, q)) == c1,
        from_le32(suffix(b, q + 4)) == c2,
        from_le32(suffix(b, q + 8)) == c3,
{
    let t = le32(c1) + le32(c2) + le32(c3);
    assert(suffix(b, q) =~= t);
    lemma_le32_round_trip(c1, le32(c2) + le32(c3));
    assert(t =~= le32(c1) + (le32(c2) + le32(c3)));
    lemma_le32_round_trip(c2, le32(c3));
    assert(suffix(b, q + 4) =~= t.subrange(4, 12));
    assert(t.subrange(4, 12) =~= le32(c2) + le32(c3));
    lemma_le32_round_trip(c3, Seq::empty());
    assert(suffix(b, q + 8) =~= t.subrange(8, 12));
    assert(t.subrange(8, 12) =~= le32(c3) + Seq::empty());
}

/// A file made of `body` and then its checksum `hash`; where a checksum is
/// expected and `hash` differs from it, `ChecksumMismatch`.
pub open spec fn sealed(body: Seq<u8>, hash: u32, expected: Option<u32>) -> Result<Seq<u8>, Error> {
    match expected {
        Some(c) if hash != c => Err(Error::ChecksumMismatch(hash, c)),
        _ => Ok(body + le32(hash)),
    }
}

/// Appends the checksum `hash` to `body`, unless a checksum is expected and
/// `hash` differs from it.
pub fn seal(body: Vec<u8>, hash: u32, expected: Option<u32>) -> (r: Result<Vec<u8>, Error>)
    ensures
        bytes_result(r) == sealed(body@, hash, expected),
{
    if let Some(c) = expected {
        if hash != c {
            return Err(Error::ChecksumMismatch(hash, c));
        }
    }
    let mut file = body;
    push_le32(&mut file, hash);
    Ok(file)
}

/// Appends the little-endian bytes of `v`.
pub(crate) fn push_le32(buf: &mut Vec<u8>, v: u32)
    ensures
        final(buf)@ == old(buf)@ + le32(v),
{
    buf.push((v & 0xff) as u8);
    buf.push(((v >> 8u32) & 0xff) as u8);
    buf.push(((v >> 16u32) & 0xff) as u8);
    buf.push((v >> 24u32) as u8);
    assert(buf@ =~= old(buf)@ + le32(v));
}

/// Reads a little-endian `u32` at `pos`.
pub(crate) fn read_le32(data: &[u8], pos: usize) -> (r: Result<(u32, usize), Error>)
    ensures
        pos + 4 <= data@.len() ==> r == Ok::<(u32, usize), Error>(
            (from_le32(data@.subrange(pos as int, data@.len() as int)), (pos + 4) as usize),
        ),
        pos + 4 > data@.len() ==> r == Err::<(u32, usize), Error>(Error::TruncatedInput),
{
    if data.len() < 4 || pos > data.len() - 4 {
        return Err(Error::TruncatedInput);
    }
    let v = (data[pos] as u32) | ((data[pos + 1] as u32) << 8u32) | ((data[pos + 2] as u32)
        << 16u32) | ((data[pos + 3] as u32) << 24u32);
    Ok((v, pos + 4))
}

/// The bytes of `b` from `pos` on.
pub open spec fn suffix(b: Seq<u8>, pos: int) -> Seq<u8> {
    b.subrange(pos, b.len() as int)
}

/// `s` cut or padded with zeros to length `n`.
pub open spec fn pad(s: Seq<u8>, n: nat) -> Seq<u8> {
    Seq::new(n, |k: int| if k < s.len() { s[k] } else { 0u8 })
}

/// Appends `src[start..start + len]` to `buf`.
pub(crate) fn push_range(buf: &mut Vec<u8>, src: &[u8], start: usize, len: usize)
    requires
        start + len <= src@.len(),
    ensures
        final(buf)@ == old(buf)@ + src@.subrange(start as int, start + len),
{
    let n = src.len();
    let mut k: usize = 0;
    while k < len
        invariant
            k <= len,
            n == src@.len(),
            start + len <= src@.len(),
            buf@ == old(buf)@ + src@.subrange(start as int, start + k),
        decreases len - k,
    {
        buf.push(src[start + k]);
        k = k + 1;
        assert(buf@ =~= old(buf)@ + src@.subrange(start as int, start + k));
    }
}

/// A new vector holding `src[start..start + len]`.
pub(crate) fn copy_range(src: &[u8], start: usize, len: usize) -> (r: Vec<u8>)
    requires
        start + len <= src@.len(),
    ensures
        r@ == src@.subrange(start as int, start + len),
{
    let mut r: Vec<u8> = Vec::new();
    push_range(&mut r, src, start, len);
    assert(r@ =~= src@.subrange(start as int, start + len));
    r
}

} // verus!
