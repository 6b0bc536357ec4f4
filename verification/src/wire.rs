//! Big-endian scalars and byte-string helpers shared by the codecs.

use byteorder::{BigEndian, ByteOrder};
use vstd::prelude::*;
use vstd::slice::slice_subrange;

verus! {

/// The 16-bit value written on the wire as `hi` followed by `lo`.
pub open spec fn be_u16(hi: u8, lo: u8) -> u16 {
    (hi as int * 256 + lo as int) as u16
}

/// The two bytes that carry `v` on the wire, most significant first.
pub open spec fn u16_be_bytes(v: u16) -> Seq<u8> {
    seq![(v / 256) as u8, (v % 256) as u8]
}

/// The 16-bit value that starts at `pos` in `s`.
pub open spec fn u16_at(s: Seq<u8>, pos: int) -> u16
    recommends
        0 <= pos,
        pos + 2 <= s.len(),
{
    be_u16(s[pos], s[pos + 1])
}

/// Reading back the two bytes of a value gives the value.
pub proof fn lemma_u16_round_trip(v: u16)
    ensures
        u16_be_bytes(v).len() == 2,
        be_u16(u16_be_bytes(v)[0], u16_be_bytes(v)[1]) == v,
{
}

/// Writing out a value read from two bytes gives the two bytes.
pub proof fn lemma_u16_bytes_of_be(hi: u8, lo: u8)
    ensures
        u16_be_bytes(be_u16(hi, lo)) =~= seq![hi, lo],
{
}

/// `byteorder::BigEndian::read_u16`: the first two bytes of `buf` read as a
/// big-endian number. It panics on a shorter buffer, which `requires` rules
/// out.
#[verifier::external_body]
fn big_endian_read_u16(buf: &[u8]) -> (v: u16)
    requires
        buf@.len() >= 2,
    ensures
        v == be_u16(buf@[0], buf@[1]),
{
    BigEndian::read_u16(buf)
}

/// `byteorder::BigEndian::write_u16` on a two-byte buffer: the buffer then
/// holds the high byte of `v` followed by its low byte.
#[verifier::external_body]
fn big_endian_write_u16(v: u16) -> (bytes: [u8; 2])
    ensures
        bytes@ == u16_be_bytes(v),
{
    let mut buf = [0u8; 2];
    BigEndian::write_u16(&mut buf, v);
    buf
}

/// Appends the big-endian form of `v` to `out`.
pub fn put_u16(out: &mut Vec<u8>, v: u16)
    ensures
        final(out)@ == old(out)@ + u16_be_bytes(v),
{
    let bytes = big_endian_write_u16(v);
    out.push(bytes[0]);
    out.push(bytes[1]);
    assert(final(out)@ =~= old(out)@ + u16_be_bytes(v));
}

/// Reads the big-endian 16-bit value at `pos`, if two bytes are there.
pub fn get_u16(data: &[u8], pos: usize) -> (r: Option<u16>)
    ensures
        r == (if pos + 2 <= data@.len() {
            Some(u16_at(data@, pos as int))
        } else {
            None
        }),
{
    if pos > data.len() || data.len() - pos < 2 {
        return None;
    }
    let pair = slice_subrange(data, pos, pos + 2);
    Some(big_endian_read_u16(pair))
}

/// Reads the byte at `pos`, if there is one.
pub fn get_u8(data: &[u8], pos: usize) -> (r: Option<u8>)
    ensures
        r == (if pos < data@.len() {
            Some(data@[pos as int])
        } else {
            None
        }),
{
    if pos < data.len() {
        Some(data[pos])
    } else {
        None
    }
}

/// Appends a copy of `src` to `out`.
pub fn put_bytes(out: &mut Vec<u8>, src: &[u8])
    ensures
        final(out)@ == old(out)@ + src@,
{
    let mut i: usize = 0;
    while i < src.len()
        invariant
            i <= src@.len(),
            out@ == old(out)@ + src@.subrange(0, i as int),
        decreases src@.len() - i,
    {
        out.push(src[i]);
        i += 1;
        assert(out@ =~= old(out)@ + src@.subrange(0, i as int));
    }
    assert(src@.subrange(0, i as int) =~= src@);
}

/// Copies `n` bytes starting at `pos`, if that many are there.
pub fn get_bytes(data: &[u8], pos: usize, n: usize) -> (r: Option<Vec<u8>>)
    ensures
        match r {
            Some(v) => pos + n <= data@.len() && v@ == data@.subrange(pos as int, pos + n),
            None => pos + n > data@.len(),
        },
{
    if pos > data.len() || data.len() - pos < n {
        return None;
    }
    let len: usize = data.len();
    let mut v: Vec<u8> = Vec::with_capacity(n);
    let mut i: usize = 0;
    while i < n
        invariant
            i <= n,
            pos + n <= len,
            len == data@.len(),
            v@ == data@.subrange(pos as int, pos + i),
        decreases n - i,
    {
        v.push(data[pos + i]);
        i += 1;
        assert(v@ =~= data@.subrange(pos as int, pos + i));
    }
    Some(v)
}

/// Whether two byte strings hold the same bytes in the same order.
pub fn bytes_eq(a: &[u8], b: &[u8]) -> (r: bool)
    ensures
        r == (a@ == b@),
{
    if a.len() != b.len() {
        return false;
    }
    let mut i: usize = 0;
    while i < a.len()
        invariant
            i <= a@.len(),
            a@.len() == b@.len(),
            a@.subrange(0, i as int) == b@.subrange(0, i as int),
        decreases a@.len() - i,
    {
        if a[i] != b[i] {
            assert(a@[i as int] != b@[i as int]);
            return false;
        }
        i += 1;
        assert(a@.subrange(0, i as int) =~= a@.subrange(0, i - 1).push(a@[i - 1]));
        assert(b@.subrange(0, i as int) =~= b@.subrange(0, i - 1).push(b@[i - 1]));
    }
    assert(a@ =~= a@.subrange(0, i as int));
    assert(b@ =~= b@.subrange(0, i as int));
    true
}

} // verus!
