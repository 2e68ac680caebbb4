//! Big-endian integers, UTF-8 text and growable byte buffers: the primitives
//! that the frame codec is built from.
//!
//! The integer conversions and the buffer are those of the `bytes` crate; the
//! functions here state what each call does, over plain sequences of bytes.
use bytes::{Buf, BufMut, BytesMut};
use vstd::arithmetic::div_mod::{
    lemma_div_denominator, lemma_fundamental_div_mod, lemma_fundamental_div_mod_converse,
};
use vstd::prelude::*;
use vstd::string::StringSliceAdditionalSpecFns;
use vstd::utf8::valid_utf8;

verus! {

/// The value of two bytes read as a big-endian unsigned integer.
pub open spec fn be16(b0: u8, b1: u8) -> int {
    b0 as int * 256 + b1 as int
}

/// The value of four bytes read as a big-endian unsigned integer.
pub open spec fn be32(b0: u8, b1: u8, b2: u8, b3: u8) -> int {
    b0 as int * 16777216 + b1 as int * 65536 + b2 as int * 256 + b3 as int
}

/// The two bytes that carry `n` in big-endian order.
pub open spec fn u16_bytes(n: u16) -> Seq<u8> {
    seq![(n as int / 256) as u8, (n as int % 256) as u8]
}

/// The four bytes that carry `n` in big-endian order.
pub open spec fn u32_bytes(n: u32) -> Seq<u8> {
    seq![
        (n as int / 16777216) as u8,
        (n as int / 65536 % 256) as u8,
        (n as int / 256 % 256) as u8,
        (n as int % 256) as u8,
    ]
}

/// Reading back the bytes of a 16-bit integer gives the integer.
pub proof fn lemma_be16_of_u16_bytes(n: u16)
    ensures
        u16_bytes(n).len() == 2,
        be16(u16_bytes(n)[0], u16_bytes(n)[1]) == n,
{
    let m = n as int;
    assert(m == (m / 256) * 256 + m % 256) by {
        lemma_fundamental_div_mod(m, 256);
    }
}

/// Writing out the value of two bytes gives the two bytes.
pub proof fn lemma_u16_bytes_of_be16(b0: u8, b1: u8)
    ensures
        0 <= be16(b0, b1) <= u16::MAX,
        u16_bytes(be16(b0, b1) as u16) =~= seq![b0, b1],
{
    lemma_fundamental_div_mod_converse(be16(b0, b1), 256, b0 as int, b1 as int);
}

/// Reading back the bytes of a 32-bit integer gives the integer.
pub proof fn lemma_be32_of_u32_bytes(n: u32)
    ensures
        u32_bytes(n).len() == 4,
        be32(u32_bytes(n)[0], u32_bytes(n)[1], u32_bytes(n)[2], u32_bytes(n)[3]) == n,
{
    let m = n as int;
    let q1 = m / 256;
    let q2 = m / 65536;
    let q3 = m / 16777216;
    lemma_fundamental_div_mod(m, 256);
    lemma_fundamental_div_mod(q1, 256);
    lemma_fundamental_div_mod(q2, 256);
    assert(q1 / 256 == q2) by {
        lemma_div_denominator(m, 256, 256);
    }
    assert(q2 / 256 == q3) by {
        lemma_div_denominator(m, 65536, 256);
    }
    assert(0 <= q3 < 256);
    assert(m == q3 * 16777216 + (q2 % 256) * 65536 + (q1 % 256) * 256 + m % 256);
}

/// Writing out the value of four bytes gives the four bytes.
pub proof fn lemma_u32_bytes_of_be32(b0: u8, b1: u8, b2: u8, b3: u8)
    ensures
        0 <= be32(b0, b1, b2, b3) <= u32::MAX,
        u32_bytes(be32(b0, b1, b2, b3) as u32) =~= seq![b0, b1, b2, b3],
{
    let n = be32(b0, b1, b2, b3);
    let h1: int = b0 as int;
    let h2: int = b0 as int * 256 + b1 as int;
    let h3: int = b0 as int * 65536 + b1 as int * 256 + b2 as int;
    lemma_fundamental_div_mod_converse(
        n,
        16777216,
        h1,
        b1 as int * 65536 + b2 as int * 256 + b3 as int,
    );
    lemma_fundamental_div_mod_converse(n, 65536, h2, b2 as int * 256 + b3 as int);
    lemma_fundamental_div_mod_converse(n, 256, h3, b3 as int);
    lemma_fundamental_div_mod_converse(h2, 256, h1, b1 as int);
    lemma_fundamental_div_mod_converse(h3, 256, h2, b2 as int);
}

/// `Buf::get_u16` of the `bytes` crate on a byte slice: the first two bytes,
/// read as a big-endian integer. The call panics on fewer than two bytes, so
/// they are required.
#[verifier::external_body]
pub(crate) fn read_u16(chunk: &[u8]) -> (n: u16)
    requires
        chunk@.len() >= 2,
    ensures
        n as int == be16(chunk@[0], chunk@[1]),
{
    let mut rest: &[u8] = chunk;
    rest.get_u16()
}

/// `Buf::get_u32` of the `bytes` crate on a byte slice: the first four bytes,
/// read as a big-endian integer. The call panics on fewer than four bytes, so
/// they are required.
#[verifier::external_body]
pub(crate) fn read_u32(chunk: &[u8]) -> (n: u32)
    requires
        chunk@.len() >= 4,
    ensures
        n as int == be32(chunk@[0], chunk@[1], chunk@[2], chunk@[3]),
{
    let mut rest: &[u8] = chunk;
    rest.get_u32()
}

/// `std::str::from_utf8`: the text that the bytes spell, if they are valid
/// UTF-8, and nothing otherwise. The text's bytes are the input's.
#[verifier::external_body]
pub(crate) fn str_from_utf8<'a>(bytes: &'a [u8]) -> (text: Option<&'a str>)
    ensures
        text is Some <==> valid_utf8(bytes@),
        text matches Some(s) ==> s.spec_bytes() == bytes@,
{
    match std::str::from_utf8(bytes) {
        Ok(text) => Some(text),
        Err(_) => None,
    }
}

/// `bytes::BytesMut`, a growable buffer of bytes. Nothing of its inside is
/// known here; what it holds is `buf_bytes`.
#[verifier::external_type_specification]
#[verifier::external_body]
pub struct ExBytesMut(bytes::BytesMut);

/// The bytes that a `BytesMut` holds, first to last.
pub uninterp spec fn buf_bytes(b: BytesMut) -> Seq<u8>;

/// `BytesMut::with_capacity`: a buffer that holds no bytes. The call
/// panics where the capacity is more than an allocation can have, so that is
/// ruled out.
#[verifier::external_body]
pub(crate) fn buf_with_capacity(capacity: usize) -> (b: BytesMut)
    requires
        capacity <= isize::MAX,
    ensures
        buf_bytes(b) == Seq::<u8>::empty(),
{
    BytesMut::with_capacity(capacity)
}

/// `BufMut::put_u8` on a `BytesMut`: the byte is appended. The buffer
/// grows as needed; the call panics where it would have to grow past what an
/// allocation can have, so that is ruled out.
#[verifier::external_body]
pub(crate) fn buf_put_u8(b: &mut BytesMut, n: u8)
    requires
        buf_bytes(*old(b)).len() + 1 <= isize::MAX,
    ensures
        buf_bytes(*final(b)) == buf_bytes(*old(b)).push(n),
{
    b.put_u8(n)
}

/// `BufMut::put_u16` on a `BytesMut`: the two big-endian bytes of `n` are
/// appended. Growth is bounded as for `buf_put_u8`.
#[verifier::external_body]
pub(crate) fn buf_put_u16(b: &mut BytesMut, n: u16)
    requires
        buf_bytes(*old(b)).len() + 2 <= isize::MAX,
    ensures
        buf_bytes(*final(b)) == buf_bytes(*old(b)) + u16_bytes(n),
{
    b.put_u16(n)
}

/// `BufMut::put_u32` on a `BytesMut`: the four big-endian bytes of `n` are
/// appended. Growth is bounded as for `buf_put_u8`.
#[verifier::external_body]
pub(crate) fn buf_put_u32(b: &mut BytesMut, n: u32)
    requires
        buf_bytes(*old(b)).len() + 4 <= isize::MAX,
    ensures
        buf_bytes(*final(b)) == buf_bytes(*old(b)) + u32_bytes(n),
{
    b.put_u32(n)
}

/// `BufMut::put_slice` on a `BytesMut`: the bytes of `src` are appended in
/// order. Growth is bounded as for `buf_put_u8`.
#[verifier::external_body]
pub(crate) fn buf_put_slice(b: &mut BytesMut, src: &[u8])
    requires
        buf_bytes(*old(b)).len() + src@.len() <= isize::MAX,
    ensures
        buf_bytes(*final(b)) == buf_bytes(*old(b)) + src@,
{
    b.put_slice(src)
}

/// The `Deref` of a `BytesMut`: its bytes as a slice.
#[verifier::external_body]
pub(crate) fn buf_as_slice<'a>(b: &'a BytesMut) -> (s: &'a [u8])
    ensures
        s@ == buf_bytes(*b),
{
    &b[..]
}

/// `Buf::advance` on a `BytesMut`: the first `cnt` bytes are dropped. The
/// call panics where `cnt` exceeds the length, so that is ruled out.
#[verifier::external_body]
pub(crate) fn buf_advance(b: &mut BytesMut, cnt: usize)
    requires
        cnt <= buf_bytes(*old(b)).len(),
    ensures
        buf_bytes(*final(b)) == buf_bytes(*old(b)).skip(cnt as int),
{
    b.advance(cnt)
}

} // verus!
