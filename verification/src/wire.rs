//! Byte-level building blocks of the wire protocol: big-endian integers,
//! byte buffers and the calls into the crates that handle raw bytes.
//!
//! Every item marked `external_body` here is trusted: its contract restates
//! what the called crate documents, and nothing in this crate proves it.
use vstd::prelude::*;
use vstd::utf8::*;
use vstd::string::StringSliceAdditionalSpecFns;

verus! {

/// The four bytes of `x` in big-endian (network) order.
pub open spec fn be_u32_bytes(x: u32) -> Seq<u8> {
    seq![
        (x / 0x100_0000) as u8,
        ((x / 0x1_0000) % 0x100) as u8,
        ((x / 0x100) % 0x100) as u8,
        (x % 0x100) as u8,
    ]
}

/// The unsigned integer held by the first four bytes of `b`, read big-endian.
pub open spec fn be_u32(b: Seq<u8>) -> u32
    recommends
        b.len() >= 4,
{
    (b[0] as int * 0x100_0000 + b[1] as int * 0x1_0000 + b[2] as int * 0x100 + b[3] as int) as u32
}

/// The signed integer held by the first four bytes of `b`, read big-endian
/// in two's complement.
pub open spec fn be_i32(b: Seq<u8>) -> i32
    recommends
        b.len() >= 4,
{
    if be_u32(b) < 0x8000_0000 {
        be_u32(b) as i32
    } else {
        (be_u32(b) as int - 0x1_0000_0000) as i32
    }
}

/// Reading back the bytes written for a `u32` gives the same `u32`.
pub proof fn lemma_be_u32_roundtrip(x: u32)
    ensures
        be_u32(be_u32_bytes(x)) == x,
        be_u32_bytes(x).len() == 4,
{
    let b = be_u32_bytes(x);
    assert(b[0] as int == x / 0x100_0000);
    assert(b[1] as int == (x / 0x1_0000) % 0x100);
    assert(b[2] as int == (x / 0x100) % 0x100);
    assert(b[3] as int == x % 0x100);
    assert(x as int == (x / 0x100_0000) * 0x100_0000 + ((x / 0x1_0000) % 0x100) * 0x1_0000 + ((x
        / 0x100) % 0x100) * 0x100 + x % 0x100) by (nonlinear_arith);
}

/// Index of the first zero byte of `s`, or `s.len()` when it holds none.
pub open spec fn first_zero(s: Seq<u8>) -> int
    decreases s.len(),
{
    if s.len() == 0 {
        0
    } else if s[0] == 0 {
        0
    } else {
        1 + first_zero(s.drop_first())
    }
}

pub proof fn lemma_first_zero(s: Seq<u8>)
    ensures
        0 <= first_zero(s) <= s.len(),
        first_zero(s) < s.len() ==> s[first_zero(s)] == 0,
        forall|j: int| 0 <= j < first_zero(s) ==> s[j] != 0,
    decreases s.len(),
{
    if s.len() != 0 && s[0] != 0 {
        lemma_first_zero(s.drop_first());
        assert forall|j: int| 0 <= j < first_zero(s) implies s[j] != 0 by {
            if j > 0 {
                assert(s[j] == s.drop_first()[j - 1]);
            }
        }
    }
}

/// `first_zero` is pinned down by the position of the first zero byte.
pub proof fn lemma_first_zero_at(s: Seq<u8>, i: int)
    requires
        0 <= i <= s.len(),
        i < s.len() ==> s[i] == 0,
        forall|j: int| 0 <= j < i ==> s[j] != 0,
    ensures
        first_zero(s) == i,
    decreases s.len(),
{
    if s.len() != 0 && s[0] != 0 {
        assert forall|j: int| 0 <= j < i - 1 implies s.drop_first()[j] != 0 by {
            assert(s.drop_first()[j] == s[j + 1]);
        }
        lemma_first_zero_at(s.drop_first(), i - 1);
    }
}

#[verifier::external_type_specification]
#[verifier::external_body]
pub struct ExBytesMut(bytes::BytesMut);

#[verifier::external_type_specification]
#[verifier::external_body]
pub struct ExBytes(bytes::Bytes);

#[verifier::external_type_specification]
#[verifier::external_body]
pub struct ExIoError(std::io::Error);

#[verifier::external_type_specification]
#[verifier::external_body]
pub struct ExUtf8Error(core::str::Utf8Error);

/// The bytes held by a `bytes::BytesMut` buffer, in order.
pub uninterp spec fn buf_contents(b: bytes::BytesMut) -> Seq<u8>;

/// The bytes held by a `bytes::Bytes` handle, in order.
pub uninterp spec fn frozen_contents(b: bytes::Bytes) -> Seq<u8>;

/// `BytesMut::len`: the number of bytes in the buffer.
#[verifier::external_body]
pub(crate) fn buf_len(b: &bytes::BytesMut) -> (n: usize)
    ensures
        n == buf_contents(*b).len(),
{
    b.len()
}

/// `BytesMut` as a byte slice (its `Deref`): the slice holds exactly the
/// buffer's bytes.
#[verifier::external_body]
pub(crate) fn buf_as_slice(b: &bytes::BytesMut) -> (s: &[u8])
    ensures
        s@ == buf_contents(*b),
{
    &b[..]
}

/// `BytesMut::split_to`: hands out the first `at` bytes and keeps the rest.
/// It panics when `at` exceeds the length, which `requires` rules out.
#[verifier::external_body]
pub(crate) fn buf_split_to(b: &mut bytes::BytesMut, at: usize) -> (head: bytes::BytesMut)
    requires
        at <= buf_contents(*old(b)).len(),
    ensures
        buf_contents(head) == buf_contents(*old(b)).take(at as int),
        buf_contents(*final(b)) == buf_contents(*old(b)).skip(at as int),
{
    b.split_to(at)
}

/// `Buf::advance` on a `BytesMut`: drops the first `cnt` bytes. It panics
/// when `cnt` exceeds the length, which `requires` rules out.
#[verifier::external_body]
pub(crate) fn buf_advance(b: &mut bytes::BytesMut, cnt: usize)
    requires
        cnt <= buf_contents(*old(b)).len(),
    ensures
        buf_contents(*final(b)) == buf_contents(*old(b)).skip(cnt as int),
{
    bytes::Buf::advance(b, cnt)
}

/// `BytesMut::reserve`: makes room for `additional` more bytes and leaves
/// the contents as they were. The capacity it reaches is not stated.
#[verifier::external_body]
pub(crate) fn buf_reserve(b: &mut bytes::BytesMut, additional: usize)
    requires
        buf_contents(*old(b)).len() + additional <= isize::MAX,
    ensures
        buf_contents(*final(b)) == buf_contents(*old(b)),
{
    b.reserve(additional)
}

/// `BufMut::put_u8` on a `BytesMut`: appends one byte.
#[verifier::external_body]
pub(crate) fn buf_put_u8(b: &mut bytes::BytesMut, v: u8)
    requires
        buf_contents(*old(b)).len() + 1 <= isize::MAX,
    ensures
        buf_contents(*final(b)) == buf_contents(*old(b)).push(v),
{
    bytes::BufMut::put_u8(b, v)
}

/// `BufMut::put_u32` on a `BytesMut`: appends `v` in big-endian byte order.
#[verifier::external_body]
pub(crate) fn buf_put_u32(b: &mut bytes::BytesMut, v: u32)
    requires
        buf_contents(*old(b)).len() + 4 <= isize::MAX,
    ensures
        buf_contents(*final(b)) == buf_contents(*old(b)) + be_u32_bytes(v),
{
    bytes::BufMut::put_u32(b, v)
}

/// `BytesMut::extend_from_slice`: appends the bytes of `s`.
#[verifier::external_body]
pub(crate) fn buf_extend_from_slice(b: &mut bytes::BytesMut, s: &[u8])
    requires
        buf_contents(*old(b)).len() + s@.len() <= isize::MAX,
    ensures
        buf_contents(*final(b)) == buf_contents(*old(b)) + s@,
{
    b.extend_from_slice(s)
}

/// `Bytes` as a byte slice (its `Deref`).
#[verifier::external_body]
pub(crate) fn frozen_as_slice(b: &bytes::Bytes) -> (s: &[u8])
    ensures
        s@ == frozen_contents(*b),
{
    &b[..]
}

/// `Bytes::from(Vec<u8>)`: a handle holding exactly the vector's bytes.
#[verifier::external_body]
pub(crate) fn frozen_from_vec(v: Vec<u8>) -> (b: bytes::Bytes)
    ensures
        frozen_contents(b) == v@,
{
    bytes::Bytes::from(v)
}

/// `byteorder::BigEndian::read_u32`: the first four bytes read big-endian.
/// It panics on fewer than four bytes, which `requires` rules out.
#[verifier::external_body]
pub(crate) fn read_be_u32(buf: &[u8]) -> (v: u32)
    requires
        buf@.len() >= 4,
    ensures
        v == be_u32(buf@),
{
    <byteorder::BigEndian as byteorder::ByteOrder>::read_u32(buf)
}

/// `byteorder::ReadBytesExt::read_u32::<BigEndian>` on a byte slice: reads
/// the first four bytes big-endian, or fails (an end-of-file error) when
/// fewer than four are there. The slice handed in is a copy, so the
/// caller's slice does not move.
#[verifier::external_body]
pub(crate) fn read_be_u32_checked(buf: &[u8]) -> (r: Result<u32, std::io::Error>)
    ensures
        r is Ok <==> buf@.len() >= 4,
        r matches Ok(v) ==> v == be_u32(buf@),
{
    let mut reader = buf;
    byteorder::ReadBytesExt::read_u32::<byteorder::BigEndian>(&mut reader)
}

/// `memchr::memchr`: the index of the first occurrence of `needle` in
/// `haystack`, or `None` when it does not occur.
#[verifier::external_body]
pub(crate) fn find_byte(needle: u8, haystack: &[u8]) -> (r: Option<usize>)
    ensures
        r matches Some(i) ==> i < haystack@.len() && haystack@[i as int] == needle && forall|j: int|
            0 <= j < i ==> haystack@[j] != needle,
        r is None ==> forall|j: int| 0 <= j < haystack@.len() ==> haystack@[j] != needle,
{
    memchr::memchr(needle, haystack)
}

/// `postgres_protocol::message::backend::Header::parse`: `None` on fewer than
/// five bytes; otherwise the tag (first byte) and the length (the next four
/// bytes, big-endian, signed), or an error when that length is below four.
#[verifier::external_body]
pub(crate) fn parse_header(buf: &[u8]) -> (r: Result<Option<(u8, i32)>, std::io::Error>)
    ensures
        r matches Ok(None) <==> buf@.len() < 5,
        r is Err <==> (buf@.len() >= 5 && be_i32(buf@.skip(1)) < 4),
        r matches Ok(Some(h)) ==> h.0 == buf@[0] && h.1 == be_i32(buf@.skip(1)),
{
    match postgres_protocol::message::backend::Header::parse(buf) {
        Ok(Some(header)) => Ok(Some((header.tag(), header.len()))),
        Ok(None) => Ok(None),
        Err(e) => Err(e),
    }
}

/// `std::str::from_utf8`: succeeds exactly on valid UTF-8, and then the
/// string's characters are the ones the bytes encode.
#[verifier::external_body]
pub(crate) fn str_from_utf8(b: &[u8]) -> (r: Result<&str, core::str::Utf8Error>)
    ensures
        r is Ok <==> valid_utf8(b@),
        r matches Ok(s) ==> s@ == decode_utf8(b@) && s.spec_bytes() == b@,
{
    core::str::from_utf8(b)
}

} // verus!
