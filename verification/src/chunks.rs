//! The chunk: a length, a type code, the data and a CRC, as RFC 2083 lays them out.
use vstd::prelude::*;

use crate::bytes::{be_u32_of, be_uint, lemma_u32_octets, u32_be_octets, ByteStream};
use crate::text::{bytes_as_chars, push_bytes_as_chars};

verus! {

/// What a chunk holds, as sequences of octets.
pub struct ChunkV {
    pub len: Seq<u8>,
    pub type_: Seq<u8>,
    pub data: Seq<u8>,
    pub crc: Seq<u8>,
}

/// The data length that a chunk's four length octets declare.
pub open spec fn declared_len(c: ChunkV) -> nat {
    be_uint(c.len)
}

/// Reads one chunk from the front of `s`: four length octets (big-endian),
/// four type octets, as many data octets as the length says, and four CRC
/// octets. `None` when `s` is too short; otherwise the chunk and the number
/// of octets it took.
pub open spec fn parse_chunk(s: Seq<u8>) -> Option<(ChunkV, nat)> {
    if s.len() < 8 {
        None
    } else {
        let dl = be_uint(s.subrange(0, 4)) as int;
        if s.len() < 12 + dl {
            None
        } else {
            Some(
                (
                    ChunkV {
                        len: s.subrange(0, 4),
                        type_: s.subrange(4, 8),
                        data: s.subrange(8, 8 + dl),
                        crc: s.subrange(8 + dl, 12 + dl),
                    },
                    (12 + dl) as nat,
                ),
            )
        }
    }
}

/// How many octets the chunk at the front of `s` takes (meaningful when
/// `parse_chunk(s)` is `Some`).
pub open spec fn chunk_size(s: Seq<u8>) -> nat {
    parse_chunk(s).unwrap().1
}

/// The octets that make up a chunk, in stream order.
pub open spec fn chunk_octets(c: ChunkV) -> Seq<u8> {
    c.len + c.type_ + c.data + c.crc
}

/// Whether bit 4 (value 16) of octet `b` is clear: the property bit that
/// the chunk-type predicates test.
pub open spec fn bit4_clear(b: u8) -> bool {
    b & 16 == 0
}

/// Whether bit 4 (value 16) of octet `b` is set.
pub open spec fn bit4_set(b: u8) -> bool {
    b & 16 == 16
}

/// A PNG chunk.
#[derive(Debug)]
pub struct Chunk {
    len: [u8; 4],
    type_: [u8; 4],
    data: Vec<u8>,
    crc: [u8; 4],
}

impl View for Chunk {
    type V = ChunkV;

    closed spec fn view(&self) -> ChunkV {
        ChunkV { len: self.len@, type_: self.type_@, data: self.data@, crc: self.crc@ }
    }
}

/// Folds four octets, most significant first, into a `u32`.
pub fn size_from_arr(arr: [u8; 4]) -> (r: u32)
    ensures
        r == be_uint(arr@),
{
    be_u32_of(arr.as_slice())
}

fn next_octet(iter: &mut ByteStream) -> (b: u8)
    requires
        old(iter)@.len() > 0,
    ensures
        b == old(iter)@[0],
        final(iter)@ == old(iter)@.drop_first(),
{
    iter.next().unwrap()
}

fn next_four(iter: &mut ByteStream) -> (r: [u8; 4])
    requires
        old(iter)@.len() >= 4,
    ensures
        r@ == old(iter)@.take(4),
        final(iter)@ == old(iter)@.skip(4),
{
    let a = next_octet(iter);
    let b = next_octet(iter);
    let c = next_octet(iter);
    let d = next_octet(iter);
    let r = [a, b, c, d];
    assert(r@ =~= old(iter)@.take(4));
    assert(iter@ =~= old(iter)@.skip(4));
    r
}

impl Chunk {
    /// Builds a chunk from its four parts, as given.
    pub fn sample(len: [u8; 4], type_: [u8; 4], data: Vec<u8>, crc: [u8; 4]) -> (r: Self)
        ensures
            r@ == (ChunkV { len: len@, type_: type_@, data: data@, crc: crc@ }),
    {
        Self { len, type_, data, crc }
    }

    /// The data length that the chunk's length octets declare.
    pub fn len(&self) -> (r: usize)
        ensures
            r == declared_len(self@),
    {
        size_from_arr(self.len) as usize
    }

    /// Reads a chunk from the front of `iter` and takes its size from `count`.
    /// The stream must hold a whole chunk and `count` must cover it.
    pub fn from_iter(iter: &mut ByteStream, count: &mut usize) -> (r: Self)
        requires
            parse_chunk(old(iter)@) is Some,
            chunk_size(old(iter)@) <= *old(count),
        ensures
            parse_chunk(old(iter)@) == Some((r@, chunk_size(old(iter)@))),
            final(iter)@ == old(iter)@.skip(chunk_size(old(iter)@) as int),
            *final(count) == *old(count) - chunk_size(old(iter)@),
    {
        let ghost s = iter@;
        let len = next_four(iter);
        let type_ = next_four(iter);
        let datalen = size_from_arr(len);
        proof {
            assert(len@ =~= s.subrange(0, 4));
        }
        let mut data: Vec<u8> = Vec::new();
        let mut k: u32 = 0;
        while k < datalen
            invariant
                0 <= k <= datalen,
                datalen == be_uint(s.subrange(0, 4)),
                s.len() >= 12 + datalen,
                data@ =~= s.subrange(8, 8 + k),
                iter@ =~= s.skip(8 + k),
            decreases datalen - k,
        {
            let b = next_octet(iter);
            data.push(b);
            k = k + 1;
        }
        let crc = next_four(iter);
        *count = *count - (12 + datalen as usize);
        let r = Self { len, type_, data, crc };
        proof {
            assert(type_@ =~= s.subrange(4, 8));
            assert(crc@ =~= s.subrange(8 + datalen, 12 + datalen));
            assert(iter@ =~= s.skip(12 + datalen));
        }
        r
    }

    /// The chunk's data.
    pub fn data(&self) -> (r: &[u8])
        ensures
            r@ == self@.data,
    {
        self.data.as_slice()
    }

    /// The chunk type, each octet read as one character.
    pub fn type_string(&self) -> (r: String)
        ensures
            r@ == bytes_as_chars(self@.type_),
    {
        let mut s = String::new();
        push_bytes_as_chars(&mut s, self.type_.as_slice());
        assert(s@ =~= bytes_as_chars(self@.type_));
        s
    }

    /// The chunk's CRC octets.
    pub fn crc(&self) -> (r: [u8; 4])
        ensures
            r@ == self@.crc,
    {
        self.crc
    }

    /// The chunk's length octets.
    pub fn len_octets(&self) -> (r: [u8; 4])
        ensures
            r@ == self@.len,
    {
        self.len
    }

    /// The chunk's type octets.
    pub fn ty(&self) -> (r: [u8; 4])
        ensures
            r@ == self@.type_,
    {
        self.type_
    }

    pub fn is_critical(&self) -> (r: bool)
        ensures
            r == bit4_clear(self@.type_[0]),
    {
        self.ty()[0] & 16 == 0
    }

    pub fn is_ancilary(&self) -> (r: bool)
        ensures
            r == bit4_set(self@.type_[0]),
    {
        self.ty()[0] & 16 == 16
    }

    pub fn is_public(&self) -> (r: bool)
        ensures
            r == bit4_clear(self@.type_[1]),
    {
        self.ty()[1] & 16 == 0
    }

    pub fn is_private(&self) -> (r: bool)
        ensures
            r == bit4_set(self@.type_[1]),
    {
        self.ty()[1] & 16 == 16
    }

    pub fn is_version_1_0(&self) -> (r: bool)
        ensures
            r == bit4_clear(self@.type_[2]),
    {
        self.ty()[2] & 16 == 0
    }

    pub fn is_safe_to_copy(&self) -> (r: bool)
        ensures
            r == bit4_set(self@.type_[3]),
    {
        self.ty()[3] & 16 == 16
    }

    pub fn is_unsafe_to_copy(&self) -> (r: bool)
        ensures
            r == bit4_clear(self@.type_[3]),
    {
        self.ty()[3] & 16 == 0
    }
}

/// Each property bit is either clear or set, never both: a chunk is critical
/// exactly when it is not ancillary, public exactly when not private, and
/// unsafe to copy exactly when not safe to copy.
pub proof fn lemma_property_bits_complement(b: u8)
    ensures
        bit4_clear(b) <==> !bit4_set(b),
{
    assert((b & 16u8 == 0u8) <==> !(b & 16u8 == 16u8)) by (bit_vector);
}

/// A chunk that `parse_chunk` reads has as many data octets as its length
/// field declares, and its octets, in order, are exactly the ones it took
/// from the stream.
pub proof fn lemma_parse_chunk_exact(s: Seq<u8>)
    requires
        parse_chunk(s) is Some,
    ensures
        ({
            let (c, n) = parse_chunk(s).unwrap();
            &&& c.data.len() == declared_len(c)
            &&& c.len.len() == 4 && c.type_.len() == 4 && c.crc.len() == 4
            &&& chunk_octets(c) == s.take(n as int)
            &&& n == chunk_octets(c).len()
        }),
{
    let (c, n) = parse_chunk(s).unwrap();
    assert(chunk_octets(c) =~= s.take(n as int));
}

/// The octets of a chunk whose length field holds its data length: that
/// length as a big-endian 32-bit number, the type, the data, the CRC.
pub open spec fn chunk_encoding(ty: Seq<u8>, data: Seq<u8>, crc: Seq<u8>) -> Seq<u8> {
    u32_be_octets(data.len() as u32) + ty + data + crc
}

/// A chunk reads back from its octets, whatever follows them: the length
/// field is the big-endian data length, and the chunk takes twelve octets
/// more than its data.
pub proof fn lemma_chunk_layout(ty: Seq<u8>, data: Seq<u8>, crc: Seq<u8>, rest: Seq<u8>)
    requires
        ty.len() == 4,
        crc.len() == 4,
        data.len() < 0x1_0000_0000,
    ensures
        parse_chunk(chunk_encoding(ty, data, crc) + rest) == Some(
            (
                ChunkV { len: u32_be_octets(data.len() as u32), type_: ty, data, crc },
                (12 + data.len()) as nat,
            ),
        ),
{
    let s = chunk_encoding(ty, data, crc) + rest;
    let n = data.len() as int;
    lemma_u32_octets(data.len() as u32);
    assert(s.subrange(0, 4) =~= u32_be_octets(data.len() as u32));
    assert(s.subrange(4, 8) =~= ty);
    assert(s.subrange(8, 8 + n) =~= data);
    assert(s.subrange(8 + n, 12 + n) =~= crc);
}

/// The property bits are the bit of value 16 in an octet: clear exactly
/// when the octet divided by 16 is even.
pub proof fn lemma_property_bit_value(b: u8)
    ensures
        bit4_clear(b) <==> (b as int / 16) % 2 == 0,
        bit4_set(b) <==> (b as int / 16) % 2 == 1,
{
    assert(((b & 16u8) == 0u8) <==> ((b / 16u8) % 2u8 == 0u8)) by (bit_vector);
    assert(((b & 16u8) == 16u8) <==> ((b / 16u8) % 2u8 == 1u8)) by (bit_vector);
}

} // verus!
