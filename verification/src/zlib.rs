//! The zlib framing of a PNG image's data stream.
use vstd::prelude::*;

pub use crate::bytes::u32_be_octets;
use crate::bytes::{be_uint, ByteStream};

verus! {

/// The zlib fields of an image data stream, as octets and numbers.
pub struct ZLibV {
    pub compression_method: u8,
    pub check_bits: u8,
    pub compressed_data: Seq<u8>,
    pub check_value: u32,
}

/// The check value that `from_stream` assembles from the stream's last four
/// octets `o1 o2 o3 o4` (`o4` the last): each is or-ed in and then shifted up
/// by eight bits, starting from the back, so that the 32-bit result is
/// `o3 o2 o1 00` read big-endian; `o4` is shifted out.
pub open spec fn tail_check_value(o1: u8, o2: u8, o3: u8) -> u32 {
    ((o3 as u32) << 24u32) | ((o2 as u32) << 16u32) | ((o1 as u32) << 8u32)
}

/// The fields that `from_stream` reads from the stream `s`.
pub open spec fn zlib_fields(s: Seq<u8>) -> ZLibV {
    let n = s.len() as int;
    ZLibV {
        compression_method: s[0],
        check_bits: s[1],
        compressed_data: s.subrange(2, n - 4),
        check_value: tail_check_value(s[n - 4], s[n - 3], s[n - 2]),
    }
}

/// The mask after `k` octets have been taken from the back of `s`.
spec fn back_fold(s: Seq<u8>, k: nat) -> u32
    decreases k,
{
    if k == 0 {
        0
    } else {
        (back_fold(s, (k - 1) as nat) | (s[s.len() - k] as u32)) << 8u32
    }
}

proof fn lemma_back_fold_four(s: Seq<u8>)
    requires
        s.len() >= 4,
    ensures
        back_fold(s, 4) == tail_check_value(s[s.len() - 4], s[s.len() - 3], s[s.len() - 2]),
{
    reveal_with_fuel(back_fold, 5);
    let a = s[s.len() - 1];
    let b = s[s.len() - 2];
    let c = s[s.len() - 3];
    let d = s[s.len() - 4];
    assert(((((((((0u32 | (a as u32)) << 8u32) | (b as u32)) << 8u32) | (c as u32)) << 8u32) | (
    d as u32)) << 8u32) == ((b as u32) << 24u32) | ((c as u32) << 16u32) | ((d as u32) << 8u32))
        by (bit_vector);
}

/// A zlib stream: compression method, flags, compressed data and check value.
#[derive(Debug)]
pub struct ZLib {
    compression_method: u8,
    check_bits: u8,
    compressed_data: Vec<u8>,
    check_value: u32,
}

impl View for ZLib {
    type V = ZLibV;

    closed spec fn view(&self) -> ZLibV {
        ZLibV {
            compression_method: self.compression_method,
            check_bits: self.check_bits,
            compressed_data: self.compressed_data@,
            check_value: self.check_value,
        }
    }
}

impl ZLib {
    /// Splits a stream of at least six octets: the first two are the
    /// compression method and the flags, the last four hold the check value,
    /// and what lies between is the compressed data.
    pub fn from_stream(stream: ByteStream) -> (r: Self)
        requires
            stream@.len() >= 6,
        ensures
            r@ == zlib_fields(stream@),
    {
        let ghost s = stream@;
        let mut stream = stream;
        let compression_method = stream.next().unwrap();
        let check_bits = stream.next().unwrap();
        let ghost t = stream@;
        assert(t =~= s.subrange(2, s.len() as int));
        let check_value = {
            let mut counter: u32 = 4;
            let mut mask: u32 = 0;
            while counter > 0
                invariant
                    counter <= 4,
                    t.len() >= 4,
                    stream@ =~= t.subrange(0, t.len() - (4 - counter)),
                    mask == back_fold(t, (4 - counter) as nat),
                decreases counter,
            {
                let next = stream.next_back().unwrap();
                proof {
                    assert(next == t[t.len() - (4 - counter) - 1]);
                }
                mask |= next as u32;
                mask <<= 8u32;
                counter -= 1;
            }
            proof {
                lemma_back_fold_four(t);
            }
            mask
        };
        let r = Self { compression_method, check_bits, check_value, compressed_data: stream.collect() };
        proof {
            assert(r@.compressed_data =~= s.subrange(2, s.len() - 4));
        }
        r
    }

    /// The check value as four octets, most significant first.
    pub fn crc(&self) -> (r: [u8; 4])
        ensures
            r@ == u32_be_octets(self@.check_value),
    {
        let val = self.check_value;
        let r = [(val >> 24u32) as u8, (val >> 16u32) as u8, (val >> 8u32) as u8, val as u8];
        assert(r@ =~= u32_be_octets(self@.check_value));
        r
    }

    pub fn compression_method(&self) -> (r: u8)
        ensures
            r == self@.compression_method,
    {
        self.compression_method
    }

    pub fn check_bits(&self) -> (r: u8)
        ensures
            r == self@.check_bits,
    {
        self.check_bits
    }

    pub fn compressed_data(&self) -> (r: &[u8])
        ensures
            r@ == self@.compressed_data,
    {
        self.compressed_data.as_slice()
    }

    pub fn check_value(&self) -> (r: u32)
        ensures
            r == self@.check_value,
    {
        self.check_value
    }
}

/// The four octets of `crc` read back big-endian give the check value.
pub proof fn lemma_crc_octets_roundtrip(v: u32)
    ensures
        be_uint(u32_be_octets(v)) == v,
{
    let s = u32_be_octets(v);
    let a = (v >> 24u32) as u8;
    let b = (v >> 16u32) as u8;
    let c = (v >> 8u32) as u8;
    let d = v as u8;
    assert(v as int == ((v >> 24u32) as u8) as int * 16777216 + ((v >> 16u32) as u8) as int * 65536
        + ((v >> 8u32) as u8) as int * 256 + (v as u8) as int) by (bit_vector);
    reveal_with_fuel(be_uint, 5);
    assert(s.drop_last() =~= seq![a, b, c]);
    assert(s.drop_last().drop_last() =~= seq![a, b]);
    assert(s.drop_last().drop_last().drop_last() =~= seq![a]);
    assert(seq![a].drop_last() =~= Seq::<u8>::empty());
}

/// A zlib stream is its two header octets, its compressed data and its four
/// trailing octets, in that order; and the check value, written big-endian,
/// is the second-to-last, third-to-last and fourth-to-last octets, in that
/// order, followed by a zero octet.
pub proof fn lemma_zlib_layout(s: Seq<u8>)
    requires
        s.len() >= 6,
    ensures
        seq![zlib_fields(s).compression_method, zlib_fields(s).check_bits] + zlib_fields(
            s,
        ).compressed_data + s.subrange(s.len() - 4, s.len() as int) == s,
        u32_be_octets(zlib_fields(s).check_value) == seq![
            s[s.len() - 2],
            s[s.len() - 3],
            s[s.len() - 4],
            0u8,
        ],
{
    let n = s.len() as int;
    assert(seq![s[0], s[1]] + s.subrange(2, n - 4) + s.subrange(n - 4, n) =~= s);
    let o1 = s[n - 4];
    let o2 = s[n - 3];
    let o3 = s[n - 2];
    assert({
        let v = ((o3 as u32) << 24u32) | ((o2 as u32) << 16u32) | ((o1 as u32) << 8u32);
        &&& (v >> 24u32) as u8 == o3
        &&& (v >> 16u32) as u8 == o2
        &&& (v >> 8u32) as u8 == o1
        &&& v as u8 == 0u8
    }) by (bit_vector);
    assert(u32_be_octets(zlib_fields(s).check_value) =~= seq![o3, o2, o1, 0u8]);
}

} // verus!
