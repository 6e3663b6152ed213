//! The data of each chunk type, decoded field by field from the chunk's octets.
//!
//! Fields are read in declaration order: `u8` takes one octet, `u16`, `u32`
//! and `u64` take two, four and eight octets in big-endian order, and an
//! octet or `u16` list takes the rest of the data, or the octets up to a
//! delimiter, which is consumed too. Types with one layout per color type
//! pick it by the color type handed in.
use vstd::prelude::*;
use vstd::pervasive::unreached;

use crate::bytes::{
    be_u16_of, be_u32_of, be_u64_of, be_uint, lemma_be_uint_bound, lemma_u16_octets,
    lemma_u16_octets_back, lemma_u32_octets, lemma_u32_octets_back, pow256, u16_be_octets,
    u32_be_octets, ByteStream,
};
use crate::chunks::Chunk;
use crate::rfc2083::PNGError;
use crate::text::{from_utf8_lossy, utf8_lossy};

verus! {

// ---------------------------------------------------------------------------
// Reading fields from a stream of octets
// ---------------------------------------------------------------------------

/// The `u16` at offset `off` of `s`, big-endian.
pub open spec fn be16(s: Seq<u8>, off: int) -> u16 {
    be_uint(s.subrange(off, off + 2)) as u16
}

/// The `u32` at offset `off` of `s`, big-endian.
pub open spec fn be32(s: Seq<u8>, off: int) -> u32 {
    be_uint(s.subrange(off, off + 4)) as u32
}

/// The `u64` at offset `off` of `s`, big-endian.
pub open spec fn be64(s: Seq<u8>, off: int) -> u64 {
    be_uint(s.subrange(off, off + 8)) as u64
}

/// How many octets of `s` come before the first `d` (all of them when there is none).
pub open spec fn until_delim(s: Seq<u8>, d: u8) -> nat
    decreases s.len(),
{
    if s.len() == 0 {
        0
    } else if s[0] == d {
        0
    } else {
        1 + until_delim(s.drop_first(), d)
    }
}

/// The octets a list field takes from `s`: all of them, or those before the delimiter.
pub open spec fn field_octets(s: Seq<u8>, delim: Option<u8>) -> Seq<u8> {
    match delim {
        None => s,
        Some(d) => s.take(until_delim(s, d) as int),
    }
}

/// What is left of `s` after a list field: nothing, or what follows the delimiter.
pub open spec fn after_field(s: Seq<u8>, delim: Option<u8>) -> Seq<u8> {
    match delim {
        None => Seq::empty(),
        Some(d) => {
            let k = until_delim(s, d);
            if k < s.len() {
                s.skip(k + 1int)
            } else {
                Seq::empty()
            }
        },
    }
}

/// Octets taken two at a time as big-endian `u16`s.
pub open spec fn be16_pairs(s: Seq<u8>) -> Seq<u16> {
    Seq::new(s.len() / 2, |i: int| be16(s, 2 * i))
}

pub proof fn lemma_until_delim_bound(s: Seq<u8>, d: u8)
    ensures
        until_delim(s, d) <= s.len(),
        until_delim(s, d) < s.len() ==> s[until_delim(s, d) as int] == d,
        forall|j: int| 0 <= j < until_delim(s, d) ==> s[j] != d,
    decreases s.len(),
{
    if s.len() > 0 && s[0] != d {
        lemma_until_delim_bound(s.drop_first(), d);
        assert forall|j: int| 0 <= j < until_delim(s, d) implies s[j] != d by {
            if j > 0 {
                assert(s[j] == s.drop_first()[j - 1]);
            }
        }
    }
}

/// The position of the first `d` in `s`, or the length of `s` when there is none.
fn find_delim(s: &[u8], d: u8) -> (k: usize)
    ensures
        k == until_delim(s@, d),
{
    let mut k: usize = 0;
    while k < s.len() && s[k] != d
        invariant
            0 <= k <= s@.len(),
            forall|j: int| 0 <= j < k ==> s@[j] != d,
        decreases s@.len() - k,
    {
        k = k + 1;
    }
    proof {
        lemma_until_delim_bound(s@, d);
        let u = until_delim(s@, d);
        if (u as int) < (k as int) {
            assert(s@[u as int] == d);
        }
        if (k as int) < (u as int) {
            assert(s@[k as int] != d);
        }
    }
    k
}

proof fn lemma_window(d: Seq<u8>, off: int, n: int)
    requires
        0 <= off,
        0 <= n,
        off + n <= d.len(),
    ensures
        d.skip(off).take(n) == d.subrange(off, off + n),
        d.skip(off).skip(n) == d.skip(off + n),
{
    assert(d.skip(off).take(n) =~= d.subrange(off, off + n));
    assert(d.skip(off).skip(n) =~= d.skip(off + n));
}

fn read_octet(octets: &mut ByteStream) -> (b: u8)
    requires
        old(octets)@.len() >= 1,
    ensures
        b == old(octets)@[0],
        final(octets)@ == old(octets)@.skip(1),
{
    let b = octets.next().unwrap();
    assert(octets@ =~= old(octets)@.skip(1));
    b
}

/// Reads two octets as a big-endian `u16`.
pub fn stream_octets_to_u16(octets: &mut ByteStream) -> (r: u16)
    requires
        old(octets)@.len() >= 2,
    ensures
        r == be16(old(octets)@, 0),
        final(octets)@ == old(octets)@.skip(2),
{
    let ghost s = octets@;
    let a = read_octet(octets);
    let b = read_octet(octets);
    let arr = [a, b];
    assert(arr@ =~= s.subrange(0, 2));
    assert(octets@ =~= s.skip(2));
    let r = be_u16_of(arr.as_slice());
    proof {
        lemma_be_uint_bound(arr@);
        reveal_with_fuel(pow256, 3);
    }
    r
}

/// Reads four octets as a big-endian `u32`.
pub fn stream_octets_to_u32(octets: &mut ByteStream) -> (r: u32)
    requires
        old(octets)@.len() >= 4,
    ensures
        r == be32(old(octets)@, 0),
        final(octets)@ == old(octets)@.skip(4),
{
    let ghost s = octets@;
    let a = read_octet(octets);
    let b = read_octet(octets);
    let c = read_octet(octets);
    let d = read_octet(octets);
    let arr = [a, b, c, d];
    assert(arr@ =~= s.subrange(0, 4));
    assert(octets@ =~= s.skip(4));
    let r = be_u32_of(arr.as_slice());
    proof {
        lemma_be_uint_bound(arr@);
        reveal_with_fuel(pow256, 5);
    }
    r
}

/// Reads eight octets as a big-endian `u64`.
pub fn stream_octets_to_u64(octets: &mut ByteStream) -> (r: u64)
    requires
        old(octets)@.len() >= 8,
    ensures
        r == be64(old(octets)@, 0),
        final(octets)@ == old(octets)@.skip(8),
{
    let ghost s = octets@;
    let mut arr: [u8; 8] = [0u8; 8];
    let mut i: usize = 0;
    while i < 8
        invariant
            0 <= i <= 8,
            s.len() >= 8,
            arr@.len() == 8,
            forall|j: int| 0 <= j < i ==> arr@[j] == s[j],
            octets@ =~= s.skip(i as int),
        decreases 8 - i,
    {
        let b = read_octet(octets);
        arr[i] = b;
        i = i + 1;
    }
    assert(arr@ =~= s.subrange(0, 8));
    let r = be_u64_of(arr.as_slice());
    proof {
        lemma_be_uint_bound(arr@);
        reveal_with_fuel(pow256, 9);
    }
    r
}

/// Reads an octet list: everything left, or the octets up to (and
/// consuming) the delimiter.
pub fn stream_vecu8(octets: &mut ByteStream, delim: Option<u8>) -> (r: Vec<u8>)
    ensures
        r@ == field_octets(old(octets)@, delim),
        final(octets)@ == after_field(old(octets)@, delim),
{
    let ghost s = octets@;
    let mut out: Vec<u8> = Vec::new();
    proof {
        if let Some(d) = delim {
            lemma_until_delim_bound(s, d);
        }
    }
    loop
        invariant_except_break
            s.len() == out@.len() + octets@.len(),
            out@ =~= s.take(out@.len() as int),
            octets@ =~= s.skip(out@.len() as int),
            delim matches Some(d) ==> out@.len() <= until_delim(s, d),
            delim matches Some(d) ==> until_delim(s, d) == out@.len() + until_delim(octets@, d),
            delim matches Some(d) ==> (forall|j: int| 0 <= j < until_delim(s, d) ==> s[j] != d),
        ensures
            out@ == field_octets(s, delim),
            octets@ == after_field(s, delim),
        decreases octets@.len(),
    {
        let ghost before = octets@;
        match octets.next() {
            None => {
                proof {
                    if let Some(d) = delim {
                        assert(until_delim(before, d) == 0);
                        assert(s.take(out@.len() as int) =~= s);
                    }
                    assert(octets@ =~= Seq::<u8>::empty());
                }
                break ;
            },
            Some(b) => {
                match delim {
                    Some(d) => {
                        if b == d {
                            proof {
                                assert(until_delim(before, d) == 0);
                                assert(octets@ =~= s.skip(out@.len() + 1int));
                            }
                            break ;
                        } else {
                            proof {
                                assert(before.drop_first() =~= octets@);
                            }
                            out.push(b);
                        }
                    },
                    None => {
                        out.push(b);
                    },
                }
            },
        }
    }
    out
}

/// Reads a `u16` list: the octets of an octet list, two at a time.
/// The number of octets taken must be even.
pub fn stream_vecu16(octets: &mut ByteStream, delim: Option<u8>) -> (r: Vec<u16>)
    requires
        field_octets(old(octets)@, delim).len() % 2 == 0,
    ensures
        r@ == be16_pairs(field_octets(old(octets)@, delim)),
        final(octets)@ == after_field(old(octets)@, delim),
{
    let bytes = stream_vecu8(octets, delim);
    let mut out: Vec<u16> = Vec::new();
    let mut i: usize = 0;
    let n = bytes.len();
    while i < n / 2
        invariant
            0 <= i <= n / 2,
            n == bytes@.len(),
            n % 2 == 0,
            out@.len() == i,
            forall|j: int| 0 <= j < i ==> out@[j] == be16(bytes@, 2 * j),
        decreases n / 2 - i,
    {
        let pair = [bytes[2 * i], bytes[2 * i + 1]];
        let v = be_u16_of(pair.as_slice());
        proof {
            assert(pair@ =~= bytes@.subrange(2 * i, 2 * i + 2));
            lemma_be_uint_bound(pair@);
            reveal_with_fuel(pow256, 3);
        }
        out.push(v);
        i = i + 1;
    }
    assert(out@ =~= be16_pairs(bytes@));
    out
}

// ---------------------------------------------------------------------------
// Handing a chunk's data to a decoder
// ---------------------------------------------------------------------------

/// A chunk's data, with the image's color type where the decoder needs it.
pub struct ChunkProcess<'a> {
    color_type: Option<u8>,
    data: &'a [u8],
}

impl<'a> ChunkProcess<'a> {
    pub closed spec fn spec_data(&self) -> Seq<u8> {
        self.data@
    }

    pub closed spec fn spec_ct(&self) -> Option<u8> {
        self.color_type
    }

    pub fn data(&self) -> (r: &[u8])
        ensures
            r@ == self.spec_data(),
    {
        self.data
    }

    pub fn ct(&self) -> (r: u8)
        requires
            self.spec_ct() is Some,
        ensures
            Some(r) == self.spec_ct(),
    {
        self.color_type.unwrap()
    }
}

/// A chunk type whose data can be decoded from a chunk.
pub trait ChunkData: Sized + View {
    /// The decoded value of `data` under color type `ct`; `None` where the
    /// data is too short, or the color type is missing or has no layout.
    spec fn spec_decode(data: Seq<u8>, ct: Option<u8>) -> Option<Self::V>;

    /// Whether `data` decodes under color type `ct`.
    fn can_decode(data: &[u8], ct: Option<u8>) -> (r: bool)
        ensures
            r == (Self::spec_decode(data@, ct) is Some),
    ;

    fn try_from_process(value: ChunkProcess<'_>) -> (r: Result<Self, PNGError>)
        requires
            Self::spec_decode(value.spec_data(), value.spec_ct()) is Some,
        ensures
            r matches Ok(v) && Self::spec_decode(value.spec_data(), value.spec_ct()) == Some(v@),
    ;
}

impl Chunk {
    fn process_with_ct<'a>(&'a self, ct: u8) -> (r: ChunkProcess<'a>)
        ensures
            r.spec_data() == self@.data,
            r.spec_ct() == Some(ct),
    {
        ChunkProcess { color_type: Some(ct), data: self.data() }
    }

    fn process<'a>(&'a self) -> (r: ChunkProcess<'a>)
        ensures
            r.spec_data() == self@.data,
            r.spec_ct() is None,
    {
        ChunkProcess { color_type: None, data: self.data() }
    }

    /// Decodes the chunk's data as a `T`, with the color type `ct` where given.
    pub fn chunk_data<'a, T: ChunkData>(&'a self, ct: Option<u8>) -> (r: Result<T, PNGError>)
        requires
            T::spec_decode(self@.data, ct) is Some,
        ensures
            r matches Ok(v) && T::spec_decode(self@.data, ct) == Some(v@),
    {
        T::try_from_process(
            if let Some(ct) = ct {
                self.process_with_ct(ct)
            } else {
                self.process()
            },
        )
    }
}

// ---------------------------------------------------------------------------
// The chunk types
// ---------------------------------------------------------------------------

/// The image header.
pub struct IHDRV {
    pub width: u32,
    pub height: u32,
    pub bit_depth: u8,
    pub color_type: u8,
    pub compression_method: u8,
    pub filter_method: u8,
    pub interlace_method: u8,
}

#[derive(Debug)]
pub struct IHDR {
    width: u32,
    height: u32,
    bit_depth: u8,
    color_type: u8,
    compression_method: u8,
    filter_method: u8,
    interlace_method: u8,
}

impl View for IHDR {
    type V = IHDRV;

    closed spec fn view(&self) -> IHDRV {
        IHDRV {
            width: self.width,
            height: self.height,
            bit_depth: self.bit_depth,
            color_type: self.color_type,
            compression_method: self.compression_method,
            filter_method: self.filter_method,
            interlace_method: self.interlace_method,
        }
    }
}

impl ChunkData for IHDR {
    open spec fn spec_decode(d: Seq<u8>, ct: Option<u8>) -> Option<IHDRV> {
        if d.len() < 13 {
            None
        } else {
            Some(
                IHDRV {
                    width: be32(d, 0),
                    height: be32(d, 4),
                    bit_depth: d[8],
                    color_type: d[9],
                    compression_method: d[10],
                    filter_method: d[11],
                    interlace_method: d[12],
                },
            )
        }
    }

    fn can_decode(data: &[u8], ct: Option<u8>) -> (r: bool) {
        data.len() >= 13
    }

    fn try_from_process(value: ChunkProcess<'_>) -> (r: Result<Self, PNGError>) {
        let ghost d = value.spec_data();
        let mut value = ByteStream::from_slice(value.data());
        let width = stream_octets_to_u32(&mut value);
        proof { lemma_window(d, 0, 4); }
        let height = stream_octets_to_u32(&mut value);
        proof { lemma_window(d, 4, 4); }
        let bit_depth = read_octet(&mut value);
        let color_type = read_octet(&mut value);
        let compression_method = read_octet(&mut value);
        let filter_method = read_octet(&mut value);
        let interlace_method = read_octet(&mut value);
        proof {
            assert(d.skip(8).skip(1).skip(1).skip(1).skip(1) =~= d.skip(12));
        }
        Ok(IHDR { width, height, bit_depth, color_type, compression_method, filter_method, interlace_method })
    }
}

impl IHDR {
    pub fn width(&self) -> (r: u32)
        ensures
            r == self@.width,
    {
        self.width
    }

    pub fn height(&self) -> (r: u32)
        ensures
            r == self@.height,
    {
        self.height
    }

    pub fn bit_depth(&self) -> (r: u8)
        ensures
            r == self@.bit_depth,
    {
        self.bit_depth
    }

    pub fn color_type(&self) -> (r: u8)
        ensures
            r == self@.color_type,
    {
        self.color_type
    }

    pub fn compression_method(&self) -> (r: u8)
        ensures
            r == self@.compression_method,
    {
        self.compression_method
    }

    pub fn filter_method(&self) -> (r: u8)
        ensures
            r == self@.filter_method,
    {
        self.filter_method
    }

    pub fn interlace_method(&self) -> (r: u8)
        ensures
            r == self@.interlace_method,
    {
        self.interlace_method
    }
}

/// Primary chromaticities and white point, each coordinate times 100000.
pub struct CHRMV {
    pub white_point_x: u32,
    pub white_point_y: u32,
    pub red_x: u32,
    pub red_y: u32,
    pub green_x: u32,
    pub green_y: u32,
    pub blue_x: u32,
    pub blue_y: u32,
}

#[derive(Debug)]
pub struct cHRM {
    white_point_x: u32,
    white_point_y: u32,
    red_x: u32,
    red_y: u32,
    green_x: u32,
    green_y: u32,
    blue_x: u32,
    blue_y: u32,
}

impl View for cHRM {
    type V = CHRMV;

    closed spec fn view(&self) -> CHRMV {
        CHRMV {
            white_point_x: self.white_point_x,
            white_point_y: self.white_point_y,
            red_x: self.red_x,
            red_y: self.red_y,
            green_x: self.green_x,
            green_y: self.green_y,
            blue_x: self.blue_x,
            blue_y: self.blue_y,
        }
    }
}

impl ChunkData for cHRM {
    open spec fn spec_decode(d: Seq<u8>, ct: Option<u8>) -> Option<CHRMV> {
        if d.len() < 32 {
            None
        } else {
            Some(
                CHRMV {
                    white_point_x: be32(d, 0),
                    white_point_y: be32(d, 4),
                    red_x: be32(d, 8),
                    red_y: be32(d, 12),
                    green_x: be32(d, 16),
                    green_y: be32(d, 20),
                    blue_x: be32(d, 24),
                    blue_y: be32(d, 28),
                },
            )
        }
    }

    fn can_decode(data: &[u8], ct: Option<u8>) -> (r: bool) {
        data.len() >= 32
    }

    fn try_from_process(value: ChunkProcess<'_>) -> (r: Result<Self, PNGError>) {
        let ghost d = value.spec_data();
        let mut value = ByteStream::from_slice(value.data());
        let white_point_x = stream_octets_to_u32(&mut value);
        proof { lemma_window(d, 0, 4); }
        let white_point_y = stream_octets_to_u32(&mut value);
        proof { lemma_window(d, 4, 4); }
        let red_x = stream_octets_to_u32(&mut value);
        proof { lemma_window(d, 8, 4); }
        let red_y = stream_octets_to_u32(&mut value);
        proof { lemma_window(d, 12, 4); }
        let green_x = stream_octets_to_u32(&mut value);
        proof { lemma_window(d, 16, 4); }
        let green_y = stream_octets_to_u32(&mut value);
        proof { lemma_window(d, 20, 4); }
        let blue_x = stream_octets_to_u32(&mut value);
        proof { lemma_window(d, 24, 4); lemma_window(d, 28, 4); }
        let blue_y = stream_octets_to_u32(&mut value);
        Ok(cHRM { white_point_x, white_point_y, red_x, red_y, green_x, green_y, blue_x, blue_y })
    }
}

impl cHRM {
    /// The white point's x and y, each times 100000.
    pub fn white_point_raw(&self) -> (r: [u32; 2])
        ensures
            r@ == seq![self@.white_point_x, self@.white_point_y],
    {
        [self.white_point_x, self.white_point_y]
    }

    /// Red's x and y, each times 100000.
    pub fn red_raw(&self) -> (r: [u32; 2])
        ensures
            r@ == seq![self@.red_x, self@.red_y],
    {
        [self.red_x, self.red_y]
    }

    /// Green's x and y, each times 100000.
    pub fn green_raw(&self) -> (r: [u32; 2])
        ensures
            r@ == seq![self@.green_x, self@.green_y],
    {
        [self.green_x, self.green_y]
    }

    /// Blue's x and y, each times 100000.
    pub fn blue_raw(&self) -> (r: [u32; 2])
        ensures
            r@ == seq![self@.blue_x, self@.blue_y],
    {
        [self.blue_x, self.blue_y]
    }
}

/// The background color, laid out by color type.
#[derive(Debug, PartialEq, Eq, Structural, Clone, Copy)]
pub enum bkGD {
    ColorType0 { gray: u16 },
    ColorType2 { red: u16, green: u16, blue: u16 },
    ColorType3 { palette_index: u8 },
    ColorType4 { gray: u16 },
    ColorType6 { red: u16, green: u16, blue: u16 },
}

impl View for bkGD {
    type V = bkGD;

    open spec fn view(&self) -> bkGD {
        *self
    }
}

impl ChunkData for bkGD {
    open spec fn spec_decode(d: Seq<u8>, ct: Option<u8>) -> Option<bkGD> {
        match ct {
            None => None,
            Some(c) => if c == 0 && d.len() >= 2 {
                Some(bkGD::ColorType0 { gray: be16(d, 0) })
            } else if (c == 2 || c == 6) && d.len() >= 6 {
                if c == 2 {
                    Some(bkGD::ColorType2 { red: be16(d, 0), green: be16(d, 2), blue: be16(d, 4) })
                } else {
                    Some(bkGD::ColorType6 { red: be16(d, 0), green: be16(d, 2), blue: be16(d, 4) })
                }
            } else if c == 3 && d.len() >= 1 {
                Some(bkGD::ColorType3 { palette_index: d[0] })
            } else if c == 4 && d.len() >= 2 {
                Some(bkGD::ColorType4 { gray: be16(d, 0) })
            } else {
                None
            },
        }
    }

    fn can_decode(data: &[u8], ct: Option<u8>) -> (r: bool) {
        match ct {
            None => false,
            Some(c) => (c == 0 && data.len() >= 2) || ((c == 2 || c == 6) && data.len() >= 6) || (c
                == 3 && data.len() >= 1) || (c == 4 && data.len() >= 2),
        }
    }

    fn try_from_process(value: ChunkProcess<'_>) -> (r: Result<Self, PNGError>) {
        let ghost d = value.spec_data();
        let ct = value.ct();
        let mut value = ByteStream::from_slice(value.data());
        Ok(
            if ct == 0 {
                bkGD::ColorType0 { gray: stream_octets_to_u16(&mut value) }
            } else if ct == 2 || ct == 6 {
                let red = stream_octets_to_u16(&mut value);
                proof { lemma_window(d, 0, 2); }
                let green = stream_octets_to_u16(&mut value);
                proof { lemma_window(d, 2, 2); lemma_window(d, 4, 2); }
                let blue = stream_octets_to_u16(&mut value);
                if ct == 2 {
                    bkGD::ColorType2 { red, green, blue }
                } else {
                    bkGD::ColorType6 { red, green, blue }
                }
            } else if ct == 3 {
                bkGD::ColorType3 { palette_index: read_octet(&mut value) }
            } else if ct == 4 {
                bkGD::ColorType4 { gray: stream_octets_to_u16(&mut value) }
            } else {
                unreached()
            },
        )
    }
}

/// Image gamma times 100000.
pub struct GAMAV {
    pub image_gamma: u32,
}

#[derive(Debug)]
pub struct gAMA {
    image_gamma: u32,
}

impl View for gAMA {
    type V = GAMAV;

    closed spec fn view(&self) -> GAMAV {
        GAMAV { image_gamma: self.image_gamma }
    }
}

impl ChunkData for gAMA {
    open spec fn spec_decode(d: Seq<u8>, ct: Option<u8>) -> Option<GAMAV> {
        if d.len() < 4 {
            None
        } else {
            Some(GAMAV { image_gamma: be32(d, 0) })
        }
    }

    fn can_decode(data: &[u8], ct: Option<u8>) -> (r: bool) {
        data.len() >= 4
    }

    fn try_from_process(value: ChunkProcess<'_>) -> (r: Result<Self, PNGError>) {
        let mut value = ByteStream::from_slice(value.data());
        Ok(gAMA { image_gamma: stream_octets_to_u32(&mut value) })
    }
}

impl gAMA {
    /// The image gamma times 100000.
    pub fn image_gamma_raw(&self) -> (r: u32)
        ensures
            r == self@.image_gamma,
    {
        self.image_gamma
    }
}

/// The palette histogram: one frequency per palette entry.
#[derive(Debug)]
pub struct hIST {
    entries: Vec<u16>,
}

impl View for hIST {
    type V = Seq<u16>;

    closed spec fn view(&self) -> Seq<u16> {
        self.entries@
    }
}

impl ChunkData for hIST {
    open spec fn spec_decode(d: Seq<u8>, ct: Option<u8>) -> Option<Seq<u16>> {
        if d.len() % 2 != 0 {
            None
        } else {
            Some(be16_pairs(d))
        }
    }

    fn can_decode(data: &[u8], ct: Option<u8>) -> (r: bool) {
        data.len() % 2 == 0
    }

    fn try_from_process(value: ChunkProcess<'_>) -> (r: Result<Self, PNGError>) {
        let mut value = ByteStream::from_slice(value.data());
        Ok(hIST { entries: stream_vecu16(&mut value, None) })
    }
}

/// Physical pixel dimensions.
pub struct PHYSV {
    pub x_ppu: u32,
    pub y_ppu: u32,
    pub unit_specifier: u8,
}

#[derive(Debug)]
pub struct pHYs {
    x_ppu: u32,
    y_ppu: u32,
    unit_specifier: u8,
}

impl View for pHYs {
    type V = PHYSV;

    closed spec fn view(&self) -> PHYSV {
        PHYSV { x_ppu: self.x_ppu, y_ppu: self.y_ppu, unit_specifier: self.unit_specifier }
    }
}

impl ChunkData for pHYs {
    open spec fn spec_decode(d: Seq<u8>, ct: Option<u8>) -> Option<PHYSV> {
        if d.len() < 9 {
            None
        } else {
            Some(PHYSV { x_ppu: be32(d, 0), y_ppu: be32(d, 4), unit_specifier: d[8] })
        }
    }

    fn can_decode(data: &[u8], ct: Option<u8>) -> (r: bool) {
        data.len() >= 9
    }

    fn try_from_process(value: ChunkProcess<'_>) -> (r: Result<Self, PNGError>) {
        let ghost d = value.spec_data();
        let mut value = ByteStream::from_slice(value.data());
        let x_ppu = stream_octets_to_u32(&mut value);
        proof { lemma_window(d, 0, 4); }
        let y_ppu = stream_octets_to_u32(&mut value);
        proof { lemma_window(d, 4, 4); }
        let unit_specifier = read_octet(&mut value);
        Ok(pHYs { x_ppu, y_ppu, unit_specifier })
    }
}

/// A textual key and value.
pub struct TextV {
    pub keyword: Seq<u8>,
    pub text: Seq<u8>,
}

#[derive(Debug)]
pub struct tEXt {
    keyword: Vec<u8>,
    text: Vec<u8>,
}

impl View for tEXt {
    type V = TextV;

    closed spec fn view(&self) -> TextV {
        TextV { keyword: self.keyword@, text: self.text@ }
    }
}

impl ChunkData for tEXt {
    /// The keyword runs to the first zero octet, which is dropped; the text is the rest.
    open spec fn spec_decode(d: Seq<u8>, ct: Option<u8>) -> Option<TextV> {
        Some(
            TextV {
                keyword: field_octets(d, Some(0u8)),
                text: after_field(d, Some(0u8)),
            },
        )
    }

    fn can_decode(data: &[u8], ct: Option<u8>) -> (r: bool) {
        true
    }

    fn try_from_process(value: ChunkProcess<'_>) -> (r: Result<Self, PNGError>) {
        let mut value = ByteStream::from_slice(value.data());
        let keyword = stream_vecu8(&mut value, Some(0));
        let text = stream_vecu8(&mut value, None);
        Ok(tEXt { keyword, text })
    }
}

impl tEXt {
    pub fn keyword(&self) -> (r: &[u8])
        ensures
            r@ == self@.keyword,
    {
        self.keyword.as_slice()
    }

    pub fn text(&self) -> (r: &[u8])
        ensures
            r@ == self@.text,
    {
        self.text.as_slice()
    }

    /// The keyword and the text as strings, ill-formed UTF-8 replaced.
    pub fn parse(&self) -> (r: [String; 2])
        ensures
            r[0]@ == utf8_lossy(self@.keyword),
            r[1]@ == utf8_lossy(self@.text),
            vstd::utf8::valid_utf8(self@.keyword) ==> r[0]@ == vstd::utf8::decode_utf8(self@.keyword),
            vstd::utf8::valid_utf8(self@.text) ==> r[1]@ == vstd::utf8::decode_utf8(self@.text),
    {
        [from_utf8_lossy(self.keyword()), from_utf8_lossy(self.text())]
    }
}

/// The image trailer: no data.
#[derive(Debug, PartialEq, Eq, Structural, Clone, Copy)]
pub struct IEND {}

impl View for IEND {
    type V = IEND;

    open spec fn view(&self) -> IEND {
        *self
    }
}

impl ChunkData for IEND {
    open spec fn spec_decode(d: Seq<u8>, ct: Option<u8>) -> Option<IEND> {
        Some(IEND {  })
    }

    fn can_decode(data: &[u8], ct: Option<u8>) -> (r: bool) {
        true
    }

    fn try_from_process(value: ChunkProcess<'_>) -> (r: Result<Self, PNGError>) {
        Ok(IEND {  })
    }
}

/// Significant bits per channel, laid out by color type.
#[derive(Debug, PartialEq, Eq, Structural, Clone, Copy)]
pub enum sBIT {
    ColorType0(u8),
    ColorType2 { r: u8, g: u8, b: u8 },
    ColorType3 { r: u8, g: u8, b: u8 },
    ColorType4 { grayscale: u8, alpha: u8 },
    ColorType6 { r: u8, g: u8, b: u8, a: u8 },
}

impl View for sBIT {
    type V = sBIT;

    open spec fn view(&self) -> sBIT {
        *self
    }
}

impl ChunkData for sBIT {
    open spec fn spec_decode(d: Seq<u8>, ct: Option<u8>) -> Option<sBIT> {
        match ct {
            None => None,
            Some(c) => if c == 0 && d.len() >= 1 {
                Some(sBIT::ColorType0(d[0]))
            } else if c == 2 && d.len() >= 3 {
                Some(sBIT::ColorType2 { r: d[0], g: d[1], b: d[2] })
            } else if c == 3 && d.len() >= 3 {
                Some(sBIT::ColorType3 { r: d[0], g: d[1], b: d[2] })
            } else if c == 4 && d.len() >= 2 {
                Some(sBIT::ColorType4 { grayscale: d[0], alpha: d[1] })
            } else if c == 6 && d.len() >= 4 {
                Some(sBIT::ColorType6 { r: d[0], g: d[1], b: d[2], a: d[3] })
            } else {
                None
            },
        }
    }

    fn can_decode(data: &[u8], ct: Option<u8>) -> (r: bool) {
        match ct {
            None => false,
            Some(c) => (c == 0 && data.len() >= 1) || (c == 2 && data.len() >= 3) || (c == 3
                && data.len() >= 3) || (c == 4 && data.len() >= 2) || (c == 6 && data.len() >= 4),
        }
    }

    fn try_from_process(value: ChunkProcess<'_>) -> (r: Result<Self, PNGError>) {
        let ct = value.ct();
        let d = value.data();
        Ok(
            if ct == 0 {
                sBIT::ColorType0(d[0])
            } else if ct == 2 {
                sBIT::ColorType2 { r: d[0], g: d[1], b: d[2] }
            } else if ct == 3 {
                sBIT::ColorType3 { r: d[0], g: d[1], b: d[2] }
            } else if ct == 4 {
                sBIT::ColorType4 { grayscale: d[0], alpha: d[1] }
            } else if ct == 6 {
                sBIT::ColorType6 { r: d[0], g: d[1], b: d[2], a: d[3] }
            } else {
                unreached()
            },
        )
    }
}

/// Image data: one piece of the compressed image stream.
#[derive(Debug)]
pub struct IDAT {
    data: Vec<u8>,
}

impl View for IDAT {
    type V = Seq<u8>;

    closed spec fn view(&self) -> Seq<u8> {
        self.data@
    }
}

impl ChunkData for IDAT {
    open spec fn spec_decode(d: Seq<u8>, ct: Option<u8>) -> Option<Seq<u8>> {
        Some(d)
    }

    fn can_decode(data: &[u8], ct: Option<u8>) -> (r: bool) {
        true
    }

    fn try_from_process(value: ChunkProcess<'_>) -> (r: Result<Self, PNGError>) {
        let mut value = ByteStream::from_slice(value.data());
        Ok(IDAT { data: stream_vecu8(&mut value, None) })
    }
}

impl IDAT {
    /// The image data octets.
    pub fn data(&self) -> (r: &[u8])
        ensures
            r@ == self@,
    {
        self.data.as_slice()
    }

    /// The number of image data octets.
    pub fn len(&self) -> (r: usize)
        ensures
            r == self@.len(),
    {
        self.data.len()
    }
}

/// The palette: red, green and blue octets of each entry, in order.
#[derive(Debug)]
pub struct PLTE {
    entries: Vec<u8>,
}

impl View for PLTE {
    type V = Seq<u8>;

    closed spec fn view(&self) -> Seq<u8> {
        self.entries@
    }
}

impl ChunkData for PLTE {
    open spec fn spec_decode(d: Seq<u8>, ct: Option<u8>) -> Option<Seq<u8>> {
        Some(d)
    }

    fn can_decode(data: &[u8], ct: Option<u8>) -> (r: bool) {
        true
    }

    fn try_from_process(value: ChunkProcess<'_>) -> (r: Result<Self, PNGError>) {
        let mut value = ByteStream::from_slice(value.data());
        Ok(PLTE { entries: stream_vecu8(&mut value, None) })
    }
}

impl PLTE {
    pub fn entries(&self) -> (r: &[u8])
        ensures
            r@ == self@,
    {
        self.entries.as_slice()
    }
}

/// The time of the last modification.
pub struct TIMEV {
    pub year: u16,
    pub month: u8,
    pub day: u8,
    pub hour: u8,
    pub minute: u8,
    pub second: u8,
}

#[derive(Debug)]
pub struct tIME {
    year: u16,
    month: u8,
    day: u8,
    hour: u8,
    minute: u8,
    second: u8,
}

impl View for tIME {
    type V = TIMEV;

    closed spec fn view(&self) -> TIMEV {
        TIMEV {
            year: self.year,
            month: self.month,
            day: self.day,
            hour: self.hour,
            minute: self.minute,
            second: self.second,
        }
    }
}

impl ChunkData for tIME {
    open spec fn spec_decode(d: Seq<u8>, ct: Option<u8>) -> Option<TIMEV> {
        if d.len() < 7 {
            None
        } else {
            Some(
                TIMEV {
                    year: be16(d, 0),
                    month: d[2],
                    day: d[3],
                    hour: d[4],
                    minute: d[5],
                    second: d[6],
                },
            )
        }
    }

    fn can_decode(data: &[u8], ct: Option<u8>) -> (r: bool) {
        data.len() >= 7
    }

    fn try_from_process(value: ChunkProcess<'_>) -> (r: Result<Self, PNGError>) {
        let ghost d = value.spec_data();
        let mut value = ByteStream::from_slice(value.data());
        let year = stream_octets_to_u16(&mut value);
        let month = read_octet(&mut value);
        let day = read_octet(&mut value);
        let hour = read_octet(&mut value);
        let minute = read_octet(&mut value);
        let second = read_octet(&mut value);
        Ok(tIME { year, month, day, hour, minute, second })
    }
}

/// Transparency, laid out by color type.
pub enum TrnsV {
    ColorType0 { gray: u16 },
    ColorType2 { red: u16, green: u16, blue: u16 },
    ColorType3 { alphas: Seq<u8> },
}

#[derive(Debug)]
pub enum tRNS {
    ColorType0 { gray: u16 },
    ColorType2 { red: u16, green: u16, blue: u16 },
    ColorType3 { alphas: Vec<u8> },
}

impl View for tRNS {
    type V = TrnsV;

    open spec fn view(&self) -> TrnsV {
        match self {
            tRNS::ColorType0 { gray } => TrnsV::ColorType0 { gray: *gray },
            tRNS::ColorType2 { red, green, blue } => TrnsV::ColorType2 {
                red: *red,
                green: *green,
                blue: *blue,
            },
            tRNS::ColorType3 { alphas } => TrnsV::ColorType3 { alphas: alphas@ },
        }
    }
}

impl ChunkData for tRNS {
    open spec fn spec_decode(d: Seq<u8>, ct: Option<u8>) -> Option<TrnsV> {
        match ct {
            None => None,
            Some(c) => if c == 0 && d.len() >= 2 {
                Some(TrnsV::ColorType0 { gray: be16(d, 0) })
            } else if c == 2 && d.len() >= 6 {
                Some(TrnsV::ColorType2 { red: be16(d, 0), green: be16(d, 2), blue: be16(d, 4) })
            } else if c == 3 {
                Some(TrnsV::ColorType3 { alphas: d })
            } else {
                None
            },
        }
    }

    fn can_decode(data: &[u8], ct: Option<u8>) -> (r: bool) {
        match ct {
            None => false,
            Some(c) => (c == 0 && data.len() >= 2) || (c == 2 && data.len() >= 6) || c == 3,
        }
    }

    fn try_from_process(value: ChunkProcess<'_>) -> (r: Result<Self, PNGError>) {
        let ghost d = value.spec_data();
        let ct = value.ct();
        let mut value = ByteStream::from_slice(value.data());
        Ok(
            if ct == 0 {
                tRNS::ColorType0 { gray: stream_octets_to_u16(&mut value) }
            } else if ct == 2 {
                let red = stream_octets_to_u16(&mut value);
                proof { lemma_window(d, 0, 2); }
                let green = stream_octets_to_u16(&mut value);
                proof { lemma_window(d, 2, 2); lemma_window(d, 4, 2); }
                let blue = stream_octets_to_u16(&mut value);
                tRNS::ColorType2 { red, green, blue }
            } else if ct == 3 {
                tRNS::ColorType3 { alphas: stream_vecu8(&mut value, None) }
            } else {
                unreached()
            },
        )
    }
}

/// Compressed text: a keyword, the compression method, the compressed text.
pub struct ZtxtV {
    pub keyword: Seq<u8>,
    pub compression_method: u8,
    pub compressed_text: Seq<u8>,
}

#[derive(Debug)]
pub struct zTXT {
    keyword: Vec<u8>,
    compression_method: u8,
    compressed_text: Vec<u8>,
}

impl View for zTXT {
    type V = ZtxtV;

    closed spec fn view(&self) -> ZtxtV {
        ZtxtV {
            keyword: self.keyword@,
            compression_method: self.compression_method,
            compressed_text: self.compressed_text@,
        }
    }
}

impl ChunkData for zTXT {
    /// The keyword runs to the first zero octet, which is dropped; one octet
    /// of compression method must follow, and the compressed text is the rest.
    open spec fn spec_decode(d: Seq<u8>, ct: Option<u8>) -> Option<ZtxtV> {
        let rest = after_field(d, Some(0u8));
        if rest.len() < 1 {
            None
        } else {
            Some(
                ZtxtV {
                    keyword: field_octets(d, Some(0u8)),
                    compression_method: rest[0],
                    compressed_text: rest.skip(1),
                },
            )
        }
    }

    fn can_decode(data: &[u8], ct: Option<u8>) -> (r: bool) {
        let k = find_delim(data, 0);
        proof {
            lemma_until_delim_bound(data@, 0u8);
        }
        k < data.len() && data.len() - k >= 2
    }

    fn try_from_process(value: ChunkProcess<'_>) -> (r: Result<Self, PNGError>) {
        let mut value = ByteStream::from_slice(value.data());
        let keyword = stream_vecu8(&mut value, Some(0));
        let compression_method = read_octet(&mut value);
        let compressed_text = stream_vecu8(&mut value, None);
        Ok(zTXT { keyword, compression_method, compressed_text })
    }
}

// ---------------------------------------------------------------------------
// Layouts: each decoder reads back what the layout writes
// ---------------------------------------------------------------------------

proof fn lemma_read16(d: Seq<u8>, off: int, v: u16)
    requires
        0 <= off,
        off + 2 <= d.len(),
        d.subrange(off, off + 2) == u16_be_octets(v),
    ensures
        be16(d, off) == v,
{
    lemma_u16_octets(v);
}

proof fn lemma_read32(d: Seq<u8>, off: int, v: u32)
    requires
        0 <= off,
        off + 4 <= d.len(),
        d.subrange(off, off + 4) == u32_be_octets(v),
    ensures
        be32(d, off) == v,
{
    lemma_u32_octets(v);
}

proof fn lemma_write16(d: Seq<u8>, off: int)
    requires
        0 <= off,
        off + 2 <= d.len(),
    ensures
        d.subrange(off, off + 2) == u16_be_octets(be16(d, off)),
{
    lemma_u16_octets_back(d.subrange(off, off + 2));
}

proof fn lemma_write32(d: Seq<u8>, off: int)
    requires
        0 <= off,
        off + 4 <= d.len(),
    ensures
        d.subrange(off, off + 4) == u32_be_octets(be32(d, off)),
{
    lemma_u32_octets_back(d.subrange(off, off + 4));
}

/// The octets of an image header: width and height as big-endian 32-bit
/// numbers, then bit depth, color type, compression, filter and interlace
/// method, one octet each.
pub open spec fn ihdr_octets(h: IHDRV) -> Seq<u8> {
    u32_be_octets(h.width) + u32_be_octets(h.height) + seq![
        h.bit_depth,
        h.color_type,
        h.compression_method,
        h.filter_method,
        h.interlace_method,
    ]
}

/// An image header reads back from its octets, whatever follows them; and
/// what a header is read from starts with that header's octets.
pub proof fn lemma_ihdr_layout(h: IHDRV, rest: Seq<u8>, d: Seq<u8>, ct: Option<u8>)
    ensures
        <IHDR as ChunkData>::spec_decode(ihdr_octets(h) + rest, ct) == Some(h),
        <IHDR as ChunkData>::spec_decode(d, ct) matches Some(g) ==> ihdr_octets(g) == d.take(13),
        <IHDR as ChunkData>::spec_decode(d, ct) is Some <==> d.len() >= 13,
{
    let e = ihdr_octets(h) + rest;
    lemma_u32_octets(h.width);
    lemma_u32_octets(h.height);
    assert(e.subrange(0, 4) =~= u32_be_octets(h.width));
    assert(e.subrange(4, 8) =~= u32_be_octets(h.height));
    lemma_read32(e, 0, h.width);
    lemma_read32(e, 4, h.height);
    if d.len() >= 13 {
        let g = <IHDR as ChunkData>::spec_decode(d, ct).unwrap();
        lemma_write32(d, 0);
        lemma_write32(d, 4);
        assert(ihdr_octets(g) =~= d.take(13));
    }
}

/// The octets of a gamma chunk: the gamma times 100000, big-endian.
pub open spec fn gama_octets(g: GAMAV) -> Seq<u8> {
    u32_be_octets(g.image_gamma)
}

/// A gamma reads back from its four octets, whatever follows them; data of
/// at least four octets always decodes, and starts with the octets of what
/// it decodes to.
pub proof fn lemma_gama_layout(g: GAMAV, rest: Seq<u8>, d: Seq<u8>, ct: Option<u8>)
    ensures
        <gAMA as ChunkData>::spec_decode(gama_octets(g) + rest, ct) == Some(g),
        <gAMA as ChunkData>::spec_decode(d, ct) is Some <==> d.len() >= 4,
        <gAMA as ChunkData>::spec_decode(d, ct) matches Some(v) ==> gama_octets(v) == d.take(4),
{
    let e = gama_octets(g) + rest;
    lemma_u32_octets(g.image_gamma);
    assert(e.subrange(0, 4) =~= u32_be_octets(g.image_gamma));
    lemma_read32(e, 0, g.image_gamma);
    if d.len() >= 4 {
        lemma_write32(d, 0);
        assert(d.subrange(0, 4) =~= d.take(4));
    }
}

/// The color type under which a background layout is read.
pub open spec fn bkgd_color_type(b: bkGD) -> u8 {
    match b {
        bkGD::ColorType0 { .. } => 0,
        bkGD::ColorType2 { .. } => 2,
        bkGD::ColorType3 { .. } => 3,
        bkGD::ColorType4 { .. } => 4,
        bkGD::ColorType6 { .. } => 6,
    }
}

/// The octets of a background: a gray level or red, green and blue as
/// big-endian 16-bit samples, or a palette index of one octet.
pub open spec fn bkgd_octets(b: bkGD) -> Seq<u8> {
    match b {
        bkGD::ColorType0 { gray } => u16_be_octets(gray),
        bkGD::ColorType2 { red, green, blue } => u16_be_octets(red) + u16_be_octets(green)
            + u16_be_octets(blue),
        bkGD::ColorType3 { palette_index } => seq![palette_index],
        bkGD::ColorType4 { gray } => u16_be_octets(gray),
        bkGD::ColorType6 { red, green, blue } => u16_be_octets(red) + u16_be_octets(green)
            + u16_be_octets(blue),
    }
}

/// A background reads back from its octets under its color type, whatever
/// follows them; what a background is read from under color type `c` is a
/// background of color type `c` whose octets start the data; and without a
/// color type nothing is read.
pub proof fn lemma_bkgd_layout(b: bkGD, rest: Seq<u8>, d: Seq<u8>, c: u8)
    ensures
        <bkGD as ChunkData>::spec_decode(bkgd_octets(b) + rest, Some(bkgd_color_type(b))) == Some(b),
        <bkGD as ChunkData>::spec_decode(d, Some(c)) matches Some(v) ==> bkgd_color_type(v) == c
            && bkgd_octets(v) == d.take(bkgd_octets(v).len() as int),
        <bkGD as ChunkData>::spec_decode(d, None) is None,
{
    let e = bkgd_octets(b) + rest;
    match b {
        bkGD::ColorType0 { gray } => {
            lemma_u16_octets(gray);
            assert(e.subrange(0, 2) =~= u16_be_octets(gray));
            lemma_read16(e, 0, gray);
        },
        bkGD::ColorType4 { gray } => {
            lemma_u16_octets(gray);
            assert(e.subrange(0, 2) =~= u16_be_octets(gray));
            lemma_read16(e, 0, gray);
        },
        bkGD::ColorType3 { palette_index } => {
        },
        bkGD::ColorType2 { red, green, blue } => {
            lemma_u16_octets(red);
            lemma_u16_octets(green);
            lemma_u16_octets(blue);
            assert(e.subrange(0, 2) =~= u16_be_octets(red));
            assert(e.subrange(2, 4) =~= u16_be_octets(green));
            assert(e.subrange(4, 6) =~= u16_be_octets(blue));
            lemma_read16(e, 0, red);
            lemma_read16(e, 2, green);
            lemma_read16(e, 4, blue);
        },
        bkGD::ColorType6 { red, green, blue } => {
            lemma_u16_octets(red);
            lemma_u16_octets(green);
            lemma_u16_octets(blue);
            assert(e.subrange(0, 2) =~= u16_be_octets(red));
            assert(e.subrange(2, 4) =~= u16_be_octets(green));
            assert(e.subrange(4, 6) =~= u16_be_octets(blue));
            lemma_read16(e, 0, red);
            lemma_read16(e, 2, green);
            lemma_read16(e, 4, blue);
        },
    }
    if let Some(v) = <bkGD as ChunkData>::spec_decode(d, Some(c)) {
        if c == 0 || c == 4 {
            lemma_write16(d, 0);
            assert(d.subrange(0, 2) =~= d.take(2));
        } else if c == 2 || c == 6 {
            lemma_write16(d, 0);
            lemma_write16(d, 2);
            lemma_write16(d, 4);
            assert(bkgd_octets(v) =~= d.take(6));
        } else {
            assert(bkgd_octets(v) =~= d.take(1));
        }
    }
}

/// The octets of a list of 16-bit numbers, each big-endian, in order.
pub open spec fn u16s_octets(e: Seq<u16>) -> Seq<u8>
    decreases e.len(),
{
    if e.len() == 0 {
        Seq::empty()
    } else {
        u16s_octets(e.drop_last()) + u16_be_octets(e.last())
    }
}

proof fn lemma_u16s_octets_shape(e: Seq<u16>)
    ensures
        u16s_octets(e).len() == 2 * e.len(),
        forall|i: int|
            0 <= i < e.len() ==> u16s_octets(e).subrange(2 * i, 2 * i + 2) == u16_be_octets(
                #[trigger] e[i],
            ),
    decreases e.len(),
{
    if e.len() > 0 {
        let p = e.drop_last();
        lemma_u16s_octets_shape(p);
        lemma_u16_octets(e.last());
        let o = u16s_octets(e);
        assert forall|i: int| 0 <= i < e.len() implies o.subrange(2 * i, 2 * i + 2) == u16_be_octets(
            #[trigger] e[i],
        ) by {
            if i < e.len() - 1 {
                assert(e[i] == p[i]);
                assert(o.subrange(2 * i, 2 * i + 2) =~= u16s_octets(p).subrange(2 * i, 2 * i + 2));
            } else {
                assert(o.subrange(2 * i, 2 * i + 2) =~= u16_be_octets(e.last()));
            }
        }
    }
}

proof fn lemma_u16s_octets_back(d: Seq<u8>)
    requires
        d.len() % 2 == 0,
    ensures
        u16s_octets(be16_pairs(d)) == d,
    decreases d.len(),
{
    if d.len() > 0 {
        let n = d.len() as int;
        let p = d.take(n - 2);
        lemma_u16s_octets_back(p);
        assert(be16_pairs(d).drop_last() =~= be16_pairs(p)) by {
            assert forall|i: int| 0 <= i < p.len() / 2 implies #[trigger] be16_pairs(d)[i]
                == be16_pairs(p)[i] by {
                assert(d.subrange(2 * i, 2 * i + 2) =~= p.subrange(2 * i, 2 * i + 2));
            }
        }
        lemma_write16(d, n - 2);
        assert(d =~= p + d.subrange(n - 2, n));
    } else {
        assert(be16_pairs(d) =~= Seq::<u16>::empty());
    }
}

/// A histogram reads back from the octets of its entries; data of an even
/// number of octets always decodes, and the octets of its entries are the
/// data; data of an odd number of octets does not decode.
pub proof fn lemma_hist_layout(e: Seq<u16>, d: Seq<u8>, ct: Option<u8>)
    ensures
        <hIST as ChunkData>::spec_decode(u16s_octets(e), ct) == Some(e),
        <hIST as ChunkData>::spec_decode(d, ct) is Some <==> d.len() % 2 == 0,
        <hIST as ChunkData>::spec_decode(d, ct) matches Some(v) ==> u16s_octets(v) == d,
{
    lemma_u16s_octets_shape(e);
    let o = u16s_octets(e);
    assert forall|i: int| 0 <= i < e.len() implies #[trigger] be16_pairs(o)[i] == e[i] by {
        lemma_read16(o, 2 * i, e[i]);
    }
    assert(be16_pairs(o) =~= e);
    if d.len() % 2 == 0 {
        lemma_u16s_octets_back(d);
    }
}

/// The octets of a text chunk: the keyword, a zero octet, the text.
pub open spec fn text_octets(t: TextV) -> Seq<u8> {
    t.keyword + seq![0u8] + t.text
}

proof fn lemma_until_delim_at(s: Seq<u8>, d: u8, k: int)
    requires
        0 <= k < s.len(),
        s[k] == d,
        forall|j: int| 0 <= j < k ==> s[j] != d,
    ensures
        until_delim(s, d) == k,
{
    lemma_until_delim_bound(s, d);
    let u = until_delim(s, d) as int;
    if u < k {
        assert(s[u] == d);
    }
    if k < u {
        assert(s[k] != d);
    }
}

/// A keyword without a zero octet and any text read back from the text
/// chunk they make; what a text chunk is read from gives a keyword without
/// a zero octet and, where the data holds a zero octet, gives the data back
/// laid out again; without one, the keyword is all the data and the text is
/// empty.
pub proof fn lemma_text_layout(t: TextV, d: Seq<u8>, ct: Option<u8>)
    ensures
        !t.keyword.contains(0u8) ==> <tEXt as ChunkData>::spec_decode(text_octets(t), ct) == Some(t),
        <tEXt as ChunkData>::spec_decode(d, ct) matches Some(v) ==> {
            &&& !v.keyword.contains(0u8)
            &&& d.contains(0u8) ==> text_octets(v) == d
            &&& !d.contains(0u8) ==> v.keyword == d && v.text.len() == 0
        },
{
    if !t.keyword.contains(0u8) {
        let o = text_octets(t);
        let k = t.keyword.len() as int;
        assert forall|j: int| 0 <= j < k implies o[j] != 0u8 by {
            assert(o[j] == t.keyword[j]);
            if o[j] == 0u8 {
                assert(t.keyword.contains(0u8));
            }
        }
        lemma_until_delim_at(o, 0u8, k);
        assert(o.take(k) =~= t.keyword);
        assert(o.skip(k + 1) =~= t.text);
    }
    let v = <tEXt as ChunkData>::spec_decode(d, ct).unwrap();
    lemma_until_delim_bound(d, 0u8);
    let u = until_delim(d, 0u8) as int;
    if v.keyword.contains(0u8) {
        let j = choose|j: int| 0 <= j < v.keyword.len() && v.keyword[j] == 0u8;
        assert(d[j] == 0u8);
    }
    if d.contains(0u8) {
        let j = choose|j: int| 0 <= j < d.len() && d[j] == 0u8;
        assert(u < d.len());
        assert(text_octets(v) =~= d);
    } else {
        if u < d.len() {
            assert(d.contains(0u8));
        }
        assert(v.keyword =~= d);
    }
}

/// The octets of chromaticities: eight big-endian 32-bit numbers, white
/// point x and y, then red, green and blue x and y.
pub open spec fn chrm_octets(c: CHRMV) -> Seq<u8> {
    u32_be_octets(c.white_point_x) + u32_be_octets(c.white_point_y) + u32_be_octets(c.red_x)
        + u32_be_octets(c.red_y) + u32_be_octets(c.green_x) + u32_be_octets(c.green_y)
        + u32_be_octets(c.blue_x) + u32_be_octets(c.blue_y)
}

/// Chromaticities read back from their octets, whatever follows them; what
/// they are read from starts with their octets.
pub proof fn lemma_chrm_layout(c: CHRMV, rest: Seq<u8>, d: Seq<u8>, ct: Option<u8>)
    ensures
        <cHRM as ChunkData>::spec_decode(chrm_octets(c) + rest, ct) == Some(c),
        <cHRM as ChunkData>::spec_decode(d, ct) is Some <==> d.len() >= 32,
        <cHRM as ChunkData>::spec_decode(d, ct) matches Some(v) ==> chrm_octets(v) == d.take(32),
{
    let e = chrm_octets(c) + rest;
    lemma_u32_octets(c.white_point_x);
    lemma_u32_octets(c.white_point_y);
    lemma_u32_octets(c.red_x);
    lemma_u32_octets(c.red_y);
    lemma_u32_octets(c.green_x);
    lemma_u32_octets(c.green_y);
    lemma_u32_octets(c.blue_x);
    lemma_u32_octets(c.blue_y);
    assert(e.subrange(0, 4) =~= u32_be_octets(c.white_point_x));
    assert(e.subrange(4, 8) =~= u32_be_octets(c.white_point_y));
    assert(e.subrange(8, 12) =~= u32_be_octets(c.red_x));
    assert(e.subrange(12, 16) =~= u32_be_octets(c.red_y));
    assert(e.subrange(16, 20) =~= u32_be_octets(c.green_x));
    assert(e.subrange(20, 24) =~= u32_be_octets(c.green_y));
    assert(e.subrange(24, 28) =~= u32_be_octets(c.blue_x));
    assert(e.subrange(28, 32) =~= u32_be_octets(c.blue_y));
    lemma_read32(e, 0, c.white_point_x);
    lemma_read32(e, 4, c.white_point_y);
    lemma_read32(e, 8, c.red_x);
    lemma_read32(e, 12, c.red_y);
    lemma_read32(e, 16, c.green_x);
    lemma_read32(e, 20, c.green_y);
    lemma_read32(e, 24, c.blue_x);
    lemma_read32(e, 28, c.blue_y);
    if d.len() >= 32 {
        let v = <cHRM as ChunkData>::spec_decode(d, ct).unwrap();
        lemma_write32(d, 0);
        lemma_write32(d, 4);
        lemma_write32(d, 8);
        lemma_write32(d, 12);
        lemma_write32(d, 16);
        lemma_write32(d, 20);
        lemma_write32(d, 24);
        lemma_write32(d, 28);
        assert(chrm_octets(v) =~= d.take(32));
    }
}

/// The octets of physical dimensions: pixels per unit on x and on y as
/// big-endian 32-bit numbers, then the unit, one octet.
pub open spec fn phys_octets(p: PHYSV) -> Seq<u8> {
    u32_be_octets(p.x_ppu) + u32_be_octets(p.y_ppu) + seq![p.unit_specifier]
}

/// Physical dimensions read back from their octets, whatever follows them;
/// what they are read from starts with their octets.
pub proof fn lemma_phys_layout(p: PHYSV, rest: Seq<u8>, d: Seq<u8>, ct: Option<u8>)
    ensures
        <pHYs as ChunkData>::spec_decode(phys_octets(p) + rest, ct) == Some(p),
        <pHYs as ChunkData>::spec_decode(d, ct) is Some <==> d.len() >= 9,
        <pHYs as ChunkData>::spec_decode(d, ct) matches Some(v) ==> phys_octets(v) == d.take(9),
{
    let e = phys_octets(p) + rest;
    lemma_u32_octets(p.x_ppu);
    lemma_u32_octets(p.y_ppu);
    assert(e.subrange(0, 4) =~= u32_be_octets(p.x_ppu));
    assert(e.subrange(4, 8) =~= u32_be_octets(p.y_ppu));
    lemma_read32(e, 0, p.x_ppu);
    lemma_read32(e, 4, p.y_ppu);
    if d.len() >= 9 {
        let v = <pHYs as ChunkData>::spec_decode(d, ct).unwrap();
        lemma_write32(d, 0);
        lemma_write32(d, 4);
        assert(phys_octets(v) =~= d.take(9));
    }
}

/// The octets of a modification time: the year as a big-endian 16-bit
/// number, then month, day, hour, minute and second, one octet each.
pub open spec fn time_octets(t: TIMEV) -> Seq<u8> {
    u16_be_octets(t.year) + seq![t.month, t.day, t.hour, t.minute, t.second]
}

/// A time reads back from its octets, whatever follows them; what it is
/// read from starts with its octets.
pub proof fn lemma_time_layout(t: TIMEV, rest: Seq<u8>, d: Seq<u8>, ct: Option<u8>)
    ensures
        <tIME as ChunkData>::spec_decode(time_octets(t) + rest, ct) == Some(t),
        <tIME as ChunkData>::spec_decode(d, ct) is Some <==> d.len() >= 7,
        <tIME as ChunkData>::spec_decode(d, ct) matches Some(v) ==> time_octets(v) == d.take(7),
{
    let e = time_octets(t) + rest;
    lemma_u16_octets(t.year);
    assert(e.subrange(0, 2) =~= u16_be_octets(t.year));
    lemma_read16(e, 0, t.year);
    if d.len() >= 7 {
        let v = <tIME as ChunkData>::spec_decode(d, ct).unwrap();
        lemma_write16(d, 0);
        assert(time_octets(v) =~= d.take(7));
    }
}

/// The color type under which a significant-bits layout is read.
pub open spec fn sbit_color_type(b: sBIT) -> u8 {
    match b {
        sBIT::ColorType0(..) => 0,
        sBIT::ColorType2 { .. } => 2,
        sBIT::ColorType3 { .. } => 3,
        sBIT::ColorType4 { .. } => 4,
        sBIT::ColorType6 { .. } => 6,
    }
}

/// The octets of significant bits: one octet per channel, in channel order.
pub open spec fn sbit_octets(b: sBIT) -> Seq<u8> {
    match b {
        sBIT::ColorType0(g) => seq![g],
        sBIT::ColorType2 { r, g, b } => seq![r, g, b],
        sBIT::ColorType3 { r, g, b } => seq![r, g, b],
        sBIT::ColorType4 { grayscale, alpha } => seq![grayscale, alpha],
        sBIT::ColorType6 { r, g, b, a } => seq![r, g, b, a],
    }
}

/// Significant bits read back from their octets under their color type,
/// whatever follows them; what they are read from under color type `c` is of
/// color type `c` and starts the data; without a color type nothing is read.
pub proof fn lemma_sbit_layout(b: sBIT, rest: Seq<u8>, d: Seq<u8>, c: u8)
    ensures
        <sBIT as ChunkData>::spec_decode(sbit_octets(b) + rest, Some(sbit_color_type(b))) == Some(b),
        <sBIT as ChunkData>::spec_decode(d, Some(c)) matches Some(v) ==> sbit_color_type(v) == c
            && sbit_octets(v) == d.take(sbit_octets(v).len() as int),
        <sBIT as ChunkData>::spec_decode(d, None) is None,
{
    if let Some(v) = <sBIT as ChunkData>::spec_decode(d, Some(c)) {
        assert(sbit_octets(v) =~= d.take(sbit_octets(v).len() as int));
    }
}

/// The color type under which a transparency layout is read.
pub open spec fn trns_color_type(t: TrnsV) -> u8 {
    match t {
        TrnsV::ColorType0 { .. } => 0,
        TrnsV::ColorType2 { .. } => 2,
        TrnsV::ColorType3 { .. } => 3,
    }
}

/// The octets of a transparency: a gray level or red, green and blue as
/// big-endian 16-bit samples, or one alpha octet per palette entry.
pub open spec fn trns_octets(t: TrnsV) -> Seq<u8> {
    match t {
        TrnsV::ColorType0 { gray } => u16_be_octets(gray),
        TrnsV::ColorType2 { red, green, blue } => u16_be_octets(red) + u16_be_octets(green)
            + u16_be_octets(blue),
        TrnsV::ColorType3 { alphas } => alphas,
    }
}

/// A transparency reads back from its octets under its color type (a
/// sample layout whatever follows it, the palette alphas exactly); what it
/// is read from under color type `c` is of color type `c` and starts the
/// data (is all of it, for palette alphas); without a color type nothing is
/// read.
pub proof fn lemma_trns_layout(t: TrnsV, rest: Seq<u8>, d: Seq<u8>, c: u8)
    ensures
        t !is ColorType3 ==> <tRNS as ChunkData>::spec_decode(
            trns_octets(t) + rest,
            Some(trns_color_type(t)),
        ) == Some(t),
        t is ColorType3 ==> <tRNS as ChunkData>::spec_decode(trns_octets(t), Some(3u8)) == Some(t),
        <tRNS as ChunkData>::spec_decode(d, Some(c)) matches Some(v) ==> trns_color_type(v) == c
            && trns_octets(v) == d.take(trns_octets(v).len() as int),
        <tRNS as ChunkData>::spec_decode(d, None) is None,
{
    let e = trns_octets(t) + rest;
    match t {
        TrnsV::ColorType0 { gray } => {
            lemma_u16_octets(gray);
            assert(e.subrange(0, 2) =~= u16_be_octets(gray));
            lemma_read16(e, 0, gray);
        },
        TrnsV::ColorType2 { red, green, blue } => {
            lemma_u16_octets(red);
            lemma_u16_octets(green);
            lemma_u16_octets(blue);
            assert(e.subrange(0, 2) =~= u16_be_octets(red));
            assert(e.subrange(2, 4) =~= u16_be_octets(green));
            assert(e.subrange(4, 6) =~= u16_be_octets(blue));
            lemma_read16(e, 0, red);
            lemma_read16(e, 2, green);
            lemma_read16(e, 4, blue);
        },
        TrnsV::ColorType3 { alphas } => {
        },
    }
    if let Some(v) = <tRNS as ChunkData>::spec_decode(d, Some(c)) {
        if c == 0 {
            lemma_write16(d, 0);
            assert(d.subrange(0, 2) =~= d.take(2));
        } else if c == 2 {
            lemma_write16(d, 0);
            lemma_write16(d, 2);
            lemma_write16(d, 4);
            assert(trns_octets(v) =~= d.take(6));
        } else {
            assert(d =~= d.take(d.len() as int));
        }
    }
}

/// The octets of a compressed text chunk: the keyword, a zero octet, the
/// compression method, the compressed text.
pub open spec fn ztxt_octets(z: ZtxtV) -> Seq<u8> {
    z.keyword + seq![0u8, z.compression_method] + z.compressed_text
}

/// A keyword without a zero octet, a method and any text read back from the
/// compressed text chunk they make; what such a chunk is read from gives a
/// keyword without a zero octet, and laid out again gives the data back.
pub proof fn lemma_ztxt_layout(z: ZtxtV, d: Seq<u8>, ct: Option<u8>)
    ensures
        !z.keyword.contains(0u8) ==> <zTXT as ChunkData>::spec_decode(ztxt_octets(z), ct) == Some(z),
        <zTXT as ChunkData>::spec_decode(d, ct) matches Some(v) ==> !v.keyword.contains(0u8)
            && ztxt_octets(v) == d,
{
    if !z.keyword.contains(0u8) {
        let o = ztxt_octets(z);
        let k = z.keyword.len() as int;
        assert forall|j: int| 0 <= j < k implies o[j] != 0u8 by {
            assert(o[j] == z.keyword[j]);
            if o[j] == 0u8 {
                assert(z.keyword.contains(0u8));
            }
        }
        lemma_until_delim_at(o, 0u8, k);
        assert(o.take(k) =~= z.keyword);
        assert(o.skip(k + 1) =~= seq![z.compression_method] + z.compressed_text);
        assert(o.skip(k + 1).skip(1) =~= z.compressed_text);
    }
    if let Some(v) = <zTXT as ChunkData>::spec_decode(d, ct) {
        lemma_until_delim_bound(d, 0u8);
        let u = until_delim(d, 0u8) as int;
        if v.keyword.contains(0u8) {
            let j = choose|j: int| 0 <= j < v.keyword.len() && v.keyword[j] == 0u8;
            assert(d[j] == 0u8);
        }
        assert(ztxt_octets(v) =~= d);
    }
}

/// Image data, a palette and a trailer are taken as they stand: the data
/// of an image data chunk and the entries of a palette are the chunk's
/// octets, unchanged, and any data makes a trailer.
pub proof fn lemma_plain_layouts(d: Seq<u8>, ct: Option<u8>)
    ensures
        <IDAT as ChunkData>::spec_decode(d, ct) == Some(d),
        <PLTE as ChunkData>::spec_decode(d, ct) == Some(d),
        <IEND as ChunkData>::spec_decode(d, ct) == Some(IEND {  }),
{
}

} // verus!
