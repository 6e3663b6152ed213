//! The PNG file: signature, chunk sequence and the decoded image description.
use vstd::prelude::*;

use crate::bytes::{be_u32_of, ByteStream};
use crate::chunks::{
    chunk_encoding, chunk_size, parse_chunk, Chunk, ChunkV, lemma_chunk_layout, lemma_parse_chunk_exact,
    chunk_octets,
};
use crate::bytes::u32_be_octets;
use crate::data::{
    bkGD, cHRM, gAMA, hIST, pHYs, sBIT, tEXt, tIME, tRNS, zTXT, ChunkData, CHRMV, GAMAV, IDAT,
    IEND, IHDR, IHDRV, PHYSV, PLTE, TextV, TIMEV, TrnsV, ZtxtV,
};
use crate::text::{bytes_as_chars, decimal, push_ascii, push_decimal, string_push};

pub mod idat;

verus! {

/// Why a PNG file was refused.
#[derive(Debug)]
pub enum PNGError {
    InvalidSignature,
    ChunkTypeMismatch(String),
}

/// The eight octets every PNG file starts with.
pub open spec fn png_signature() -> Seq<u8> {
    seq![137u8, 80u8, 78u8, 71u8, 13u8, 10u8, 26u8, 10u8]
}

/// The first eight octets of `s`, a missing octet read as zero.
pub open spec fn signature_window(s: Seq<u8>) -> Seq<u8> {
    Seq::new(8, |i: int| if i < s.len() { s[i] } else { 0u8 })
}

/// How many octets reading the signature takes from `s`.
pub open spec fn signature_taken(s: Seq<u8>) -> nat {
    if s.len() < 8 { s.len() } else { 8 }
}

/// A stream passes the signature check exactly when it is at least eight
/// octets long and starts with the PNG signature.
pub proof fn lemma_signature_window(s: Seq<u8>)
    ensures
        (signature_window(s) == png_signature()) <==> (s.len() >= 8 && s.take(8) == png_signature()),
{
    if s.len() >= 8 {
        if s.take(8) == png_signature() {
            assert(signature_window(s) =~= png_signature());
        }
        if signature_window(s) == png_signature() {
            assert(s.take(8) =~= png_signature());
        }
    } else {
        assert(signature_window(s)[7] == 0u8);
        assert(png_signature()[7] == 10u8);
    }
}

/// Reads the chunks of `s` until `count` octets have been taken. `None`
/// when a chunk is cut short, or a chunk runs past `count`.
pub open spec fn parse_chunks(s: Seq<u8>, count: nat) -> Option<Seq<ChunkV>>
    decreases count,
{
    if count == 0 {
        Some(Seq::empty())
    } else {
        match parse_chunk(s) {
            None => None,
            Some((c, n)) => if n <= count && n > 0 {
                match parse_chunks(s.skip(n as int), (count - n) as nat) {
                    None => None,
                    Some(rest) => Some(seq![c] + rest),
                }
            } else {
                None
            },
        }
    }
}

/// The octets of a sequence of chunks, one after the other.
pub open spec fn chunks_octets(cs: Seq<ChunkV>) -> Seq<u8>
    decreases cs.len(),
{
    if cs.len() == 0 {
        Seq::empty()
    } else {
        chunk_octets(cs[0]) + chunks_octets(cs.drop_first())
    }
}

/// What the chunk parser reads is exactly the first `count` octets of the
/// stream: laid end to end, the chunks give those octets back.
pub proof fn lemma_parse_chunks_cover(s: Seq<u8>, count: nat)
    requires
        parse_chunks(s, count) is Some,
    ensures
        count <= s.len(),
        chunks_octets(parse_chunks(s, count).unwrap()) == s.take(count as int),
    decreases count,
{
    if count == 0 {
        assert(s.take(0) =~= Seq::<u8>::empty());
    } else {
        let (c, n) = parse_chunk(s).unwrap();
        lemma_parse_chunk_exact(s);
        lemma_parse_chunks_cover(s.skip(n as int), (count - n) as nat);
        let cs = parse_chunks(s, count).unwrap();
        let rest = parse_chunks(s.skip(n as int), (count - n) as nat).unwrap();
        assert(cs.drop_first() =~= rest);
        assert(s.take(count as int) =~= s.take(n as int) + s.skip(n as int).take(count - n));
    }
}

/// Whether a chunk's length field holds its data length, big-endian, and
/// its type and CRC are four octets each.
pub open spec fn chunk_well_laid(c: ChunkV) -> bool {
    &&& c.type_.len() == 4
    &&& c.crc.len() == 4
    &&& c.data.len() < 0x1_0000_0000
    &&& c.len == u32_be_octets(c.data.len() as u32)
}

/// Chunks laid end to end read back as those chunks, when each one's length
/// field holds its data length.
pub proof fn lemma_chunks_layout(cs: Seq<ChunkV>)
    requires
        forall|i: int| 0 <= i < cs.len() ==> chunk_well_laid(#[trigger] cs[i]),
    ensures
        parse_chunks(chunks_octets(cs), chunks_octets(cs).len()) == Some(cs),
    decreases cs.len(),
{
    let o = chunks_octets(cs);
    if cs.len() > 0 {
        let c = cs[0];
        let tail = cs.drop_first();
        assert(chunk_well_laid(c));
        assert forall|i: int| 0 <= i < tail.len() implies chunk_well_laid(#[trigger] tail[i]) by {
            assert(tail[i] == cs[i + 1]);
        }
        lemma_chunks_layout(tail);
        let to = chunks_octets(tail);
        assert(chunk_octets(c) =~= chunk_encoding(c.type_, c.data, c.crc));
        lemma_chunk_layout(c.type_, c.data, c.crc, to);
        assert(o == chunk_encoding(c.type_, c.data, c.crc) + to);
        let n = (12 + c.data.len()) as nat;
        assert(o.skip(n as int) =~= to);
        assert(seq![c] + tail =~= cs);
    } else {
        assert(o =~= Seq::<u8>::empty());
    }
}

/// A PNG file that passes the signature check and whose chunks fill it is
/// exactly the signature followed by those chunks: reading loses no octet
/// and adds none.
pub proof fn lemma_file_octets(bytes: Seq<u8>)
    requires
        signature_window(bytes) == png_signature(),
        parse_chunks(bytes.skip(8), (bytes.len() - 8) as nat) is Some,
    ensures
        png_signature() + chunks_octets(parse_chunks(bytes.skip(8), (bytes.len() - 8) as nat).unwrap())
            == bytes,
{
    lemma_signature_window(bytes);
    lemma_parse_chunks_cover(bytes.skip(8), (bytes.len() - 8) as nat);
    assert(bytes.skip(8).take(bytes.len() - 8) =~= bytes.skip(8));
    assert(bytes.take(8) + bytes.skip(8) =~= bytes);
}

/// Every chunk the chunk parser reads holds as many data octets as its
/// length field declares.
pub proof fn lemma_parse_chunks_lengths(s: Seq<u8>, count: nat)
    requires
        parse_chunks(s, count) is Some,
    ensures
        forall|i: int|
            0 <= i < parse_chunks(s, count).unwrap().len() ==> #[trigger] parse_chunks(
                s,
                count,
            ).unwrap()[i].data.len() == crate::chunks::declared_len(parse_chunks(s, count).unwrap()[i]),
    decreases count,
{
    if count > 0 {
        let (c, n) = parse_chunk(s).unwrap();
        lemma_parse_chunk_exact(s);
        lemma_parse_chunks_lengths(s.skip(n as int), (count - n) as nat);
        let cs = parse_chunks(s, count).unwrap();
        let rest = parse_chunks(s.skip(n as int), (count - n) as nat).unwrap();
        assert forall|i: int| 0 <= i < cs.len() implies #[trigger] cs[i].data.len()
            == crate::chunks::declared_len(cs[i]) by {
            if i > 0 {
                assert(cs[i] == rest[i - 1]);
            }
        }
    }
}

/// A PNG file past its signature: the octets left and the count of octets
/// that the chunks are to fill.
pub struct RawV {
    pub stream: Seq<u8>,
    pub len: nat,
}

#[derive(Debug)]
pub struct RawPNG {
    state: ByteStream,
    len: usize,
}

impl View for RawPNG {
    type V = RawV;

    closed spec fn view(&self) -> RawV {
        RawV { stream: self.state@, len: self.len as nat }
    }
}

impl RawPNG {
    /// Checks the signature of a PNG file's octets and keeps what follows it.
    pub fn from_bytes(bytes: Vec<u8>) -> (r: Result<Self, PNGError>)
        ensures
            (signature_window(bytes@) == png_signature()) ==> (r matches Ok(raw) && raw@ == (RawV {
                stream: bytes@.skip(8),
                len: (bytes@.len() - 8) as nat,
            })),
            (signature_window(bytes@) != png_signature()) ==> r matches Err(PNGError::InvalidSignature),
    {
        let len = bytes.len();
        let mut state = ByteStream::new(bytes);
        if let Err(e) = RawPNG::validate_signature(&mut state) {
            return Err(e);
        }
        proof {
            lemma_signature_window(bytes@);
        }
        let len = len - 8;
        Ok(Self { state, len })
    }

    /// Reads eight octets (zero for each one missing) and compares them
    /// with the PNG signature.
    fn validate_signature(iter: &mut ByteStream) -> (r: Result<(), PNGError>)
        ensures
            (signature_window(old(iter)@) == png_signature()) ==> r is Ok,
            (signature_window(old(iter)@) != png_signature()) ==> r matches Err(PNGError::InvalidSignature),
            final(iter)@ == old(iter)@.skip(signature_taken(old(iter)@) as int),
    {
        let ghost s = iter@;
        let expected: [u8; 8] = [137, 80, 78, 71, 13, 10, 26, 10];
        let mut got: [u8; 8] = [0u8; 8];
        let mut i: usize = 0;
        while i < 8
            invariant
                0 <= i <= 8,
                got@.len() == 8,
                forall|j: int| 0 <= j < i ==> got@[j] == signature_window(s)[j],
                iter@ =~= s.skip(if i < s.len() { i as int } else { s.len() as int }),
            decreases 8 - i,
        {
            let b = match iter.next() {
                Some(b) => b,
                None => 0,
            };
            got[i] = b;
            i = i + 1;
        }
        let mut same = true;
        let mut k: usize = 0;
        while k < 8
            invariant
                0 <= k <= 8,
                got@.len() == 8,
                expected@ == png_signature(),
                same <==> (forall|j: int| 0 <= j < k ==> got@[j] == expected@[j]),
            decreases 8 - k,
        {
            if got[k] != expected[k] {
                same = false;
            }
            k = k + 1;
        }
        proof {
            assert(same <==> got@ =~= png_signature());
            assert(got@ =~= signature_window(s));
        }
        if !same {
            return Err(PNGError::InvalidSignature);
        }
        Ok(())
    }

    fn next(&mut self) -> (r: Option<u8>)
        ensures
            old(self)@.stream.len() == 0 ==> r is None && final(self)@ == old(self)@,
            old(self)@.stream.len() > 0 ==> r == Some(old(self)@.stream[0]) && final(self)@ == (RawV {
                stream: old(self)@.stream.drop_first(),
                len: old(self)@.len,
            }),
    {
        self.state.next()
    }

    fn into_iter(self) -> (r: ByteStream)
        ensures
            r@ == self@.stream,
    {
        self.state
    }

    fn len(&self) -> (r: usize)
        ensures
            r == self@.len,
    {
        self.len
    }

    /// Whether the octets after the signature are a sequence of whole chunks
    /// that fills exactly the file's length, the condition under which
    /// `PNGChunks::from_raw` can read them.
    pub fn chunks_well_formed(&self) -> (r: bool)
        ensures
            r == parse_chunks(self@.stream, self@.len) is Some,
    {
        let s = self.state.remaining();
        let mut pos: usize = 0;
        let mut count: usize = self.len;
        assert(s@.skip(0) =~= s@);
        while count > 0
            invariant
                s@ == self@.stream,
                pos <= s@.len(),
                count <= self@.len,
                (parse_chunks(self@.stream, self@.len) is Some) == (parse_chunks(
                    s@.skip(pos as int),
                    count as nat,
                ) is Some),
            decreases count,
        {
            let ghost rest = s@.skip(pos as int);
            if s.len() - pos < 8 {
                return false;
            }
            let dl = be_u32_of(vstd::slice::slice_subrange(s, pos, pos + 4));
            proof {
                assert(s@.subrange(pos as int, pos + 4) =~= rest.subrange(0, 4));
            }
            if ((s.len() - pos - 8) as u64) < (dl as u64) + 4 {
                return false;
            }
            let n: usize = 12 + dl as usize;
            if n > count {
                return false;
            }
            proof {
                assert(rest.skip(n as int) =~= s@.skip(pos + n));
            }
            pos = pos + n;
            count = count - n;
        }
        true
    }
}

/// The chunks of a PNG file, in file order.
#[derive(Debug)]
pub struct PNGChunks {
    state: Vec<Chunk>,
}

/// The views of a sequence of chunks.
pub open spec fn chunk_views(v: Seq<Chunk>) -> Seq<ChunkV> {
    v.map_values(|c: Chunk| c@)
}

impl View for PNGChunks {
    type V = Seq<ChunkV>;

    closed spec fn view(&self) -> Seq<ChunkV> {
        chunk_views(self.state@)
    }
}

impl PNGChunks {
    /// Reads the chunks that fill a PNG file after its signature.
    pub fn from_raw(raw: RawPNG) -> (r: Self)
        requires
            parse_chunks(raw@.stream, raw@.len) is Some,
        ensures
            r@ == parse_chunks(raw@.stream, raw@.len).unwrap(),
    {
        let ghost s0 = raw@.stream;
        let ghost c0 = raw@.len;
        let mut len = raw.len();
        let mut iter = raw.into_iter();
        let mut chunks: Vec<Chunk> = Vec::new();
        while len > 0
            invariant
                parse_chunks(iter@, len as nat) is Some,
                parse_chunks(s0, c0) == Some(
                    chunk_views(chunks@) + parse_chunks(iter@, len as nat).unwrap(),
                ),
            decreases len,
        {
            let ghost before = iter@;
            let ghost old_len = len;
            let c = Chunk::from_iter(&mut iter, &mut len);
            proof {
                let n = chunk_size(before);
                assert(iter@ == before.skip(n as int));
                let rest = parse_chunks(iter@, len as nat).unwrap();
                assert(parse_chunks(before, old_len as nat).unwrap() == seq![c@] + rest);
            }
            let ghost prev = chunks@;
            chunks.push(c);
            proof {
                assert(chunk_views(chunks@) =~= chunk_views(prev).push(c@));
                assert(chunk_views(prev) + (seq![c@] + parse_chunks(iter@, len as nat).unwrap())
                    =~= chunk_views(chunks@) + parse_chunks(iter@, len as nat).unwrap());
            }
        }
        proof {
            assert(chunk_views(chunks@) + Seq::<ChunkV>::empty() =~= chunk_views(chunks@));
        }
        Self { state: chunks }
    }

    pub fn len(&self) -> (r: usize)
        ensures
            r == self@.len(),
    {
        self.state.len()
    }

    pub fn chunks(&self) -> (r: &[Chunk])
        ensures
            chunk_views(r@) == self@,
    {
        self.state.as_slice()
    }

    pub fn into_chunks(self) -> (r: Vec<Chunk>)
        ensures
            chunk_views(r@) == self@,
    {
        self.state
    }

    /// Removes and returns the last chunk.
    pub fn pop(&mut self) -> (r: Chunk)
        requires
            old(self)@.len() > 0,
        ensures
            r@ == old(self)@.last(),
            final(self)@ == old(self)@.drop_last(),
    {
        let r = self.state.pop().unwrap();
        proof {
            assert(chunk_views(self.state@) =~= chunk_views(old(self).state@).drop_last());
        }
        r
    }

    /// The type of each chunk, each octet read as a character.
    pub fn names(&self) -> (r: Vec<String>)
        ensures
            r@.len() == self@.len(),
            forall|i: int| 0 <= i < r@.len() ==> #[trigger] r@[i]@ == bytes_as_chars(self@[i].type_),
    {
        let mut out: Vec<String> = Vec::new();
        let mut i: usize = 0;
        while i < self.state.len()
            invariant
                0 <= i <= self.state@.len(),
                out@.len() == i,
                forall|j: int| 0 <= j < i ==> #[trigger] out@[j]@ == bytes_as_chars(self@[j].type_),
            decreases self.state@.len() - i,
        {
            out.push(self.state[i].type_string());
            i = i + 1;
        }
        out
    }

    /// For each chunk, its type, a comma and a space, and its number of data
    /// octets in decimal.
    pub fn datas(&self) -> (r: Vec<String>)
        ensures
            r@.len() == self@.len(),
            forall|i: int|
                0 <= i < r@.len() ==> #[trigger] r@[i]@ == bytes_as_chars(self@[i].type_) + seq![
                    ',',
                    ' ',
                ] + decimal(self@[i].data.len()),
    {
        let mut out: Vec<String> = Vec::new();
        let mut i: usize = 0;
        while i < self.state.len()
            invariant
                0 <= i <= self.state@.len(),
                out@.len() == i,
                forall|j: int|
                    0 <= j < i ==> #[trigger] out@[j]@ == bytes_as_chars(self@[j].type_) + seq![
                        ',',
                        ' ',
                    ] + decimal(self@[j].data.len()),
            decreases self.state@.len() - i,
        {
            let chunk = &self.state[i];
            let mut s = chunk.type_string();
            string_push(&mut s, ',');
            string_push(&mut s, ' ');
            push_decimal(&mut s, chunk.data().len());
            proof {
                assert(s@ =~= bytes_as_chars(self@[i as int].type_) + seq![',', ' '] + decimal(
                    self@[i as int].data.len(),
                ));
            }
            out.push(s);
            i = i + 1;
        }
        out
    }
}

// ---------------------------------------------------------------------------
// The decoded image description
// ---------------------------------------------------------------------------

/// The type octets of a PLTE chunk.
pub open spec fn tag_plte() -> Seq<u8> {
    seq![80u8, 76u8, 84u8, 69u8]
}

/// The type octets of a bKGD chunk.
pub open spec fn tag_bkgd() -> Seq<u8> {
    seq![98u8, 75u8, 71u8, 68u8]
}

/// The type octets of a cHRM chunk.
pub open spec fn tag_chrm() -> Seq<u8> {
    seq![99u8, 72u8, 82u8, 77u8]
}

/// The type octets of a gAMA chunk.
pub open spec fn tag_gama() -> Seq<u8> {
    seq![103u8, 65u8, 77u8, 65u8]
}

/// The type octets of a hIST chunk.
pub open spec fn tag_hist() -> Seq<u8> {
    seq![104u8, 73u8, 83u8, 84u8]
}

/// The type octets of a pHYs chunk.
pub open spec fn tag_phys() -> Seq<u8> {
    seq![112u8, 72u8, 89u8, 115u8]
}

/// The type octets of a sBIT chunk.
pub open spec fn tag_sbit() -> Seq<u8> {
    seq![115u8, 66u8, 73u8, 84u8]
}

/// The type octets of a tEXt chunk.
pub open spec fn tag_text() -> Seq<u8> {
    seq![116u8, 69u8, 88u8, 116u8]
}

/// The type octets of a tIME chunk.
pub open spec fn tag_time() -> Seq<u8> {
    seq![116u8, 73u8, 77u8, 69u8]
}

/// The type octets of a tRNS chunk.
pub open spec fn tag_trns() -> Seq<u8> {
    seq![116u8, 82u8, 78u8, 83u8]
}

/// The type octets of a zTXT chunk.
pub open spec fn tag_ztxt() -> Seq<u8> {
    seq![122u8, 84u8, 88u8, 84u8]
}

/// The type octets of a IDAT chunk.
pub open spec fn tag_idat() -> Seq<u8> {
    seq![73u8, 68u8, 65u8, 84u8]
}

/// Whether the type octets `t` spell the four characters `a b c d`.
fn tag_is(t: &[u8; 4], a: u8, b: u8, c: u8, d: u8) -> (r: bool)
    ensures
        r == (t@ == seq![a, b, c, d]),
{
    let r = t[0] == a && t[1] == b && t[2] == c && t[3] == d;
    proof {
        if r {
            assert(t@ =~= seq![a, b, c, d]);
        }
        if t@ == seq![a, b, c, d] {
            assert(t@[3] == d);
        }
    }
    r
}

/// What a PNG image's chunks say, decoded.
pub struct PNGDataV {
    pub ihdr: IHDRV,
    pub plte: Option<Seq<u8>>,
    pub bkgd: Option<bkGD>,
    pub chrm: Option<CHRMV>,
    pub gama: Option<GAMAV>,
    pub hist: Option<Seq<u16>>,
    pub phys: Option<PHYSV>,
    pub sbit: Option<sBIT>,
    pub time: Option<TIMEV>,
    pub trns: Option<TrnsV>,
    pub text: Option<Seq<TextV>>,
    pub ztxt: Option<Seq<ZtxtV>>,
    pub idat: Seq<Seq<u8>>,
    pub iend: IEND,
}

/// The view of an optional value.
pub open spec fn opt_view<T: View>(o: Option<T>) -> Option<T::V> {
    match o {
        Some(x) => Some(x@),
        None => None,
    }
}

/// The views of the values of an optional list.
pub open spec fn opt_seq_view<T: View>(o: Option<Vec<T>>) -> Option<Seq<T::V>> {
    match o {
        Some(v) => Some(v@.map_values(|x: T| x@)),
        None => None,
    }
}

pub struct PNGData {
    ihdr: IHDR,
    plte: Option<PLTE>,
    bkgd: Option<bkGD>,
    chrm: Option<cHRM>,
    gama: Option<gAMA>,
    hist: Option<hIST>,
    phys: Option<pHYs>,
    sbit: Option<sBIT>,
    time: Option<tIME>,
    trns: Option<tRNS>,
    text: Option<Vec<tEXt>>,
    ztxt: Option<Vec<zTXT>>,
    idat: Vec<IDAT>,
    iend: IEND,
}

impl View for PNGData {
    type V = PNGDataV;

    closed spec fn view(&self) -> PNGDataV {
        PNGDataV {
            ihdr: self.ihdr@,
            plte: opt_view(self.plte),
            bkgd: opt_view(self.bkgd),
            chrm: opt_view(self.chrm),
            gama: opt_view(self.gama),
            hist: opt_view(self.hist),
            phys: opt_view(self.phys),
            sbit: opt_view(self.sbit),
            time: opt_view(self.time),
            trns: opt_view(self.trns),
            text: opt_seq_view(self.text),
            ztxt: opt_seq_view(self.ztxt),
            idat: self.idat@.map_values(|i: IDAT| i@),
            iend: self.iend@,
        }
    }
}

/// The description right after the header is read: the header from the
/// first chunk, nothing else yet.
pub open spec fn png_init(first: ChunkV) -> PNGDataV {
    PNGDataV {
        ihdr: <IHDR as ChunkData>::spec_decode(first.data, None).unwrap(),
        plte: None,
        bkgd: None,
        chrm: None,
        gama: None,
        hist: None,
        phys: None,
        sbit: None,
        time: None,
        trns: None,
        text: None,
        ztxt: None,
        idat: Seq::empty(),
        iend: IEND {  },
    }
}

/// Whether a chunk between the header and the last chunk can be taken in
/// under color type `ct`: its type is one the description knows and its
/// data decodes. Text chunks are always taken (and then left out).
pub open spec fn chunk_accepted(c: ChunkV, ct: u8) -> bool {
    let t = c.type_;
    let d = c.data;
    if t == tag_plte() {
        <PLTE as ChunkData>::spec_decode(d, None) is Some
    } else if t == tag_bkgd() {
        <bkGD as ChunkData>::spec_decode(d, Some(ct)) is Some
    } else if t == tag_chrm() {
        <cHRM as ChunkData>::spec_decode(d, None) is Some
    } else if t == tag_gama() {
        <gAMA as ChunkData>::spec_decode(d, None) is Some
    } else if t == tag_hist() {
        <hIST as ChunkData>::spec_decode(d, None) is Some
    } else if t == tag_phys() {
        <pHYs as ChunkData>::spec_decode(d, None) is Some
    } else if t == tag_sbit() {
        <sBIT as ChunkData>::spec_decode(d, Some(ct)) is Some
    } else if t == tag_text() {
        true
    } else if t == tag_time() {
        <tIME as ChunkData>::spec_decode(d, None) is Some
    } else if t == tag_trns() {
        <tRNS as ChunkData>::spec_decode(d, Some(ct)) is Some
    } else if t == tag_ztxt() {
        true
    } else if t == tag_idat() {
        <IDAT as ChunkData>::spec_decode(d, None) is Some
    } else {
        false
    }
}

/// Takes one chunk into the description: an optional chunk replaces what
/// an earlier one of its type gave, an image data chunk is appended, and a
/// text chunk changes nothing.
pub open spec fn png_step(png: PNGDataV, c: ChunkV, ct: u8) -> PNGDataV {
    let t = c.type_;
    let d = c.data;
    if t == tag_plte() {
        PNGDataV { plte: <PLTE as ChunkData>::spec_decode(d, None), ..png }
    } else if t == tag_bkgd() {
        PNGDataV { bkgd: <bkGD as ChunkData>::spec_decode(d, Some(ct)), ..png }
    } else if t == tag_chrm() {
        PNGDataV { chrm: <cHRM as ChunkData>::spec_decode(d, None), ..png }
    } else if t == tag_gama() {
        PNGDataV { gama: <gAMA as ChunkData>::spec_decode(d, None), ..png }
    } else if t == tag_hist() {
        PNGDataV { hist: <hIST as ChunkData>::spec_decode(d, None), ..png }
    } else if t == tag_phys() {
        PNGDataV { phys: <pHYs as ChunkData>::spec_decode(d, None), ..png }
    } else if t == tag_sbit() {
        PNGDataV { sbit: <sBIT as ChunkData>::spec_decode(d, Some(ct)), ..png }
    } else if t == tag_time() {
        PNGDataV { time: <tIME as ChunkData>::spec_decode(d, None), ..png }
    } else if t == tag_trns() {
        PNGDataV { trns: <tRNS as ChunkData>::spec_decode(d, Some(ct)), ..png }
    } else if t == tag_idat() {
        PNGDataV { idat: png.idat.push(<IDAT as ChunkData>::spec_decode(d, None).unwrap()), ..png }
    } else {
        png
    }
}

/// Takes the chunks `cs` into the description, in order.
pub open spec fn png_fold(png: PNGDataV, cs: Seq<ChunkV>, ct: u8) -> PNGDataV
    decreases cs.len(),
{
    if cs.len() == 0 {
        png
    } else {
        png_step(png_fold(png, cs.drop_last(), ct), cs.last(), ct)
    }
}

/// The color type that the header chunk `first` declares.
pub open spec fn header_color_type(first: ChunkV) -> u8 {
    <IHDR as ChunkData>::spec_decode(first.data, None).unwrap().color_type
}

/// The chunks between the first and the last.
pub open spec fn middle(cs: Seq<ChunkV>) -> Seq<ChunkV> {
    cs.subrange(1, cs.len() - 1)
}

/// Whether `PNGData::new` can describe `cs`: at least two chunks, a first
/// chunk whose data holds a header, and every chunk in between accepted.
pub open spec fn png_accepts(cs: Seq<ChunkV>) -> bool {
    &&& cs.len() >= 2
    &&& <IHDR as ChunkData>::spec_decode(cs[0].data, None) is Some
    &&& forall|i: int|
        1 <= i < cs.len() - 1 ==> #[trigger] chunk_accepted(cs[i], header_color_type(cs[0]))
}

/// The description of `cs`: the header from the first chunk, the trailer
/// standing for the last, and the chunks in between taken in order.
pub open spec fn png_new(cs: Seq<ChunkV>) -> PNGDataV {
    png_fold(png_init(cs[0]), middle(cs), header_color_type(cs[0]))
}

impl PNGData {
    fn with_ihdr_iend(ihdr: Chunk, iend: Chunk) -> (r: Self)
        requires
            <IHDR as ChunkData>::spec_decode(ihdr@.data, None) is Some,
        ensures
            r@ == png_init(ihdr@),
            r.text is None,
            r.ztxt is None,
    {
        let r = Self {
            ihdr: ihdr.chunk_data::<IHDR>(None).unwrap(),
            iend: iend.chunk_data::<IEND>(None).unwrap(),
            idat: Vec::new(),
            plte: None,
            bkgd: None,
            chrm: None,
            gama: None,
            hist: None,
            phys: None,
            sbit: None,
            text: None,
            time: None,
            trns: None,
            ztxt: None,
        };
        assert(r@.idat =~= Seq::<Seq<u8>>::empty());
        r
    }

    /// The color type that the header declares.
    fn ct(&self) -> (r: u8)
        ensures
            r == self@.ihdr.color_type,
    {
        self.ihdr.color_type()
    }

    /// Whether `new` can describe these chunks.
    pub fn accepts(chunks: &PNGChunks) -> (r: bool)
        ensures
            r == png_accepts(chunks@),
    {
        let cs = chunks.chunks();
        let n = cs.len();
        if n < 2 {
            return false;
        }
        if !<IHDR as ChunkData>::can_decode(cs[0].data(), None) {
            return false;
        }
        let ct = cs[0].data()[9];
        let mut i: usize = 1;
        while i < n - 1
            invariant
                1 <= i <= n - 1,
                n == chunks@.len(),
                n >= 2,
                chunk_views(cs@) == chunks@,
                <IHDR as ChunkData>::spec_decode(chunks@[0].data, None) is Some,
                ct == header_color_type(chunks@[0]),
                forall|j: int| 1 <= j < i ==> #[trigger] chunk_accepted(chunks@[j], ct),
            decreases n - 1 - i,
        {
            let c = &cs[i];
            let t = c.ty();
            let d = c.data();
            let ok = if tag_is(&t, 80, 76, 84, 69) {  // PLTE
                <PLTE as ChunkData>::can_decode(d, None)
            } else if tag_is(&t, 98, 75, 71, 68) {  // bKGD
                <bkGD as ChunkData>::can_decode(d, Some(ct))
            } else if tag_is(&t, 99, 72, 82, 77) {  // cHRM
                <cHRM as ChunkData>::can_decode(d, None)
            } else if tag_is(&t, 103, 65, 77, 65) {  // gAMA
                <gAMA as ChunkData>::can_decode(d, None)
            } else if tag_is(&t, 104, 73, 83, 84) {  // hIST
                <hIST as ChunkData>::can_decode(d, None)
            } else if tag_is(&t, 112, 72, 89, 115) {  // pHYs
                <pHYs as ChunkData>::can_decode(d, None)
            } else if tag_is(&t, 115, 66, 73, 84) {  // sBIT
                <sBIT as ChunkData>::can_decode(d, Some(ct))
            } else if tag_is(&t, 116, 69, 88, 116) {  // tEXt
                true
            } else if tag_is(&t, 116, 73, 77, 69) {  // tIME
                <tIME as ChunkData>::can_decode(d, None)
            } else if tag_is(&t, 116, 82, 78, 83) {  // tRNS
                <tRNS as ChunkData>::can_decode(d, Some(ct))
            } else if tag_is(&t, 122, 84, 88, 84) {  // zTXT
                true
            } else if tag_is(&t, 73, 68, 65, 84) {  // IDAT
                <IDAT as ChunkData>::can_decode(d, None)
            } else {
                false
            };
            proof {
                assert(chunks@[i as int] == cs@[i as int]@);
            }
            assert(ok == chunk_accepted(chunks@[i as int], ct));
            if !ok {
                return false;
            }
            i = i + 1;
        }
        true
    }

    /// Describes a PNG image from its chunks: the header from the first,
    /// the trailer from the last, and each chunk in between by its type.
    pub fn new(chunks: PNGChunks) -> (r: Self)
        requires
            png_accepts(chunks@),
        ensures
            r@ == png_new(chunks@),
    {
        let ghost cs = chunks@;
        let mut chunks = chunks.into_chunks();
        let first = chunks.remove(0);
        let last = chunks.pop().unwrap();
        proof {
            assert(first@ == cs[0]);
            assert(chunk_views(chunks@) =~= middle(cs));
        }
        let mut png = Self::with_ihdr_iend(first, last);
        let ct = png.ct();
        let ghost init = png@;
        let ghost mid = middle(cs);
        let mut i: usize = 0;
        while i < chunks.len()
            invariant
                0 <= i <= chunks@.len(),
                chunk_views(chunks@) == mid,
                mid == middle(cs),
                png_accepts(cs),
                ct == header_color_type(cs[0]),
                init == png_init(cs[0]),
                png@ == png_fold(init, mid.take(i as int), ct),
                png.text is None,
                png.ztxt is None,
            decreases chunks@.len() - i,
        {
            let c = &chunks[i];
            proof {
                assert(mid.len() == chunks@.len());
                assert(c@ == mid[i as int]);
                assert(mid[i as int] == cs[i + 1]);
                assert(chunk_accepted(cs[i + 1], ct));
                assert(mid.take(i + 1).drop_last() =~= mid.take(i as int));
            }
            let ghost before = png@;
            let t = c.ty();
            if tag_is(&t, 80, 76, 84, 69) {  // PLTE
                png.plte = c.chunk_data::<PLTE>(None).ok();
            } else if tag_is(&t, 98, 75, 71, 68) {  // bKGD
                png.bkgd = c.chunk_data::<bkGD>(Some(ct)).ok();
            } else if tag_is(&t, 99, 72, 82, 77) {  // cHRM
                png.chrm = c.chunk_data::<cHRM>(None).ok();
            } else if tag_is(&t, 103, 65, 77, 65) {  // gAMA
                png.gama = c.chunk_data::<gAMA>(None).ok();
            } else if tag_is(&t, 104, 73, 83, 84) {  // hIST
                png.hist = c.chunk_data::<hIST>(None).ok();
            } else if tag_is(&t, 112, 72, 89, 115) {  // pHYs
                png.phys = c.chunk_data::<pHYs>(None).ok();
            } else if tag_is(&t, 115, 66, 73, 84) {  // sBIT
                png.sbit = c.chunk_data::<sBIT>(Some(ct)).ok();
            } else if tag_is(&t, 116, 69, 88, 116) {  // tEXt
                // The text list is never created, so nothing is pushed.
                if let Some(v) = &mut png.text {
                    v.push(c.chunk_data::<tEXt>(Some(ct)).unwrap());
                }
            } else if tag_is(&t, 116, 73, 77, 69) {  // tIME
                png.time = c.chunk_data::<tIME>(None).ok();
            } else if tag_is(&t, 116, 82, 78, 83) {  // tRNS
                png.trns = c.chunk_data::<tRNS>(Some(ct)).ok();
            } else if tag_is(&t, 122, 84, 88, 84) {  // zTXT
                // The compressed text list is never created either.
                if let Some(v) = &mut png.ztxt {
                    v.push(c.chunk_data::<zTXT>(None).unwrap());
                }
            } else {
                let ghost old_idat = png.idat@;
                png.idat.push(c.chunk_data::<IDAT>(None).unwrap());
                proof {
                    assert(png.idat@.map_values(|x: IDAT| x@) =~= old_idat.map_values(
                        |x: IDAT| x@,
                    ).push(<IDAT as ChunkData>::spec_decode(c@.data, None).unwrap()));
                }
            }
            proof {
                assert(png@ =~= png_step(before, c@, ct));
            }
            i = i + 1;
        }
        proof {
            assert(mid.take(i as int) =~= mid);
        }
        png
    }
}

/// Sizes of the image data chunks of a description.
#[derive(Debug)]
pub struct IdatStats {
    /// How many image data chunks there are.
    pub len: usize,
    /// The largest data size.
    pub max: usize,
    /// The smallest data size.
    pub min: usize,
    /// Whether the smallest size is that of the last chunk.
    pub min_is_last: bool,
    /// The sizes in order, each run of equal neighbours kept once.
    pub unique: Vec<usize>,
}

/// The data size of each image data chunk, in order.
pub open spec fn idat_lengths(png: PNGDataV) -> Seq<usize> {
    png.idat.map_values(|d: Seq<u8>| d.len() as usize)
}

/// `s` with each run of equal neighbours kept once.
pub open spec fn dedup(s: Seq<usize>) -> Seq<usize>
    decreases s.len(),
{
    if s.len() == 0 {
        s
    } else {
        let r = dedup(s.drop_last());
        if r.len() > 0 && r.last() == s.last() {
            r
        } else {
            r.push(s.last())
        }
    }
}

/// `m` is the largest element of `s`.
pub open spec fn is_max(s: Seq<usize>, m: usize) -> bool {
    &&& exists|j: int| 0 <= j < s.len() && s[j] == m
    &&& forall|k: int| 0 <= k < s.len() ==> s[k] <= m
}

/// `m` is the smallest element of `s`.
pub open spec fn is_min(s: Seq<usize>, m: usize) -> bool {
    &&& exists|j: int| 0 <= j < s.len() && s[j] == m
    &&& forall|k: int| 0 <= k < s.len() ==> m <= s[k]
}



/// Whether no two neighbours in `s` are equal.
pub open spec fn no_equal_neighbours(s: Seq<usize>) -> bool {
    forall|i: int| 0 < i < s.len() ==> #[trigger] s[i] != s[i - 1]
}

/// Keeping each run of equal neighbours once leaves no two equal
/// neighbours, keeps the first and the last element, never lengthens the
/// list, and leaves a list without equal neighbours as it is.
pub proof fn lemma_dedup(s: Seq<usize>)
    ensures
        no_equal_neighbours(dedup(s)),
        dedup(s).len() <= s.len(),
        s.len() > 0 ==> dedup(s).len() > 0 && dedup(s)[0] == s[0] && dedup(s).last() == s.last(),
        no_equal_neighbours(s) ==> dedup(s) == s,
    decreases s.len(),
{
    if s.len() > 0 {
        let p = s.drop_last();
        lemma_dedup(p);
        let r = dedup(p);
        if r.len() > 0 && r.last() == s.last() {
        } else {
            let q = r.push(s.last());
            assert forall|i: int| 0 < i < q.len() implies #[trigger] q[i] != q[i - 1] by {
                if i < q.len() - 1 {
                    assert(q[i] == r[i] && q[i - 1] == r[i - 1]);
                }
            }
            if p.len() > 0 {
                assert(q[0] == r[0]);
                assert(p[0] == s[0]);
            }
        }
        if no_equal_neighbours(s) {
            assert forall|i: int| 0 < i < p.len() implies #[trigger] p[i] != p[i - 1] by {
                assert(s[i] != s[i - 1]);
            }
            if p.len() > 0 {
                assert(s[s.len() - 1] != s[s.len() - 2]);
            }
            assert(dedup(s) =~= s);
        }
    }
}

/// The largest element of a non-empty `s`.
pub open spec fn seq_max(s: Seq<usize>) -> usize
    decreases s.len(),
{
    if s.len() <= 1 {
        s[0]
    } else {
        let m = seq_max(s.drop_last());
        if s.last() > m {
            s.last()
        } else {
            m
        }
    }
}

/// The smallest element of a non-empty `s`.
pub open spec fn seq_min(s: Seq<usize>) -> usize
    decreases s.len(),
{
    if s.len() <= 1 {
        s[0]
    } else {
        let m = seq_min(s.drop_last());
        if s.last() < m {
            s.last()
        } else {
            m
        }
    }
}

/// The largest element is in the list, no element exceeds it, and it is the
/// only such value.
pub proof fn lemma_seq_max(s: Seq<usize>)
    requires
        s.len() > 0,
    ensures
        is_max(s, seq_max(s)),
        forall|m: usize| is_max(s, m) ==> m == seq_max(s),
    decreases s.len(),
{
    if s.len() > 1 {
        lemma_seq_max(s.drop_last());
        let p = s.drop_last();
        let j = choose|j: int| 0 <= j < p.len() && p[j] == seq_max(p);
        assert(s[j] == p[j]);
        assert forall|k: int| 0 <= k < s.len() implies s[k] <= seq_max(s) by {
            if k < s.len() - 1 {
                assert(s[k] == p[k]);
            }
        }
        if s.last() > seq_max(p) {
            assert(s[s.len() - 1] == seq_max(s));
        }
    } else {
        assert(s[0] == seq_max(s));
    }
    assert forall|m: usize| is_max(s, m) implies m == seq_max(s) by {
        let j = choose|j: int| 0 <= j < s.len() && s[j] == m;
        let k = choose|k: int| 0 <= k < s.len() && s[k] == seq_max(s);
    }
}

/// The smallest element is in the list, no element is below it, and it is
/// the only such value.
pub proof fn lemma_seq_min(s: Seq<usize>)
    requires
        s.len() > 0,
    ensures
        is_min(s, seq_min(s)),
        forall|m: usize| is_min(s, m) ==> m == seq_min(s),
    decreases s.len(),
{
    if s.len() > 1 {
        lemma_seq_min(s.drop_last());
        let p = s.drop_last();
        let j = choose|j: int| 0 <= j < p.len() && p[j] == seq_min(p);
        assert(s[j] == p[j]);
        assert forall|k: int| 0 <= k < s.len() implies seq_min(s) <= s[k] by {
            if k < s.len() - 1 {
                assert(s[k] == p[k]);
            }
        }
        if s.last() < seq_min(p) {
            assert(s[s.len() - 1] == seq_min(s));
        }
    } else {
        assert(s[0] == seq_min(s));
    }
    assert forall|m: usize| is_min(s, m) implies m == seq_min(s) by {
        let j = choose|j: int| 0 <= j < s.len() && s[j] == m;
        let k = choose|k: int| 0 <= k < s.len() && s[k] == seq_min(s);
    }
}

/// The numbers of `s` in decimal, separated by a comma and a space.
pub open spec fn list_items(s: Seq<usize>) -> Seq<char>
    decreases s.len(),
{
    if s.len() == 0 {
        Seq::empty()
    } else if s.len() == 1 {
        decimal(s[0] as nat)
    } else {
        list_items(s.drop_last()) + seq![',', ' '] + decimal(s.last() as nat)
    }
}

/// A list of sizes as `{:?}` writes a `Vec<usize>`: `[a, b, c]`.
pub open spec fn debug_list(s: Seq<usize>) -> Seq<char> {
    seq!['['] + list_items(s) + seq![']']
}

/// The text of the image data sizes: the count, the largest size, the
/// smallest size (marked `(last)` when it is the last chunk's), and the runs.
pub open spec fn stats_text(len: usize, max: usize, min: usize, min_is_last: bool, unique: Seq<usize>) -> Seq<char> {
    "\n   len: "@ + decimal(len as nat) + ",\n   max: "@ + decimal(max as nat) + "\n   min"@ + (
    if min_is_last {
        "(last)"@
    } else {
        Seq::empty()
    }) + ": "@ + decimal(min as nat) + "\n   unq: "@ + debug_list(unique) + "\n"@
}

/// The text of the image data sizes of `png`.
pub open spec fn idat_stats_text(png: PNGDataV) -> Seq<char> {
    let l = idat_lengths(png);
    stats_text(l.len() as usize, seq_max(l), seq_min(l), seq_min(l) == l.last(), dedup(l))
}

/// Appends a list of sizes as `{:?}` writes it.
pub fn push_debug_list(s: &mut String, v: &Vec<usize>)
    ensures
        final(s)@ == old(s)@ + debug_list(v@),
{
    string_push(s, '[');
    let mut i: usize = 0;
    while i < v.len()
        invariant
            0 <= i <= v@.len(),
            s@ =~= old(s)@ + seq!['['] + list_items(v@.take(i as int)),
        decreases v@.len() - i,
    {
        let ghost before = s@;
        if i > 0 {
            string_push(s, ',');
            string_push(s, ' ');
        }
        push_decimal(s, v[i]);
        proof {
            assert(v@.take(i + 1).drop_last() =~= v@.take(i as int));
            if i == 0 {
                assert(list_items(v@.take(0)) =~= Seq::<char>::empty());
            }
        }
        i = i + 1;
    }
    string_push(s, ']');
    assert(v@.take(i as int) =~= v@);
}

impl PNGData {
    /// The count, the largest and smallest size, and the runs of sizes of
    /// the image data chunks, as numbers. There must be at least one.
    pub fn idat_size_stats(&self) -> (r: IdatStats)
        requires
            self@.idat.len() > 0,
        ensures
            r.len == idat_lengths(self@).len(),
            is_max(idat_lengths(self@), r.max),
            is_min(idat_lengths(self@), r.min),
            r.min_is_last == (r.min == idat_lengths(self@).last()),
            r.unique@ == dedup(idat_lengths(self@)),
    {
        let ghost lens = idat_lengths(self@);
        let n = self.idat.len();
        let first = self.idat[0].len();
        let mut max = first;
        let mut min = first;
        let mut unique: Vec<usize> = Vec::new();
        unique.push(first);
        proof {
            assert(lens[0] == first);
            assert(lens.take(1).drop_last() =~= Seq::<usize>::empty());
            reveal_with_fuel(dedup, 2);
            assert(dedup(lens.take(1)) =~= seq![first]);
        }
        let mut i: usize = 1;
        while i < n
            invariant
                1 <= i <= n,
                n == lens.len(),
                lens == idat_lengths(self@),
                self@.idat == self.idat@.map_values(|x: IDAT| x@),
                exists|j: int| 0 <= j < i && lens[j] == max,
                forall|k: int| 0 <= k < i ==> lens[k] <= max,
                exists|j: int| 0 <= j < i && lens[j] == min,
                forall|k: int| 0 <= k < i ==> min <= lens[k],
                unique@ == dedup(lens.take(i as int)),
                unique@.len() > 0,
                unique@.last() == lens[i - 1],
            decreases n - i,
        {
            let l = self.idat[i].len();
            assert(l == lens[i as int]);
            if l > max {
                max = l;
            }
            if l < min {
                min = l;
            }
            let prev = unique[unique.len() - 1];
            proof {
                assert(lens.take(i + 1).drop_last() =~= lens.take(i as int));
            }
            if prev != l {
                unique.push(l);
            }
            i = i + 1;
        }
        proof {
            assert(lens.take(n as int) =~= lens);
        }
        let min_is_last = min == self.idat[n - 1].len();
        IdatStats { len: n, max, min, min_is_last, unique }
    }

    /// The sizes of the image data chunks as text: the count, the largest
    /// size, the smallest size (marked `(last)` when it is the last chunk's)
    /// and the sizes with runs of equal neighbours kept once. There must be
    /// at least one image data chunk.
    pub fn idat_stats(&self) -> (r: String)
        requires
            self@.idat.len() > 0,
        ensures
            r@ == idat_stats_text(self@),
    {
        let st = self.idat_size_stats();
        proof {
            lemma_seq_max(idat_lengths(self@));
            lemma_seq_min(idat_lengths(self@));
            assert(is_max(idat_lengths(self@), st.max));
            assert(is_min(idat_lengths(self@), st.min));
            assert(st.max == seq_max(idat_lengths(self@)));
            assert(st.min == seq_min(idat_lengths(self@)));
        }
        let mut s = String::new();
        proof {
            reveal_strlit("\n   len: ");
            reveal_strlit(",\n   max: ");
            reveal_strlit("\n   min");
            reveal_strlit("(last)");
            reveal_strlit(": ");
            reveal_strlit("\n   unq: ");
            reveal_strlit("\n");
        }
        push_ascii(&mut s, "\n   len: ");
        assert(s@ =~= "\n   len: "@);
        push_decimal(&mut s, st.len);
        push_ascii(&mut s, ",\n   max: ");
        push_decimal(&mut s, st.max);
        push_ascii(&mut s, "\n   min");
        let ghost mid = s@;
        if st.min_is_last {
            push_ascii(&mut s, "(last)");
        }
        assert(s@ =~= mid + (if st.min_is_last { "(last)"@ } else { Seq::<char>::empty() }));
        push_ascii(&mut s, ": ");
        push_decimal(&mut s, st.min);
        push_ascii(&mut s, "\n   unq: ");
        push_debug_list(&mut s, &st.unique);
        push_ascii(&mut s, "\n");
        proof {
            assert(s@ =~= idat_stats_text(self@));
        }
        s
    }

    /// The image data chunks, in order.
    pub fn data(&self) -> (r: &[IDAT])
        ensures
            r@.map_values(|x: IDAT| x@) == self@.idat,
    {
        self.idat.as_slice()
    }

    pub fn ihdr(&self) -> (r: &IHDR)
        ensures
            r@ == self@.ihdr,
    {
        &self.ihdr
    }

    pub fn plte(&self) -> (r: &Option<PLTE>)
        ensures
            opt_view(*r) == self@.plte,
    {
        &self.plte
    }

    pub fn bkgd(&self) -> (r: &Option<bkGD>)
        ensures
            opt_view(*r) == self@.bkgd,
    {
        &self.bkgd
    }

    pub fn chrm(&self) -> (r: &Option<cHRM>)
        ensures
            opt_view(*r) == self@.chrm,
    {
        &self.chrm
    }

    pub fn gama(&self) -> (r: &Option<gAMA>)
        ensures
            opt_view(*r) == self@.gama,
    {
        &self.gama
    }

    pub fn hist(&self) -> (r: &Option<hIST>)
        ensures
            opt_view(*r) == self@.hist,
    {
        &self.hist
    }

    pub fn phys(&self) -> (r: &Option<pHYs>)
        ensures
            opt_view(*r) == self@.phys,
    {
        &self.phys
    }

    pub fn sbit(&self) -> (r: &Option<sBIT>)
        ensures
            opt_view(*r) == self@.sbit,
    {
        &self.sbit
    }

    pub fn time(&self) -> (r: &Option<tIME>)
        ensures
            opt_view(*r) == self@.time,
    {
        &self.time
    }

    pub fn trns(&self) -> (r: &Option<tRNS>)
        ensures
            opt_view(*r) == self@.trns,
    {
        &self.trns
    }

    pub fn text(&self) -> (r: &Option<Vec<tEXt>>)
        ensures
            opt_seq_view(*r) == self@.text,
    {
        &self.text
    }

    pub fn ztxt(&self) -> (r: &Option<Vec<zTXT>>)
        ensures
            opt_seq_view(*r) == self@.ztxt,
    {
        &self.ztxt
    }

    pub fn iend(&self) -> (r: &IEND)
        ensures
            r@ == self@.iend,
    {
        &self.iend
    }
}

// ---------------------------------------------------------------------------
// What `PNGData::new` keeps
// ---------------------------------------------------------------------------

/// The data of the image data chunks among `cs`, in order.
pub open spec fn idat_payloads(cs: Seq<ChunkV>) -> Seq<Seq<u8>>
    decreases cs.len(),
{
    if cs.len() == 0 {
        Seq::empty()
    } else {
        let r = idat_payloads(cs.drop_last());
        if cs.last().type_ == tag_idat() {
            r.push(cs.last().data)
        } else {
            r
        }
    }
}

/// The last chunk of type `t` among `cs`, if any.
pub open spec fn last_with_type(cs: Seq<ChunkV>, t: Seq<u8>) -> Option<ChunkV>
    decreases cs.len(),
{
    if cs.len() == 0 {
        None
    } else if cs.last().type_ == t {
        Some(cs.last())
    } else {
        last_with_type(cs.drop_last(), t)
    }
}

/// The decoding of the last chunk of type `t` among `cs`; `None` without one.
pub open spec fn decode_last<T: ChunkData>(cs: Seq<ChunkV>, t: Seq<u8>, ct: Option<u8>) -> Option<T::V> {
    match last_with_type(cs, t) {
        None => None,
        Some(c) => T::spec_decode(c.data, ct),
    }
}

/// The description that a header and the chunks `cs` after it give.
pub open spec fn png_summary(ihdr: IHDRV, cs: Seq<ChunkV>, ct: u8) -> PNGDataV {
    PNGDataV {
        ihdr,
        plte: decode_last::<PLTE>(cs, tag_plte(), None),
        bkgd: decode_last::<bkGD>(cs, tag_bkgd(), Some(ct)),
        chrm: decode_last::<cHRM>(cs, tag_chrm(), None),
        gama: decode_last::<gAMA>(cs, tag_gama(), None),
        hist: decode_last::<hIST>(cs, tag_hist(), None),
        phys: decode_last::<pHYs>(cs, tag_phys(), None),
        sbit: decode_last::<sBIT>(cs, tag_sbit(), Some(ct)),
        time: decode_last::<tIME>(cs, tag_time(), None),
        trns: decode_last::<tRNS>(cs, tag_trns(), Some(ct)),
        text: None,
        ztxt: None,
        idat: idat_payloads(cs),
        iend: IEND {  },
    }
}

proof fn lemma_tag_octets()
    ensures
        tag_plte()[0] == 80u8,
        tag_bkgd()[0] == 98u8,
        tag_chrm()[0] == 99u8,
        tag_gama()[0] == 103u8,
        tag_hist()[0] == 104u8,
        tag_phys()[0] == 112u8,
        tag_sbit()[0] == 115u8,
        tag_text()[0] == 116u8 && tag_text()[1] == 69u8,
        tag_time()[0] == 116u8 && tag_time()[1] == 73u8,
        tag_trns()[0] == 116u8 && tag_trns()[1] == 82u8,
        tag_ztxt()[0] == 122u8,
        tag_idat()[0] == 73u8,
{
}

proof fn lemma_fold_summary(ihdr: IHDRV, cs: Seq<ChunkV>, ct: u8)
    ensures
        png_fold(png_summary(ihdr, Seq::empty(), ct), cs, ct) == png_summary(ihdr, cs, ct),
    decreases cs.len(),
{
    if cs.len() == 0 {
    } else {
        lemma_fold_summary(ihdr, cs.drop_last(), ct);
        lemma_tag_octets();
        let prev = png_summary(ihdr, cs.drop_last(), ct);
        let c = cs.last();
        let t = c.type_;
        assert(png_step(prev, c, ct) =~= png_summary(ihdr, cs, ct)) by {
            if t == tag_plte() || t == tag_bkgd() || t == tag_chrm() || t == tag_gama() || t
                == tag_hist() || t == tag_phys() || t == tag_sbit() || t == tag_text() || t
                == tag_time() || t == tag_trns() || t == tag_ztxt() || t == tag_idat() {
                assert(t[0] == c.type_[0]);
            }
        }
    }
}

/// What `new` keeps of a PNG's chunks: the header decoded from the first
/// chunk; for each optional chunk type, the decoding of the last chunk of
/// that type between the first and the last chunk, or nothing without one
/// (a later chunk of a type replaces an earlier one); no text; the data of
/// the image data chunks in file order; and an empty trailer.
pub proof fn lemma_new_summary(cs: Seq<ChunkV>)
    requires
        png_accepts(cs),
    ensures
        png_new(cs) == png_summary(
            <IHDR as ChunkData>::spec_decode(cs[0].data, None).unwrap(),
            middle(cs),
            header_color_type(cs[0]),
        ),
{
    let ihdr = <IHDR as ChunkData>::spec_decode(cs[0].data, None).unwrap();
    let ct = header_color_type(cs[0]);
    assert(png_init(cs[0]) =~= png_summary(ihdr, Seq::empty(), ct));
    lemma_fold_summary(ihdr, middle(cs), ct);
}

/// The image data stream of a PNG: what `concat` returns after `new` is the
/// data of the image data chunks between the first and the last chunk, laid
/// end to end in file order.
pub proof fn lemma_image_stream(cs: Seq<ChunkV>)
    requires
        png_accepts(cs),
    ensures
        png_new(cs).idat.flatten() == idat_payloads(middle(cs)).flatten(),
{
    lemma_new_summary(cs);
}


/// Which chunks between the header and the last chunk are taken in: any
/// palette, image data or text chunk; a gamma chunk of at least four octets;
/// chromaticities of at least 32; physical dimensions of at least 9; a time
/// of at least 7; a histogram of an even number of octets; and no chunk of
/// another type.
pub proof fn lemma_accepted_sizes(c: ChunkV, ct: u8)
    ensures
        c.type_ == tag_plte() ==> chunk_accepted(c, ct),
        c.type_ == tag_idat() ==> chunk_accepted(c, ct),
        c.type_ == tag_text() ==> chunk_accepted(c, ct),
        c.type_ == tag_ztxt() ==> chunk_accepted(c, ct),
        c.type_ == tag_gama() ==> (chunk_accepted(c, ct) <==> c.data.len() >= 4),
        c.type_ == tag_chrm() ==> (chunk_accepted(c, ct) <==> c.data.len() >= 32),
        c.type_ == tag_phys() ==> (chunk_accepted(c, ct) <==> c.data.len() >= 9),
        c.type_ == tag_time() ==> (chunk_accepted(c, ct) <==> c.data.len() >= 7),
        c.type_ == tag_hist() ==> (chunk_accepted(c, ct) <==> c.data.len() % 2 == 0),
        c.type_ != tag_plte() && c.type_ != tag_bkgd() && c.type_ != tag_chrm() && c.type_
            != tag_gama() && c.type_ != tag_hist() && c.type_ != tag_phys() && c.type_ != tag_sbit()
            && c.type_ != tag_text() && c.type_ != tag_time() && c.type_ != tag_trns() && c.type_
            != tag_ztxt() && c.type_ != tag_idat() ==> !chunk_accepted(c, ct),
{
    lemma_tag_octets();
    let t = c.type_;
    if t == tag_plte() || t == tag_bkgd() || t == tag_chrm() || t == tag_gama() || t == tag_hist()
        || t == tag_phys() || t == tag_sbit() || t == tag_text() || t == tag_time() || t
        == tag_trns() || t == tag_ztxt() || t == tag_idat() {
        assert(t[0] == c.type_[0]);
    }
    crate::data::lemma_gama_layout(GAMAV { image_gamma: 0 }, Seq::empty(), c.data, None);
    crate::data::lemma_chrm_layout(
        CHRMV {
            white_point_x: 0,
            white_point_y: 0,
            red_x: 0,
            red_y: 0,
            green_x: 0,
            green_y: 0,
            blue_x: 0,
            blue_y: 0,
        },
        Seq::empty(),
        c.data,
        None,
    );
    crate::data::lemma_phys_layout(PHYSV { x_ppu: 0, y_ppu: 0, unit_specifier: 0 }, Seq::empty(), c.data, None);
    crate::data::lemma_time_layout(
        TIMEV { year: 0, month: 0, day: 0, hour: 0, minute: 0, second: 0 },
        Seq::empty(),
        c.data,
        None,
    );
    crate::data::lemma_hist_layout(Seq::empty(), c.data, None);
}

} // verus!
