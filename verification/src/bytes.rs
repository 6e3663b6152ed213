//! Big-endian integers and a double-ended stream of octets.
use vstd::prelude::*;

verus! {

/// The unsigned integer that `s` spells in big-endian order (most significant octet first).
pub open spec fn be_uint(s: Seq<u8>) -> nat
    decreases s.len(),
{
    if s.len() == 0 {
        0
    } else {
        be_uint(s.drop_last()) * 256 + s.last() as nat
    }
}

/// 256 to the power `n`.
pub open spec fn pow256(n: nat) -> nat
    decreases n,
{
    if n == 0 {
        1
    } else {
        256 * pow256((n - 1) as nat)
    }
}

/// A big-endian number of `n` octets is below `256^n`.
pub proof fn lemma_be_uint_bound(s: Seq<u8>)
    ensures
        be_uint(s) < pow256(s.len()),
    decreases s.len(),
{
    if s.len() > 0 {
        lemma_be_uint_bound(s.drop_last());
        let p = pow256((s.len() - 1) as nat);
        let v = be_uint(s.drop_last());
        let b = s.last() as nat;
        assert(v * 256 + b < p * 256) by (nonlinear_arith)
            requires
                v < p,
                b < 256,
        ;
    }
}

/// Appending one octet shifts the number left by eight bits.
pub proof fn lemma_be_uint_take_step(s: Seq<u8>, i: int)
    requires
        0 <= i < s.len(),
    ensures
        be_uint(s.take(i + 1)) == be_uint(s.take(i)) * 256 + s[i],
{
    assert(s.take(i + 1).drop_last() =~= s.take(i));
}

proof fn lemma_shift_in_u16(m: u16, b: u8)
    requires
        m < 0x100,
    ensures
        (m << 8u16) | (b as u16) == m * 256 + b,
{
    assert(m < 0x100 ==> (m << 8u16) | (b as u16) == m * 256 + b) by (bit_vector);
}

proof fn lemma_shift_in_u32(m: u32, b: u8)
    requires
        m < 0x100_0000,
    ensures
        (m << 8u32) | (b as u32) == m * 256 + b,
{
    assert(m < 0x100_0000 ==> (m << 8u32) | (b as u32) == m * 256 + b) by (bit_vector);
}

proof fn lemma_shift_in_u64(m: u64, b: u8)
    requires
        m < 0x100_0000_0000_0000,
    ensures
        (m << 8u64) | (b as u64) == m * 256 + b,
{
    assert(m < 0x100_0000_0000_0000 ==> (m << 8u64) | (b as u64) == m * 256 + b)
        by (bit_vector);
}

/// Folds two octets, most significant first, into a `u16`.
pub fn be_u16_of(s: &[u8]) -> (r: u16)
    requires
        s@.len() == 2,
    ensures
        r == be_uint(s@),
{
    let mut mask: u16 = 0;
    let mut i: usize = 0;
    while i < 2
        invariant
            0 <= i <= 2,
            s@.len() == 2,
            mask == be_uint(s@.take(i as int)),
            mask < pow256(i as nat),
        decreases 2 - i,
    {
        proof {
            lemma_be_uint_take_step(s@, i as int);
            reveal_with_fuel(pow256, 3);
            lemma_shift_in_u16(mask, s@[i as int]);
            assert(mask * 256 + s@[i as int] < pow256((i + 1) as nat)) by (nonlinear_arith)
                requires
                    mask < pow256(i as nat),
                    s@[i as int] < 256,
                    pow256((i + 1) as nat) == 256 * pow256(i as nat),
            ;
        }
        mask = (mask << 8u16) | (s[i] as u16);
        i = i + 1;
    }
    assert(s@.take(2) =~= s@);
    mask
}

/// Folds four octets, most significant first, into a `u32`.
pub fn be_u32_of(s: &[u8]) -> (r: u32)
    requires
        s@.len() == 4,
    ensures
        r == be_uint(s@),
{
    let mut mask: u32 = 0;
    let mut i: usize = 0;
    while i < 4
        invariant
            0 <= i <= 4,
            s@.len() == 4,
            mask == be_uint(s@.take(i as int)),
            mask < pow256(i as nat),
        decreases 4 - i,
    {
        proof {
            lemma_be_uint_take_step(s@, i as int);
            reveal_with_fuel(pow256, 5);
            lemma_shift_in_u32(mask, s@[i as int]);
            assert(mask * 256 + s@[i as int] < pow256((i + 1) as nat)) by (nonlinear_arith)
                requires
                    mask < pow256(i as nat),
                    s@[i as int] < 256,
                    pow256((i + 1) as nat) == 256 * pow256(i as nat),
            ;
        }
        mask = (mask << 8u32) | (s[i] as u32);
        i = i + 1;
    }
    assert(s@.take(4) =~= s@);
    mask
}

/// Folds eight octets, most significant first, into a `u64`.
pub fn be_u64_of(s: &[u8]) -> (r: u64)
    requires
        s@.len() == 8,
    ensures
        r == be_uint(s@),
{
    let mut mask: u64 = 0;
    let mut i: usize = 0;
    while i < 8
        invariant
            0 <= i <= 8,
            s@.len() == 8,
            mask == be_uint(s@.take(i as int)),
            mask < pow256(i as nat),
        decreases 8 - i,
    {
        proof {
            lemma_be_uint_take_step(s@, i as int);
            reveal_with_fuel(pow256, 9);
            lemma_shift_in_u64(mask, s@[i as int]);
            assert(mask * 256 + s@[i as int] < pow256((i + 1) as nat)) by (nonlinear_arith)
                requires
                    mask < pow256(i as nat),
                    s@[i as int] < 256,
                    pow256((i + 1) as nat) == 256 * pow256(i as nat),
            ;
        }
        mask = (mask << 8u64) | (s[i] as u64);
        i = i + 1;
    }
    assert(s@.take(8) =~= s@);
    mask
}

/// The two octets of a 16-bit value, most significant first.
pub open spec fn u16_be_octets(v: u16) -> Seq<u8> {
    seq![(v >> 8u16) as u8, v as u8]
}

/// Two octets read big-endian give back the value they were written from.
pub proof fn lemma_u16_octets(v: u16)
    ensures
        u16_be_octets(v).len() == 2,
        be_uint(u16_be_octets(v)) == v,
{
    let s = u16_be_octets(v);
    assert(v as int == ((v >> 8u16) as u8) as int * 256 + (v as u8) as int) by (bit_vector);
    reveal_with_fuel(be_uint, 3);
    assert(s.drop_last() =~= seq![(v >> 8u16) as u8]);
    assert(s.drop_last().drop_last() =~= Seq::<u8>::empty());
}

/// Writing the value that two octets spell gives back those octets.
pub proof fn lemma_u16_octets_back(s: Seq<u8>)
    requires
        s.len() == 2,
    ensures
        be_uint(s) < 0x1_0000,
        u16_be_octets(be_uint(s) as u16) == s,
{
    let a = s[0];
    let b = s[1];
    reveal_with_fuel(be_uint, 3);
    assert(s.drop_last() =~= seq![a]);
    assert(s.drop_last().drop_last() =~= Seq::<u8>::empty());
    assert(be_uint(s) == a as int * 256 + b as int);
    assert((((a as int * 256 + b as int) as u16 >> 8u16) as u8) == a && (((a as int * 256 + b as int)
        as u16) as u8) == b) by (bit_vector);
    assert(u16_be_octets(be_uint(s) as u16) =~= s);
}

/// The four octets of a 32-bit value, most significant first.
pub open spec fn u32_be_octets(v: u32) -> Seq<u8> {
    seq![(v >> 24u32) as u8, (v >> 16u32) as u8, (v >> 8u32) as u8, v as u8]
}

/// Four octets read big-endian give back the value they were written from.
pub proof fn lemma_u32_octets(v: u32)
    ensures
        u32_be_octets(v).len() == 4,
        be_uint(u32_be_octets(v)) == v,
{
    let s = u32_be_octets(v);
    let a = (v >> 24u32) as u8;
    let b = (v >> 16u32) as u8;
    let c = (v >> 8u32) as u8;
    let d = v as u8;
    assert(v as int == ((v >> 24u32) as u8) as int * 16777216 + ((v >> 16u32) as u8) as int * 65536
        + ((v >> 8u32) as u8) as int * 256 + (v as u8) as int) by (bit_vector);
    reveal_with_fuel(be_uint, 5);
    assert(s.drop_last() =~= seq![a, b, c]);
    assert(s.drop_last().drop_last() =~= seq![a, b]);
    assert(s.drop_last().drop_last().drop_last() =~= seq![a]);
    assert(seq![a].drop_last() =~= Seq::<u8>::empty());
}

/// Writing the value that four octets spell gives back those octets.
pub proof fn lemma_u32_octets_back(s: Seq<u8>)
    requires
        s.len() == 4,
    ensures
        be_uint(s) < 0x1_0000_0000,
        u32_be_octets(be_uint(s) as u32) == s,
{
    let a = s[0];
    let b = s[1];
    let c = s[2];
    let d = s[3];
    reveal_with_fuel(be_uint, 5);
    assert(s.drop_last() =~= seq![a, b, c]);
    assert(s.drop_last().drop_last() =~= seq![a, b]);
    assert(s.drop_last().drop_last().drop_last() =~= seq![a]);
    assert(seq![a].drop_last() =~= Seq::<u8>::empty());
    assert(be_uint(s) == ((a as int * 256 + b as int) * 256 + c as int) * 256 + d as int);
    assert({
        let v = (((a as int * 256 + b as int) * 256 + c as int) * 256 + d as int) as u32;
        &&& (v >> 24u32) as u8 == a
        &&& (v >> 16u32) as u8 == b
        &&& (v >> 8u32) as u8 == c
        &&& v as u8 == d
    }) by (bit_vector);
    assert(u32_be_octets(be_uint(s) as u32) =~= s);
}

/// A stream of octets that can be read from the front and from the back,
/// the role a `DoubleEndedIterator<Item = u8>` plays for a PNG file or an
/// image data stream.
#[derive(Debug)]
pub struct ByteStream {
    bytes: Vec<u8>,
    front: usize,
    back: usize,
}

impl View for ByteStream {
    type V = Seq<u8>;

    /// The octets not read yet, in order.
    closed spec fn view(&self) -> Seq<u8> {
        self.bytes@.subrange(self.front as int, self.back as int)
    }
}

impl ByteStream {
    #[verifier::type_invariant]
    spec fn inv(self) -> bool {
        self.front <= self.back <= self.bytes@.len()
    }

    /// A stream over all of `bytes`.
    pub fn new(bytes: Vec<u8>) -> (r: ByteStream)
        ensures
            r@ == bytes@,
    {
        let back = bytes.len();
        let r = ByteStream { bytes, front: 0, back };
        assert(r@ =~= r.bytes@);
        r
    }

    /// A stream over a copy of `s`.
    pub fn from_slice(s: &[u8]) -> (r: ByteStream)
        ensures
            r@ == s@,
    {
        ByteStream::new(vstd::slice::slice_to_vec(s))
    }

    /// The number of octets left.
    pub fn len(&self) -> (r: usize)
        ensures
            r == self@.len(),
    {
        proof {
            use_type_invariant(self);
        }
        self.back - self.front
    }

    /// The octets left, as a slice.
    pub fn remaining(&self) -> (r: &[u8])
        ensures
            r@ == self@,
    {
        proof {
            use_type_invariant(self);
        }
        vstd::slice::slice_subrange(self.bytes.as_slice(), self.front, self.back)
    }

    /// Reads the first octet left, if any.
    pub fn next(&mut self) -> (r: Option<u8>)
        ensures
            old(self)@.len() == 0 ==> r is None && final(self)@ == old(self)@,
            old(self)@.len() > 0 ==> r == Some(old(self)@[0]) && final(self)@
                == old(self)@.drop_first(),
    {
        proof {
            use_type_invariant(&*self);
        }
        if self.front < self.back {
            let b = self.bytes[self.front];
            self.front = self.front + 1;
            assert(self@ =~= old(self)@.drop_first());
            Some(b)
        } else {
            None
        }
    }

    /// Reads the last octet left, if any.
    pub fn next_back(&mut self) -> (r: Option<u8>)
        ensures
            old(self)@.len() == 0 ==> r is None && final(self)@ == old(self)@,
            old(self)@.len() > 0 ==> r == Some(old(self)@.last()) && final(self)@
                == old(self)@.drop_last(),
    {
        proof {
            use_type_invariant(&*self);
        }
        if self.front < self.back {
            let b = self.bytes[self.back - 1];
            self.back = self.back - 1;
            assert(self@ =~= old(self)@.drop_last());
            Some(b)
        } else {
            None
        }
    }

    /// Collects the octets left into a vector.
    pub fn collect(self) -> (r: Vec<u8>)
        ensures
            r@ == self@,
    {
        proof {
            use_type_invariant(&self);
        }
        let mut out: Vec<u8> = Vec::new();
        let mut i = self.front;
        while i < self.back
            invariant
                self.front <= i <= self.back <= self.bytes@.len(),
                out@ =~= self.bytes@.subrange(self.front as int, i as int),
            decreases self.back - i,
        {
            out.push(self.bytes[i]);
            i = i + 1;
        }
        out
    }
}

} // verus!
