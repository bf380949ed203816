//! Bit buffers.
//!
//! The codec keeps every bit string (codes, the encoder's pending bits, the
//! decoder's accumulator) in a `bitvec::vec::BitVec<u8, Lsb0>`.  The bit vector
//! is opaque to the verifier: this module gives its contents a name and states,
//! for each operation the codec uses, what the `bitvec` crate does to them.
//! Everything in this file marked `external_body` is trusted, not proved.
use vstd::prelude::*;

verus! {

/// A growable string of bits, held in a `bitvec::vec::BitVec<u8, Lsb0>`.
#[verifier::external_body]
pub struct BitBuf {
    inner: bitvec::vec::BitVec<u8, bitvec::order::Lsb0>,
}

/// The bits a buffer holds, first bit first.
pub uninterp spec fn bits_of(v: BitBuf) -> Seq<bool>;

impl View for BitBuf {
    type V = Seq<bool>;

    open spec fn view(&self) -> Seq<bool> {
        bits_of(*self)
    }
}

/// The largest number of bits a buffer can hold: `BitSlice::MAX_BITS`, which
/// is the largest `usize` shifted right by three.
pub open spec fn max_bits() -> nat {
    (usize::MAX / 8) as nat
}

/// `BitVec::new`: a buffer without bits.
#[verifier::external_body]
pub(crate) fn bits_new() -> (v: BitBuf)
    ensures
        bits_of(v) == Seq::<bool>::empty(),
{
    BitBuf { inner: bitvec::vec::BitVec::new() }
}

/// `BitVec::push`: appends one bit.  The outside function panics when the new
/// length would exceed `MAX_BITS`; the precondition leaves that out.
#[verifier::external_body]
pub(crate) fn bits_push(v: &mut BitBuf, bit: bool)
    requires
        bits_of(*old(v)).len() < max_bits(),
    ensures
        bits_of(*final(v)) == bits_of(*old(v)).push(bit),
{
    v.inner.push(bit)
}

/// `BitVec::len`: the number of bits held, which a bit vector keeps in the
/// upper bits of a `usize` and which is therefore at most `MAX_BITS`.
#[verifier::external_body]
pub(crate) fn bits_len(v: &BitBuf) -> (n: usize)
    ensures
        n == bits_of(*v).len(),
        n <= max_bits(),
{
    v.inner.len()
}

/// Indexing a `BitVec` by `usize`: the bit at that position.  The outside
/// function panics past the end; the precondition leaves that out.
#[verifier::external_body]
pub(crate) fn bits_get(v: &BitBuf, i: usize) -> (bit: bool)
    requires
        i < bits_of(*v).len(),
    ensures
        bit == bits_of(*v)[i as int],
{
    v.inner[i]
}

/// `BitVec::clone`: a buffer with the same bits.
#[verifier::external_body]
pub(crate) fn bits_clone(v: &BitBuf) -> (c: BitBuf)
    ensures
        bits_of(c) == bits_of(*v),
{
    BitBuf { inner: v.inner.clone() }
}

/// `BitVec::clear`: removes every bit.
#[verifier::external_body]
pub(crate) fn bits_clear(v: &mut BitBuf)
    ensures
        bits_of(*final(v)) == Seq::<bool>::empty(),
{
    v.inner.clear()
}

/// `==` on two `BitVec`s: true exactly when they have the same length and the
/// same bit at each position.
#[verifier::external_body]
pub(crate) fn bits_eq(a: &BitBuf, b: &BitBuf) -> (same: bool)
    ensures
        same == (bits_of(*a) == bits_of(*b)),
{
    a.inner == b.inner
}

/// `BitVec::extend` from another bit vector: appends the other's bits in
/// order.  The outside function panics when the new length would exceed
/// `MAX_BITS`; the precondition leaves that out.
#[verifier::external_body]
pub(crate) fn bits_extend(v: &mut BitBuf, other: &BitBuf)
    requires
        bits_of(*old(v)).len() + bits_of(*other).len() <= max_bits(),
    ensures
        bits_of(*final(v)) == bits_of(*old(v)) + bits_of(*other),
{
    v.inner.extend(&other.inner)
}

/// `BitVec::drain(..8)`, reversed and collected: removes the first eight bits
/// of the buffer and returns them in reverse order, so that the first bit
/// removed is the last of the result.  The outside function panics when fewer
/// than eight bits are held; the precondition leaves that out.
#[verifier::external_body]
pub fn drain_byte(bitvec: &mut BitBuf) -> (byte: BitBuf)
    requires
        bits_of(*old(bitvec)).len() >= 8,
    ensures
        bits_of(*final(bitvec)) == bits_of(*old(bitvec)).skip(8),
        bits_of(byte) == bits_of(*old(bitvec)).take(8).reverse(),
{
    BitBuf { inner: bitvec.inner.drain(..8).rev().collect() }
}

/// `BitVec::as_raw_slice` on a buffer of exactly eight bits: one byte, whose
/// bit of value `2^i` is set exactly when bit `i` of the buffer is (the
/// `Lsb0` order).  Every buffer that this module makes begins at the first
/// bit of its first byte, so eight bits fill one byte.
#[verifier::external_body]
pub(crate) fn bits_as_raw_slice(v: &BitBuf) -> (raw: &[u8])
    requires
        bits_of(*v).len() == 8,
    ensures
        raw@.len() == 1,
        forall|i: int| 0 <= i < 8 ==> ((raw@[0] >> (i as u8)) & 1 == 1) == #[trigger] bits_of(*v)[i],
{
    v.inner.as_raw_slice()
}

impl BitBuf {
    /// A buffer without bits.
    pub fn new() -> (v: Self)
        ensures
            v@ == Seq::<bool>::empty(),
    {
        bits_new()
    }

    /// The number of bits held.
    pub fn len(&self) -> (n: usize)
        ensures
            n == self@.len(),
    {
        bits_len(self)
    }

    /// A buffer holding the given bits, in order.
    pub fn from_bits(bits: &[bool]) -> (v: Self)
        requires
            bits@.len() <= max_bits(),
        ensures
            v@ == bits@,
    {
        let mut v = bits_new();
        let mut i: usize = 0;
        while i < bits.len()
            invariant
                i <= bits@.len() <= max_bits(),
                v@ == bits@.take(i as int),
            decreases bits@.len() - i,
        {
            bits_push(&mut v, bits[i]);
            assert(bits@.take(i as int).push(bits@[i as int]) == bits@.take(i + 1));
            i += 1;
        }
        assert(bits@.take(i as int) == bits@);
        v
    }

    /// The bits held, in order.
    pub fn to_bits(&self) -> (bits: Vec<bool>)
        ensures
            bits@ == self@,
    {
        let n = bits_len(self);
        let mut bits: Vec<bool> = Vec::new();
        let mut i: usize = 0;
        while i < n
            invariant
                i <= n == self@.len(),
                bits@ == self@.take(i as int),
            decreases n - i,
        {
            bits.push(bits_get(self, i));
            assert(self@.take(i as int).push(self@[i as int]) == self@.take(i + 1));
            i += 1;
        }
        assert(self@.take(i as int) == self@);
        bits
    }
}

} // verus!
