//! Bit sequences, held in `bitvec`'s `BitVec` and seen as `Seq<bool>`.
use bitvec::order::Lsb0;
use bitvec::vec::BitVec;
use vstd::prelude::*;

verus! {

/// A sequence of bits in 64-bit words, least significant bit first.
#[verifier::external_body]
pub struct Bits {
    inner: BitVec<u64, Lsb0>,
}

/// The most bits a `BitVec` can hold.
pub const MAX_BITS: usize = usize::MAX / 8;

/// The bits a container holds, in order.
pub uninterp spec fn bits_view(v: Bits) -> Seq<bool>;

impl View for Bits {
    type V = Seq<bool>;

    open spec fn view(&self) -> Seq<bool> {
        bits_view(*self)
    }
}

/// Relies on `BitVec::new`: a new container is empty.
#[verifier::external_body]
fn bits_new() -> (r: Bits)
    ensures
        bits_view(r) == Seq::<bool>::empty(),
{
    Bits { inner: BitVec::new() }
}

/// Relies on `BitVec::len`: the number of bits held.
#[verifier::external_body]
fn bits_len(v: &Bits) -> (r: usize)
    ensures
        r == bits_view(*v).len(),
{
    v.inner.len()
}

/// Relies on `BitSlice`'s `Index<usize>`: the bit at a position; it panics out
/// of bounds.
#[verifier::external_body]
fn bits_get(v: &Bits, i: usize) -> (r: bool)
    requires
        i < bits_view(*v).len(),
    ensures
        r == bits_view(*v)[i as int],
{
    v.inner[i]
}

/// Relies on `BitVec::push`: appends one bit; it panics past `MAX_BITS`.
#[verifier::external_body]
fn bits_push(v: &mut Bits, b: bool)
    requires
        bits_view(*old(v)).len() < MAX_BITS,
    ensures
        bits_view(*final(v)) == bits_view(*old(v)).push(b),
{
    v.inner.push(b)
}

impl Bits {
    /// An empty sequence.
    pub fn new() -> (r: Bits)
        ensures
            r@ == Seq::<bool>::empty(),
    {
        bits_new()
    }

    /// The number of bits.
    pub fn len(&self) -> (r: usize)
        ensures
            r == self@.len(),
    {
        bits_len(self)
    }

    /// The bit at position `i`.
    pub fn get(&self, i: usize) -> (r: bool)
        requires
            i < self@.len(),
        ensures
            r == self@[i as int],
    {
        bits_get(self, i)
    }

    /// Appends a bit.
    pub fn push(&mut self, b: bool)
        requires
            old(self)@.len() < MAX_BITS,
        ensures
            final(self)@ == old(self)@.push(b),
    {
        bits_push(self, b)
    }

    /// The sequence of the given booleans.
    pub fn from_bools(v: &Vec<bool>) -> (r: Bits)
        requires
            v@.len() <= MAX_BITS,
        ensures
            r@ == v@,
    {
        let mut r = Bits::new();
        let mut i: usize = 0;
        while i < v.len()
            invariant
                i <= v@.len(),
                v@.len() <= MAX_BITS,
                r@ == v@.subrange(0, i as int),
            decreases v@.len() - i,
        {
            r.push(v[i]);
            i = i + 1;
            assert(r@ =~= v@.subrange(0, i as int));
        }
        assert(v@.subrange(0, v@.len() as int) =~= v@);
        r
    }

    /// The bits as booleans.
    pub fn to_bools(&self) -> (r: Vec<bool>)
        ensures
            r@ == self@,
    {
        let mut r: Vec<bool> = Vec::new();
        let mut i: usize = 0;
        let n = self.len();
        while i < n
            invariant
                i <= n,
                n == self@.len(),
                r@ == self@.subrange(0, i as int),
            decreases n - i,
        {
            r.push(self.get(i));
            i = i + 1;
            assert(r@ =~= self@.subrange(0, i as int));
        }
        assert(self@.subrange(0, n as int) =~= self@);
        r
    }
}

} // verus!
