use vstd::prelude::*;
use primal_bit::BitVec;
use crate::sign_bit;

verus! {

#[verifier::external_type_specification]
#[verifier::external_body]
pub struct ExBitVec(BitVec);

/// The sequence of bits held by a `primal_bit::BitVec`.
pub uninterp spec fn bit_vec_bits(v: BitVec) -> Seq<bool>;

/// Relies on `primal_bit::BitVec::from_elem`: builds a vector of `nbits`
/// bits, each equal to `bit`.
#[verifier::external_body]
fn bit_vec_from_elem(nbits: usize, bit: bool) -> (r: BitVec)
    ensures
        bit_vec_bits(r) == Seq::new(nbits as nat, |i: int| bit),
{
    BitVec::from_elem(nbits, bit)
}

/// Relies on `primal_bit::BitVec::len`: the number of bits held.
#[verifier::external_body]
fn bit_vec_len(v: &BitVec) -> (r: usize)
    ensures
        r == bit_vec_bits(*v).len(),
{
    v.len()
}

/// Relies on `primal_bit::BitVec::set`: overwrites the bit at `i` in place.
/// The call panics out of bounds, which the precondition excludes.
#[verifier::external_body]
fn bit_vec_set(v: &mut BitVec, i: usize, x: bool)
    requires
        i < bit_vec_bits(*old(v)).len(),
    ensures
        bit_vec_bits(*final(v)) == bit_vec_bits(*old(v)).update(i as int, x),
{
    v.set(i, x)
}

/// Relies on `primal_bit::BitVec::get`: the bit at `i`, or `None` out of
/// bounds.
#[verifier::external_body]
fn bit_vec_get(v: &BitVec, i: usize) -> (r: Option<bool>)
    ensures
        r == if i < bit_vec_bits(*v).len() {
            Some(bit_vec_bits(*v)[i as int])
        } else {
            None::<bool>
        },
{
    v.get(i)
}

/// Fixed-length append-only bit buffer recording the sign of each evaluator
/// output of one development pass, in strict traversal order.
pub struct BehavioralBitvec {
    bitvec: BitVec,
    bitpos: usize,
}

impl BehavioralBitvec {
    /// The recorded bits; positions at and after `pos()` are still unset.
    pub closed spec fn bits(&self) -> Seq<bool> {
        bit_vec_bits(self.bitvec)
    }

    /// Number of scalars pushed so far.
    pub closed spec fn pos(&self) -> int {
        self.bitpos as int
    }

    pub open spec fn wf(&self) -> bool {
        &&& self.bits().len() <= usize::MAX
        &&& 0 <= self.pos() <= self.bits().len()
        &&& forall|k: int| self.pos() <= k < self.bits().len() ==> !(#[trigger] self.bits()[k])
    }

    /// A buffer of capacity `n`, with every bit unset and nothing pushed.
    pub fn new(n: usize) -> (r: BehavioralBitvec)
        ensures
            r.wf(),
            r.bits().len() == n,
            r.pos() == 0,
            forall|k: int| 0 <= k < n ==> !(#[trigger] r.bits()[k]),
    {
        BehavioralBitvec { bitvec: bit_vec_from_elem(n, false), bitpos: 0 }
    }

    /// Appends the sign bit of `output`: set exactly when `output` is
    /// non-negative.
    pub fn push(&mut self, output: i64)
        requires
            old(self).wf(),
            old(self).pos() < old(self).bits().len(),
        ensures
            final(self).wf(),
            final(self).bits() == old(self).bits().update(old(self).pos(), sign_bit(output)),
            final(self).pos() == old(self).pos() + 1,
    {
        if output >= 0 {
            bit_vec_set(&mut self.bitvec, self.bitpos, true);
        } else {
            proof {
                assert(self.bits() =~= self.bits().update(self.bitpos as int, false));
            }
        }
        self.bitpos = self.bitpos + 1;
    }

    pub fn len(&self) -> (r: usize)
        ensures
            r == self.bits().len(),
    {
        bit_vec_len(&self.bitvec)
    }

    pub fn position(&self) -> (r: usize)
        ensures
            r == self.pos(),
    {
        self.bitpos
    }

    /// The bit at `i`, or `None` out of bounds.
    pub fn get(&self, i: usize) -> (r: Option<bool>)
        ensures
            r == if i < self.bits().len() {
                Some(self.bits()[i as int])
            } else {
                None::<bool>
            },
    {
        bit_vec_get(&self.bitvec, i)
    }
}

} // verus!
