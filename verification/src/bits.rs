//! Counting of one- and zero-bits in a bit sequence, and the trusted
//! interface to the external indexable bit structures (`fid::BitVector`
//! for rank/select queries, `fid::BitArray` for a plain growable bitmap).

use vstd::prelude::*;
use fid::FID;

verus! {

/// Number of one-bits in `s`.
pub open spec fn ones(s: Seq<bool>) -> nat
    decreases s.len(),
{
    if s.len() == 0 {
        0
    } else {
        ones(s.drop_last()) + if s.last() {
            1nat
        } else {
            0nat
        }
    }
}

/// Number of zero-bits in `s`.
pub open spec fn zeros(s: Seq<bool>) -> nat
    decreases s.len(),
{
    if s.len() == 0 {
        0
    } else {
        zeros(s.drop_last()) + if s.last() {
            0nat
        } else {
            1nat
        }
    }
}

pub proof fn lemma_counts_concat(a: Seq<bool>, b: Seq<bool>)
    ensures
        ones(a + b) == ones(a) + ones(b),
        zeros(a + b) == zeros(a) + zeros(b),
    decreases b.len(),
{
    if b.len() == 0 {
        assert(a + b =~= a);
    } else {
        assert((a + b).drop_last() =~= a + b.drop_last());
        lemma_counts_concat(a, b.drop_last());
    }
}

pub proof fn lemma_counts_take_succ(s: Seq<bool>, p: int)
    requires
        0 <= p < s.len(),
    ensures
        ones(s.take(p + 1)) == ones(s.take(p)) + if s[p] {
            1nat
        } else {
            0nat
        },
        zeros(s.take(p + 1)) == zeros(s.take(p)) + if s[p] {
            0nat
        } else {
            1nat
        },
{
    assert(s.take(p + 1).drop_last() =~= s.take(p));
    assert(s.take(p + 1).last() == s[p]);
}

pub proof fn lemma_counts_take_mono(s: Seq<bool>, a: int, b: int)
    requires
        0 <= a <= b <= s.len(),
    ensures
        ones(s.take(a)) <= ones(s.take(b)),
        zeros(s.take(a)) <= zeros(s.take(b)),
    decreases b - a,
{
    if a < b {
        lemma_counts_take_succ(s, b - 1);
        lemma_counts_take_mono(s, a, b - 1);
    }
}

/// A one-bit position is determined by the number of ones before it.
pub proof fn lemma_one_pos_unique(s: Seq<bool>, p: int, q: int)
    requires
        0 <= p < s.len(),
        0 <= q < s.len(),
        s[p],
        s[q],
        ones(s.take(p)) == ones(s.take(q)),
    ensures
        p == q,
{
    if p < q {
        lemma_counts_take_succ(s, p);
        lemma_counts_take_mono(s, p + 1, q);
    }
    if q < p {
        lemma_counts_take_succ(s, q);
        lemma_counts_take_mono(s, q + 1, p);
    }
}

/// A zero-bit position is determined by the number of zeros before it.
pub proof fn lemma_zero_pos_unique(s: Seq<bool>, p: int, q: int)
    requires
        0 <= p < s.len(),
        0 <= q < s.len(),
        !s[p],
        !s[q],
        zeros(s.take(p)) == zeros(s.take(q)),
    ensures
        p == q,
{
    if p < q {
        lemma_counts_take_succ(s, p);
        lemma_counts_take_mono(s, p + 1, q);
    }
    if q < p {
        lemma_counts_take_succ(s, q);
        lemma_counts_take_mono(s, q + 1, p);
    }
}

#[verifier::external_type_specification]
#[verifier::external_body]
pub struct ExBitVector(fid::BitVector);

#[verifier::external_type_specification]
#[verifier::external_body]
pub struct ExBitArray(fid::BitArray);

/// The sequence of bits held by a `fid::BitVector`.
pub uninterp spec fn bv_bits(bv: fid::BitVector) -> Seq<bool>;

/// The bits held by a `fid::BitArray`, up to its current capacity.
pub uninterp spec fn ba_bits(ba: fid::BitArray) -> Seq<bool>;

/// Relies on fid::BitVector::new: an empty bit vector.
#[verifier::external_body]
pub(crate) fn bv_new() -> (r: fid::BitVector)
    ensures
        bv_bits(r) == Seq::<bool>::empty(),
{
    fid::BitVector::new()
}

/// Relies on fid::BitVector::push: appends one bit at the end.
#[verifier::external_body]
pub(crate) fn bv_push(bv: &mut fid::BitVector, b: bool)
    requires
        bv_bits(*old(bv)).len() < u64::MAX,
    ensures
        bv_bits(*final(bv)) == bv_bits(*old(bv)).push(b),
{
    bv.push(b)
}

/// Relies on fid::BitVector::get: the bit at position `i`.
#[verifier::external_body]
pub(crate) fn bv_get(bv: &fid::BitVector, i: u64) -> (r: bool)
    requires
        i < bv_bits(*bv).len(),
    ensures
        r == bv_bits(*bv)[i as int],
{
    bv.get(i)
}

/// Relies on fid::BitVector::rank1: the number of ones in positions [0, i).
#[verifier::external_body]
pub(crate) fn bv_rank1(bv: &fid::BitVector, i: u64) -> (r: u64)
    requires
        i <= bv_bits(*bv).len(),
    ensures
        r == ones(bv_bits(*bv).take(i as int)),
{
    bv.rank1(i)
}

/// Relies on fid::BitVector::rank0: the number of zeros in positions [0, i).
#[verifier::external_body]
pub(crate) fn bv_rank0(bv: &fid::BitVector, i: u64) -> (r: u64)
    requires
        i <= bv_bits(*bv).len(),
    ensures
        r == zeros(bv_bits(*bv).take(i as int)),
{
    bv.rank0(i)
}

/// Relies on fid::BitVector::select1: the position of the (r+1)-th one.
#[verifier::external_body]
pub(crate) fn bv_select1(bv: &fid::BitVector, r: u64) -> (p: u64)
    requires
        r < ones(bv_bits(*bv)),
    ensures
        p < bv_bits(*bv).len(),
        bv_bits(*bv)[p as int],
        ones(bv_bits(*bv).take(p as int)) == r,
{
    bv.select1(r)
}

/// Relies on fid::BitVector::select0: the position of the (r+1)-th zero.
#[verifier::external_body]
pub(crate) fn bv_select0(bv: &fid::BitVector, r: u64) -> (p: u64)
    requires
        r < zeros(bv_bits(*bv)),
    ensures
        p < bv_bits(*bv).len(),
        !bv_bits(*bv)[p as int],
        zeros(bv_bits(*bv).take(p as int)) == r,
{
    bv.select0(r)
}

/// Relies on fid::BitArray::new: a zero-cleared bit array of at least `size` bits.
#[verifier::external_body]
pub(crate) fn ba_new(size: usize) -> (r: fid::BitArray)
    ensures
        ba_bits(r).len() >= size,
        forall|j: int| 0 <= j < ba_bits(r).len() ==> !ba_bits(r)[j],
{
    fid::BitArray::new(size)
}

/// Relies on fid::BitArray::set_bit: sets bit `i` to `b`, extending with
/// zero bits as needed (the bound on `i` keeps its block arithmetic from
/// overflowing).
#[verifier::external_body]
pub(crate) fn ba_set_bit(ba: &mut fid::BitArray, i: usize, b: bool)
    requires
        i + 64 <= usize::MAX,
    ensures
        ba_bits(*final(ba)).len() >= ba_bits(*old(ba)).len(),
        i < ba_bits(*final(ba)).len(),
        forall|j: int|
            0 <= j < ba_bits(*final(ba)).len() ==> ba_bits(*final(ba))[j] == (if j == i {
                b
            } else if j < ba_bits(*old(ba)).len() {
                ba_bits(*old(ba))[j]
            } else {
                false
            }),
{
    ba.set_bit(i, b)
}

/// Relies on fid::BitArray::get_bit: the bit at position `i`.
#[verifier::external_body]
pub(crate) fn ba_get_bit(ba: &fid::BitArray, i: usize) -> (r: bool)
    requires
        i < ba_bits(*ba).len(),
    ensures
        r == ba_bits(*ba)[i as int],
{
    ba.get_bit(i)
}

} // verus!
