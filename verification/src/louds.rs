//! The LOUDS tree: an ordered rooted tree encoded as a bit sequence.
//!
//! A tree of n nodes, identified by breadth-first index, is encoded by
//! prepending a super-root sentinel with one child (bits `1 0`) and then,
//! for each node in breadth-first order, writing one one-bit per child
//! followed by a closing zero-bit.  Navigation reduces to rank/select
//! queries on that sequence.

use vstd::prelude::*;
use crate::bits::{
    ones, zeros, bv_bits, bv_new, bv_push, bv_get, bv_rank1, bv_rank0, bv_select1, bv_select0,
    lemma_counts_concat, lemma_counts_take_succ, lemma_counts_take_mono,
    lemma_one_pos_unique, lemma_zero_pos_unique,
};

verus! {

/// A run of `d` one-bits.
pub open spec fn full_ones(d: nat) -> Seq<bool> {
    Seq::new(d, |j: int| true)
}

/// The unary code of a degree: `d` one-bits closed by a zero-bit.
pub open spec fn unary(d: nat) -> Seq<bool> {
    full_ones(d).push(false)
}

/// The concatenation of the unary codes of a degree sequence.
pub open spec fn blocks(degs: Seq<nat>) -> Seq<bool>
    decreases degs.len(),
{
    if degs.len() == 0 {
        Seq::empty()
    } else {
        blocks(degs.drop_last()) + unary(degs.last())
    }
}

/// The whole LOUDS bit sequence: the `1 0` sentinel, then the blocks.
pub open spec fn louds_bits(degs: Seq<nat>) -> Seq<bool> {
    unary(1) + blocks(degs)
}

/// Sum of a degree sequence.
pub open spec fn degree_sum(degs: Seq<nat>) -> nat
    decreases degs.len(),
{
    if degs.len() == 0 {
        0
    } else {
        degree_sum(degs.drop_last()) + degs.last()
    }
}

/// Sum of the first `i` degrees.
pub open spec fn psum(degs: Seq<nat>, i: int) -> nat {
    degree_sum(degs.take(i))
}

/// Position where node `i`'s child block begins (one past its opening zero).
pub open spec fn block_start(degs: Seq<nat>, i: int) -> int {
    2 + i + psum(degs, i)
}

/// The degree sequence describes a complete tree in breadth-first order:
/// every node but the root is the child of an earlier node, exactly once.
pub open spec fn tree_valid(degs: Seq<nat>) -> bool {
    &&& degs.len() >= 1
    &&& degree_sum(degs) == degs.len() - 1
    &&& forall|i: int| 1 <= i < degs.len() ==> #[trigger] psum(degs, i) >= i
}

pub proof fn lemma_full_ones_counts(d: nat)
    ensures
        full_ones(d).len() == d,
        ones(full_ones(d)) == d,
        zeros(full_ones(d)) == 0,
    decreases d,
{
    if d > 0 {
        assert(full_ones(d).drop_last() =~= full_ones((d - 1) as nat));
        lemma_full_ones_counts((d - 1) as nat);
    }
}

pub proof fn lemma_unary_counts(d: nat)
    ensures
        unary(d).len() == d + 1,
        ones(unary(d)) == d,
        zeros(unary(d)) == 1,
        forall|j: int| 0 <= j <= d ==> #[trigger] unary(d)[j] == (j < d),
{
    assert(unary(d).drop_last() =~= full_ones(d));
    lemma_full_ones_counts(d);
}

pub proof fn lemma_blocks_counts(degs: Seq<nat>)
    ensures
        blocks(degs).len() == degs.len() + degree_sum(degs),
        ones(blocks(degs)) == degree_sum(degs),
        zeros(blocks(degs)) == degs.len(),
    decreases degs.len(),
{
    if degs.len() > 0 {
        lemma_blocks_counts(degs.drop_last());
        lemma_unary_counts(degs.last());
        lemma_counts_concat(blocks(degs.drop_last()), unary(degs.last()));
    }
}

pub proof fn lemma_louds_counts(degs: Seq<nat>)
    ensures
        louds_bits(degs).len() == 2 + degs.len() + degree_sum(degs),
        ones(louds_bits(degs)) == 1 + degree_sum(degs),
        zeros(louds_bits(degs)) == 1 + degs.len(),
{
    lemma_unary_counts(1);
    lemma_blocks_counts(degs);
    lemma_counts_concat(unary(1), blocks(degs));
}

pub proof fn lemma_psum_succ(degs: Seq<nat>, i: int)
    requires
        0 <= i < degs.len(),
    ensures
        psum(degs, i + 1) == psum(degs, i) + degs[i],
{
    assert(degs.take(i + 1).drop_last() =~= degs.take(i));
    assert(degs.take(i + 1).last() == degs[i]);
}

pub proof fn lemma_psum_mono(degs: Seq<nat>, a: int, b: int)
    requires
        0 <= a <= b <= degs.len(),
    ensures
        psum(degs, a) <= psum(degs, b),
    decreases b - a,
{
    if a < b {
        lemma_psum_succ(degs, b - 1);
        lemma_psum_mono(degs, a, b - 1);
    }
}

pub proof fn lemma_psum_all(degs: Seq<nat>)
    ensures
        psum(degs, degs.len() as int) == degree_sum(degs),
{
    assert(degs.take(degs.len() as int) =~= degs);
}

/// The prefix of the LOUDS sequence up to node `i`'s block start is the
/// sentinel followed by the blocks of the first `i` nodes.
pub proof fn lemma_prefix_decomp(degs: Seq<nat>, i: int)
    requires
        0 <= i <= degs.len(),
    ensures
        block_start(degs, i) <= louds_bits(degs).len(),
        louds_bits(degs).take(block_start(degs, i)) == unary(1) + blocks(degs.take(i)),
        ones(louds_bits(degs).take(block_start(degs, i))) == 1 + psum(degs, i),
        zeros(louds_bits(degs).take(block_start(degs, i))) == 1 + i,
    decreases degs.len(),
{
    lemma_louds_counts(degs);
    lemma_psum_mono(degs, i, degs.len() as int);
    lemma_psum_all(degs);
    if i == degs.len() {
        assert(degs.take(i) =~= degs);
        assert(louds_bits(degs).take(block_start(degs, i)) =~= louds_bits(degs));
    } else {
        let dl = degs.drop_last();
        assert(dl.take(i) =~= degs.take(i));
        lemma_psum_mono(dl, i, dl.len() as int);
        lemma_psum_all(dl);
        lemma_louds_counts(dl);
        lemma_unary_counts(degs.last());
        assert(louds_bits(degs) =~= louds_bits(dl) + unary(degs.last()));
        assert(block_start(degs, i) == block_start(dl, i));
        assert(block_start(dl, i) <= louds_bits(dl).len());
        assert(louds_bits(degs).take(block_start(degs, i)) =~= louds_bits(dl).take(
            block_start(dl, i),
        ));
        lemma_prefix_decomp(dl, i);
    }
    lemma_unary_counts(1);
    lemma_blocks_counts(degs.take(i));
    lemma_counts_concat(unary(1), blocks(degs.take(i)));
}

/// Every block of a non-empty degree sequence ends in its closing zero.
pub proof fn lemma_blocks_last(degs: Seq<nat>)
    requires
        degs.len() >= 1,
    ensures
        blocks(degs).len() >= 1,
        blocks(degs).last() == false,
{
    lemma_blocks_counts(degs);
    lemma_unary_counts(degs.last());
    assert(blocks(degs).last() == unary(degs.last()).last());
}

/// Characterization of the (i+1)-th zero: it sits at position
/// `1 + i + psum(i)`, one before node `i`'s block start.
pub proof fn lemma_select0_char(degs: Seq<nat>, i: int)
    requires
        0 <= i <= degs.len(),
    ensures
        0 <= block_start(degs, i) - 1 < louds_bits(degs).len(),
        !louds_bits(degs)[block_start(degs, i) - 1],
        zeros(louds_bits(degs).take(block_start(degs, i) - 1)) == i,
{
    let s = louds_bits(degs);
    let bs = block_start(degs, i);
    lemma_prefix_decomp(degs, i);
    lemma_unary_counts(1);
    let pre = unary(1) + blocks(degs.take(i));
    if i == 0 {
        assert(degs.take(0) =~= Seq::<nat>::empty());
        assert(pre =~= unary(1));
        assert(pre.last() == false);
    } else {
        lemma_blocks_last(degs.take(i));
        assert(pre.last() == blocks(degs.take(i)).last());
    }
    assert(s.take(bs).last() == s[bs - 1]);
    assert(!s[bs - 1]);
    assert(s.take(bs).drop_last() =~= s.take(bs - 1));
    lemma_counts_take_succ(s, bs - 1);
}

/// The bits of node `i`'s block: position `block_start(i) + j` holds a one
/// exactly for `j < degs[i]`, with the running one/zero counts there.
pub proof fn lemma_block_seg(degs: Seq<nat>, i: int, j: int)
    requires
        0 <= i < degs.len(),
        0 <= j <= degs[i],
    ensures
        block_start(degs, i) + j < louds_bits(degs).len(),
        louds_bits(degs)[block_start(degs, i) + j] == (j < degs[i]),
        ones(louds_bits(degs).take(block_start(degs, i) + j)) == 1 + psum(degs, i) + j,
        zeros(louds_bits(degs).take(block_start(degs, i) + j)) == 1 + i,
{
    let s = louds_bits(degs);
    let bs = block_start(degs, i);
    let d = degs[i];
    lemma_prefix_decomp(degs, i);
    lemma_prefix_decomp(degs, i + 1);
    lemma_psum_succ(degs, i);
    lemma_unary_counts(d as nat);
    lemma_unary_counts(1);
    lemma_blocks_counts(degs.take(i));
    lemma_counts_concat(unary(1), blocks(degs.take(i)));
    let pre = unary(1) + blocks(degs.take(i));
    assert(degs.take(i + 1).drop_last() =~= degs.take(i));
    assert(blocks(degs.take(i + 1)) =~= blocks(degs.take(i)) + unary(degs.take(i + 1).last()));
    assert(degs.take(i + 1).last() == degs[i]);
    assert(s.take(block_start(degs, i + 1)) =~= pre + unary(d as nat));
    assert(block_start(degs, i + 1) == bs + d + 1);
    assert(pre.len() == bs);
    // the bit at bs + j
    assert(s.take(bs + d + 1)[bs + j] == s[bs + j]);
    assert((pre + unary(d as nat))[bs + j] == unary(d as nat)[j]);
    assert(s[bs + j] == (j < d));
    // counts up to bs + j
    assert(s.take(bs + j) =~= s.take(bs + d + 1).take(bs + j));
    assert(s.take(bs + d + 1).take(bs + j) =~= pre + full_ones(j as nat)) by {
        assert(unary(d as nat).take(j) =~= full_ones(j as nat));
        assert((pre + unary(d as nat)).take(bs + j) =~= pre + unary(d as nat).take(j));
    }
    lemma_full_ones_counts(j as nat);
    lemma_counts_concat(pre, full_ones(j as nat));
}

/// `p` is the node whose child block contains the one-bit of node `i`.
pub open spec fn is_parent_slot(degs: Seq<nat>, i: int, p: int) -> bool {
    0 <= p < degs.len() && psum(degs, p) < i <= psum(degs, p + 1)
}

/// The parent of node `i` (for `1 <= i <= degree_sum(degs)`).
pub open spec fn parent_of(degs: Seq<nat>, i: int) -> int {
    choose|p: int| is_parent_slot(degs, i, p)
}

pub proof fn lemma_parent_exists(degs: Seq<nat>, i: int)
    requires
        1 <= i <= degree_sum(degs),
    ensures
        exists|p: int| is_parent_slot(degs, i, p),
    decreases degs.len(),
{
    let dl = degs.drop_last();
    lemma_psum_all(degs);
    lemma_psum_all(dl);
    if i <= degree_sum(dl) {
        lemma_parent_exists(dl, i);
        let p = choose|p: int| is_parent_slot(dl, i, p);
        assert(dl.take(p) =~= degs.take(p));
        assert(dl.take(p + 1) =~= degs.take(p + 1));
        assert(is_parent_slot(degs, i, p));
    } else {
        let p = degs.len() - 1;
        assert(degs.take(p) =~= dl);
        assert(is_parent_slot(degs, i, p));
    }
}

pub proof fn lemma_parent_unique(degs: Seq<nat>, i: int, p1: int, p2: int)
    requires
        is_parent_slot(degs, i, p1),
        is_parent_slot(degs, i, p2),
    ensures
        p1 == p2,
{
    if p1 < p2 {
        lemma_psum_mono(degs, p1 + 1, p2);
    }
    if p2 < p1 {
        lemma_psum_mono(degs, p2 + 1, p1);
    }
}

/// Under validity, every non-root node has a parent slot, and the parent
/// has a strictly smaller breadth-first index.
pub proof fn lemma_parent_props(degs: Seq<nat>, i: int)
    requires
        tree_valid(degs),
        1 <= i < degs.len(),
    ensures
        is_parent_slot(degs, i, parent_of(degs, i)),
        0 <= parent_of(degs, i) < i,
{
    lemma_parent_exists(degs, i);
    let p = parent_of(degs, i);
    assert(is_parent_slot(degs, i, p));
    if p >= 1 {
        assert(psum(degs, p) >= p);
    }
}

/// Depth of node `i`: the number of parent steps to the root.
pub open spec fn depth_of(degs: Seq<nat>, i: int) -> nat
    decreases i when i >= 0
{
    if i <= 0 {
        0
    } else {
        let p = parent_of(degs, i);
        if 0 <= p < i {
            1 + depth_of(degs, p)
        } else {
            0
        }
    }
}

pub proof fn lemma_depth_le(degs: Seq<nat>, i: int)
    requires
        tree_valid(degs),
        0 <= i < degs.len(),
    ensures
        depth_of(degs, i) <= i,
    decreases i,
{
    if i > 0 {
        lemma_parent_props(degs, i);
        lemma_depth_le(degs, parent_of(degs, i));
    }
}

/// First child of node `i`, by breadth-first index.
pub open spec fn spec_first_child(degs: Seq<nat>, i: int) -> Option<int> {
    if degs[i] == 0 {
        None
    } else {
        Some(1 + psum(degs, i) as int)
    }
}

/// Last child of node `i`.
pub open spec fn spec_last_child(degs: Seq<nat>, i: int) -> Option<int> {
    if degs[i] == 0 {
        None
    } else {
        Some(psum(degs, i + 1) as int)
    }
}

/// The contiguous range of node `i`'s children.
pub open spec fn spec_range_children(degs: Seq<nat>, i: int) -> Option<(int, int)> {
    if degs[i] == 0 {
        None
    } else {
        Some((1 + psum(degs, i) as int, psum(degs, i + 1) as int))
    }
}

/// The k-th child of node `i`.
pub open spec fn spec_child(degs: Seq<nat>, i: int, k: int) -> Option<int> {
    if 0 <= k < degs[i] {
        Some(1 + psum(degs, i) + k)
    } else {
        None
    }
}

/// The next sibling of node `i`: defined when `i` is not the last child
/// of its parent (the root has no sibling).
pub open spec fn spec_sibling(degs: Seq<nat>, i: int) -> Option<int> {
    if i == 0 {
        None
    } else if i < psum(degs, parent_of(degs, i) + 1) {
        Some(i + 1)
    } else {
        None
    }
}

/// The parent of node `i` (none for the root).
pub open spec fn spec_parent(degs: Seq<nat>, i: int) -> Option<int> {
    if i == 0 {
        None
    } else {
        Some(parent_of(degs, i))
    }
}

/// Characterization of the (c+1)-th one-bit: the sentinel's one for c = 0,
/// and for c >= 1 the one-bit of node c inside its parent's block, at
/// position `1 + parent + c`.
pub proof fn lemma_select1_char(degs: Seq<nat>, c: int)
    requires
        0 <= c <= degree_sum(degs),
    ensures
        c == 0 ==> louds_bits(degs)[0] && ones(louds_bits(degs).take(0)) == 0,
        c >= 1 ==> {
            let q = 1 + parent_of(degs, c) + c;
            &&& is_parent_slot(degs, c, parent_of(degs, c))
            &&& 0 <= q < louds_bits(degs).len()
            &&& louds_bits(degs)[q]
            &&& ones(louds_bits(degs).take(q)) == c
        },
{
    let s = louds_bits(degs);
    lemma_unary_counts(1);
    if c == 0 {
        assert(s[0] == (unary(1))[0]);
        assert(s.take(0) =~= Seq::<bool>::empty());
    } else {
        lemma_parent_exists(degs, c);
        let p = parent_of(degs, c);
        assert(is_parent_slot(degs, c, p));
        lemma_psum_succ(degs, p);
        let j = c - 1 - psum(degs, p);
        assert(0 <= j < degs[p]);
        lemma_block_seg(degs, p, j);
        assert(block_start(degs, p) + j == 1 + p + c);
    }
}

/// A LOUDS tree over a rank/select bit vector.
///
/// The ghost degree sequence records, per node in breadth-first order, the
/// number of children that were pushed for it; a run of one-bits not yet
/// closed by a zero is tracked separately.
pub struct Louds {
    bv: fid::BitVector,
    degs: Ghost<Seq<nat>>,
    pending: Ghost<nat>,
}

impl Louds {
    /// The degrees pushed so far, in breadth-first order.
    pub closed spec fn degree_seq(self) -> Seq<nat> {
        self.degs@
    }

    /// One-bits pushed since the last closing zero-bit.
    pub closed spec fn pending_ones(self) -> nat {
        self.pending@
    }

    /// The encoded bit sequence.
    pub closed spec fn bit_seq(self) -> Seq<bool> {
        bv_bits(self.bv)
    }

    /// The bit vector holds exactly the encoding of the pushed degrees.
    pub closed spec fn wf(self) -> bool {
        &&& bv_bits(self.bv) == louds_bits(self.degs@) + full_ones(self.pending@)
        &&& louds_bits(self.degs@).len() + self.pending@ <= usize::MAX
    }

    /// All pushed nodes form a complete tree in breadth-first order.
    pub open spec fn is_tree(self) -> bool {
        tree_valid(self.degree_seq()) && self.pending_ones() == 0
    }

    pub open spec fn node_count(self) -> nat {
        self.degree_seq().len()
    }

    /// Returns an empty LOUDS tree, holding only the `1 0` sentinel.
    pub fn new() -> (r: Louds)
        ensures
            r.wf(),
            r.degree_seq() == Seq::<nat>::empty(),
            r.pending_ones() == 0,
    {
        let mut bv = bv_new();
        bv_push(&mut bv, true);
        bv_push(&mut bv, false);
        let r = Louds { bv, degs: Ghost(Seq::empty()), pending: Ghost(0) };
        proof {
            assert(louds_bits(Seq::<nat>::empty()) + full_ones(0) =~= Seq::<
                bool,
            >::empty().push(true).push(false));
            lemma_louds_counts(Seq::<nat>::empty());
        }
        r
    }

    /// Push a bit.  A one-bit opens or extends the current node's child
    /// list; a zero-bit closes it, fixing that node's degree.
    pub fn push_bit(&mut self, b: bool)
        requires
            old(self).wf(),
            louds_bits(old(self).degree_seq()).len() + old(self).pending_ones() + 1
                <= usize::MAX,
        ensures
            final(self).wf(),
            b ==> final(self).degree_seq() == old(self).degree_seq()
                && final(self).pending_ones() == old(self).pending_ones() + 1,
            !b ==> final(self).degree_seq() == old(self).degree_seq().push(
                old(self).pending_ones(),
            ) && final(self).pending_ones() == 0,
    {
        proof {
            lemma_full_ones_counts(self.pending@);
        }
        bv_push(&mut self.bv, b);
        let ghost degs0 = self.degs@;
        let ghost pend0 = self.pending@;
        if b {
            proof {
                self.pending@ = pend0 + 1;
                assert(louds_bits(degs0) + full_ones(pend0 + 1) =~= (louds_bits(degs0)
                    + full_ones(pend0)).push(true));
                lemma_full_ones_counts(pend0 + 1);
            }
        } else {
            proof {
                self.degs@ = degs0.push(pend0);
                self.pending@ = 0;
                let degs1 = degs0.push(pend0);
                assert(degs1.drop_last() =~= degs0);
                assert(blocks(degs1) =~= blocks(degs0) + unary(pend0));
                assert(unary(pend0) =~= full_ones(pend0).push(false));
                assert(louds_bits(degs1) + full_ones(0) =~= (louds_bits(degs0) + full_ones(
                    pend0,
                )).push(false));
                lemma_louds_counts(degs1);
                lemma_louds_counts(degs0);
            }
        }
    }

    /// Push a node which has `d` children.  Nodes must be pushed in
    /// breadth-first order for navigation to be meaningful.
    pub fn push_node(&mut self, d: usize)
        requires
            old(self).wf(),
            old(self).pending_ones() == 0,
            louds_bits(old(self).degree_seq()).len() + d + 1 <= usize::MAX,
        ensures
            final(self).wf(),
            final(self).pending_ones() == 0,
            final(self).degree_seq() == old(self).degree_seq().push(d as nat),
    {
        let ghost degs0 = self.degs@;
        let mut k: usize = 0;
        while k < d
            invariant
                self.wf(),
                self.degs@ == degs0,
                self.pending@ == k,
                k <= d,
                louds_bits(degs0).len() + d + 1 <= usize::MAX,
            decreases d - k,
        {
            self.push_bit(true);
            k = k + 1;
        }
        self.push_bit(false);
    }

    proof fn lemma_view(self)
        requires
            self.wf(),
            self.is_tree(),
        ensures
            bv_bits(self.bv) == louds_bits(self.degs@),
            louds_bits(self.degs@).len() == 2 * self.degs@.len() + 1,
            ones(louds_bits(self.degs@)) == self.degs@.len(),
            zeros(louds_bits(self.degs@)) == self.degs@.len() + 1,
            louds_bits(self.degs@).len() <= usize::MAX,
    {
        assert(louds_bits(self.degs@) + full_ones(0) =~= louds_bits(self.degs@));
        lemma_louds_counts(self.degs@);
    }

    /// Returns the first child of the i-th node in breadth-first order.
    pub fn first_child(&self, i: usize) -> (r: Option<usize>)
        requires
            self.wf(),
            self.is_tree(),
            i < self.node_count(),
        ensures
            (match r {
                Some(c) => spec_first_child(self.degree_seq(), i as int) == Some(c as int),
                None => spec_first_child(self.degree_seq(), i as int) is None,
            }),
    {
        let ghost degs = self.degs@;
        let ghost s = louds_bits(degs);
        proof {
            self.lemma_view();
            lemma_select0_char(degs, i as int);
        }
        let sel = bv_select0(&self.bv, i as u64);
        proof {
            lemma_zero_pos_unique(s, sel as int, block_start(degs, i as int) - 1);
            lemma_block_seg(degs, i as int, 0);
        }
        let first_child_pos = sel + 1;
        if bv_get(&self.bv, first_child_pos) {
            proof {
                lemma_psum_mono(degs, i as int, degs.len() as int);
                lemma_psum_all(degs);
            }
            Some(bv_rank1(&self.bv, first_child_pos) as usize)
        } else {
            None
        }
    }

    /// Returns the last child of the i-th node in breadth-first order.
    pub fn last_child(&self, i: usize) -> (r: Option<usize>)
        requires
            self.wf(),
            self.is_tree(),
            i < self.node_count(),
        ensures
            (match r {
                Some(c) => spec_last_child(self.degree_seq(), i as int) == Some(c as int),
                None => spec_last_child(self.degree_seq(), i as int) is None,
            }),
    {
        let ghost degs = self.degs@;
        let ghost s = louds_bits(degs);
        proof {
            self.lemma_view();
            lemma_select0_char(degs, i as int + 1);
            lemma_psum_succ(degs, i as int);
            lemma_psum_mono(degs, i as int + 1, degs.len() as int);
            lemma_psum_all(degs);
        }
        let sel = bv_select0(&self.bv, i as u64 + 1);
        proof {
            lemma_zero_pos_unique(s, sel as int, block_start(degs, i as int + 1) - 1);
        }
        let last_child_pos = sel - 1;
        proof {
            if degs[i as int] == 0 {
                lemma_select0_char(degs, i as int);
                assert(last_child_pos == block_start(degs, i as int) - 1);
            } else {
                lemma_block_seg(degs, i as int, degs[i as int] - 1);
                assert(last_child_pos == block_start(degs, i as int) + degs[i as int] - 1);
            }
        }
        if bv_get(&self.bv, last_child_pos) {
            Some(bv_rank1(&self.bv, last_child_pos) as usize)
        } else {
            None
        }
    }

    /// Returns `true` if the i-th node is a leaf node (has no children).
    pub fn is_leaf(&self, i: usize) -> (r: bool)
        requires
            self.wf(),
            self.is_tree(),
            i < self.node_count(),
        ensures
            r == (self.degree_seq()[i as int] == 0),
    {
        let ghost degs = self.degs@;
        let ghost s = louds_bits(degs);
        proof {
            self.lemma_view();
            lemma_select0_char(degs, i as int);
        }
        let sel = bv_select0(&self.bv, i as u64);
        proof {
            lemma_zero_pos_unique(s, sel as int, block_start(degs, i as int) - 1);
            lemma_block_seg(degs, i as int, 0);
        }
        !bv_get(&self.bv, sel + 1)
    }

    /// Returns the degree (number of children) of the i-th node.
    pub fn degree(&self, i: usize) -> (r: usize)
        requires
            self.wf(),
            self.is_tree(),
            i < self.node_count(),
        ensures
            r == self.degree_seq()[i as int],
    {
        let ghost degs = self.degs@;
        let ghost s = louds_bits(degs);
        proof {
            self.lemma_view();
            lemma_select0_char(degs, i as int);
            lemma_select0_char(degs, i as int + 1);
            lemma_psum_succ(degs, i as int);
            lemma_psum_mono(degs, i as int + 1, degs.len() as int);
            lemma_psum_all(degs);
        }
        let sel = bv_select0(&self.bv, i as u64);
        proof {
            lemma_zero_pos_unique(s, sel as int, block_start(degs, i as int) - 1);
            lemma_block_seg(degs, i as int, 0);
        }
        let first_child_pos = sel + 1;
        if bv_get(&self.bv, first_child_pos) {
            let sel2 = bv_select0(&self.bv, i as u64 + 1);
            proof {
                lemma_zero_pos_unique(s, sel2 as int, block_start(degs, i as int + 1) - 1);
            }
            let last_child_pos = sel2 - 1;
            (last_child_pos - first_child_pos + 1) as usize
        } else {
            0
        }
    }

    /// Returns the range `(s, e)` of children of the i-th node: `s` is the
    /// first child and `e` the last.
    pub fn range_children(&self, i: usize) -> (r: Option<(usize, usize)>)
        requires
            self.wf(),
            self.is_tree(),
            i < self.node_count(),
        ensures
            (match r {
                Some(p) => spec_range_children(self.degree_seq(), i as int) == Some(
                    (p.0 as int, p.1 as int),
                ),
                None => spec_range_children(self.degree_seq(), i as int) is None,
            }),
    {
        let ghost degs = self.degs@;
        let ghost s = louds_bits(degs);
        proof {
            self.lemma_view();
            lemma_select0_char(degs, i as int);
            lemma_select0_char(degs, i as int + 1);
            lemma_psum_succ(degs, i as int);
            lemma_psum_mono(degs, i as int + 1, degs.len() as int);
            lemma_psum_all(degs);
        }
        let sel = bv_select0(&self.bv, i as u64);
        proof {
            lemma_zero_pos_unique(s, sel as int, block_start(degs, i as int) - 1);
            lemma_block_seg(degs, i as int, 0);
        }
        let first_child_pos = sel + 1;
        if bv_get(&self.bv, first_child_pos) {
            let sel2 = bv_select0(&self.bv, i as u64 + 1);
            proof {
                lemma_zero_pos_unique(s, sel2 as int, block_start(degs, i as int + 1) - 1);
            }
            let last_child_pos = sel2 - 1;
            let sc = bv_rank1(&self.bv, first_child_pos);
            let d = last_child_pos - first_child_pos;
            Some((sc as usize, (sc + d) as usize))
        } else {
            None
        }
    }

    /// Returns the k-th child of the i-th node.
    pub fn child(&self, i: usize, k: usize) -> (r: Option<usize>)
        requires
            self.wf(),
            self.is_tree(),
            i < self.node_count(),
        ensures
            (match r {
                Some(c) => spec_child(self.degree_seq(), i as int, k as int) == Some(c as int),
                None => spec_child(self.degree_seq(), i as int, k as int) is None,
            }),
    {
        match self.range_children(i) {
            Some(p) => {
                let (s, e) = p;
                proof {
                    lemma_psum_succ(self.degs@, i as int);
                }
                if k <= e - s {
                    Some(s + k)
                } else {
                    None
                }
            },
            None => None,
        }
    }

    /// Returns the next sibling of the i-th node.
    pub fn sibling(&self, i: usize) -> (r: Option<usize>)
        requires
            self.wf(),
            self.is_tree(),
            i < self.node_count(),
        ensures
            (match r {
                Some(c) => spec_sibling(self.degree_seq(), i as int) == Some(c as int),
                None => spec_sibling(self.degree_seq(), i as int) is None,
            }),
    {
        let ghost degs = self.degs@;
        let ghost s = louds_bits(degs);
        proof {
            self.lemma_view();
            lemma_select1_char(degs, i as int);
        }
        let p = bv_select1(&self.bv, i as u64);
        proof {
            if i == 0 {
                lemma_one_pos_unique(s, p as int, 0);
                lemma_unary_counts(1);
                assert(s[1] == (unary(1) + blocks(degs))[1]);
                assert(s[1] == false);
            } else {
                let pr = parent_of(degs, i as int);
                lemma_one_pos_unique(s, p as int, 1 + pr + i);
                lemma_psum_succ(degs, pr);
                lemma_block_seg(degs, pr, i - psum(degs, pr));
                assert(p + 1 == block_start(degs, pr) + (i - psum(degs, pr)));
            }
        }
        if bv_get(&self.bv, p + 1) {
            Some(i + 1)
        } else {
            None
        }
    }

    /// Returns the parent of the i-th node.
    pub fn parent(&self, i: usize) -> (r: Option<usize>)
        requires
            self.wf(),
            self.is_tree(),
            i < self.node_count(),
        ensures
            (match r {
                Some(c) => spec_parent(self.degree_seq(), i as int) == Some(c as int),
                None => spec_parent(self.degree_seq(), i as int) is None,
            }),
    {
        if i > 0 {
            let ghost degs = self.degs@;
            let ghost s = louds_bits(degs);
            proof {
                self.lemma_view();
                lemma_select1_char(degs, i as int);
            }
            let p = bv_select1(&self.bv, i as u64);
            proof {
                let pr = parent_of(degs, i as int);
                lemma_one_pos_unique(s, p as int, 1 + pr + i);
                lemma_psum_succ(degs, pr);
                lemma_block_seg(degs, pr, i - 1 - psum(degs, pr));
                assert(p == block_start(degs, pr) + (i - 1 - psum(degs, pr)));
            }
            let r0 = bv_rank0(&self.bv, p);
            Some((r0 - 1) as usize)
        } else {
            None
        }
    }

    /// Returns the depth of node `i`: the number of edges back to the root.
    pub fn depth(&self, i: usize) -> (r: usize)
        requires
            self.wf(),
            self.is_tree(),
            i < self.node_count(),
        ensures
            r == depth_of(self.degree_seq(), i as int),
    {
        let ghost degs = self.degs@;
        let mut j: usize = i;
        let mut d: usize = 0;
        proof {
            lemma_depth_le(degs, i as int);
        }
        while j > 0
            invariant
                self.wf(),
                self.is_tree(),
                degs == self.degree_seq(),
                j < self.node_count(),
                d + depth_of(degs, j as int) == depth_of(degs, i as int),
                depth_of(degs, i as int) <= i,
            decreases j,
        {
            proof {
                lemma_parent_props(degs, j as int);
            }
            match self.parent(j) {
                Some(p) => {
                    j = p;
                    d = d + 1;
                },
                None => {
                    proof {
                        assert(false);
                    }
                },
            }
        }
        d
    }

    /// Law: a complete LOUDS encoding of n nodes is 2n + 1 bits long, with
    /// exactly n + 1 zero-bits and n one-bits.
    pub proof fn lemma_bit_length(self)
        requires
            self.wf(),
            self.is_tree(),
        ensures
            self.bit_seq().len() == 2 * self.node_count() + 1,
            zeros(self.bit_seq()) == self.node_count() + 1,
            ones(self.bit_seq()) == self.node_count(),
    {
        self.lemma_view();
    }
}

/// If some node's block contains the one-bit of node `c`, it is `c`'s parent.
pub proof fn lemma_parent_of_slot(degs: Seq<nat>, c: int, p: int)
    requires
        is_parent_slot(degs, c, p),
    ensures
        parent_of(degs, c) == p,
{
    assert(exists|x: int| is_parent_slot(degs, c, x));
    let q = parent_of(degs, c);
    assert(is_parent_slot(degs, c, q));
    lemma_parent_unique(degs, c, p, q);
}

/// Law: a node is a leaf exactly when its degree is zero, exactly when it
/// has no first child, no last child and no child range.
pub proof fn lemma_leaf_consistency(degs: Seq<nat>, i: int)
    requires
        tree_valid(degs),
        0 <= i < degs.len(),
    ensures
        (degs[i] == 0) <==> (spec_first_child(degs, i) is None),
        (degs[i] == 0) <==> (spec_last_child(degs, i) is None),
        (degs[i] == 0) <==> (spec_range_children(degs, i) is None),
{
}

/// Law: when the child range of `i` is `(s, e)`, then `s` is the first
/// child, `e` the last, and the range holds exactly `degree(i)` nodes.
pub proof fn lemma_range_agreement(degs: Seq<nat>, i: int)
    requires
        tree_valid(degs),
        0 <= i < degs.len(),
        degs[i] > 0,
    ensures
        ({
            let p = spec_range_children(degs, i)->Some_0;
            &&& spec_first_child(degs, i) == Some(p.0)
            &&& spec_last_child(degs, i) == Some(p.1)
            &&& p.1 - p.0 + 1 == degs[i]
        }),
{
    lemma_psum_succ(degs, i);
}

/// Law: the k-th child of `i` is `s + k` for `k < degree(i)`, where `s` is
/// the first child, and absent for `k >= degree(i)`.
pub proof fn lemma_child_by_rank(degs: Seq<nat>, i: int)
    requires
        tree_valid(degs),
        0 <= i < degs.len(),
    ensures
        forall|k: int|
            0 <= k < degs[i] ==> #[trigger] spec_child(degs, i, k) == Some(
                1 + psum(degs, i) + k,
            ),
        forall|k: int| k >= degs[i] ==> #[trigger] spec_child(degs, i, k) is None,
{
}

/// Law: every non-root node has a parent, and it is that parent's k-th
/// child for exactly one k.
pub proof fn lemma_parent_child_round_trip(degs: Seq<nat>, i: int)
    requires
        tree_valid(degs),
        1 <= i < degs.len(),
    ensures
        ({
            let p = parent_of(degs, i);
            &&& spec_parent(degs, i) == Some(p)
            &&& 0 <= p < i
            &&& spec_child(degs, p, i - 1 - psum(degs, p)) == Some(i)
            &&& forall|k: int|
                #[trigger] spec_child(degs, p, k) == Some(i) ==> k == i - 1 - psum(degs, p)
        }),
{
    lemma_parent_props(degs, i);
    lemma_psum_succ(degs, parent_of(degs, i));
}

/// Law: starting at the first child of `p` and repeatedly taking the next
/// sibling enumerates the children of `p` in order, ending in absence.
pub proof fn lemma_sibling_chain(degs: Seq<nat>, p: int)
    requires
        tree_valid(degs),
        0 <= p < degs.len(),
    ensures
        forall|k: int|
            0 <= k < degs[p] - 1 ==> #[trigger] spec_sibling(degs, 1 + psum(degs, p) + k)
                == Some(2 + psum(degs, p) + k),
        degs[p] > 0 ==> spec_sibling(degs, psum(degs, p + 1) as int) is None,
{
    lemma_psum_succ(degs, p);
    assert forall|k: int| 0 <= k < degs[p] - 1 implies #[trigger] spec_sibling(
        degs,
        1 + psum(degs, p) + k,
    ) == Some(2 + psum(degs, p) + k) by {
        let c = 1 + psum(degs, p) + k;
        assert(is_parent_slot(degs, c, p));
        lemma_parent_of_slot(degs, c, p);
    }
    if degs[p] > 0 {
        let c = psum(degs, p + 1) as int;
        assert(is_parent_slot(degs, c, p));
        lemma_parent_of_slot(degs, c, p);
    }
}

/// Law: the root has depth 0, and every non-root node is one level deeper
/// than its parent.
pub proof fn lemma_depth_step(degs: Seq<nat>, i: int)
    requires
        tree_valid(degs),
        0 <= i < degs.len(),
    ensures
        depth_of(degs, 0) == 0,
        i >= 1 ==> spec_parent(degs, i) == Some(parent_of(degs, i)) && depth_of(degs, i)
            == depth_of(degs, parent_of(degs, i)) + 1,
{
    if i >= 1 {
        lemma_parent_props(degs, i);
    }
}

} // verus!
