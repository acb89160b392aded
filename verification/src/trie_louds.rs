//! The frozen LOUDS-trie: a read-only trie built by a breadth-first
//! traversal of a mutable trie, holding a LOUDS tree, the label of each
//! edge in breadth-first order, and a terminal bit per node.

use vstd::prelude::*;
use vstd::std_specs::cmp::OrdSpec;
use core::cmp::Ordering;
use crate::bits::{ba_bits, ba_new, ba_set_bit, ba_get_bit};
use crate::louds::{
    Louds, tree_valid, psum, degree_sum, lemma_psum_succ,
    lemma_psum_mono, lemma_psum_all, lemma_louds_counts,
};
use crate::trie::{Trie, label_order, label_lt, lemma_label_order, lemma_label_total};
use crate::trie_vec::{
    TrieVec, TrieM, child_models, total_size, lemma_total_size_le, lemma_total_size_concat,
    lemma_size_children,
};

verus! {

/// Trie implementation with a LOUDS tree.
///
/// This structure answers lookups only; it is produced by freezing a
/// `TrieVec` with `TrieLouds::from`.
pub struct TrieLouds<T> {
    louds: Louds,
    labels: Vec<T>,
    terminal: fid::BitArray,
    nodes: Ghost<Seq<TrieM<T>>>,
}

impl<T> TrieLouds<T> {
    /// The model of each node, by breadth-first index.
    pub closed spec fn node_models(self) -> Seq<TrieM<T>> {
        self.nodes@
    }

    /// The degree of each node, by breadth-first index.
    pub closed spec fn degs(self) -> Seq<nat> {
        self.louds.degree_seq()
    }

    /// The edge labels, in breadth-first edge order.
    pub closed spec fn label_seq(self) -> Seq<T> {
        self.labels@
    }

    /// The model of the whole trie: the root node's.
    pub closed spec fn root(self) -> TrieM<T> {
        self.nodes@[0]
    }
}

impl<T: Ord> TrieLouds<T> {
    /// The three parallel stores agree: the LOUDS encodes a tree whose
    /// node `j` has the children of model `j`, the label of the k-th child
    /// of node `j` sits at edge index `psum(j) + k`, that child's model is
    /// node `1 + psum(j) + k`, and bit `j` of the terminal bitmap is node
    /// `j`'s terminal flag.
    pub closed spec fn inv(self) -> bool {
        let degs = self.louds.degree_seq();
        let ms = self.nodes@;
        &&& self.louds.wf()
        &&& self.louds.is_tree()
        &&& ms.len() == degs.len()
        &&& self.labels@.len() == degs.len() - 1
        &&& forall|j: int| 0 <= j < degs.len() ==> (#[trigger] degs[j]) == ms[j].children.len()
        &&& forall|j: int| 0 <= j < ms.len() ==> (#[trigger] ms[j]).wf()
        &&& forall|j: int, k: int|
            0 <= j < degs.len() && 0 <= k < ms[j].children.len() ==> self.labels@[psum(degs, j)
                + k] == (#[trigger] ms[j].children[k]).0 && ms[1 + psum(degs, j) + k]
                == ms[j].children[k].1
        &&& ba_bits(self.terminal).len() >= degs.len()
        &&& forall|j: int|
            0 <= j < degs.len() ==> (#[trigger] ba_bits(self.terminal)[j]) == ms[j].terminal
    }
}

impl<T: Ord> TrieLouds<T> {
    /// Law: in the frozen trie, the slice of the label array covering any
    /// node's children is strictly ascending.
    pub proof fn lemma_label_ordering(self, j: int)
        requires
            self.inv(),
            0 <= j < self.degs().len(),
        ensures
            forall|k1: int, k2: int|
                0 <= k1 < k2 < self.degs()[j] ==> #[trigger] label_lt(
                    self.label_seq()[psum(self.degs(), j) + k1],
                    self.label_seq()[psum(self.degs(), j) + k2],
                ),
    {
        let degs = self.degs();
        let m = self.node_models()[j];
        assert forall|k1: int, k2: int| 0 <= k1 < k2 < degs[j] implies #[trigger] label_lt(
            self.label_seq()[psum(degs, j) + k1],
            self.label_seq()[psum(degs, j) + k2],
        ) by {
            assert(self.label_seq()[psum(degs, j) + k1] == m.children[k1].0);
            assert(self.label_seq()[psum(degs, j) + k2] == m.children[k2].0);
            assert(label_lt(m.children[k1].0, m.children[k2].0));
        }
    }
}

impl<T: Ord + Copy> TrieLouds<T> {
    /// Freezes `t`: walks it in breadth-first order, assigning index `i`
    /// to the i-th node visited, pushing its degree onto the LOUDS and
    /// appending its child labels and terminal bit.
    pub fn from(t: TrieVec<T>) -> (r: TrieLouds<T>)
        requires
            label_order::<T>(),
            t@.wf(),
            2 * t@.size() + 1 <= usize::MAX,
        ensures
            r.inv(),
            r.root() == t@,
    {
        let ghost tsize = t@.size();
        let mut louds = Louds::new();
        let mut labels: Vec<T> = Vec::new();
        let mut terminal = ba_new(0);
        let ghost ms0: Seq<TrieM<T>> = seq![t@];
        let mut nodes: Ghost<Seq<TrieM<T>>> = Ghost(ms0);
        let mut it = t.bf_iter();
        let mut i: usize = 0;
        let mut done = false;
        proof {
            assert(ms0.drop_first() =~= Seq::<TrieM<T>>::empty());
            assert(ms0[0] == t@);
            assert(total_size(ms0) == ms0[0].size() + total_size(ms0.drop_first()));
            assert(total_size(ms0.drop_first()) == 0);
            assert(total_size(ms0) == t@.size());
            assert(it.pending() =~= nodes@.skip(0));
            lemma_louds_counts(louds.degree_seq());
        }
        while !done
            invariant
                label_order::<T>(),
                2 * tsize + 1 <= usize::MAX,
                it.wf(),
                it.pending() == nodes@.skip(i as int),
                i <= nodes@.len(),
                i + total_size(it.pending()) == tsize,
                nodes@.len() == 1 + degree_sum(louds.degree_seq()),
                louds.wf(),
                louds.pending_ones() == 0,
                louds.degree_seq().len() == i,
                nodes@[0] == t@,
                forall|j: int|
                    0 <= j < i ==> (#[trigger] louds.degree_seq()[j])
                        == nodes@[j].children.len(),
                forall|j: int| 0 <= j < nodes@.len() ==> (#[trigger] nodes@[j]).wf(),
                labels@.len() == nodes@.len() - 1,
                forall|j: int, k: int|
                    0 <= j < i && 0 <= k < nodes@[j].children.len() ==> labels@[psum(
                        louds.degree_seq(),
                        j,
                    ) + k] == (#[trigger] nodes@[j].children[k]).0 && nodes@[1 + psum(
                        louds.degree_seq(),
                        j,
                    ) + k] == nodes@[j].children[k].1,
                forall|j: int| 1 <= j < i ==> #[trigger] psum(louds.degree_seq(), j) >= j,
                ba_bits(terminal).len() >= i,
                forall|j: int|
                    0 <= j < i ==> (#[trigger] ba_bits(terminal)[j]) == nodes@[j].terminal,
                done ==> i == nodes@.len(),
            decreases tsize - i + (if done {
                0int
            } else {
                1int
            }),
        {
            let ghost pend0 = it.pending();
            let ghost degs0 = louds.degree_seq();
            let ghost ms_pre = nodes@;
            let nxt = it.next();
            match nxt {
                None => {
                    done = true;
                },
                Some(node) => {
                    proof {
                        assert(node@ == ms_pre[i as int]);
                        lemma_size_children(node@);
                        lemma_total_size_concat(pend0.drop_first(), child_models(node@));
                        lemma_total_size_le(it.pending());
                        assert(pend0.drop_first().len() == ms_pre.len() - i - 1);
                        // capacity for this node's block
                        lemma_louds_counts(degs0);
                        assert(ms_pre.len() + node@.children.len() == (i + 1)
                            + it.pending().len());
                        assert(ms_pre.len() + node@.children.len() <= tsize);
                    }
                    let d = node.children_len();
                    louds.push_node(d);
                    let ghost degs1 = louds.degree_seq();
                    proof {
                        assert(degs1.drop_last() =~= degs0);
                        assert(degree_sum(degs1) == degree_sum(degs0) + d);
                        assert(degs0.take(i as int) =~= degs0);
                        assert(degs1.take(i as int) =~= degs0);
                        assert(psum(degs1, i as int) == degree_sum(degs0));
                        assert forall|j: int| 0 <= j <= i implies degs1.take(j) =~= degs0.take(
                            j,
                        ) by {}
                    }
                    let cs = node.children();
                    let ghost lab0 = labels@;
                    let ghost mcs = node@.children;
                    let mut k: usize = 0;
                    while k < d
                        invariant
                            k <= d,
                            d == mcs.len(),
                            labels@.len() == lab0.len() + k,
                            forall|j: int| 0 <= j < lab0.len() ==> #[trigger] labels@[j] == lab0[j],
                            forall|j: int|
                                0 <= j < k ==> #[trigger] labels@[lab0.len() + j] == mcs[j].0,
                            cs@.len() == mcs.len(),
                            forall|j: int|
                                0 <= j < cs@.len() ==> (#[trigger] cs@[j]).0 == mcs[j].0,
                        decreases d - k,
                    {
                        labels.push(cs[k].0);
                        k = k + 1;
                    }
                    ba_set_bit(&mut terminal, i, node.terminal());
                    proof {
                        nodes@ = ms_pre + child_models(node@);
                        assert(it.pending() =~= nodes@.skip(i as int + 1)) by {
                            assert(pend0.drop_first() =~= ms_pre.skip(i as int + 1));
                            assert(nodes@.skip(i as int + 1) =~= ms_pre.skip(i as int + 1)
                                + child_models(node@));
                        }
                        assert forall|j: int, k2: int|
                            0 <= j < i + 1 && 0 <= k2 < nodes@[j].children.len() implies labels@[
                        psum(degs1, j) + k2] == (#[trigger] nodes@[j].children[k2]).0 && nodes@[1
                            + psum(degs1, j) + k2] == nodes@[j].children[k2].1 by {
                            if j < i {
                                assert(psum(degs1, j) == psum(degs0, j));
                                assert(nodes@[j] == ms_pre[j]);
                                lemma_psum_succ(degs0, j);
                                lemma_psum_mono(degs0, j + 1, i as int);
                                lemma_psum_all(degs0);
                                assert(psum(degs0, j) + k2 < lab0.len());
                                assert(labels@[psum(degs0, j) + k2] == lab0[psum(degs0, j) + k2]);
                                assert(1 + psum(degs0, j) + k2 < ms_pre.len());
                                assert(nodes@[1 + psum(degs0, j) + k2] == ms_pre[1 + psum(
                                    degs0,
                                    j,
                                ) + k2]);
                            } else {
                                assert(nodes@[j] == node@);
                                assert(labels@[lab0.len() + k2] == mcs[k2].0);
                                assert(psum(degs1, j) == lab0.len());
                                assert(nodes@[1 + psum(degs1, j) + k2] == child_models(
                                    node@,
                                )[k2]);
                            }
                        }
                        assert forall|j: int| 0 <= j < nodes@.len() implies (
                        #[trigger] nodes@[j]).wf() by {
                            if j >= ms_pre.len() {
                                assert(nodes@[j] == node@.children[j - ms_pre.len()].1);
                            } else {
                                assert(nodes@[j] == ms_pre[j]);
                            }
                        }
                        assert forall|j: int| 1 <= j < i + 1 implies #[trigger] psum(degs1, j)
                            >= j by {
                            if j < i {
                                assert(psum(degs0, j) >= j);
                                assert(degs1.take(j) =~= degs0.take(j));
                            } else {
                                assert(psum(degs1, i as int) == degree_sum(degs0));
                            }
                        }
                    }
                    i = i + 1;
                },
            }
        }
        let r = TrieLouds { louds, labels, terminal, nodes };
        proof {
            assert(nodes@.skip(i as int).len() == 0);
            assert(degree_sum(r.louds.degree_seq()) == r.louds.degree_seq().len() - 1);
            assert(tree_valid(r.louds.degree_seq()));
        }
        r
    }
}

impl<T: Ord + Copy> Trie<T> for TrieLouds<T> {
    open spec fn wf(&self) -> bool {
        self.inv()
    }

    open spec fn key_set(&self) -> Set<Seq<T>> {
        self.root().key_set()
    }

    fn has(&self, key: &[T]) -> (r: bool) {
        let ghost degs = self.degs();
        let ghost n = self.node_models().len();
        let mut i: usize = 0;
        let mut from: usize = 0;
        proof {
            lemma_label_order::<T>();
            assert(key@.skip(0) =~= key@);
        }
        while from < key.len()
            invariant
                label_order::<T>(),
                self.inv(),
                degs == self.degs(),
                n == self.node_models().len(),
                from <= key@.len(),
                i < n,
                self.root().contains_key(key@) == self.node_models()[i as int].contains_key(
                    key@.skip(from as int),
                ),
            decreases key@.len() - from,
        {
            let ghost m = self.node_models()[i as int];
            let ghost tail = key@.skip(from as int);
            proof {
                lemma_label_order::<T>();
                assert(tail[0] == key@[from as int]);
                assert(tail.drop_first() =~= key@.skip(from as int + 1));
            }
            let c = key[from];
            match self.louds.range_children(i) {
                None => {
                    proof {
                        assert(m.children.len() == 0);
                        assert(!m.contains_key(tail));
                    }
                    return false;
                },
                Some(p) => {
                    let (s, e) = p;
                    proof {
                        lemma_psum_succ(degs, i as int);
                        lemma_psum_mono(degs, i as int + 1, degs.len() as int);
                        lemma_psum_all(degs);
                        assert(s as int == 1 + psum(degs, i as int));
                        assert(e as int == psum(degs, i as int) + m.children.len());
                        assert(e <= self.label_seq().len());
                        assert forall|k: int| 0 <= k < m.children.len() implies self.label_seq()[s
                            - 1 + k] == (#[trigger] m.children[k]).0 by {
                            assert(self.label_seq()[psum(degs, i as int) + k]
                                == m.children[k].0);
                        }
                    }
                    let mut lo: usize = s - 1;
                    let mut hi: usize = e;
                    let mut idx: usize = 0;
                    let mut found = false;
                    while lo < hi && !found
                        invariant
                            label_order::<T>(),
                            self.inv(),
                            degs == self.degs(),
                            i < self.node_models().len(),
                            m == self.node_models()[i as int],
                            m.wf(),
                            m.children.len() == degs[i as int],
                            s as int == 1 + psum(degs, i as int),
                            e as int == psum(degs, i as int) + m.children.len(),
                            e <= self.label_seq().len(),
                            1 <= s,
                            s - 1 <= lo <= hi <= e,
                            c == key@[from as int],
                            forall|k: int|
                                0 <= k < m.children.len() ==> self.label_seq()[s - 1 + k] == (
                                #[trigger] m.children[k]).0,
                            forall|j: int|
                                s - 1 <= j < lo ==> label_lt(
                                    #[trigger] self.label_seq()[j],
                                    c,
                                ),
                            forall|j: int|
                                hi <= j < e ==> label_lt(c, #[trigger] self.label_seq()[j]),
                            found ==> s - 1 <= idx < e && self.label_seq()[idx as int] == c,
                        decreases hi - lo + (if found {
                            0int
                        } else {
                            1int
                        }),
                    {
                        proof {
                            lemma_label_order::<T>();
                        }
                        let mid = lo + (hi - lo) / 2;
                        match self.labels[mid].cmp(&c) {
                            Ordering::Less => {
                                proof {
                                    assert forall|j: int| s - 1 <= j < mid + 1 implies label_lt(
                                        #[trigger] self.label_seq()[j],
                                        c,
                                    ) by {
                                        assert(self.label_seq()[j] == m.children[j - (s - 1)].0);
                                        assert(self.label_seq()[mid as int] == m.children[mid - (s
                                            - 1)].0);
                                        if j < mid {
                                            assert(label_lt(
                                                m.children[j - (s - 1)].0,
                                                m.children[mid - (s - 1)].0,
                                            ));
                                            assert(label_lt(m.children[mid - (s - 1)].0, c));
                                        }
                                    }
                                }
                                lo = mid + 1;
                            },
                            Ordering::Greater => {
                                proof {
                                    lemma_label_total(c, self.label_seq()[mid as int]);
                                    assert(label_lt(c, self.label_seq()[mid as int]));
                                    assert forall|j: int| mid <= j < e implies label_lt(
                                        c,
                                        #[trigger] self.label_seq()[j],
                                    ) by {
                                        assert(self.label_seq()[j] == m.children[j - (s - 1)].0);
                                        assert(self.label_seq()[mid as int] == m.children[mid - (s
                                            - 1)].0);
                                        if j > mid {
                                            assert(label_lt(
                                                m.children[mid - (s - 1)].0,
                                                m.children[j - (s - 1)].0,
                                            ));
                                        }
                                    }
                                }
                                hi = mid;
                            },
                            Ordering::Equal => {
                                idx = mid;
                                found = true;
                            },
                        }
                    }
                    if found {
                        let ghost k = idx - (s - 1) as int;
                        proof {
                            assert(m.children[k].0 == self.label_seq()[idx as int]);
                            m.lemma_contains_child(tail, k);
                            assert(self.node_models()[1 + psum(degs, i as int) + k]
                                == m.children[k].1);
                            assert(1 + psum(degs, i as int) + k == idx + 1);
                        }
                        i = idx + 1;
                        from = from + 1;
                    } else {
                        proof {
                            assert forall|k: int| 0 <= k < m.children.len() implies (
                            #[trigger] m.children[k]).0 != tail[0] by {
                                let j = s - 1 + k;
                                assert(self.label_seq()[j] == m.children[k].0);
                                if j < lo {
                                    assert(label_lt(self.label_seq()[j], c));
                                } else {
                                    assert(label_lt(c, self.label_seq()[j]));
                                }
                            }
                            assert(!m.contains_key(tail));
                        }
                        return false;
                    }
                },
            }
        }
        proof {
            assert(key@.skip(from as int) =~= Seq::<T>::empty());
        }
        ba_get_bit(&self.terminal, i)
    }
}

} // verus!
