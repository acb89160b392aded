//! The mutable trie: a naive ordered-children tree supporting insertion,
//! modelled by a recursive ghost structure.

use vstd::prelude::*;
use vstd::std_specs::cmp::OrdSpec;
use core::cmp::Ordering;
use crate::trie::{Trie, label_order, label_lt, lemma_label_order};

verus! {

/// Mathematical model of a trie node: the child edges in order, each a
/// label and a subtrie, and whether the path to this node is a key.
#[verifier::ext_equal]
pub ghost struct TrieM<T> {
    pub children: Seq<(T, TrieM<T>)>,
    pub terminal: bool,
}

impl<T> TrieM<T> {
    /// The model of an empty trie.
    pub open spec fn empty() -> TrieM<T> {
        TrieM { children: Seq::empty(), terminal: false }
    }
}

impl<T: Ord> TrieM<T> {
    /// Child labels are strictly ascending at every node, recursively.
    pub open spec fn wf(self) -> bool
        decreases self,
    {
        &&& forall|a: int, b: int|
            0 <= a < b < self.children.len() ==> label_lt(
                #[trigger] self.children[a].0,
                #[trigger] self.children[b].0,
            )
        &&& forall|k: int| 0 <= k < self.children.len() ==> (#[trigger] self.children[k].1).wf()
    }

    /// Whether `key` is held by this trie.
    pub open spec fn contains_key(self, key: Seq<T>) -> bool
        decreases key.len(),
    {
        if key.len() == 0 {
            self.terminal
        } else {
            exists|k: int|
                0 <= k < self.children.len() && (#[trigger] self.children[k]).0 == key[0]
                    && self.children[k].1.contains_key(key.drop_first())
        }
    }

    /// The set of keys held by this trie.
    pub open spec fn key_set(self) -> Set<Seq<T>> {
        Set::new(|key: Seq<T>| self.contains_key(key))
    }

    /// Where a new child with label `c` belongs: the number of children
    /// whose label sorts strictly before `c`.
    pub open spec fn insert_pos(cs: Seq<(T, TrieM<T>)>, c: T) -> int
        decreases cs.len(),
    {
        if cs.len() == 0 {
            0
        } else if label_lt(cs[0].0, c) {
            1 + Self::insert_pos(cs.drop_first(), c)
        } else {
            0
        }
    }

    /// The model after inserting `key`.
    pub open spec fn spec_insert(self, key: Seq<T>) -> TrieM<T>
        decreases key.len(),
    {
        if key.len() == 0 {
            TrieM { children: self.children, terminal: true }
        } else {
            let c = key[0];
            if exists|k: int| 0 <= k < self.children.len() && (#[trigger] self.children[k]).0 == c {
                let k = choose|k: int|
                    0 <= k < self.children.len() && (#[trigger] self.children[k]).0 == c;
                TrieM {
                    children: self.children.update(
                        k,
                        (c, self.children[k].1.spec_insert(key.drop_first())),
                    ),
                    terminal: self.terminal,
                }
            } else {
                let k = Self::insert_pos(self.children, c);
                TrieM {
                    children: self.children.insert(
                        k,
                        (c, TrieM::empty().spec_insert(key.drop_first())),
                    ),
                    terminal: self.terminal,
                }
            }
        }
    }
}

impl<T> TrieM<T> {
    /// Number of nodes in this trie.
    pub open spec fn size(self) -> nat
        decreases self, 1int,
    {
        1 + Self::sizes_of(self.children)
    }

    /// Total number of nodes under a list of child edges.
    pub open spec fn sizes_of(cs: Seq<(T, TrieM<T>)>) -> nat
        decreases cs, 0int,
    {
        if cs.len() == 0 {
            0
        } else {
            cs[0].1.size() + Self::sizes_of(cs.drop_first())
        }
    }
}

/// Total number of nodes under each of a list of tries.
pub open spec fn total_size<T>(ms: Seq<TrieM<T>>) -> nat
    decreases ms.len(),
{
    if ms.len() == 0 {
        0
    } else {
        ms[0].size() + total_size(ms.drop_first())
    }
}

pub proof fn lemma_total_size_le<T>(ms: Seq<TrieM<T>>)
    ensures
        total_size(ms) >= ms.len(),
    decreases ms.len(),
{
    if ms.len() > 0 {
        lemma_total_size_le(ms.drop_first());
    }
}

pub proof fn lemma_total_size_concat<T>(a: Seq<TrieM<T>>, b: Seq<TrieM<T>>)
    ensures
        total_size(a + b) == total_size(a) + total_size(b),
    decreases a.len(),
{
    if a.len() == 0 {
        assert(a + b =~= b);
    } else {
        assert((a + b).drop_first() =~= a.drop_first() + b);
        lemma_total_size_concat(a.drop_first(), b);
    }
}

/// A trie holds one node more than its children's subtrees together.
pub proof fn lemma_size_children<T>(m: TrieM<T>)
    ensures
        m.size() == 1 + total_size(child_models(m)),
{
    lemma_sizes_of_eq(m.children);
}

proof fn lemma_sizes_of_eq<T>(cs: Seq<(T, TrieM<T>)>)
    ensures
        TrieM::<T>::sizes_of(cs) == total_size(Seq::new(cs.len(), |q: int| cs[q].1)),
    decreases cs.len(),
{
    let ms = Seq::new(cs.len(), |q: int| cs[q].1);
    if cs.len() > 0 {
        lemma_sizes_of_eq(cs.drop_first());
        assert(ms.drop_first() =~= Seq::new(cs.drop_first().len(), |q: int| cs.drop_first()[q].1));
    }
}

impl<T: Ord> TrieM<T> {
    /// In a well-formed node, child labels are pairwise distinct.
    pub proof fn lemma_wf_distinct(self, k1: int, k2: int)
        requires
            label_order::<T>(),
            self.wf(),
            0 <= k1 < self.children.len(),
            0 <= k2 < self.children.len(),
            self.children[k1].0 == self.children[k2].0,
        ensures
            k1 == k2,
    {
        lemma_label_order::<T>();
        if k1 < k2 {
            assert(label_lt(self.children[k1].0, self.children[k2].0));
        }
        if k2 < k1 {
            assert(label_lt(self.children[k2].0, self.children[k1].0));
        }
    }

    pub proof fn lemma_insert_pos_props(cs: Seq<(T, TrieM<T>)>, c: T)
        ensures
            0 <= Self::insert_pos(cs, c) <= cs.len(),
            forall|j: int| 0 <= j < Self::insert_pos(cs, c) ==> label_lt(#[trigger] cs[j].0, c),
            Self::insert_pos(cs, c) < cs.len() ==> !label_lt(cs[Self::insert_pos(cs, c)].0, c),
        decreases cs.len(),
    {
        if cs.len() > 0 && label_lt(cs[0].0, c) {
            Self::lemma_insert_pos_props(cs.drop_first(), c);
            assert forall|j: int| 0 <= j < Self::insert_pos(cs, c) implies label_lt(
                #[trigger] cs[j].0,
                c,
            ) by {
                if j > 0 {
                    assert(cs.drop_first()[j - 1] == cs[j]);
                    assert(label_lt(cs.drop_first()[j - 1].0, c));
                }
            }
        }
    }

    /// The first position whose label does not sort before `c` is unique.
    pub proof fn lemma_insert_pos_unique(cs: Seq<(T, TrieM<T>)>, c: T, p: int)
        requires
            0 <= p <= cs.len(),
            forall|j: int| 0 <= j < p ==> label_lt(#[trigger] cs[j].0, c),
            p < cs.len() ==> !label_lt(cs[p].0, c),
        ensures
            Self::insert_pos(cs, c) == p,
        decreases cs.len(),
    {
        if p == 0 {
        } else {
            assert(label_lt(cs[0].0, c));
            assert(forall|j: int|
                0 <= j < p - 1 ==> #[trigger] cs.drop_first()[j].0 == cs[j + 1].0);
            Self::lemma_insert_pos_unique(cs.drop_first(), c, p - 1);
        }
    }

    /// Inserting a key preserves well-formedness.
    pub proof fn lemma_spec_insert_wf(self, key: Seq<T>)
        requires
            label_order::<T>(),
            self.wf(),
        ensures
            self.spec_insert(key).wf(),
        decreases key.len(),
    {
        lemma_label_order::<T>();
        if key.len() == 0 {
        } else {
            let c = key[0];
            let rest = key.drop_first();
            let m2 = self.spec_insert(key);
            if exists|k: int|
                0 <= k < self.children.len() && (#[trigger] self.children[k]).0 == c {
                let k = choose|k: int|
                    0 <= k < self.children.len() && (#[trigger] self.children[k]).0 == c;
                self.children[k].1.lemma_spec_insert_wf(rest);
                assert forall|a: int, b: int| 0 <= a < b < m2.children.len() implies label_lt(
                    #[trigger] m2.children[a].0,
                    #[trigger] m2.children[b].0,
                ) by {
                    assert(m2.children[a].0 == self.children[a].0);
                    assert(m2.children[b].0 == self.children[b].0);
                }
            } else {
                let k = Self::insert_pos(self.children, c);
                Self::lemma_insert_pos_props(self.children, c);
                TrieM::<T>::empty().lemma_spec_insert_wf(rest);
                let cs2 = m2.children;
                assert forall|a: int, b: int| 0 <= a < b < cs2.len() implies label_lt(
                    #[trigger] cs2[a].0,
                    #[trigger] cs2[b].0,
                ) by {
                    if a < k && b == k {
                        assert(label_lt(self.children[a].0, c));
                    } else if a == k && b > k {
                        // c is no label of self and does not sort after cs[k]
                        let x = self.children[b - 1].0;
                        crate::trie::lemma_label_total(c, x);
                        assert(x != c);
                        if label_lt(x, c) {
                            if b - 1 > k {
                                assert(label_lt(self.children[k].0, x));
                                assert(label_lt(self.children[k].0, c));
                            }
                            assert(false);
                        }
                        assert(label_lt(c, x));
                    } else if a < k && b > k {
                        assert(label_lt(self.children[a].0, self.children[b - 1].0));
                    } else {
                        assert(label_lt(self.children[a].0, self.children[b].0) || label_lt(
                            self.children[a - 1].0,
                            self.children[b - 1].0,
                        ));
                    }
                }
                assert forall|j: int| 0 <= j < cs2.len() implies (#[trigger] cs2[j].1).wf() by {
                    if j < k {
                        assert(cs2[j].1 == self.children[j].1);
                    } else if j > k {
                        assert(cs2[j].1 == self.children[j - 1].1);
                    }
                }
            }
        }
    }

    /// Reduce key membership to the unique child carrying its first label.
    pub proof fn lemma_contains_child(self, q: Seq<T>, k: int)
        requires
            label_order::<T>(),
            self.wf(),
            q.len() > 0,
            0 <= k < self.children.len(),
            self.children[k].0 == q[0],
        ensures
            self.contains_key(q) == self.children[k].1.contains_key(q.drop_first()),
    {
        if self.contains_key(q) {
            let k2 = choose|k2: int|
                0 <= k2 < self.children.len() && (#[trigger] self.children[k2]).0 == q[0]
                    && self.children[k2].1.contains_key(q.drop_first());
            self.lemma_wf_distinct(k, k2);
        }
    }

    /// Law: a freshly created trie holds no keys, so a sequence of
    /// insertions into it leaves exactly the inserted keys held.
    pub proof fn lemma_empty_key_set()
        ensures
            TrieM::<T>::empty().key_set() == Set::<Seq<T>>::empty(),
    {
        assert forall|q: Seq<T>| !TrieM::<T>::empty().contains_key(q) by {
            if q.len() > 0 {
                assert(TrieM::<T>::empty().children.len() == 0);
            }
        }
        assert(TrieM::<T>::empty().key_set() =~= Set::<Seq<T>>::empty());
    }

    /// Law: inserting a key adds exactly that key to the held set,
    /// whatever the trie held before — so any insertion order for a set
    /// of keys leaves exactly that set held.
    pub proof fn lemma_insert_key_set(self, key: Seq<T>)
        requires
            label_order::<T>(),
            self.wf(),
        ensures
            self.spec_insert(key).key_set() == self.key_set().insert(key),
    {
        assert forall|q: Seq<T>|
            self.spec_insert(key).key_set().contains(q) == self.key_set().insert(
                key,
            ).contains(q) by {
            self.lemma_spec_insert_keys(key, q);
        }
        assert(self.spec_insert(key).key_set() =~= self.key_set().insert(key));
    }

    /// The effect of insertion on membership: afterwards exactly the old
    /// keys and the inserted one are held.
    pub proof fn lemma_spec_insert_keys(self, key: Seq<T>, q: Seq<T>)
        requires
            label_order::<T>(),
            self.wf(),
        ensures
            self.spec_insert(key).contains_key(q) == (self.contains_key(q) || q == key),
        decreases key.len(),
    {
        lemma_label_order::<T>();
        let m2 = self.spec_insert(key);
        if key.len() == 0 {
            if q.len() == 0 {
                assert(q == key);
            } else {
                assert(m2.contains_key(q) == self.contains_key(q));
            }
        } else {
            let c = key[0];
            let rest = key.drop_first();
            if q.len() == 0 {
                assert(m2.terminal == self.terminal);
                assert(q != key);
            } else {
                let d = q[0];
                let qrest = q.drop_first();
                if exists|k: int|
                    0 <= k < self.children.len() && (#[trigger] self.children[k]).0 == c {
                    let k = choose|k: int|
                        0 <= k < self.children.len() && (#[trigger] self.children[k]).0 == c;
                    self.children[k].1.lemma_spec_insert_wf(rest);
                    assert(m2.children =~= self.children.update(
                        k,
                        (c, self.children[k].1.spec_insert(rest)),
                    ));
                    assert forall|a: int, b: int| 0 <= a < b < m2.children.len() implies label_lt(
                        #[trigger] m2.children[a].0,
                        #[trigger] m2.children[b].0,
                    ) by {
                        assert(m2.children[a].0 == self.children[a].0);
                        assert(m2.children[b].0 == self.children[b].0);
                    }
                    assert forall|j: int| 0 <= j < m2.children.len() implies
                        (#[trigger] m2.children[j].1).wf() by {
                        if j != k {
                            assert(m2.children[j].1 == self.children[j].1);
                        }
                    }
                    if d == c {
                        self.lemma_contains_child(q, k);
                        m2.lemma_contains_child(q, k);
                        self.children[k].1.lemma_spec_insert_keys(rest, qrest);
                        assert((q == key) == (qrest == rest)) by {
                            assert(q =~= seq![d] + qrest);
                            assert(key =~= seq![c] + rest);
                        }
                    } else {
                        // children with label d are untouched
                        assert(q != key);
                        if exists|j: int|
                            0 <= j < self.children.len() && (#[trigger] self.children[j]).0
                                == d {
                            let j = choose|j: int|
                                0 <= j < self.children.len() && (#[trigger] self.children[j]).0
                                    == d;
                            assert(j != k);
                            assert(m2.children[j] == self.children[j]);
                            self.lemma_contains_child(q, j);
                            m2.lemma_contains_child(q, j);
                        } else {
                            assert(!self.contains_key(q));
                            assert forall|j: int|
                                0 <= j < m2.children.len() implies (#[trigger] m2.children[j]).0
                                != d by {
                                assert(m2.children[j].0 == self.children[j].0);
                            }
                            assert(!m2.contains_key(q));
                        }
                    }
                } else {
                    let k = Self::insert_pos(self.children, c);
                    Self::lemma_insert_pos_props(self.children, c);
                    self.lemma_spec_insert_wf(key);
                    let sub = TrieM::<T>::empty().spec_insert(rest);
                    TrieM::<T>::empty().lemma_spec_insert_wf(rest);
                    assert(m2.children =~= self.children.insert(k, (c, sub)));
                    if d == c {
                        // no old child has label c
                        assert(!self.contains_key(q));
                        m2.lemma_contains_child(q, k);
                        TrieM::<T>::empty().lemma_spec_insert_keys(rest, qrest);
                        assert((q == key) == (qrest == rest)) by {
                            assert(q =~= seq![d] + qrest);
                            assert(key =~= seq![c] + rest);
                        }
                        assert(!TrieM::<T>::empty().contains_key(qrest));
                    } else {
                        assert(q != key);
                        if exists|j: int|
                            0 <= j < self.children.len() && (#[trigger] self.children[j]).0
                                == d {
                            let j = choose|j: int|
                                0 <= j < self.children.len() && (#[trigger] self.children[j]).0
                                    == d;
                            let j2 = if j < k {
                                j
                            } else {
                                j + 1
                            };
                            assert(m2.children[j2] == self.children[j]);
                            self.lemma_contains_child(q, j);
                            m2.lemma_contains_child(q, j2);
                        } else {
                            assert(!self.contains_key(q));
                            assert forall|j2: int|
                                0 <= j2 < m2.children.len() implies (#[trigger] m2.children[j2]).0
                                != d by {
                                if j2 < k {
                                    assert(m2.children[j2].0 == self.children[j2].0);
                                } else if j2 > k {
                                    assert(m2.children[j2].0 == self.children[j2 - 1].0);
                                }
                            }
                            assert(!m2.contains_key(q));
                        }
                    }
                }
            }
        }
    }
}

/// Naive trie implementation supporting dynamic insertion.
pub struct TrieVec<T> {
    children: Vec<(T, TrieVec<T>)>,
    terminal: bool,
}

impl<T> TrieVec<T> {
    /// The ghost model of this trie.
    pub closed spec fn model(self) -> TrieM<T>
        decreases self, 1int,
    {
        TrieM { children: Self::model_children(self.children@), terminal: self.terminal }
    }

    /// The models of a list of child edges.
    pub closed spec fn model_children(cs: Seq<(T, TrieVec<T>)>) -> Seq<(T, TrieM<T>)>
        decreases cs, 0int,
    {
        if cs.len() == 0 {
            Seq::empty()
        } else {
            seq![(cs[0].0, cs[0].1.model())] + Self::model_children(cs.drop_first())
        }
    }

    pub proof fn lemma_model_children(cs: Seq<(T, TrieVec<T>)>)
        ensures
            Self::model_children(cs).len() == cs.len(),
            forall|k: int|
                0 <= k < cs.len() ==> #[trigger] Self::model_children(cs)[k] == (
                    cs[k].0,
                    cs[k].1.model(),
                ),
        decreases cs.len(),
    {
        if cs.len() > 0 {
            Self::lemma_model_children(cs.drop_first());
        }
    }
}

impl<T: Ord + Copy> TrieVec<T> {
    /// Inserts `key`: walks existing children by label, adding new nodes
    /// where needed, and marks the reached node terminal.
    pub fn insert(&mut self, key: &[T])
        requires
            label_order::<T>(),
            old(self)@.wf(),
        ensures
            final(self)@ == old(self)@.spec_insert(key@),
            final(self)@.wf(),
    {
        proof {
            assert(key@.skip(0) =~= key@);
            old(self)@.lemma_spec_insert_wf(key@);
        }
        self.insert_from(key, 0);
    }

    fn insert_from(&mut self, key: &[T], from: usize)
        requires
            label_order::<T>(),
            old(self)@.wf(),
            from <= key@.len(),
        ensures
            final(self)@ == old(self)@.spec_insert(key@.skip(from as int)),
        decreases key@.len() - from,
    {
        proof {
            lemma_label_order::<T>();
            Self::lemma_model_children(self.children@);
        }
        let ghost m = self@;
        let ghost tail = key@.skip(from as int);
        if from == key.len() {
            self.terminal = true;
            proof {
                Self::lemma_model_children(self.children@);
                assert(self@ =~= m.spec_insert(tail));
            }
        } else {
            let c = key[from];
            proof {
                assert(tail[0] == key@[from as int]);
                assert(tail.drop_first() =~= key@.skip(from as int + 1));
            }
            let ghost rest = tail.drop_first();
            let n = self.children.len();
            let mut pos: usize = 0;
            let mut found_ge = false;
            while pos < n && !found_ge
                invariant
                    label_order::<T>(),
                    self == old(self),
                    n == self.children@.len(),
                    pos <= n,
                    c == key@[from as int],
                    forall|j: int|
                        0 <= j < pos ==> label_lt((#[trigger] self.children@[j]).0, c),
                    found_ge ==> pos < n && !label_lt(self.children@[pos as int].0, c),
                decreases n - pos + (if found_ge {
                    0int
                } else {
                    1int
                }),
            {
                proof {
                    lemma_label_order::<T>();
                }
                match self.children[pos].0.cmp(&c) {
                    Ordering::Less => {
                        pos = pos + 1;
                    },
                    _ => {
                        found_ge = true;
                    },
                }
            }
            let mut found = false;
            if found_ge {
                match self.children[pos].0.cmp(&c) {
                    Ordering::Equal => {
                        found = true;
                    },
                    _ => {},
                }
            }
            if found {
                proof {
                    assert(m.children[pos as int].0 == c);
                }
                let ghost k = choose|k: int|
                    0 <= k < m.children.len() && (#[trigger] m.children[k]).0 == c;
                proof {
                    m.lemma_wf_distinct(k, pos as int);
                }
                let mut child = self.children.remove(pos);
                proof {
                    assert(child.1@ == m.children[pos as int].1);
                }
                child.1.insert_from(key, from + 1);
                self.children.insert(pos, child);
                proof {
                    Self::lemma_model_children(self.children@);
                    assert(self.children@ =~= old(self).children@.update(pos as int, child));
                    assert(self@.children =~= m.children.update(
                        pos as int,
                        (c, m.children[pos as int].1.spec_insert(rest)),
                    ));
                    assert(self@ =~= m.spec_insert(tail));
                }
            } else {
                proof {
                    // no child of `self` carries label `c`
                    assert forall|k: int| 0 <= k < m.children.len() implies (
                    #[trigger] m.children[k]).0 != c by {
                        assert(m.children[k].0 == self.children@[k].0);
                        if k < pos {
                            assert(label_lt(self.children@[k].0, c));
                        } else {
                            assert(found_ge && pos < n);
                            crate::trie::lemma_label_total(c, self.children@[pos as int].0);
                            assert(label_lt(c, self.children@[pos as int].0));
                            if k > pos {
                                assert(label_lt(
                                    self.children@[pos as int].0,
                                    self.children@[k].0,
                                ));
                            }
                            assert(label_lt(c, self.children@[k].0));
                        }
                    }
                    assert forall|j: int| 0 <= j < pos implies label_lt(
                        (#[trigger] m.children[j]).0,
                        c,
                    ) by {
                        assert(m.children[j].0 == self.children@[j].0);
                    }
                    if pos < n {
                        assert(m.children[pos as int].0 == self.children@[pos as int].0);
                    }
                    TrieM::<T>::lemma_insert_pos_unique(m.children, c, pos as int);
                }
                let mut child = TrieVec::new();
                proof {
                    assert(child@.wf());
                }
                child.insert_from(key, from + 1);
                self.children.insert(pos, (c, child));
                proof {
                    Self::lemma_model_children(self.children@);
                    assert(self.children@ =~= old(self).children@.insert(pos as int, (c, child)));
                    assert(self@.children =~= m.children.insert(
                        pos as int,
                        (c, TrieM::<T>::empty().spec_insert(rest)),
                    ));
                    assert(self@ =~= m.spec_insert(tail));
                }
            }
        }
    }
}

impl<T: Ord + Copy> TrieVec<T> {
    fn has_from(&self, key: &[T], from: usize) -> (r: bool)
        requires
            label_order::<T>(),
            self@.wf(),
            from <= key@.len(),
        ensures
            r == self@.contains_key(key@.skip(from as int)),
        decreases key@.len() - from,
    {
        proof {
            lemma_label_order::<T>();
            Self::lemma_model_children(self.children@);
        }
        let ghost m = self@;
        let ghost tail = key@.skip(from as int);
        if from == key.len() {
            self.terminal
        } else {
            let c = key[from];
            proof {
                assert(tail[0] == key@[from as int]);
                assert(tail.drop_first() =~= key@.skip(from as int + 1));
            }
            let n = self.children.len();
            let mut lo: usize = 0;
            let mut hi: usize = n;
            let mut idx: usize = 0;
            let mut found = false;
            while lo < hi && !found
                invariant
                    label_order::<T>(),
                    m == self@,
                    m.wf(),
                    n == self.children@.len(),
                    lo <= hi <= n,
                    c == key@[from as int],
                    forall|j: int|
                        0 <= j < lo ==> label_lt((#[trigger] self.children@[j]).0, c),
                    forall|j: int|
                        hi <= j < n ==> label_lt(c, (#[trigger] self.children@[j]).0),
                    found ==> idx < n && self.children@[idx as int].0 == c,
                decreases hi - lo + (if found {
                    0int
                } else {
                    1int
                }),
            {
                proof {
                    lemma_label_order::<T>();
                    Self::lemma_model_children(self.children@);
                }
                let mid = lo + (hi - lo) / 2;
                match self.children[mid].0.cmp(&c) {
                    Ordering::Less => {
                        proof {
                            assert(label_lt(self.children@[mid as int].0, c));
                            assert forall|j: int| 0 <= j < mid + 1 implies label_lt(
                                (#[trigger] self.children@[j]).0,
                                c,
                            ) by {
                                assert(m.children[j].0 == self.children@[j].0);
                                assert(m.children[mid as int].0 == self.children@[mid as int].0);
                                if j < mid {
                                    assert(label_lt(m.children[j].0, m.children[mid as int].0));
                                    assert(label_lt(m.children[mid as int].0, c));
                                }
                            }
                        }
                        lo = mid + 1;
                    },
                    Ordering::Greater => {
                        proof {
                            lemma_label_order::<T>();
                            crate::trie::lemma_label_total(c, self.children@[mid as int].0);
                            assert(label_lt(c, self.children@[mid as int].0));
                            assert forall|j: int| mid <= j < n implies label_lt(
                                c,
                                (#[trigger] self.children@[j]).0,
                            ) by {
                                assert(m.children[j].0 == self.children@[j].0);
                                assert(m.children[mid as int].0 == self.children@[mid as int].0);
                                if j > mid {
                                    assert(label_lt(m.children[mid as int].0, m.children[j].0));
                                    assert(label_lt(c, m.children[mid as int].0));
                                }
                            }
                        }
                        hi = mid;
                    },
                    Ordering::Equal => {
                        idx = mid;
                        found = true;
                    },
                }
            }
            if found {
                proof {
                    m.lemma_contains_child(tail, idx as int);
                }
                self.children[idx].1.has_from(key, from + 1)
            } else {
                proof {
                    assert forall|k: int| 0 <= k < m.children.len() implies (
                    #[trigger] m.children[k]).0 != tail[0] by {
                        assert(m.children[k].0 == self.children@[k].0);
                        if k < lo {
                            assert(label_lt(self.children@[k].0, c));
                        } else {
                            assert(label_lt(c, self.children@[k].0));
                        }
                    }
                    assert(!m.contains_key(tail));
                }
                false
            }
        }
    }
}

impl<T: Ord + Copy> Trie<T> for TrieVec<T> {
    open spec fn wf(&self) -> bool {
        self.model().wf()
    }

    open spec fn key_set(&self) -> Set<Seq<T>> {
        self.model().key_set()
    }

    fn has(&self, key: &[T]) -> (r: bool) {
        proof {
            assert(key@.skip(0) =~= key@);
        }
        self.has_from(key, 0)
    }
}

/// The subtrie models of a node's children, in label order.
pub open spec fn child_models<T>(m: TrieM<T>) -> Seq<TrieM<T>> {
    Seq::new(m.children.len(), |q: int| m.children[q].1)
}

/// A breadth-first iterator over the nodes of a `TrieVec`, front of the
/// queue first.
pub struct BFIter<'a, T> {
    queue: Vec<&'a TrieVec<T>>,
    head: usize,
}

impl<'a, T> BFIter<'a, T> {
    /// The models of the nodes not yet visited nor expanded, front first.
    pub closed spec fn pending(self) -> Seq<TrieM<T>> {
        Seq::new((self.queue@.len() - self.head) as nat, |q: int| self.queue@[self.head + q]@)
    }

    pub closed spec fn wf(self) -> bool {
        self.head <= self.queue@.len()
    }

    pub fn new(t: &'a TrieVec<T>) -> (r: Self)
        ensures
            r.wf(),
            r.pending() == seq![t@],
    {
        let mut queue: Vec<&'a TrieVec<T>> = Vec::new();
        queue.push(t);
        let r = BFIter { queue, head: 0 };
        proof {
            assert(r.pending() =~= seq![t@]);
        }
        r
    }

    /// Yields the front node and queues its children, left to right.
    pub fn next(&mut self) -> (r: Option<&'a TrieVec<T>>)
        requires
            old(self).wf(),
        ensures
            final(self).wf(),
            (match r {
                Some(node) => old(self).pending().len() > 0 && node@ == old(self).pending()[0]
                    && final(self).pending() == old(self).pending().drop_first() + child_models(
                    node@,
                ),
                None => old(self).pending().len() == 0 && final(self).pending() == old(
                    self,
                ).pending(),
            }),
    {
        if self.head < self.queue.len() {
            let node = self.queue[self.head];
            self.head = self.head + 1;
            let cs = node.children();
            let ghost q0 = self.queue@;
            let ghost h = self.head as int;
            let ghost base = self.queue@.len() as int;
            let mut k: usize = 0;
            while k < cs.len()
                invariant
                    k <= cs@.len(),
                    self.head == h,
                    h <= base,
                    self.queue@.len() == base + k,
                    forall|q: int| 0 <= q < base ==> self.queue@[q] == q0[q],
                    forall|j: int|
                        0 <= j < k ==> (#[trigger] self.queue@[base + j])@ == node@.children[j].1,
                    cs@.len() == node@.children.len(),
                    forall|j: int|
                        0 <= j < cs@.len() ==> (#[trigger] cs@[j]).1@ == node@.children[j].1,
                decreases cs@.len() - k,
            {
                self.queue.push(&cs[k].1);
                k = k + 1;
            }
            proof {
                let target = old(self).pending().drop_first() + child_models(node@);
                assert(self.pending().len() == target.len());
                assert forall|q: int| 0 <= q < self.pending().len() implies self.pending()[q]
                    == target[q] by {
                    if q < base - h {
                        assert(self.queue@[h + q] == q0[h + q]);
                        assert(target[q] == old(self).pending().drop_first()[q]);
                        assert(old(self).pending().drop_first()[q] == old(self).pending()[q + 1]);
                    } else {
                        let j = q - (base - h);
                        assert(self.queue@[base + j]@ == node@.children[j].1);
                        assert(target[q] == child_models(node@)[j]);
                    }
                }
                assert(self.pending() =~= old(self).pending().drop_first() + child_models(
                    node@,
                ));
            }
            Some(node)
        } else {
            proof {
                assert(self.pending() =~= old(self).pending());
            }
            None
        }
    }
}

impl<T> View for TrieVec<T> {
    type V = TrieM<T>;

    open spec fn view(&self) -> TrieM<T> {
        self.model()
    }
}

impl<T> TrieVec<T> {
    /// Returns an empty trie.
    pub fn new() -> (r: TrieVec<T>)
        ensures
            r@ == TrieM::<T>::empty(),
    {
        let r = TrieVec { children: Vec::new(), terminal: false };
        proof {
            assert(r.model() =~= TrieM::<T>::empty());
        }
        r
    }

    /// Returns `true` if the path to this node is an inserted key.
    pub fn terminal(&self) -> (r: bool)
        ensures
            r == self@.terminal,
    {
        self.terminal
    }

    /// Returns the number of children of this node.
    pub fn children_len(&self) -> (r: usize)
        ensures
            r == self@.children.len(),
    {
        proof {
            Self::lemma_model_children(self.children@);
        }
        self.children.len()
    }

    /// Returns a breadth-first iterator over this trie's nodes.
    pub fn bf_iter(&self) -> (r: BFIter<'_, T>)
        ensures
            r.wf(),
            r.pending() == seq![self@],
    {
        BFIter::new(self)
    }

    /// Returns the ordered child list of this node.
    pub fn children(&self) -> (r: &Vec<(T, TrieVec<T>)>)
        ensures
            r@.len() == self@.children.len(),
            forall|k: int|
                0 <= k < r@.len() ==> (#[trigger] r@[k]).0 == self@.children[k].0 && r@[k].1@
                    == self@.children[k].1,
    {
        proof {
            Self::lemma_model_children(self.children@);
        }
        &self.children
    }
}

} // verus!
