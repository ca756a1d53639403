//! A simplified two-queue (2Q) cache.
//!
//! A key seen for the first time enters the probationary FIFO queue
//! `A1`. Its next access promotes it to the front of the main LRU
//! queue `Am`, where every later access refreshes it; a key never
//! returns to `A1`. When a new key arrives at capacity, the cache
//! sheds the tail of `A1` once `A1` has reached its threshold, and
//! the tail of `Am` otherwise, so that hot promoted entries survive
//! bursts of one-time insertions.

use crate::common::list::List;
use std::collections::HashMap;
use vstd::prelude::*;

verus! {

broadcast use vstd::std_specs::hash::group_hash_axioms;

/// Which queue currently holds a key.
#[derive(PartialEq, Eq, Structural, Clone, Copy)]
enum KeyPosition {
    A1,
    Am,
}

/// What the cache records for one key: its queue, the node handle of
/// its queue entry, and the cached value.
struct Value<V> {
    pos: KeyPosition,
    node: usize,
    data: V,
}

impl<V> Value<V> {
    /// Whether the entry sits on the main queue.
    fn at_am(&self) -> (r: bool)
        ensures
            r == (self.pos is Am),
    {
        self.pos == KeyPosition::Am
    }
}

/// The simplified two-queue cache.
pub struct SimplifiedTwoQ<V> {
    lru: List,
    fifo: List,
    fifo_cap: usize,
    cap: usize,
    entries: HashMap<u64, Value<V>>,
}

impl<V> SimplifiedTwoQ<V> {
    /// The keys of the probationary queue, newest first.
    pub closed spec fn a1_keys(&self) -> Seq<u64> {
        self.fifo@
    }

    /// The keys of the main queue, most recently used first.
    pub closed spec fn am_keys(&self) -> Seq<u64> {
        self.lru@
    }

    /// The cached key-value pairs.
    pub closed spec fn contents(&self) -> Map<u64, V> {
        self.entries@.map_values(|e: Value<V>| e.data)
    }

    /// The number of cached keys.
    pub open spec fn spec_len(&self) -> nat {
        self.contents().dom().len()
    }

    /// The capacity.
    pub closed spec fn spec_capacity(&self) -> nat {
        self.cap as nat
    }

    /// The probationary-queue threshold.
    pub closed spec fn spec_threshold(&self) -> nat {
        self.fifo_cap as nat
    }

    /// The key at position `p` of `A1` is indexed, tagged `A1`, and
    /// its handle is the node at that position.
    spec fn entry_ok_a1(&self, p: int) -> bool {
        let k = self.fifo@[p];
        &&& self.entries@.contains_key(k)
        &&& self.entries@[k].pos is A1
        &&& self.entries@[k].node == self.fifo.nodes()[p]
    }

    /// The same for position `p` of `Am`.
    spec fn entry_ok_am(&self, p: int) -> bool {
        let k = self.lru@[p];
        &&& self.entries@.contains_key(k)
        &&& self.entries@[k].pos is Am
        &&& self.entries@[k].node == self.lru.nodes()[p]
    }

    /// The cache invariant: both queues are well formed, the index
    /// agrees with the queues in both directions, and the number of
    /// keys never exceeds the capacity.
    pub closed spec fn wf(&self) -> bool {
        &&& self.lru.wf()
        &&& self.fifo.wf()
        &&& forall|p: int| 0 <= p < self.fifo@.len() ==> #[trigger] self.entry_ok_a1(p)
        &&& forall|p: int| 0 <= p < self.lru@.len() ==> #[trigger] self.entry_ok_am(p)
        &&& forall|k: u64| #[trigger]
            self.entries@.contains_key(k) ==> (if self.entries@[k].pos is A1 {
                self.fifo@.contains(k)
            } else {
                self.lru@.contains(k)
            })
        &&& self.entries@.dom().len() <= self.cap
    }

    /// Keys never repeat within or across the two queues; together
    /// the queues hold exactly the cached keys.
    pub proof fn lemma_queues(&self)
        requires
            self.wf(),
        ensures
            self.a1_keys().no_duplicates(),
            self.am_keys().no_duplicates(),
            forall|k: u64| #[trigger] self.a1_keys().contains(k) ==> !self.am_keys().contains(k),
            forall|k: u64| #[trigger]
                self.a1_keys().contains(k) ==> self.contents().contains_key(k),
            forall|k: u64| #[trigger]
                self.am_keys().contains(k) ==> self.contents().contains_key(k),
            forall|k: u64| #[trigger]
                self.contents().contains_key(k) ==> self.a1_keys().contains(k)
                    || self.am_keys().contains(k),
            self.a1_keys().len() + self.am_keys().len() == self.spec_len(),
    {
        self.fifo.lemma_handles();
        self.lru.lemma_handles();
        assert(self.contents().dom() =~= self.entries@.dom());
        assert forall|p1: int, p2: int|
            0 <= p1 < self.fifo@.len() && 0 <= p2 < self.fifo@.len() && p1 != p2 implies self
            .fifo@[p1] != self.fifo@[p2] by {
            assert(self.entry_ok_a1(p1));
            assert(self.entry_ok_a1(p2));
        }
        assert forall|p1: int, p2: int|
            0 <= p1 < self.lru@.len() && 0 <= p2 < self.lru@.len() && p1 != p2 implies self
            .lru@[p1] != self.lru@[p2] by {
            assert(self.entry_ok_am(p1));
            assert(self.entry_ok_am(p2));
        }
        assert forall|k: u64| #[trigger] self.a1_keys().contains(k) implies !self.am_keys()
            .contains(k) && self.contents().contains_key(k) by {
            let p = choose|p: int| 0 <= p < self.fifo@.len() && self.fifo@[p] == k;
            assert(self.entry_ok_a1(p));
            if self.am_keys().contains(k) {
                let q = choose|q: int| 0 <= q < self.lru@.len() && self.lru@[q] == k;
                assert(self.entry_ok_am(q));
            }
        }
        assert forall|k: u64| #[trigger] self.am_keys().contains(k) implies self.contents()
            .contains_key(k) by {
            let q = choose|q: int| 0 <= q < self.lru@.len() && self.lru@[q] == k;
            assert(self.entry_ok_am(q));
        }
        let sa = self.a1_keys().to_set();
        let sm = self.am_keys().to_set();
        self.a1_keys().unique_seq_to_set();
        self.am_keys().unique_seq_to_set();
        assert(sa.disjoint(sm));
        vstd::seq_lib::seq_to_set_is_finite(self.a1_keys());
        vstd::seq_lib::seq_to_set_is_finite(self.am_keys());
        vstd::set_lib::lemma_set_disjoint_lens(sa, sm);
        assert(sa.union(sm) =~= self.entries@.dom());
    }

    /// One access to the present key `k`: a probationary key moves
    /// to the front of the main queue; a main-queue key returns to
    /// its front; every other key keeps its place.
    pub open spec fn queues_promoted(pre: Self, post: Self, k: u64) -> bool {
        &&& post.spec_capacity() == pre.spec_capacity()
        &&& post.spec_threshold() == pre.spec_threshold()
        &&& if pre.am_keys().contains(k) {
            &&& post.am_keys() == seq![k] + pre.am_keys().remove(pre.am_keys().index_of(k))
            &&& post.a1_keys() == pre.a1_keys()
        } else {
            &&& post.a1_keys() == pre.a1_keys().remove(pre.a1_keys().index_of(k))
            &&& post.am_keys() == seq![k] + pre.am_keys()
        }
    }

    /// Whether an eviction at capacity sheds the probationary queue:
    /// it does when `A1` has reached the threshold (and is not
    /// empty), or when the main queue has nothing to shed.
    pub open spec fn sheds_probationary(pre: Self) -> bool {
        (pre.a1_keys().len() >= pre.spec_threshold() && pre.a1_keys().len() > 0)
            || pre.am_keys().len() == 0
    }

    /// The key an eviction at capacity removes: the tail of the
    /// queue being shed.
    pub open spec fn victim(pre: Self) -> u64 {
        if Self::sheds_probationary(pre) {
            pre.a1_keys().last()
        } else {
            pre.am_keys().last()
        }
    }

    /// What one `insert` does, for every starting state.
    pub open spec fn inserted(pre: Self, post: Self, k: u64, v: V) -> bool {
        if pre.contents().contains_key(k) {
            &&& post.contents() == pre.contents().insert(k, v)
            &&& Self::queues_promoted(pre, post, k)
        } else if pre.spec_capacity() == 0 {
            post == pre
        } else if pre.spec_len() < pre.spec_capacity() {
            &&& post.contents() == pre.contents().insert(k, v)
            &&& post.a1_keys() == seq![k] + pre.a1_keys()
            &&& post.am_keys() == pre.am_keys()
            &&& post.spec_capacity() == pre.spec_capacity()
            &&& post.spec_threshold() == pre.spec_threshold()
        } else {
            &&& post.contents() == pre.contents().remove(Self::victim(pre)).insert(k, v)
            &&& (Self::sheds_probationary(pre) ==> post.a1_keys() == seq![k]
                + pre.a1_keys().drop_last() && post.am_keys() == pre.am_keys())
            &&& (!Self::sheds_probationary(pre) ==> post.a1_keys() == seq![k] + pre.a1_keys()
                && post.am_keys() == pre.am_keys().drop_last())
            &&& post.spec_capacity() == pre.spec_capacity()
            &&& post.spec_threshold() == pre.spec_threshold()
        }
    }

    /// Create a cache whose probationary threshold is a third of the
    /// capacity, or the capacity itself when it is under three.
    pub fn with_capacity(cap: usize) -> (r: SimplifiedTwoQ<V>)
        ensures
            r.wf(),
            r.contents() == Map::<u64, V>::empty(),
            r.a1_keys() == Seq::<u64>::empty(),
            r.am_keys() == Seq::<u64>::empty(),
            r.spec_capacity() == cap as nat,
            r.spec_threshold() == (if cap < 3 {
                cap as nat
            } else {
                (cap / 3) as nat
            }),
    {
        let fifo_cap = if cap < 3 {
            cap
        } else {
            cap / 3
        };
        Self::with_threshold(cap, fifo_cap)
    }

    /// Create a cache with an explicit probationary threshold.
    pub fn with_threshold(cap: usize, a1_threshold: usize) -> (r: SimplifiedTwoQ<V>)
        ensures
            r.wf(),
            r.contents() == Map::<u64, V>::empty(),
            r.a1_keys() == Seq::<u64>::empty(),
            r.am_keys() == Seq::<u64>::empty(),
            r.spec_capacity() == cap as nat,
            r.spec_threshold() == a1_threshold as nat,
    {
        let r = SimplifiedTwoQ {
            lru: List::new(),
            fifo: List::new(),
            fifo_cap: a1_threshold,
            cap,
            entries: HashMap::new(),
        };
        proof {
            assert(r.contents() =~= Map::<u64, V>::empty());
            assert(r.entries@.dom() =~= Set::<u64>::empty());
        }
        r
    }

    /// Remove every cached entry; capacity and threshold stay.
    pub fn clear(&mut self)
        requires
            old(self).wf(),
        ensures
            final(self).wf(),
            final(self).contents() == Map::<u64, V>::empty(),
            final(self).a1_keys() == Seq::<u64>::empty(),
            final(self).am_keys() == Seq::<u64>::empty(),
            final(self).spec_capacity() == old(self).spec_capacity(),
            final(self).spec_threshold() == old(self).spec_threshold(),
    {
        self.lru = List::new();
        self.fifo = List::new();
        self.entries = HashMap::new();
        proof {
            assert(final(self).contents() =~= Map::<u64, V>::empty());
            assert(final(self).entries@.dom() =~= Set::<u64>::empty());
        }
    }

    /// Look a key up. A hit returns the value and promotes the key;
    /// a miss changes nothing.
    pub fn get(&mut self, k: &u64) -> (r: Option<&V>)
        requires
            old(self).wf(),
        ensures
            final(self).wf(),
            !old(self).contents().contains_key(*k) ==> r is None && *final(self) == *old(self),
            old(self).contents().contains_key(*k) ==> ({
                &&& r matches Some(v) && *v == old(self).contents()[*k]
                &&& final(self).contents() == old(self).contents()
                &&& Self::queues_promoted(*old(self), *final(self), *k)
            }),
    {
        proof {
            assert(old(self).contents().contains_key(*k) == old(self).entries@.contains_key(*k));
        }
        if !self.entries.contains_key(k) {
            return None;
        }
        self.update(k);
        match self.entries.get(k) {
            Some(e) => Some(&e.data),
            None => {
                proof {
                    assert(final(self).contents().contains_key(*k));
                    assert(false);
                }
                None
            },
        }
    }

    /// Move a present key to the front of the main queue.
    fn update(&mut self, k: &u64)
        requires
            old(self).wf(),
            old(self).contents().contains_key(*k),
        ensures
            final(self).wf(),
            final(self).contents() == old(self).contents(),
            Self::queues_promoted(*old(self), *final(self), *k),
    {
        let ghost pre = *old(self);
        proof {
            pre.lemma_queues();
            assert(pre.contents().dom() =~= pre.entries@.dom());
            assert(pre.contents().contains_key(*k) == pre.entries@.contains_key(*k));
        }
        let (is_am, node) = {
            let e = match self.entries.get(k) {
                Some(e) => e,
                None => {
                    proof {
                        assert(false);
                    }
                    return ;
                },
            };
            (e.at_am(), e.node)
        };
        if is_am {
            let ghost m0 = pre.am_keys();
            let ghost p = choose|p: int| 0 <= p < m0.len() && m0[p] == *k;
            proof {
                assert(pre.entry_ok_am(p));
                self.lru.lemma_handles();
                assert(self.lru.nodes()[p] == node);
                assert(self.lru.nodes().contains(node));
            }
            self.lru.remove_node(Some(node));
            proof {
                let pr = pre.lru.nodes().index_of(node);
                assert(pre.lru.nodes()[pr] == node);
                pre.lru.lemma_handles();
                assert(pr == p);
                m0.remove_ensures(p);
            }
            self.lru.push_front(*k);
            let n2 = match self.lru.head() {
                Some(h) => h,
                None => {
                    proof {
                        assert(false);
                    }
                    0
                },
            };
            let e = match self.entries.remove(k) {
                Some(e) => e,
                None => {
                    proof {
                        assert(false);
                    }
                    return ;
                },
            };
            self.entries.insert(*k, Value { pos: KeyPosition::Am, node: n2, data: e.data });
            proof {
                Self::lemma_update_wf_am(pre, *self, *k, p);
            }
        } else {
            let ghost a0 = pre.a1_keys();
            let ghost p = choose|p: int| 0 <= p < a0.len() && a0[p] == *k;
            proof {
                assert(pre.entries@[*k].pos is A1);
                assert(pre.a1_keys().contains(*k));
                assert(pre.entry_ok_a1(p));
                self.fifo.lemma_handles();
                assert(self.fifo.nodes()[p] == node);
                assert(self.fifo.nodes().contains(node));
            }
            self.fifo.remove_node(Some(node));
            proof {
                let pr = pre.fifo.nodes().index_of(node);
                assert(pre.fifo.nodes()[pr] == node);
                pre.fifo.lemma_handles();
                assert(pr == p);
                a0.remove_ensures(p);
            }
            self.lru.push_front(*k);
            let n2 = match self.lru.head() {
                Some(h) => h,
                None => {
                    proof {
                        assert(false);
                    }
                    0
                },
            };
            let e = match self.entries.remove(k) {
                Some(e) => e,
                None => {
                    proof {
                        assert(false);
                    }
                    return ;
                },
            };
            self.entries.insert(*k, Value { pos: KeyPosition::Am, node: n2, data: e.data });
            proof {
                Self::lemma_update_wf_a1(pre, *self, *k, p);
            }
        }
    }

    /// After a main-queue refresh, the invariant and the promotion
    /// relation hold.
    proof fn lemma_update_wf_am(pre: Self, post: Self, k: u64, p: int)
        requires
            pre.wf(),
            pre.entries@.contains_key(k),
            pre.entries@[k].pos is Am,
            0 <= p < pre.am_keys().len(),
            pre.am_keys()[p] == k,
            post.lru.wf(),
            post.fifo == pre.fifo,
            post.lru@ == seq![k] + pre.lru@.remove(p),
            post.lru.nodes().len() == pre.lru.nodes().remove(p).len() + 1,
            post.lru.nodes().skip(1) == pre.lru.nodes().remove(p),
            post.lru@.len() > 0,
            post.entries@ == pre.entries@.remove(k).insert(
                k,
                Value { pos: KeyPosition::Am, node: post.lru.nodes()[0], data: pre.entries@[k].data },
            ),
            post.cap == pre.cap,
            post.fifo_cap == pre.fifo_cap,
        ensures
            post.wf(),
            post.contents() == pre.contents(),
            Self::queues_promoted(pre, post, k),
    {
        pre.lemma_queues();
        pre.lru.lemma_handles();
        post.lru.lemma_handles();
        pre.lru@.remove_ensures(p);
        pre.lru.nodes().remove_ensures(p);
        assert(pre.am_keys().contains(k));
        assert(pre.am_keys().index_of(k) == p);
        assert(post.entries@.dom() =~= pre.entries@.dom());
        assert(post.contents() =~= pre.contents());
        // every A1 position still points at its unchanged entry
        assert forall|q: int| 0 <= q < post.fifo@.len() implies #[trigger] post.entry_ok_a1(
            q,
        ) by {
            assert(pre.entry_ok_a1(q));
            assert(pre.fifo@.contains(pre.fifo@[q]));
            assert(pre.fifo@[q] != k);
        }
        // every Am position points at the right entry
        assert forall|q: int| 0 <= q < post.lru@.len() implies #[trigger] post.entry_ok_am(q) by {
            if q == 0 {
                assert(post.lru@[0] == k);
            } else {
                assert(post.lru@[q] == pre.lru@.remove(p)[q - 1]);
                assert(post.lru.nodes()[q] == post.lru.nodes().skip(1)[q - 1]);
                if q - 1 < p {
                    assert(pre.lru@.remove(p)[q - 1] == pre.lru@[q - 1]);
                    assert(pre.entry_ok_am(q - 1));
                    assert(pre.lru@[q - 1] != k);
                } else {
                    assert(pre.lru@.remove(p)[q - 1] == pre.lru@[q]);
                    assert(pre.entry_ok_am(q));
                    assert(pre.lru@[q] != k);
                }
            }
        }
        // every indexed key is on its queue
        assert forall|k2: u64| #[trigger] post.entries@.contains_key(k2) implies (if post
            .entries@[k2].pos is A1 {
            post.fifo@.contains(k2)
        } else {
            post.lru@.contains(k2)
        }) by {
            if k2 == k {
                assert(post.lru@[0] == k);
            } else {
                assert(pre.entries@.contains_key(k2));
                if pre.entries@[k2].pos is A1 {
                } else {
                    let q = choose|q: int| 0 <= q < pre.lru@.len() && pre.lru@[q] == k2;
                    if q < p {
                        assert(pre.lru@.remove(p)[q] == k2);
                        assert(post.lru@[q + 1] == k2);
                    } else {
                        assert(q != p);
                        assert(pre.lru@.remove(p)[q - 1] == k2);
                        assert(post.lru@[q] == k2);
                    }
                }
            }
        }
    }

    /// After a promotion out of the probationary queue, the
    /// invariant and the promotion relation hold.
    proof fn lemma_update_wf_a1(pre: Self, post: Self, k: u64, p: int)
        requires
            pre.wf(),
            pre.entries@.contains_key(k),
            pre.entries@[k].pos is A1,
            0 <= p < pre.a1_keys().len(),
            pre.a1_keys()[p] == k,
            post.lru.wf(),
            post.fifo.wf(),
            post.fifo@ == pre.fifo@.remove(p),
            post.fifo.nodes() == pre.fifo.nodes().remove(p),
            post.lru@ == seq![k] + pre.lru@,
            post.lru.nodes().len() == pre.lru.nodes().len() + 1,
            post.lru.nodes().skip(1) == pre.lru.nodes(),
            post.lru@.len() > 0,
            post.entries@ == pre.entries@.remove(k).insert(
                k,
                Value { pos: KeyPosition::Am, node: post.lru.nodes()[0], data: pre.entries@[k].data },
            ),
            post.cap == pre.cap,
            post.fifo_cap == pre.fifo_cap,
        ensures
            post.wf(),
            post.contents() == pre.contents(),
            Self::queues_promoted(pre, post, k),
    {
        pre.lemma_queues();
        pre.fifo.lemma_handles();
        post.fifo.lemma_handles();
        pre.lru.lemma_handles();
        post.lru.lemma_handles();
        pre.fifo@.remove_ensures(p);
        pre.fifo.nodes().remove_ensures(p);
        assert(pre.a1_keys().contains(k));
        assert(pre.a1_keys().index_of(k) == p);
        assert(!pre.am_keys().contains(k));
        assert(post.entries@.dom() =~= pre.entries@.dom());
        assert(post.contents() =~= pre.contents());
        assert forall|q: int| 0 <= q < post.fifo@.len() implies #[trigger] post.entry_ok_a1(
            q,
        ) by {
            if q < p {
                assert(post.fifo@[q] == pre.fifo@[q]);
                assert(post.fifo.nodes()[q] == pre.fifo.nodes()[q]);
                assert(pre.entry_ok_a1(q));
                assert(pre.fifo@[q] != k);
            } else {
                assert(post.fifo@[q] == pre.fifo@[q + 1]);
                assert(post.fifo.nodes()[q] == pre.fifo.nodes()[q + 1]);
                assert(pre.entry_ok_a1(q + 1));
                assert(pre.fifo@[q + 1] != k);
            }
        }
        assert forall|q: int| 0 <= q < post.lru@.len() implies #[trigger] post.entry_ok_am(q) by {
            if q == 0 {
                assert(post.lru@[0] == k);
            } else {
                assert(post.lru@[q] == pre.lru@[q - 1]);
                assert(post.lru.nodes()[q] == post.lru.nodes().skip(1)[q - 1]);
                assert(pre.entry_ok_am(q - 1));
                assert(pre.lru@[q - 1] != k);
            }
        }
        assert forall|k2: u64| #[trigger] post.entries@.contains_key(k2) implies (if post
            .entries@[k2].pos is A1 {
            post.fifo@.contains(k2)
        } else {
            post.lru@.contains(k2)
        }) by {
            if k2 == k {
                assert(post.lru@[0] == k);
            } else {
                assert(pre.entries@.contains_key(k2));
                if pre.entries@[k2].pos is A1 {
                    let q = choose|q: int| 0 <= q < pre.fifo@.len() && pre.fifo@[q] == k2;
                    assert(q != p);
                    if q < p {
                        assert(post.fifo@[q] == k2);
                    } else {
                        assert(post.fifo@[q - 1] == k2);
                    }
                } else {
                    assert(post.lru@[pre.lru@.index_of(k2) + 1] == k2);
                    let q = choose|q: int| 0 <= q < pre.lru@.len() && pre.lru@[q] == k2;
                    assert(post.lru@[q + 1] == k2);
                }
            }
        }
    }

    /// Insert a key-value pair. A present key is overwritten and
    /// promoted; a new key evicts per the policy when the cache is
    /// full, then enters the front of the probationary queue.
    pub fn insert(&mut self, k: u64, v: V)
        requires
            old(self).wf(),
        ensures
            final(self).wf(),
            Self::inserted(*old(self), *final(self), k, v),
    {
        let ghost pre = *old(self);
        proof {
            pre.lemma_queues();
            assert(pre.contents().dom() =~= pre.entries@.dom());
            assert(pre.contents().contains_key(k) == pre.entries@.contains_key(k));
        }
        if self.entries.contains_key(&k) {
            // overwrite the value, then promote
            let e = match self.entries.remove(&k) {
                Some(e) => e,
                None => {
                    proof {
                        assert(false);
                    }
                    return ;
                },
            };
            self.entries.insert(k, Value { pos: e.pos, node: e.node, data: v });
            let ghost mid = *self;
            proof {
                assert(mid.entries@.dom() =~= pre.entries@.dom());
                assert forall|q: int| 0 <= q < mid.fifo@.len() implies #[trigger] mid.entry_ok_a1(
                    q,
                ) by {
                    assert(pre.entry_ok_a1(q));
                }
                assert forall|q: int| 0 <= q < mid.lru@.len() implies #[trigger] mid.entry_ok_am(
                    q,
                ) by {
                    assert(pre.entry_ok_am(q));
                }
                assert(mid.wf());
                assert(mid.contents().contains_key(k));
            }
            self.update(&k);
            proof {
                assert(final(self).contents() =~= pre.contents().insert(k, v));
            }
        } else {
            if self.cap == 0 {
                return ;
            }
            let room = self.entries.len() < self.cap;
            if room {
                // nothing to evict
            } else if self.fifo.len() >= self.fifo_cap && self.fifo.len() > 0 {
                // the probationary queue is at its threshold: shed its tail
                let ghost a0 = pre.a1_keys();
                match self.fifo.pop_back() {
                    Some(pair) => {
                        let victim = pair.1;
                        proof {
                            assert(pre.entry_ok_a1(a0.len() - 1));
                            assert(victim == a0.last());
                            assert(pre.entries@.contains_key(victim));
                        }
                        self.entries.remove(&victim);
                        proof {
                            Self::lemma_evicted_a1(pre, *self, victim);
                        }
                    },
                    None => {
                        proof {
                            assert(false);
                        }
                    },
                }
            } else if self.lru.len() > 0 {
                // shed the tail of the main queue
                let ghost m0 = pre.am_keys();
                match self.lru.pop_back() {
                    Some(pair) => {
                        let victim = pair.1;
                        proof {
                            assert(pre.entry_ok_am(m0.len() - 1));
                            assert(victim == m0.last());
                            assert(pre.entries@.contains_key(victim));
                        }
                        self.entries.remove(&victim);
                        proof {
                            Self::lemma_evicted_am(pre, *self, victim);
                        }
                    },
                    None => {
                        proof {
                            assert(false);
                        }
                    },
                }
            } else {
                // at capacity with an empty main queue: shed the
                // probationary tail even though it is under threshold
                let ghost a0 = pre.a1_keys();
                proof {
                    assert(a0.len() > 0);
                }
                match self.fifo.pop_back() {
                    Some(pair) => {
                        let victim = pair.1;
                        proof {
                            assert(pre.entry_ok_a1(a0.len() - 1));
                            assert(victim == a0.last());
                            assert(pre.entries@.contains_key(victim));
                        }
                        self.entries.remove(&victim);
                        proof {
                            Self::lemma_evicted_a1(pre, *self, victim);
                        }
                    },
                    None => {
                        proof {
                            assert(false);
                        }
                    },
                }
            }
            let ghost mid = *self;
            proof {
                mid.lemma_queues();
            }
            self.fifo.push_front(k);
            let n = match self.fifo.head() {
                Some(h) => h,
                None => {
                    proof {
                        assert(false);
                    }
                    0
                },
            };
            self.entries.insert(k, Value { pos: KeyPosition::A1, node: n, data: v });
            proof {
                Self::lemma_insert_fresh(mid, *self, k, v);
                assert(final(self).contents() =~= mid.contents().insert(k, v));
                if !room {
                    assert(final(self).contents() =~= pre.contents().remove(
                        Self::victim(pre),
                    ).insert(k, v));
                }
            }
        }
    }

    /// After shedding the probationary tail, the invariant holds and
    /// one key is gone from the index.
    proof fn lemma_evicted_a1(pre: Self, post: Self, victim: u64)
        requires
            pre.wf(),
            pre.a1_keys().len() > 0,
            victim == pre.a1_keys().last(),
            post.fifo.wf(),
            post.lru == pre.lru,
            post.fifo@ == pre.fifo@.drop_last(),
            post.fifo.nodes() == pre.fifo.nodes().drop_last(),
            post.entries@ == pre.entries@.remove(victim),
            post.cap == pre.cap,
            post.fifo_cap == pre.fifo_cap,
        ensures
            post.wf(),
            post.contents() == pre.contents().remove(victim),
            post.entries@.dom().len() == pre.entries@.dom().len() - 1,
            !post.entries@.contains_key(victim),
    {
        pre.lemma_queues();
        pre.fifo.lemma_handles();
        post.fifo.lemma_handles();
        assert(pre.entry_ok_a1(pre.fifo@.len() - 1));
        assert(pre.entries@.contains_key(victim));
        assert(post.entries@.dom() =~= pre.entries@.dom().remove(victim));
        assert(post.contents() =~= pre.contents().remove(victim));
        assert forall|q: int| 0 <= q < post.fifo@.len() implies #[trigger] post.entry_ok_a1(
            q,
        ) by {
            assert(pre.entry_ok_a1(q));
            assert(pre.fifo@[q] != victim);
        }
        assert forall|q: int| 0 <= q < post.lru@.len() implies #[trigger] post.entry_ok_am(q) by {
            assert(pre.entry_ok_am(q));
            assert(pre.lru@.contains(pre.lru@[q]));
            assert(pre.lru@[q] != victim);
        }
        assert forall|k2: u64| #[trigger] post.entries@.contains_key(k2) implies (if post
            .entries@[k2].pos is A1 {
            post.fifo@.contains(k2)
        } else {
            post.lru@.contains(k2)
        }) by {
            assert(pre.entries@.contains_key(k2));
            if pre.entries@[k2].pos is A1 {
                let q = choose|q: int| 0 <= q < pre.fifo@.len() && pre.fifo@[q] == k2;
                assert(q != pre.fifo@.len() - 1);
                assert(post.fifo@[q] == k2);
            }
        }
    }

    /// After shedding the main-queue tail, the invariant holds and
    /// one key is gone from the index.
    proof fn lemma_evicted_am(pre: Self, post: Self, victim: u64)
        requires
            pre.wf(),
            pre.am_keys().len() > 0,
            victim == pre.am_keys().last(),
            post.lru.wf(),
            post.fifo == pre.fifo,
            post.lru@ == pre.lru@.drop_last(),
            post.lru.nodes() == pre.lru.nodes().drop_last(),
            post.entries@ == pre.entries@.remove(victim),
            post.cap == pre.cap,
            post.fifo_cap == pre.fifo_cap,
        ensures
            post.wf(),
            post.contents() == pre.contents().remove(victim),
            post.entries@.dom().len() == pre.entries@.dom().len() - 1,
            !post.entries@.contains_key(victim),
    {
        pre.lemma_queues();
        pre.lru.lemma_handles();
        post.lru.lemma_handles();
        assert(pre.entry_ok_am(pre.lru@.len() - 1));
        assert(pre.entries@.contains_key(victim));
        assert(post.entries@.dom() =~= pre.entries@.dom().remove(victim));
        assert(post.contents() =~= pre.contents().remove(victim));
        assert forall|q: int| 0 <= q < post.lru@.len() implies #[trigger] post.entry_ok_am(q) by {
            assert(pre.entry_ok_am(q));
            assert(pre.lru@[q] != victim);
        }
        assert forall|q: int| 0 <= q < post.fifo@.len() implies #[trigger] post.entry_ok_a1(
            q,
        ) by {
            assert(pre.entry_ok_a1(q));
            assert(pre.fifo@.contains(pre.fifo@[q]));
            assert(pre.fifo@[q] != victim);
        }
        assert forall|k2: u64| #[trigger] post.entries@.contains_key(k2) implies (if post
            .entries@[k2].pos is A1 {
            post.fifo@.contains(k2)
        } else {
            post.lru@.contains(k2)
        }) by {
            assert(pre.entries@.contains_key(k2));
            if !(pre.entries@[k2].pos is A1) {
                let q = choose|q: int| 0 <= q < pre.lru@.len() && pre.lru@[q] == k2;
                assert(q != pre.lru@.len() - 1);
                assert(post.lru@[q] == k2);
            }
        }
    }

    /// After a fresh key enters the probationary front, the
    /// invariant holds.
    proof fn lemma_insert_fresh(pre: Self, post: Self, k: u64, v: V)
        requires
            pre.wf(),
            !pre.entries@.contains_key(k),
            pre.entries@.dom().len() < pre.cap,
            post.fifo.wf(),
            post.lru == pre.lru,
            post.fifo@ == seq![k] + pre.fifo@,
            post.fifo.nodes().len() == pre.fifo.nodes().len() + 1,
            post.fifo.nodes().skip(1) == pre.fifo.nodes(),
            post.fifo@.len() > 0,
            post.entries@ == pre.entries@.insert(
                k,
                Value { pos: KeyPosition::A1, node: post.fifo.nodes()[0], data: v },
            ),
            post.cap == pre.cap,
            post.fifo_cap == pre.fifo_cap,
        ensures
            post.wf(),
            post.contents() == pre.contents().insert(k, v),
            post.a1_keys() == seq![k] + pre.a1_keys(),
            post.am_keys() == pre.am_keys(),
    {
        pre.lemma_queues();
        pre.fifo.lemma_handles();
        post.fifo.lemma_handles();
        assert(post.entries@.dom() =~= pre.entries@.dom().insert(k));
        assert(post.contents() =~= pre.contents().insert(k, v));
        assert forall|q: int| 0 <= q < post.fifo@.len() implies #[trigger] post.entry_ok_a1(
            q,
        ) by {
            if q == 0 {
                assert(post.fifo@[0] == k);
            } else {
                assert(post.fifo@[q] == pre.fifo@[q - 1]);
                assert(post.fifo.nodes()[q] == post.fifo.nodes().skip(1)[q - 1]);
                assert(pre.entry_ok_a1(q - 1));
                assert(pre.fifo@.contains(pre.fifo@[q - 1]));
                assert(pre.fifo@[q - 1] != k);
            }
        }
        assert forall|q: int| 0 <= q < post.lru@.len() implies #[trigger] post.entry_ok_am(q) by {
            assert(pre.entry_ok_am(q));
            assert(pre.lru@.contains(pre.lru@[q]));
            assert(pre.lru@[q] != k);
        }
        assert forall|k2: u64| #[trigger] post.entries@.contains_key(k2) implies (if post
            .entries@[k2].pos is A1 {
            post.fifo@.contains(k2)
        } else {
            post.lru@.contains(k2)
        }) by {
            if k2 == k {
                assert(post.fifo@[0] == k);
            } else {
                assert(pre.entries@.contains_key(k2));
                if pre.entries@[k2].pos is A1 {
                    let q = choose|q: int| 0 <= q < pre.fifo@.len() && pre.fifo@[q] == k2;
                    assert(post.fifo@[q + 1] == k2);
                }
            }
        }
    }

    /// Capacity invariant: the cache never holds more keys than its
    /// capacity.
    pub proof fn lemma_capacity_invariant(&self)
        requires
            self.wf(),
        ensures
            self.spec_len() <= self.spec_capacity(),
    {
        assert(self.contents().dom() =~= self.entries@.dom());
    }

    /// Membership exclusivity: a cached key is in exactly one of the
    /// two queues.
    pub proof fn lemma_membership_exclusive(&self, k: u64)
        requires
            self.wf(),
            self.contents().contains_key(k),
        ensures
            self.a1_keys().contains(k) <==> !self.am_keys().contains(k),
    {
        self.lemma_queues();
    }

    /// A promotion puts the key on the main queue and takes it off
    /// the probationary queue.
    pub proof fn lemma_promotion_to_main(pre: Self, post: Self, k: u64)
        requires
            pre.wf(),
            pre.contents().contains_key(k),
            Self::queues_promoted(pre, post, k),
        ensures
            post.am_keys().contains(k),
            !post.a1_keys().contains(k),
    {
        pre.lemma_queues();
        if pre.am_keys().contains(k) {
            assert(post.am_keys()[0] == k);
            assert(!pre.a1_keys().contains(k));
        } else {
            assert(pre.a1_keys().contains(k));
            assert(post.am_keys()[0] == k);
            let a0 = pre.a1_keys();
            let p = a0.index_of(k);
            let w = choose|w: int| 0 <= w < a0.len() && a0[w] == k;
            assert(a0[p] == k);
            a0.remove_ensures(p);
            assert forall|q: int| 0 <= q < post.a1_keys().len() implies post.a1_keys()[q]
                != k by {
                if q < p {
                    assert(a0.remove(p)[q] == a0[q]);
                } else {
                    assert(a0.remove(p)[q] == a0[q + 1]);
                }
            }
            if post.a1_keys().contains(k) {
                let q = choose|q: int|
                    0 <= q < post.a1_keys().len() && post.a1_keys()[q] == k;
                assert(post.a1_keys()[q] != k);
            }
        }
    }

    /// A key on the main queue stays there across any promotion.
    pub proof fn lemma_main_stable_promote(pre: Self, post: Self, k: u64, k2: u64)
        requires
            pre.wf(),
            pre.contents().contains_key(k2),
            Self::queues_promoted(pre, post, k2),
            pre.am_keys().contains(k),
        ensures
            post.am_keys().contains(k),
    {
        pre.lemma_queues();
        if k2 == k {
            assert(post.am_keys()[0] == k);
        } else if pre.am_keys().contains(k2) {
            let m0 = pre.am_keys();
            let p = m0.index_of(k2);
            let w = choose|w: int| 0 <= w < m0.len() && m0[w] == k2;
            assert(m0[p] == k2);
            m0.remove_ensures(p);
            let q = choose|q: int| 0 <= q < m0.len() && m0[q] == k;
            assert(q != p);
            if q < p {
                assert(m0.remove(p)[q] == k);
                assert(post.am_keys()[q + 1] == k);
            } else {
                assert(m0.remove(p)[q - 1] == k);
                assert(post.am_keys()[q] == k);
            }
        } else {
            let q = choose|q: int| 0 <= q < pre.am_keys().len() && pre.am_keys()[q] == k;
            assert(post.am_keys()[q + 1] == k);
        }
    }

    /// A key on the main queue stays there across any insert that
    /// keeps it cached: there is no way back to the probationary
    /// queue.
    pub proof fn lemma_main_stable_insert(pre: Self, post: Self, k: u64, k2: u64, v: V)
        requires
            pre.wf(),
            Self::inserted(pre, post, k2, v),
            pre.am_keys().contains(k),
            post.contents().contains_key(k),
        ensures
            post.am_keys().contains(k),
    {
        pre.lemma_queues();
        if pre.contents().contains_key(k2) {
            Self::lemma_main_stable_promote(pre, post, k, k2);
        } else if pre.spec_capacity() == 0 {
        } else if pre.spec_len() < pre.spec_capacity() {
        } else {
            if Self::sheds_probationary(pre) {
            } else {
                let m0 = pre.am_keys();
                let victim = Self::victim(pre);
                assert(victim == m0.last());
                let q = choose|q: int| 0 <= q < m0.len() && m0[q] == k;
                assert(k != k2);
                assert(k != victim) by {
                    if k == victim {
                        assert(!pre.contents().remove(victim).insert(k2, v).contains_key(k));
                    }
                }
                assert(q != m0.len() - 1);
                assert(post.am_keys()[q] == k);
            }
        }
    }
}

} // verus!
