//! A constant-time least-frequently-used (LFU) cache.
//!
//! Every cached key carries an access frequency, and all keys of one
//! frequency sit in one bucket: a queue whose front holds the key
//! promoted most recently. An access moves the key from its bucket
//! into the bucket of the next frequency, creating and destroying
//! buckets as needed, so no bucket is ever left empty. Eviction
//! takes the tail of the minimum-frequency bucket: the least
//! frequently used key, and among those the least recently promoted.

use crate::common::list::List;
use std::collections::HashMap;
use vstd::prelude::*;

verus! {

broadcast use vstd::std_specs::hash::group_hash_axioms;

/// Where a key lives: its frequency names the bucket, the node
/// handle its queue entry within that bucket.
#[derive(Clone, Copy)]
struct Handle {
    freq: u64,
    node: usize,
}

/// The least-frequently-used cache.
pub struct LfuCache<V> {
    capacity: usize,
    buckets: HashMap<u64, List>,
    min_freq: u64,
    elements: HashMap<u64, Handle>,
    data: HashMap<u64, V>,
}

impl<V> LfuCache<V> {
    /// The cached key-value pairs.
    pub closed spec fn contents(&self) -> Map<u64, V> {
        self.data@
    }

    /// The number of cached keys.
    pub open spec fn spec_len(&self) -> nat {
        self.contents().dom().len()
    }

    /// The capacity.
    pub closed spec fn spec_capacity(&self) -> nat {
        self.capacity as nat
    }

    /// Whether some cached key has frequency `f`.
    pub closed spec fn has_bucket(&self, f: u64) -> bool {
        self.buckets@.contains_key(f)
    }

    /// The keys of frequency `f`, most recently promoted first.
    pub closed spec fn bucket_keys(&self, f: u64) -> Seq<u64> {
        self.buckets@[f]@
    }

    /// The access frequency of a cached key.
    pub closed spec fn freq_of(&self, k: u64) -> u64 {
        self.elements@[k].freq
    }

    /// The minimum frequency over all cached keys; meaningful only
    /// when the cache is not empty.
    pub closed spec fn min_active(&self) -> u64 {
        self.min_freq
    }

    /// The key at position `p` of bucket `f` is indexed with that
    /// frequency, and its handle is the node at that position.
    spec fn bucket_entry_ok(&self, f: u64, p: int) -> bool {
        let b = self.buckets@[f];
        let k = b@[p];
        &&& self.elements@.contains_key(k)
        &&& self.elements@[k].freq == f
        &&& self.elements@[k].node == b.nodes()[p]
    }

    /// The cache invariant: every bucket is a well-formed, non-empty
    /// queue of keys of its frequency; the key index and the buckets
    /// agree in both directions; the value store holds exactly the
    /// indexed keys; the count never exceeds the capacity; and
    /// `min_freq` is the least frequency in use.
    /// The structural part of the invariant: every bucket is a
    /// well-formed, non-empty queue of keys of its frequency, the
    /// key index and the buckets agree in both directions, and the
    /// value store holds exactly the indexed keys.
    spec fn index_consistent(&self) -> bool {
        &&& forall|f: u64| #[trigger]
            self.buckets@.contains_key(f) ==> self.buckets@[f].wf() && self.buckets@[f]@.len()
                > 0 && f >= 1
        &&& forall|f: u64, p: int|
            self.buckets@.contains_key(f) && 0 <= p < self.buckets@[f]@.len()
                ==> #[trigger] self.bucket_entry_ok(f, p)
        &&& forall|k: u64| #[trigger]
            self.elements@.contains_key(k) ==> self.buckets@.contains_key(self.elements@[k].freq)
                && self.buckets@[self.elements@[k].freq]@.contains(k)
        &&& self.elements@.dom() == self.data@.dom()
    }

    pub closed spec fn wf(&self) -> bool {
        &&& self.index_consistent()
        &&& self.data@.dom().len() <= self.capacity
        &&& (self.data@.dom().len() > 0 ==> self.buckets@.contains_key(self.min_freq))
        &&& forall|f: u64| #[trigger] self.buckets@.contains_key(f) ==> self.min_freq <= f
    }

    /// Keys never repeat within or across buckets; the buckets hold
    /// exactly the cached keys, each in the bucket of its frequency;
    /// no bucket is larger than the cache.
    pub proof fn lemma_buckets(&self)
        requires
            self.wf(),
        ensures
            forall|f: u64| #[trigger]
                self.has_bucket(f) ==> self.bucket_keys(f).no_duplicates(),
            forall|f: u64, k: u64| #[trigger]
                self.bucket_keys(f).contains(k) && self.has_bucket(f)
                    ==> self.contents().contains_key(k) && self.freq_of(k) == f,
            forall|k: u64| #[trigger]
                self.contents().contains_key(k) ==> self.has_bucket(self.freq_of(k))
                    && self.bucket_keys(self.freq_of(k)).contains(k),
            forall|f: u64| #[trigger] self.has_bucket(f) ==> self.bucket_keys(f).len()
                <= self.spec_len(),
            forall|k: u64| #[trigger]
                self.contents().contains_key(k) ==> self.min_active() <= self.freq_of(k),
    {
        assert forall|f: u64, k: u64| #[trigger]
            self.bucket_keys(f).contains(k) && self.has_bucket(f) implies self
            .contents().contains_key(k) && self.freq_of(k) == f by {
            let p = choose|p: int|
                0 <= p < self.buckets@[f]@.len() && self.buckets@[f]@[p] == k;
            assert(self.bucket_entry_ok(f, p));
        }
        assert forall|f: u64| #[trigger] self.has_bucket(f) implies self.bucket_keys(
            f,
        ).no_duplicates() by {
            let b = self.buckets@[f];
            b.lemma_handles();
            assert forall|p1: int, p2: int|
                0 <= p1 < b@.len() && 0 <= p2 < b@.len() && p1 != p2 implies b@[p1] != b@[p2] by {
                assert(self.bucket_entry_ok(f, p1));
                assert(self.bucket_entry_ok(f, p2));
            }
        }
        assert forall|f: u64| #[trigger] self.has_bucket(f) implies self.bucket_keys(f).len()
            <= self.spec_len() by {
            let b = self.buckets@[f];
            b@.unique_seq_to_set();
            assert(b@.to_set().subset_of(self.data@.dom())) by {
                assert forall|k: u64| #[trigger] b@.to_set().contains(k) implies self
                    .data@.dom().contains(k) by {
                    assert(b@.contains(k));
                    assert(self.bucket_keys(f).contains(k));
                }
            }
            vstd::set_lib::lemma_len_subset(b@.to_set(), self.data@.dom());
        }
        assert forall|k: u64| #[trigger] self.contents().contains_key(k) implies self.min_active()
            <= self.freq_of(k) by {
            assert(self.elements@.contains_key(k));
        }
    }

    /// The frequency a promotion reaches from `c`: one more, capped
    /// at the largest representable value.
    pub open spec fn next_freq(c: u64) -> u64 {
        if c == u64::MAX {
            c
        } else {
            (c + 1) as u64
        }
    }

    /// Create an empty cache with the given capacity.
    pub fn new(capacity: usize) -> (r: LfuCache<V>)
        ensures
            r.wf(),
            r.contents() == Map::<u64, V>::empty(),
            r.spec_len() == 0,
            r.spec_capacity() == capacity as nat,
            forall|f: u64| !r.has_bucket(f),
    {
        let r = LfuCache {
            capacity,
            buckets: HashMap::new(),
            min_freq: 0,
            elements: HashMap::new(),
            data: HashMap::new(),
        };
        proof {
            assert(r.data@.dom() =~= Set::<u64>::empty());
            assert(r.elements@.dom() =~= Set::<u64>::empty());
        }
        r
    }

    /// The number of entries the cache can hold.
    pub fn capacity(&self) -> (r: usize)
        ensures
            r as nat == self.spec_capacity(),
    {
        self.capacity
    }

    /// The number of entries in the cache.
    pub fn len(&self) -> (r: usize)
        ensures
            r as nat == self.spec_len(),
    {
        self.data.len()
    }

    /// Remove all entries; the capacity stays.
    pub fn clear(&mut self)
        requires
            old(self).wf(),
        ensures
            final(self).wf(),
            final(self).contents() == Map::<u64, V>::empty(),
            final(self).spec_len() == 0,
            final(self).spec_capacity() == old(self).spec_capacity(),
            forall|f: u64| !final(self).has_bucket(f),
    {
        self.buckets = HashMap::new();
        self.elements = HashMap::new();
        self.data = HashMap::new();
        self.min_freq = 0;
        proof {
            assert(final(self).data@.dom() =~= Set::<u64>::empty());
            assert(final(self).elements@.dom() =~= Set::<u64>::empty());
        }
    }

    /// One access to the present key `k`: it leaves the bucket of
    /// its frequency `c` for the front of the bucket of `c + 1`
    /// (which is created if absent, while an emptied bucket `c` is
    /// destroyed), and every other key stays put. At the highest
    /// representable frequency the key only moves to the front of
    /// its own bucket.
    pub open spec fn promoted(pre: Self, post: Self, k: u64) -> bool {
        let c = pre.freq_of(k);
        let c2 = Self::next_freq(c);
        let removed = pre.bucket_keys(c).remove(pre.bucket_keys(c).index_of(k));
        &&& post.spec_capacity() == pre.spec_capacity()
        &&& post.freq_of(k) == c2
        &&& forall|k2: u64|
            k2 != k && pre.contents().contains_key(k2) ==> #[trigger] post.freq_of(k2)
                == pre.freq_of(k2)
        &&& if c2 == c {
            &&& post.has_bucket(c) && post.bucket_keys(c) == seq![k] + removed
            &&& forall|f: u64|
                f != c ==> #[trigger] post.has_bucket(f) == pre.has_bucket(f) && (pre.has_bucket(
                    f,
                ) ==> post.bucket_keys(f) == pre.bucket_keys(f))
        } else {
            &&& (removed.len() > 0 ==> post.has_bucket(c) && post.bucket_keys(c) == removed)
            &&& (removed.len() == 0 ==> !post.has_bucket(c))
            &&& post.has_bucket(c2)
            &&& post.bucket_keys(c2) == seq![k] + (if pre.has_bucket(c2) {
                pre.bucket_keys(c2)
            } else {
                Seq::<u64>::empty()
            })
            &&& forall|f: u64|
                f != c && f != c2 ==> #[trigger] post.has_bucket(f) == pre.has_bucket(f) && (
                pre.has_bucket(f) ==> post.bucket_keys(f) == pre.bucket_keys(f))
        }
    }

    /// Look a key up. A hit returns the value and promotes the
    /// key's frequency by one; a miss changes nothing.
    pub fn get(&mut self, k: &u64) -> (r: Option<&V>)
        requires
            old(self).wf(),
        ensures
            final(self).wf(),
            !old(self).contents().contains_key(*k) ==> r is None && *final(self) == *old(self),
            old(self).contents().contains_key(*k) ==> ({
                &&& r matches Some(v) && *v == old(self).contents()[*k]
                &&& final(self).contents() == old(self).contents()
                &&& Self::promoted(*old(self), *final(self), *k)
            }),
    {
        if !self.data.contains_key(k) {
            return None;
        }
        self.update(k);
        match self.data.get(k) {
            Some(v) => Some(v),
            None => {
                proof {
                    assert(final(self).contents().contains_key(*k));
                    assert(false);
                }
                None
            },
        }
    }

    /// Move a present key one frequency up.
    fn update(&mut self, k: &u64)
        requires
            old(self).wf(),
            old(self).contents().contains_key(*k),
        ensures
            final(self).wf(),
            final(self).contents() == old(self).contents(),
            final(self).spec_len() == old(self).spec_len(),
            Self::promoted(*old(self), *final(self), *k),
    {
        let ghost pre = *old(self);
        proof {
            pre.lemma_buckets();
        }
        let (c, node) = {
            let h = match self.elements.get(k) {
                Some(h) => h,
                None => {
                    proof {
                        assert(false);
                    }
                    return ;
                },
            };
            (h.freq, h.node)
        };
        let ghost b0 = pre.bucket_keys(c);
        let ghost p = choose|p: int| 0 <= p < b0.len() && b0[p] == *k;
        proof {
            assert(pre.elements@.contains_key(*k));
            assert(pre.has_bucket(c));
            assert(b0.contains(*k));
            assert(pre.bucket_entry_ok(c, p));
            pre.buckets@[c].lemma_handles();
            assert(pre.buckets@[c].nodes()[p] == node);
            assert(pre.buckets@[c].nodes().contains(node));
        }
        let mut b = match self.buckets.remove(&c) {
            Some(b) => b,
            None => {
                proof {
                    assert(false);
                }
                return ;
            },
        };
        b.remove_node(Some(node));
        proof {
            pre.buckets@[c].lemma_handles();
            let pr = pre.buckets@[c].nodes().index_of(node);
            assert(pre.buckets@[c].nodes()[pr] == node);
            assert(pr == p);
            b0.remove_ensures(p);
            pre.buckets@[c].nodes().remove_ensures(p);
            let q = b0.index_of(*k);
            assert(b0[q] == *k);
            assert(q == p);
            assert(b@ == b0.remove(p));
        }
        if c == u64::MAX {
            // frequency ceiling: refresh within the same bucket
            proof {
                assert(b@.len() < usize::MAX) by {
                    assert(b0.len() <= pre.spec_len());
                    assert(pre.spec_len() <= pre.capacity);
                }
            }
            b.push_front(*k);
            let n2 = match b.head() {
                Some(h) => h,
                None => {
                    proof {
                        assert(false);
                    }
                    0
                },
            };
            self.buckets.insert(c, b);
            self.elements.insert(*k, Handle { freq: c, node: n2 });
            proof {
                assert(self.buckets@ =~= pre.buckets@.insert(u64::MAX, self.buckets@[u64::MAX]));
                Self::lemma_update_wf_top(pre, *self, *k, p);
            }
        } else {
            let c2 = c + 1;
            let ghost b2was = pre.has_bucket(c2);
            let ghost o2: Seq<u64> = if b2was {
                pre.bucket_keys(c2)
            } else {
                Seq::<u64>::empty()
            };
            let mut b2 = match self.buckets.remove(&c2) {
                Some(b2) => b2,
                None => List::new(),
            };
            proof {
                assert(b2@ == o2);
                if b2was {
                    assert(!o2.contains(*k)) by {
                        if o2.contains(*k) {
                            assert(pre.bucket_keys(c2).contains(*k) && pre.has_bucket(c2));
                        }
                    }
                    assert(o2.len() < usize::MAX) by {
                        o2.unique_seq_to_set();
                        assert(o2.to_set().subset_of(pre.data@.dom().remove(*k))) by {
                            assert forall|k2: u64| #[trigger]
                                o2.to_set().contains(k2) implies pre.data@.dom().remove(
                                *k,
                            ).contains(k2) by {
                                assert(o2.contains(k2));
                                assert(pre.bucket_keys(c2).contains(k2) && pre.has_bucket(c2));
                            }
                        }
                        vstd::set_lib::lemma_len_subset(
                            o2.to_set(),
                            pre.data@.dom().remove(*k),
                        );
                        assert(pre.data@.dom().remove(*k).len() == pre.spec_len() - 1);
                    }
                }
            }
            b2.push_front(*k);
            let n2 = match b2.head() {
                Some(h) => h,
                None => {
                    proof {
                        assert(false);
                    }
                    0
                },
            };
            self.buckets.insert(c2, b2);
            let b_emptied = b.len() == 0;
            if b_emptied {
                if self.min_freq == c {
                    self.min_freq = c2;
                }
            } else {
                self.buckets.insert(c, b);
            }
            self.elements.insert(*k, Handle { freq: c2, node: n2 });
            proof {
                Self::lemma_update_wf_step(pre, *self, *k, p, b2was);
            }
        }
    }

    /// After a promotion within the top bucket, the invariant and
    /// the promotion relation hold.
    proof fn lemma_update_wf_top(pre: Self, post: Self, k: u64, p: int)
        requires
            pre.wf(),
            pre.elements@.contains_key(k),
            pre.elements@[k].freq == u64::MAX,
            pre.has_bucket(u64::MAX),
            0 <= p < pre.bucket_keys(u64::MAX).len(),
            pre.bucket_keys(u64::MAX)[p] == k,
            pre.bucket_keys(u64::MAX).index_of(k) == p,
            post.buckets@[u64::MAX].wf(),
            post.buckets@ == pre.buckets@.insert(u64::MAX, post.buckets@[u64::MAX]),
            post.buckets@[u64::MAX]@ == seq![k] + pre.bucket_keys(u64::MAX).remove(p),
            post.buckets@[u64::MAX].nodes().len() == pre.buckets@[u64::MAX].nodes().remove(
                p,
            ).len() + 1,
            post.buckets@[u64::MAX].nodes().skip(1) == pre.buckets@[u64::MAX].nodes().remove(p),
            post.elements@ == pre.elements@.insert(
                k,
                Handle { freq: u64::MAX, node: post.buckets@[u64::MAX].nodes()[0] },
            ),
            post.data@ == pre.data@,
            post.min_freq == pre.min_freq,
            post.capacity == pre.capacity,
        ensures
            post.wf(),
            Self::promoted(pre, post, k),
    {
        pre.lemma_buckets();
        let c = u64::MAX;
        let b0 = pre.bucket_keys(c);
        let bp = post.buckets@[c];
        pre.buckets@[c].lemma_handles();
        bp.lemma_handles();
        b0.remove_ensures(p);
        pre.buckets@[c].nodes().remove_ensures(p);
        assert(post.elements@.dom() =~= pre.elements@.dom());
        assert forall|f: u64| #[trigger] post.buckets@.contains_key(f) implies post.buckets@[f].wf()
            && post.buckets@[f]@.len() > 0 && f >= 1 by {
            if f != c {
                assert(pre.buckets@.contains_key(f));
            }
        }
        assert forall|f: u64, p2: int|
            post.buckets@.contains_key(f) && 0 <= p2 < post.buckets@[f]@.len() implies #[trigger]
            post.bucket_entry_ok(f, p2) by {
            if f == c {
                if p2 == 0 {
                    assert(bp@[0] == k);
                } else {
                    assert(bp@[p2] == b0.remove(p)[p2 - 1]);
                    assert(bp.nodes()[p2] == bp.nodes().skip(1)[p2 - 1]);
                    if p2 - 1 < p {
                        assert(pre.bucket_entry_ok(c, p2 - 1));
                        assert(b0[p2 - 1] != k);
                    } else {
                        assert(pre.bucket_entry_ok(c, p2));
                        assert(b0[p2] != k);
                    }
                }
            } else {
                assert(pre.bucket_entry_ok(f, p2));
                assert(pre.bucket_keys(f).contains(pre.bucket_keys(f)[p2]));
                assert(pre.bucket_keys(f)[p2] != k);
            }
        }
        assert forall|k2: u64| #[trigger] post.elements@.contains_key(k2) implies post
            .buckets@.contains_key(post.elements@[k2].freq) && post.buckets@[post.elements@[
        k2].freq]@.contains(k2) by {
            if k2 == k {
                assert(bp@[0] == k);
            } else {
                assert(pre.elements@.contains_key(k2));
                let f2 = pre.elements@[k2].freq;
                if f2 == c {
                    let q = choose|q: int| 0 <= q < b0.len() && b0[q] == k2;
                    assert(q != p);
                    if q < p {
                        assert(bp@[q + 1] == b0.remove(p)[q]);
                        assert(b0.remove(p)[q] == b0[q]);
                    } else {
                        assert(bp@[q] == b0.remove(p)[q - 1]);
                        assert(b0.remove(p)[q - 1] == b0[q]);
                    }
                }
            }
        }
        assert(Self::next_freq(pre.freq_of(k)) == u64::MAX);
    }

    /// After a promotion from bucket `c` to bucket `c + 1`, the
    /// invariant and the promotion relation hold.
    proof fn lemma_update_wf_step(pre: Self, post: Self, k: u64, p: int, b2was: bool)
        requires
            pre.wf(),
            pre.elements@.contains_key(k),
            pre.elements@[k].freq < u64::MAX,
            pre.has_bucket(pre.elements@[k].freq),
            0 <= p < pre.bucket_keys(pre.elements@[k].freq).len(),
            pre.bucket_keys(pre.elements@[k].freq)[p] == k,
            pre.bucket_keys(pre.elements@[k].freq).index_of(k) == p,
            b2was == pre.has_bucket((pre.elements@[k].freq + 1) as u64),
            ({
                let c = pre.elements@[k].freq;
                let c2 = (c + 1) as u64;
                let removed = pre.bucket_keys(c).remove(p);
                let b2 = post.buckets@[c2];
                &&& b2.wf()
                &&& b2@ == seq![k] + (if b2was {
                    pre.bucket_keys(c2)
                } else {
                    Seq::<u64>::empty()
                })
                &&& b2.nodes().len() == (if b2was {
                    pre.buckets@[c2].nodes().len()
                } else {
                    0
                }) + 1
                &&& b2.nodes().skip(1) == (if b2was {
                    pre.buckets@[c2].nodes()
                } else {
                    Seq::<usize>::empty()
                })
                &&& (removed.len() > 0 ==> ({
                    let b1 = post.buckets@[c];
                    &&& b1.wf()
                    &&& b1@ == removed
                    &&& b1.nodes() == pre.buckets@[c].nodes().remove(p)
                    &&& post.buckets@ == pre.buckets@.remove(c).remove(c2).insert(c2, b2).insert(
                        c,
                        b1,
                    )
                    &&& post.min_freq == pre.min_freq
                }))
                &&& (removed.len() == 0 ==> ({
                    &&& post.buckets@ == pre.buckets@.remove(c).remove(c2).insert(c2, b2)
                    &&& post.min_freq == (if pre.min_freq == c {
                        c2
                    } else {
                        pre.min_freq
                    })
                }))
                &&& post.elements@ == pre.elements@.insert(k, Handle { freq: c2, node: b2.nodes()[0] })
            }),
            post.data@ == pre.data@,
            post.capacity == pre.capacity,
        ensures
            post.wf(),
            Self::promoted(pre, post, k),
    {
        pre.lemma_buckets();
        let c = pre.elements@[k].freq;
        let c2 = (c + 1) as u64;
        let b0 = pre.bucket_keys(c);
        let removed = b0.remove(p);
        let b2 = post.buckets@[c2];
        pre.buckets@[c].lemma_handles();
        b2.lemma_handles();
        if b2was {
            pre.buckets@[c2].lemma_handles();
        }
        b0.remove_ensures(p);
        pre.buckets@[c].nodes().remove_ensures(p);
        assert(post.elements@.dom() =~= pre.elements@.dom());
        assert forall|f: u64| #[trigger] post.buckets@.contains_key(f) implies post.buckets@[f].wf()
            && post.buckets@[f]@.len() > 0 && f >= 1 by {
            if f == c2 {
            } else if f == c {
                assert(removed.len() > 0);
            } else {
                assert(pre.buckets@.contains_key(f));
            }
        }
        assert forall|f: u64, p2: int|
            post.buckets@.contains_key(f) && 0 <= p2 < post.buckets@[f]@.len() implies #[trigger]
            post.bucket_entry_ok(f, p2) by {
            if f == c2 {
                if p2 == 0 {
                    assert(b2@[0] == k);
                } else {
                    assert(b2was);
                    assert(b2@[p2] == pre.bucket_keys(c2)[p2 - 1]);
                    assert(b2.nodes()[p2] == b2.nodes().skip(1)[p2 - 1]);
                    assert(pre.bucket_entry_ok(c2, p2 - 1));
                    assert(pre.bucket_keys(c2).contains(pre.bucket_keys(c2)[p2 - 1]));
                    assert(pre.bucket_keys(c2)[p2 - 1] != k);
                }
            } else if f == c {
                assert(post.buckets@[c]@ == removed);
                if p2 < p {
                    assert(removed[p2] == b0[p2]);
                    assert(post.buckets@[c].nodes()[p2] == pre.buckets@[c].nodes()[p2]);
                    assert(pre.bucket_entry_ok(c, p2));
                    assert(b0[p2] != k);
                } else {
                    assert(removed[p2] == b0[p2 + 1]);
                    assert(post.buckets@[c].nodes()[p2] == pre.buckets@[c].nodes()[p2 + 1]);
                    assert(pre.bucket_entry_ok(c, p2 + 1));
                    assert(b0[p2 + 1] != k);
                }
            } else {
                assert(pre.buckets@.contains_key(f));
                assert(post.buckets@[f] == pre.buckets@[f]);
                assert(pre.bucket_entry_ok(f, p2));
                assert(pre.bucket_keys(f).contains(pre.bucket_keys(f)[p2]));
                assert(pre.bucket_keys(f)[p2] != k);
            }
        }
        assert forall|k2: u64| #[trigger] post.elements@.contains_key(k2) implies post
            .buckets@.contains_key(post.elements@[k2].freq) && post.buckets@[post.elements@[
        k2].freq]@.contains(k2) by {
            if k2 == k {
                assert(b2@[0] == k);
            } else {
                assert(pre.elements@.contains_key(k2));
                let f2 = pre.elements@[k2].freq;
                if f2 == c {
                    let q = choose|q: int| 0 <= q < b0.len() && b0[q] == k2;
                    assert(q != p);
                    assert(removed.len() > 0) by {
                        if q < p {
                            assert(removed[q] == b0[q]);
                        } else {
                            assert(removed[q - 1] == b0[q]);
                        }
                    }
                    if q < p {
                        assert(post.buckets@[c]@[q] == b0[q]);
                    } else {
                        assert(post.buckets@[c]@[q - 1] == b0[q]);
                    }
                } else if f2 == c2 {
                    assert(b2was);
                    let q = choose|q: int|
                        0 <= q < pre.bucket_keys(c2).len() && pre.bucket_keys(c2)[q] == k2;
                    assert(b2@[q + 1] == k2);
                } else {
                    assert(pre.buckets@.contains_key(f2));
                    assert(post.buckets@[f2] == pre.buckets@[f2]);
                }
            }
        }
        assert(post.data@.dom().len() > 0 ==> post.buckets@.contains_key(post.min_freq)) by {
            if removed.len() == 0 && pre.min_freq == c {
            } else {
                if pre.data@.dom().len() > 0 {
                    assert(pre.buckets@.contains_key(pre.min_freq));
                    if pre.min_freq == c2 {
                    } else if pre.min_freq == c {
                        assert(removed.len() > 0);
                    } else {
                    }
                }
            }
        }
        assert forall|f: u64| #[trigger] post.buckets@.contains_key(f) implies post.min_freq
            <= f by {
            if f != c2 {
                assert(pre.buckets@.contains_key(f));
            }
        }
        assert(b0.index_of(k) == p);
        assert(Self::next_freq(pre.freq_of(k)) == c2);
        assert(Self::promoted(pre, post, k)) by {
            assert(post.freq_of(k) == c2);
            if removed.len() > 0 {
                assert(post.has_bucket(c) && post.bucket_keys(c) == removed);
            } else {
                assert(!post.buckets@.contains_key(c));
            }
            assert(post.bucket_keys(c2) == seq![k] + (if pre.has_bucket(c2) {
                pre.bucket_keys(c2)
            } else {
                Seq::<u64>::empty()
            }));
            assert forall|f: u64|
                f != c && f != c2 implies #[trigger] post.has_bucket(f) == pre.has_bucket(f) && (
            pre.has_bucket(f) ==> post.bucket_keys(f) == pre.bucket_keys(f)) by {}
        }
    }

    /// The key an eviction removes: the least recently promoted key
    /// of the minimum-frequency bucket.
    pub open spec fn victim(pre: Self) -> u64 {
        pre.bucket_keys(pre.min_active()).last()
    }

    /// A fresh key entering a cache that has room: it gets
    /// frequency one and the front of bucket one.
    pub open spec fn entered_fresh(pre: Self, post: Self, k: u64) -> bool {
        &&& post.spec_capacity() == pre.spec_capacity()
        &&& post.freq_of(k) == 1
        &&& forall|k2: u64|
            k2 != k && pre.contents().contains_key(k2) ==> #[trigger] post.freq_of(k2)
                == pre.freq_of(k2)
        &&& post.min_active() == 1
        &&& post.has_bucket(1)
        &&& post.bucket_keys(1) == seq![k] + (if pre.has_bucket(1) {
            pre.bucket_keys(1)
        } else {
            Seq::<u64>::empty()
        })
        &&& forall|f: u64|
            f != 1 ==> #[trigger] post.has_bucket(f) == pre.has_bucket(f) && (pre.has_bucket(f)
                ==> post.bucket_keys(f) == pre.bucket_keys(f))
    }

    /// A fresh key entering a full cache: the victim leaves the tail
    /// of the minimum-frequency bucket, then the key gets frequency
    /// one and the front of bucket one.
    pub open spec fn entered_evicting(pre: Self, post: Self, k: u64) -> bool {
        let fmin = pre.min_active();
        let vb = pre.bucket_keys(fmin).drop_last();
        &&& post.spec_capacity() == pre.spec_capacity()
        &&& post.freq_of(k) == 1
        &&& forall|k2: u64|
            k2 != k && k2 != Self::victim(pre) && pre.contents().contains_key(k2)
                ==> #[trigger] post.freq_of(k2) == pre.freq_of(k2)
        &&& post.min_active() == 1
        &&& post.has_bucket(1)
        &&& if fmin == 1 {
            &&& post.bucket_keys(1) == seq![k] + vb
            &&& forall|f: u64|
                f != 1 ==> #[trigger] post.has_bucket(f) == pre.has_bucket(f) && (pre.has_bucket(
                    f,
                ) ==> post.bucket_keys(f) == pre.bucket_keys(f))
        } else {
            &&& post.bucket_keys(1) == seq![k]
            &&& (vb.len() > 0 ==> post.has_bucket(fmin) && post.bucket_keys(fmin) == vb)
            &&& (vb.len() == 0 ==> !post.has_bucket(fmin))
            &&& forall|f: u64|
                f != 1 && f != fmin ==> #[trigger] post.has_bucket(f) == pre.has_bucket(f) && (
                pre.has_bucket(f) ==> post.bucket_keys(f) == pre.bucket_keys(f))
        }
    }

    /// What one `insert` does, for every starting state.
    pub open spec fn inserted(pre: Self, post: Self, k: u64, v: V) -> bool {
        if pre.contents().contains_key(k) {
            &&& post.contents() == pre.contents().insert(k, v)
            &&& Self::promoted(pre, post, k)
        } else if pre.spec_capacity() == 0 {
            post == pre
        } else if pre.spec_len() < pre.spec_capacity() {
            &&& post.contents() == pre.contents().insert(k, v)
            &&& Self::entered_fresh(pre, post, k)
        } else {
            &&& post.contents() == pre.contents().remove(Self::victim(pre)).insert(k, v)
            &&& Self::entered_evicting(pre, post, k)
        }
    }

    /// Insert a key-value pair. A present key is overwritten and its
    /// frequency promoted; a new key evicts when the cache is full,
    /// then enters the front of the frequency-one bucket.
    pub fn insert(&mut self, k: u64, v: V)
        requires
            old(self).wf(),
        ensures
            final(self).wf(),
            Self::inserted(*old(self), *final(self), k, v),
    {
        let ghost pre = *old(self);
        proof {
            pre.lemma_buckets();
        }
        if self.elements.contains_key(&k) {
            proof {
                assert(pre.data@.contains_key(k)) by {
                    assert(pre.elements@.dom().contains(k));
                }
            }
            self.data.insert(k, v);
            let ghost mid = *self;
            proof {
                assert(mid.data@.dom() =~= pre.data@.dom());
                assert(mid.elements@.dom() == mid.data@.dom());
                assert forall|f: u64| #[trigger] mid.buckets@.contains_key(f) implies mid
                    .buckets@[f].wf() && mid.buckets@[f]@.len() > 0 && f >= 1 by {
                    assert(pre.buckets@.contains_key(f));
                }
                assert forall|f: u64, p: int|
                    mid.buckets@.contains_key(f) && 0 <= p < mid.buckets@[f]@.len()
                    implies #[trigger] mid.bucket_entry_ok(f, p) by {
                    assert(pre.bucket_entry_ok(f, p));
                }
                assert forall|k2: u64| #[trigger] mid.elements@.contains_key(k2) implies mid
                    .buckets@.contains_key(mid.elements@[k2].freq) && mid.buckets@[mid.elements@[
                k2].freq]@.contains(k2) by {
                    assert(pre.elements@.contains_key(k2));
                }
                assert(mid.wf());
                assert(mid.contents().contains_key(k));
            }
            self.update(&k);
            proof {
                assert(final(self).contents() == pre.contents().insert(k, v));
                assert(Self::promoted(pre, *final(self), k)) by {
                    assert(Self::promoted(mid, *final(self), k));
                    assert(mid.freq_of(k) == pre.freq_of(k));
                    assert(forall|f: u64|
                        #![trigger mid.bucket_keys(f)]
                        mid.has_bucket(f) == pre.has_bucket(f) && mid.bucket_keys(f)
                            == pre.bucket_keys(f));
                    assert(forall|k2: u64|
                        mid.contents().contains_key(k2) == pre.contents().contains_key(k2)
                            && #[trigger] mid.freq_of(k2) == pre.freq_of(k2));
                }
            }
            return ;
        }
        proof {
            assert(!pre.data@.contains_key(k)) by {
                if pre.data@.contains_key(k) {
                    assert(pre.elements@.dom().contains(k));
                }
            }
        }
        if self.capacity == 0 {
            return ;
        }
        let ghost at_cap = pre.spec_len() == pre.spec_capacity();
        self.eviction();
        let ghost mid = *self;
        proof {
            if at_cap {
                assert(mid.data@.dom() == mid.elements@.dom());
                assert(!mid.elements@.contains_key(k)) by {
                    assert(mid.contents() == pre.contents().remove(Self::victim(pre)));
                    assert(!mid.data@.contains_key(k));
                }
            } else {
                assert(mid == pre);
            }
            assert(mid.index_consistent());
            assert(mid.data@.dom().len() < mid.capacity);
            assert(!mid.elements@.contains_key(k));
        }
        let ghost b1was = mid.buckets@.contains_key(1u64);
        let mut b1 = match self.buckets.remove(&1u64) {
            Some(b) => b,
            None => List::new(),
        };
        proof {
            if b1was {
                assert(b1@.len() < usize::MAX) by {
                    assert(mid.buckets@[1u64].wf());
                    b1.lemma_handles();
                    assert forall|p1: int, p2: int|
                        0 <= p1 < b1@.len() && 0 <= p2 < b1@.len() && p1 != p2 implies b1@[p1]
                        != b1@[p2] by {
                        assert(mid.bucket_entry_ok(1u64, p1));
                        assert(mid.bucket_entry_ok(1u64, p2));
                    }
                    b1@.unique_seq_to_set();
                    assert(b1@.to_set().subset_of(mid.data@.dom())) by {
                        assert forall|k2: u64| #[trigger]
                            b1@.to_set().contains(k2) implies mid.data@.dom().contains(k2) by {
                            assert(b1@.contains(k2));
                            let q = choose|q: int| 0 <= q < b1@.len() && b1@[q] == k2;
                            assert(mid.bucket_entry_ok(1u64, q));
                            assert(mid.elements@.dom().contains(k2));
                        }
                    }
                    vstd::set_lib::lemma_len_subset(b1@.to_set(), mid.data@.dom());
                    assert(mid.data@.dom().len() < mid.capacity);
                }
            }
        }
        b1.push_front(k);
        let n = match b1.head() {
            Some(h) => h,
            None => {
                proof {
                    assert(false);
                }
                0
            },
        };
        self.buckets.insert(1u64, b1);
        self.min_freq = 1;
        self.elements.insert(k, Handle { freq: 1, node: n });
        self.data.insert(k, v);
        proof {
            if !b1was {
                assert(self.buckets@[1u64]@ =~= seq![k]);
            }
            Self::lemma_entered_one(mid, *self, k, v, b1was);
            if at_cap {
                assert(pre.spec_len() == pre.spec_capacity());
                assert(Self::entered_evicting(pre, *final(self), k)) by {
                    let fmin = pre.min_active();
                    let vb = pre.bucket_keys(fmin).drop_last();
                    if fmin == 1 {
                        assert(b1was == (vb.len() > 0));
                        if b1was {
                            assert(mid.bucket_keys(1) == vb);
                        } else {
                            assert(final(self).bucket_keys(1) =~= seq![k] + vb);
                        }
                    } else {
                        assert(!pre.has_bucket(1)) by {
                            if pre.has_bucket(1) {
                                assert(pre.min_freq <= 1);
                            }
                        }
                        assert(!b1was);
                    }
                }
                assert(final(self).contents() =~= pre.contents().remove(
                    Self::victim(pre),
                ).insert(k, v));
            } else {
                assert(pre.spec_len() < pre.spec_capacity());
                assert(Self::entered_fresh(pre, *final(self), k));
                assert(final(self).contents() =~= pre.contents().insert(k, v));
            }
        }
    }

    /// Make room for one more entry: when the cache is full, evict
    /// the least frequently used and, within that frequency, least
    /// recently promoted key. Under capacity (or empty) it does
    /// nothing.
    fn eviction(&mut self)
        requires
            old(self).wf(),
        ensures
            old(self).spec_len() == old(self).spec_capacity() && old(self).spec_len() > 0 ==> ({
                let victim = Self::victim(*old(self));
                let fmin = old(self).min_active();
                let vb = old(self).bucket_keys(fmin).drop_last();
                &&& final(self).index_consistent()
                &&& final(self).spec_len() == old(self).spec_len() - 1
                &&& final(self).contents() == old(self).contents().remove(victim)
                &&& !final(self).elements@.contains_key(victim)
                &&& forall|k2: u64|
                    k2 != victim && old(self).elements@.contains_key(k2)
                        ==> #[trigger] final(self).elements@.contains_key(k2)
                        && final(self).elements@[k2] == old(self).elements@[k2]
                &&& (vb.len() > 0 ==> final(self).buckets@.contains_key(fmin)
                    && final(self).buckets@[fmin]@ == vb)
                &&& (vb.len() == 0 ==> !final(self).buckets@.contains_key(fmin))
                &&& forall|f: u64|
                    f != fmin ==> #[trigger] final(self).buckets@.contains_key(f)
                        == old(self).buckets@.contains_key(f)
                        && (old(self).buckets@.contains_key(f)
                        ==> final(self).buckets@[f] == old(self).buckets@[f])
                &&& final(self).min_freq == old(self).min_freq
                &&& final(self).capacity == old(self).capacity
            }),
            !(old(self).spec_len() == old(self).spec_capacity() && old(self).spec_len() > 0)
                ==> *final(self) == *old(self),
    {
        let ghost pre = *old(self);
        proof {
            pre.lemma_buckets();
        }
        if self.data.len() == self.capacity && self.data.len() > 0 {
            let f = self.min_freq;
            let ghost b0 = pre.bucket_keys(f);
            let mut b = match self.buckets.remove(&f) {
                Some(b) => b,
                None => {
                    proof {
                        assert(false);
                    }
                    return ;
                },
            };
            let victim = match b.pop_back() {
                Some(pair) => pair.1,
                None => {
                    proof {
                        assert(false);
                    }
                    0
                },
            };
            proof {
                assert(pre.bucket_entry_ok(f, b0.len() - 1));
                assert(victim == b0.last());
                assert(pre.elements@.contains_key(victim));
                assert(pre.data@.dom().contains(victim));
            }
            self.elements.remove(&victim);
            self.data.remove(&victim);
            if b.len() > 0 {
                self.buckets.insert(f, b);
            }
            proof {
                Self::lemma_evicted(pre, *self);
            }
        }
    }

    /// After the eviction step of a full insert, the structure is
    /// consistent and exactly the victim is gone.
    proof fn lemma_evicted(pre: Self, post: Self)
        requires
            pre.wf(),
            pre.data@.dom().len() > 0,
            ({
                let fmin = pre.min_freq;
                let b0 = pre.bucket_keys(fmin);
                let vb = b0.drop_last();
                &&& pre.buckets@.contains_key(fmin)
                &&& (vb.len() > 0 ==> post.buckets@ == pre.buckets@.remove(fmin).insert(
                    fmin,
                    post.buckets@[fmin],
                ) && post.buckets@[fmin].wf() && post.buckets@[fmin]@ == vb
                    && post.buckets@[fmin].nodes() == pre.buckets@[fmin].nodes().drop_last())
                &&& (vb.len() == 0 ==> post.buckets@ == pre.buckets@.remove(fmin))
                &&& post.elements@ == pre.elements@.remove(b0.last())
                &&& post.data@ == pre.data@.remove(b0.last())
                &&& post.min_freq == pre.min_freq
                &&& post.capacity == pre.capacity
            }),
        ensures
            post.index_consistent(),
            post.spec_len() == pre.spec_len() - 1,
            post.contents() == pre.contents().remove(Self::victim(pre)),
            !post.elements@.contains_key(Self::victim(pre)),
            forall|k2: u64|
                k2 != Self::victim(pre) && pre.elements@.contains_key(k2)
                    ==> #[trigger] post.elements@.contains_key(k2) && post.elements@[k2]
                    == pre.elements@[k2],
            ({
                let fmin = pre.min_freq;
                let vb = pre.bucket_keys(fmin).drop_last();
                &&& (vb.len() > 0 ==> post.buckets@.contains_key(fmin) && post.buckets@[fmin]@
                    == vb)
                &&& (vb.len() == 0 ==> !post.buckets@.contains_key(fmin))
                &&& forall|f: u64|
                    f != fmin ==> #[trigger] post.buckets@.contains_key(f)
                        == pre.buckets@.contains_key(f) && (pre.buckets@.contains_key(f)
                        ==> post.buckets@[f] == pre.buckets@[f])
            }),
    {
        pre.lemma_buckets();
        let fmin = pre.min_freq;
        let b0 = pre.bucket_keys(fmin);
        let vb = b0.drop_last();
        let victim = b0.last();
        pre.buckets@[fmin].lemma_handles();
        if vb.len() > 0 {
            post.buckets@[fmin].lemma_handles();
        }
        assert(pre.bucket_entry_ok(fmin, b0.len() - 1));
        assert(pre.elements@.contains_key(victim));
        assert(post.elements@.dom() =~= pre.elements@.dom().remove(victim));
        assert(post.data@.dom() =~= pre.data@.dom().remove(victim));
        assert(post.elements@.dom() == post.data@.dom());
        assert(post.contents() =~= pre.contents().remove(victim));
        assert forall|f: u64| #[trigger] post.buckets@.contains_key(f) implies post.buckets@[f].wf()
            && post.buckets@[f]@.len() > 0 && f >= 1 by {
            if f != fmin {
                assert(pre.buckets@.contains_key(f));
            }
        }
        assert forall|f: u64, p2: int|
            post.buckets@.contains_key(f) && 0 <= p2 < post.buckets@[f]@.len() implies #[trigger]
            post.bucket_entry_ok(f, p2) by {
            if f == fmin {
                assert(post.buckets@[f]@[p2] == vb[p2]);
                assert(vb[p2] == b0[p2]);
                assert(pre.bucket_entry_ok(fmin, p2));
                assert(b0[p2] != victim);
            } else {
                assert(pre.buckets@.contains_key(f));
                assert(post.buckets@[f] == pre.buckets@[f]);
                assert(pre.bucket_entry_ok(f, p2));
                assert(pre.bucket_keys(f).contains(pre.bucket_keys(f)[p2]));
                assert(pre.bucket_keys(f)[p2] != victim);
            }
        }
        assert forall|k2: u64| #[trigger] post.elements@.contains_key(k2) implies post
            .buckets@.contains_key(post.elements@[k2].freq) && post.buckets@[post.elements@[
        k2].freq]@.contains(k2) by {
            assert(pre.elements@.contains_key(k2));
            let f2 = pre.elements@[k2].freq;
            if f2 == fmin {
                let q = choose|q: int| 0 <= q < b0.len() && b0[q] == k2;
                assert(q != b0.len() - 1);
                assert(vb[q] == k2);
                assert(vb.len() > 0);
                assert(post.buckets@[fmin]@.contains(k2));
            } else {
                assert(pre.buckets@.contains_key(f2));
                assert(post.buckets@[f2] == pre.buckets@[f2]);
            }
        }
    }

    /// After a fresh key enters the front of bucket one with the
    /// minimum frequency reset, the whole invariant holds.
    proof fn lemma_entered_one(mid: Self, post: Self, k: u64, v: V, b1was: bool)
        requires
            mid.index_consistent(),
            !mid.elements@.contains_key(k),
            mid.data@.dom().len() < mid.capacity,
            b1was == mid.buckets@.contains_key(1u64),
            ({
                let b1 = post.buckets@[1u64];
                &&& b1.wf()
                &&& (b1was ==> b1@ == seq![k] + mid.buckets@[1u64]@ && b1.nodes().len()
                    == mid.buckets@[1u64].nodes().len() + 1 && b1.nodes().skip(1)
                    == mid.buckets@[1u64].nodes())
                &&& (!b1was ==> b1@ == seq![k] && b1.nodes().len() == 1)
                &&& post.buckets@ == mid.buckets@.remove(1u64).insert(1u64, b1)
                &&& post.min_freq == 1
                &&& post.elements@ == mid.elements@.insert(k, Handle { freq: 1, node: b1.nodes()[0] })
                &&& post.data@ == mid.data@.insert(k, v)
                &&& post.capacity == mid.capacity
            }),
        ensures
            post.wf(),
            post.contents() == mid.contents().insert(k, v),
            post.spec_len() == mid.spec_len() + 1,
            post.freq_of(k) == 1,
            forall|k2: u64|
                k2 != k && mid.elements@.contains_key(k2) ==> #[trigger] post.freq_of(k2)
                    == mid.elements@[k2].freq,
            post.min_active() == 1,
            post.has_bucket(1),
            post.bucket_keys(1) == seq![k] + (if b1was {
                mid.buckets@[1u64]@
            } else {
                Seq::<u64>::empty()
            }),
            forall|f: u64|
                f != 1 ==> #[trigger] post.buckets@.contains_key(f) == mid.buckets@.contains_key(
                    f,
                ) && (mid.buckets@.contains_key(f) ==> post.buckets@[f] == mid.buckets@[f]),
    {
        let b1 = post.buckets@[1u64];
        b1.lemma_handles();
        if b1was {
            mid.buckets@[1u64].lemma_handles();
        }
        assert(post.elements@.dom() =~= mid.elements@.dom().insert(k));
        assert(post.data@.dom() =~= mid.data@.dom().insert(k));
        assert(post.elements@.dom() == post.data@.dom());
        assert(post.contents() =~= mid.contents().insert(k, v));
        assert forall|f: u64| #[trigger] post.buckets@.contains_key(f) implies post.buckets@[f].wf()
            && post.buckets@[f]@.len() > 0 && f >= 1 by {
            if f != 1 {
                assert(mid.buckets@.contains_key(f));
            }
        }
        assert forall|f: u64, p2: int|
            post.buckets@.contains_key(f) && 0 <= p2 < post.buckets@[f]@.len() implies #[trigger]
            post.bucket_entry_ok(f, p2) by {
            if f == 1 {
                if p2 == 0 {
                    assert(b1@[0] == k);
                } else {
                    assert(b1was);
                    assert(b1@[p2] == mid.buckets@[1u64]@[p2 - 1]);
                    assert(b1.nodes()[p2] == b1.nodes().skip(1)[p2 - 1]);
                    assert(mid.bucket_entry_ok(1u64, p2 - 1));
                    assert(mid.elements@.dom().contains(mid.buckets@[1u64]@[p2 - 1]));
                    assert(mid.buckets@[1u64]@[p2 - 1] != k);
                }
            } else {
                assert(mid.buckets@.contains_key(f));
                assert(post.buckets@[f] == mid.buckets@[f]);
                assert(mid.bucket_entry_ok(f, p2));
                assert(mid.elements@.dom().contains(mid.buckets@[f]@[p2]));
                assert(mid.buckets@[f]@[p2] != k);
            }
        }
        assert forall|k2: u64| #[trigger] post.elements@.contains_key(k2) implies post
            .buckets@.contains_key(post.elements@[k2].freq) && post.buckets@[post.elements@[
        k2].freq]@.contains(k2) by {
            if k2 == k {
                assert(b1@[0] == k);
            } else {
                assert(mid.elements@.contains_key(k2));
                let f2 = mid.elements@[k2].freq;
                if f2 == 1 {
                    assert(b1was);
                    let q = choose|q: int|
                        0 <= q < mid.buckets@[1u64]@.len() && mid.buckets@[1u64]@[q] == k2;
                    assert(b1@[q + 1] == k2);
                } else {
                    assert(mid.buckets@.contains_key(f2));
                    assert(post.buckets@[f2] == mid.buckets@[f2]);
                }
            }
        }
    }

    /// Capacity invariant: the cache never holds more keys than its
    /// capacity.
    pub proof fn lemma_capacity_invariant(&self)
        requires
            self.wf(),
        ensures
            self.spec_len() <= self.spec_capacity(),
    {
    }

    /// Monotonic promotion: one access raises the key's frequency by
    /// exactly one (up to the representable ceiling) and changes no
    /// other key's frequency.
    pub proof fn lemma_promotion_monotone(pre: Self, post: Self, k: u64)
        requires
            pre.wf(),
            pre.contents().contains_key(k),
            Self::promoted(pre, post, k),
        ensures
            post.freq_of(k) >= pre.freq_of(k),
            pre.freq_of(k) < u64::MAX ==> post.freq_of(k) == pre.freq_of(k) + 1,
            forall|k2: u64|
                k2 != k && pre.contents().contains_key(k2) ==> #[trigger] post.freq_of(k2)
                    == pre.freq_of(k2),
    {
    }

    /// A key's frequency never decreases: any insert leaves every
    /// surviving key at or above its old frequency.
    pub proof fn lemma_frequency_never_decreases(pre: Self, post: Self, k: u64, k2: u64, v: V)
        requires
            pre.wf(),
            Self::inserted(pre, post, k2, v),
            pre.contents().contains_key(k),
            post.contents().contains_key(k),
        ensures
            post.freq_of(k) >= pre.freq_of(k),
    {
        if pre.contents().contains_key(k2) {
            if k == k2 {
                Self::lemma_promotion_monotone(pre, post, k);
            }
        } else if pre.spec_capacity() == 0 {
        } else if pre.spec_len() < pre.spec_capacity() {
            assert(k != k2);
        } else {
            assert(k != k2);
            assert(k != Self::victim(pre)) by {
                if k == Self::victim(pre) {
                    assert(!pre.contents().remove(Self::victim(pre)).insert(
                        k2,
                        v,
                    ).contains_key(k));
                }
            }
        }
    }

    /// Eviction minimality: the key an eviction removes is cached,
    /// carries the minimum frequency among all cached keys, and is
    /// the least recently promoted of that frequency: every other
    /// key of the minimum frequency stands nearer the front of the
    /// minimum bucket.
    pub proof fn lemma_eviction_minimal(&self)
        requires
            self.wf(),
            self.spec_len() > 0,
        ensures
            self.contents().contains_key(Self::victim(*self)),
            self.freq_of(Self::victim(*self)) == self.min_active(),
            forall|k2: u64| #[trigger]
                self.contents().contains_key(k2) ==> self.freq_of(Self::victim(*self))
                    <= self.freq_of(k2),
            Self::victim(*self) == self.bucket_keys(self.min_active()).last(),
            forall|k2: u64|
                self.contents().contains_key(k2) && #[trigger] self.freq_of(k2)
                    == self.min_active() ==> self.bucket_keys(self.min_active()).contains(k2),
            forall|k2: u64|
                self.contents().contains_key(k2) && #[trigger] self.freq_of(k2)
                    == self.min_active() && k2 != Self::victim(*self) ==> self.bucket_keys(
                    self.min_active(),
                ).index_of(k2) < self.bucket_keys(self.min_active()).len() - 1,
    {
        self.lemma_buckets();
        let fmin = self.min_active();
        assert(self.buckets@.contains_key(fmin));
        let b0 = self.bucket_keys(fmin);
        assert(b0.len() > 0);
        assert(b0.contains(b0.last()));
        assert(self.contents().contains_key(Self::victim(*self)) && self.freq_of(
            Self::victim(*self),
        ) == fmin) by {
            assert(b0.contains(Self::victim(*self)) && self.has_bucket(fmin));
        }
        assert forall|k2: u64|
            self.contents().contains_key(k2) && #[trigger] self.freq_of(k2) == fmin && k2
                != Self::victim(*self) implies b0.index_of(k2) < b0.len() - 1 by {
            let w = choose|w: int| 0 <= w < b0.len() && b0[w] == k2;
            let p = b0.index_of(k2);
            assert(b0[p] == k2);
        }
    }
}

} // verus!
