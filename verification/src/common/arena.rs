//! A doubly-linked chain threaded through an arena of slots.
//!
//! Links are slot indices instead of raw pointers, so every splice is
//! ordinary safe code, yet each operation still touches a bounded
//! number of slots. A slot is either a member of the chain or sits on
//! the free list, and is reused from there. The chain is described by
//! the ghost sequence of the slot indices it threads, head first; all
//! contracts speak of that sequence.

use vstd::prelude::*;

verus! {

broadcast use vstd::std_specs::vec::axiom_spec_len;

/// One slot of the arena: neighbour links, whether the slot is a
/// chain member, and the stored value.
#[derive(Clone, Copy)]
pub(crate) struct Slot {
    pub(crate) prev: Option<usize>,
    pub(crate) next: Option<usize>,
    pub(crate) in_chain: bool,
    pub(crate) val: u64,
}

/// The arena. `slots` holds every node, `free` the indices of the
/// unused ones; `head` and `tail` are the ends of the chain, `order`
/// its ghost member sequence.
pub(crate) struct ListArena {
    pub(crate) slots: Vec<Slot>,
    pub(crate) free: Vec<usize>,
    pub(crate) head: Option<usize>,
    pub(crate) tail: Option<usize>,
    pub(crate) order: Ghost<Seq<usize>>,
}

impl ListArena {
    /// Number of slots ever allocated (free ones included).
    pub(crate) open spec fn n_slots(&self) -> int {
        self.slots@.len() as int
    }

    /// The slot indices of the chain, head first.
    pub(crate) open spec fn order(&self) -> Seq<usize> {
        self.order@
    }

    /// The value stored in a slot.
    pub(crate) open spec fn val_of(&self, i: int) -> u64 {
        self.slots@[i].val
    }

    /// The slot at position `p` of the chain is marked a member and
    /// carries the right neighbour links.
    pub(crate) open spec fn pos_ok(&self, p: int) -> bool {
        let s = self.order();
        let i = s[p] as int;
        &&& i < self.n_slots()
        &&& self.slots@[i].in_chain
        &&& self.slots@[i].prev == (if p == 0 {
            Option::<usize>::None
        } else {
            Some(s[p - 1])
        })
        &&& self.slots@[i].next == (if p == s.len() - 1 {
            Option::<usize>::None
        } else {
            Some(s[p + 1])
        })
    }

    /// The chain matches its ghost sequence: distinct members, the
    /// recorded ends, and correct links at every position.
    pub(crate) open spec fn chain_ok(&self) -> bool {
        let s = self.order();
        &&& s.no_duplicates()
        &&& (s.len() == 0 ==> self.head is None && self.tail is None)
        &&& (s.len() > 0 ==> self.head == Some(s[0]) && self.tail == Some(s[s.len() - 1]))
        &&& forall|p: int| 0 <= p < s.len() ==> #[trigger] self.pos_ok(p)
    }

    /// Every slot is a chain member or on the free list, as its mark
    /// says.
    pub(crate) open spec fn slot_ok(&self, i: int) -> bool {
        if self.slots@[i].in_chain {
            self.order().contains(i as usize)
        } else {
            self.free@.contains(i as usize)
        }
    }

    /// The arena invariant.
    pub(crate) open spec fn inv(&self) -> bool {
        &&& self.free@.no_duplicates()
        &&& forall|j: int|
            #![trigger self.free@[j]]
            0 <= j < self.free@.len() ==> (self.free@[j] as int) < self.n_slots()
                && !self.slots@[self.free@[j] as int].in_chain
        &&& forall|i: int| 0 <= i < self.n_slots() ==> #[trigger] self.slot_ok(i)
        &&& self.chain_ok()
    }

    /// Vector-backed parts of the arena fit in a machine word.
    proof fn lemma_sizes_fit(&self)
        ensures
            self.n_slots() <= usize::MAX,
            self.free@.len() <= usize::MAX,
    {
        assert(self.slots@.len() == self.slots.len());
        assert(self.free@.len() == self.free.len());
    }

    /// A slot that is not marked a member is on no chain position.
    proof fn lemma_unmarked_not_member(&self, idx: int)
        requires
            self.inv(),
            0 <= idx < self.n_slots(),
            !self.slots@[idx].in_chain,
        ensures
            !self.order().contains(idx as usize),
    {
        self.lemma_sizes_fit();
        if self.order().contains(idx as usize) {
            let p = choose|p: int| 0 <= p < self.order().len() && self.order()[p] == idx as usize;
            assert(self.pos_ok(p));
        }
    }

    /// Members of the chain are distinct.
    pub(crate) proof fn lemma_no_dup(&self)
        requires
            self.inv(),
        ensures
            self.order().no_duplicates(),
    {
    }

    /// An empty arena.
    pub(crate) fn new() -> (r: Self)
        ensures
            r.inv(),
            r.order() == Seq::<usize>::empty(),
            r.n_slots() == 0,
    {
        ListArena {
            slots: Vec::new(),
            free: Vec::new(),
            head: None,
            tail: None,
            order: Ghost(Seq::empty()),
        }
    }

    /// Push a value at the head of the chain; returns the index of
    /// the slot that now holds it.
    pub(crate) fn push_front(&mut self, v: u64) -> (idx: usize)
        requires
            old(self).inv(),
        ensures
            final(self).inv(),
            final(self).order() == seq![idx] + old(self).order(),
            final(self).val_of(idx as int) == v,
            !old(self).order().contains(idx),
            forall|i: int|
                0 <= i < old(self).n_slots() && i != idx as int ==> final(self).val_of(i) == old(
                    self,
                ).val_of(i),
            old(self).n_slots() <= final(self).n_slots(),
            (idx as int) < final(self).n_slots(),
    {
        let ghost pre = *old(self);
        let ghost s0 = pre.order();
        let ghost s1: Seq<usize>;
        let old_head = self.head;
        // take an unused slot, or grow the arena by one
        let idx: usize = match self.free.pop() {
            Some(i) => i,
            None => {
                let n = self.slots.len();
                self.slots.push(Slot { prev: None, next: None, in_chain: false, val: v });
                n
            },
        };
        proof {
            pre.lemma_sizes_fit();
            s1 = seq![idx] + s0;
            if (idx as int) < pre.n_slots() {
                pre.lemma_unmarked_not_member(idx as int);
            } else {
                if s0.contains(idx) {
                    let p = choose|p: int| 0 <= p < s0.len() && s0[p] == idx;
                    assert(pre.pos_ok(p));
                }
            }
            if s0.len() > 0 {
                assert(pre.pos_ok(0));
                assert(s0.contains(s0[0]));
            }
        }
        // link the slot at the head
        self.slots.set(idx, Slot { prev: None, next: old_head, in_chain: true, val: v });
        match old_head {
            Some(h) => {
                proof {
                    assert(h == s0[0] && h != idx);
                }
                let hs = self.slots[h];
                self.slots.set(
                    h,
                    Slot { prev: Some(idx), next: hs.next, in_chain: true, val: hs.val },
                );
            },
            None => {
                self.tail = Some(idx);
            },
        }
        self.head = Some(idx);
        self.order = Ghost(s1);
        proof {
            self.lemma_sizes_fit();
            assert(forall|p: int| 0 <= p < s0.len() ==> s1[p + 1] == s0[p]);
            assert(s1[0] == idx);
            // the free list still holds exactly the unused slots
            assert forall|j1: int, j2: int|
                0 <= j1 < self.free@.len() && 0 <= j2 < self.free@.len() && j1 != j2 implies self
                .free@[j1] != self.free@[j2] by {
                assert(pre.free@[j1] == self.free@[j1]);
                assert(pre.free@[j2] == self.free@[j2]);
            }
            assert forall|j: int|
                #![trigger self.free@[j]]
                0 <= j < self.free@.len() implies (self.free@[j] as int) < self.n_slots()
                && !self.slots@[self.free@[j] as int].in_chain by {
                assert(pre.free@[j] == self.free@[j]);
                assert((pre.free@[j] as int) < pre.n_slots());
                assert(!pre.slots@[pre.free@[j] as int].in_chain);
                if pre.free@.len() == self.free@.len() + 1 {
                    assert(pre.free@[pre.free@.len() - 1] == idx);
                    assert(self.free@[j] != idx);
                } else {
                    assert(self.free@[j] != idx);
                }
                if s0.len() > 0 {
                    assert(self.free@[j] != s0[0]);
                }
            }
            // every slot is where its mark says
            assert forall|i: int| 0 <= i < self.n_slots() implies #[trigger] self.slot_ok(i) by {
                if i == idx as int {
                    assert(self.order()[0] == idx);
                    assert(self.order().contains(idx));
                } else if s0.len() > 0 && i == s0[0] as int {
                    assert(pre.pos_ok(0));
                    assert(self.order()[1] == s0[0]);
                    assert(self.order().contains(s0[0]));
                } else {
                    if i < pre.n_slots() {
                        assert(pre.slot_ok(i));
                        if pre.slots@[i].in_chain {
                            let p = choose|p: int| 0 <= p < s0.len() && s0[p] == i as usize;
                            assert(self.order()[p + 1] == s0[p]);
                            assert(self.order().contains(i as usize));
                        } else {
                            let j = choose|j: int|
                                0 <= j < pre.free@.len() && pre.free@[j] == i as usize;
                            if pre.free@.len() == self.free@.len() + 1 {
                                assert(pre.free@[pre.free@.len() - 1] == idx);
                                assert(j != pre.free@.len() - 1);
                                assert(self.free@[j] == i as usize);
                            } else {
                                assert(self.free@[j] == i as usize);
                            }
                            assert(self.free@.contains(i as usize));
                        }
                    }
                }
            }
            // the chain is still well linked
            assert forall|p: int| 0 <= p < s1.len() implies #[trigger] self.pos_ok(p) by {
                if p == 0 {
                } else {
                    assert(pre.pos_ok(p - 1));
                    assert(s1[p] == s0[p - 1]);
                    if p > 1 {
                        assert(s0[p - 1] != s0[0]);
                        assert(s1[p - 1] == s0[p - 2]);
                    }
                    if p < s1.len() - 1 {
                        assert(s1[p + 1] == s0[p]);
                    }
                }
            }
            assert forall|j1: int, j2: int|
                0 <= j1 < s1.len() && 0 <= j2 < s1.len() && j1 != j2 implies s1[j1] != s1[j2] by {
                if j1 == 0 || j2 == 0 {
                    assert(!s0.contains(idx));
                } else {
                    assert(s1[j1] == s0[j1 - 1]);
                    assert(s1[j2] == s0[j2 - 1]);
                }
            }
            assert(s1.no_duplicates());
        }
        idx
    }

    /// Push a value at the tail of the chain; returns the index of
    /// the slot that now holds it.
    pub(crate) fn push_back(&mut self, v: u64) -> (idx: usize)
        requires
            old(self).inv(),
        ensures
            final(self).inv(),
            final(self).order() == old(self).order().push(idx),
            final(self).val_of(idx as int) == v,
            !old(self).order().contains(idx),
            forall|i: int|
                0 <= i < old(self).n_slots() && i != idx as int ==> final(self).val_of(i) == old(
                    self,
                ).val_of(i),
            old(self).n_slots() <= final(self).n_slots(),
            (idx as int) < final(self).n_slots(),
    {
        let ghost pre = *old(self);
        let ghost s0 = pre.order();
        let ghost s1: Seq<usize>;
        let old_tail = self.tail;
        // take an unused slot, or grow the arena by one
        let idx: usize = match self.free.pop() {
            Some(i) => i,
            None => {
                let n = self.slots.len();
                self.slots.push(Slot { prev: None, next: None, in_chain: false, val: v });
                n
            },
        };
        proof {
            pre.lemma_sizes_fit();
            s1 = s0.push(idx);
            if (idx as int) < pre.n_slots() {
                pre.lemma_unmarked_not_member(idx as int);
            } else {
                if s0.contains(idx) {
                    let p = choose|p: int| 0 <= p < s0.len() && s0[p] == idx;
                    assert(pre.pos_ok(p));
                }
            }
            if s0.len() > 0 {
                assert(pre.pos_ok(s0.len() - 1));
                assert(s0.contains(s0.last()));
            }
        }
        // link the slot at the tail
        self.slots.set(idx, Slot { prev: old_tail, next: None, in_chain: true, val: v });
        match old_tail {
            Some(t) => {
                proof {
                    assert(t == s0.last() && t != idx);
                }
                let ts = self.slots[t];
                self.slots.set(
                    t,
                    Slot { prev: ts.prev, next: Some(idx), in_chain: true, val: ts.val },
                );
            },
            None => {
                self.head = Some(idx);
            },
        }
        self.tail = Some(idx);
        self.order = Ghost(s1);
        proof {
            self.lemma_sizes_fit();
            assert(forall|p: int| 0 <= p < s0.len() ==> s1[p] == s0[p]);
            assert(s1[s0.len() as int] == idx);
            assert forall|j1: int, j2: int|
                0 <= j1 < self.free@.len() && 0 <= j2 < self.free@.len() && j1 != j2 implies self
                .free@[j1] != self.free@[j2] by {
                assert(pre.free@[j1] == self.free@[j1]);
                assert(pre.free@[j2] == self.free@[j2]);
            }
            assert forall|j: int|
                #![trigger self.free@[j]]
                0 <= j < self.free@.len() implies (self.free@[j] as int) < self.n_slots()
                && !self.slots@[self.free@[j] as int].in_chain by {
                assert(pre.free@[j] == self.free@[j]);
                assert((pre.free@[j] as int) < pre.n_slots());
                assert(!pre.slots@[pre.free@[j] as int].in_chain);
                if pre.free@.len() == self.free@.len() + 1 {
                    assert(pre.free@[pre.free@.len() - 1] == idx);
                    assert(self.free@[j] != idx);
                } else {
                    assert(self.free@[j] != idx);
                }
                if s0.len() > 0 {
                    assert(self.free@[j] != s0.last());
                }
            }
            assert forall|i: int| 0 <= i < self.n_slots() implies #[trigger] self.slot_ok(i) by {
                if i == idx as int {
                    assert(self.order()[s0.len() as int] == idx);
                    assert(self.order().contains(idx));
                } else if s0.len() > 0 && i == s0.last() as int {
                    assert(pre.pos_ok(s0.len() - 1));
                    assert(self.order()[s0.len() - 1] == s0.last());
                    assert(self.order().contains(s0.last()));
                } else {
                    if i < pre.n_slots() {
                        assert(pre.slot_ok(i));
                        if pre.slots@[i].in_chain {
                            let p = choose|p: int| 0 <= p < s0.len() && s0[p] == i as usize;
                            assert(self.order()[p] == s0[p]);
                            assert(self.order().contains(i as usize));
                        } else {
                            let j = choose|j: int|
                                0 <= j < pre.free@.len() && pre.free@[j] == i as usize;
                            if pre.free@.len() == self.free@.len() + 1 {
                                assert(pre.free@[pre.free@.len() - 1] == idx);
                                assert(j != pre.free@.len() - 1);
                                assert(self.free@[j] == i as usize);
                            } else {
                                assert(self.free@[j] == i as usize);
                            }
                            assert(self.free@.contains(i as usize));
                        }
                    }
                }
            }
            assert forall|p: int| 0 <= p < s1.len() implies #[trigger] self.pos_ok(p) by {
                if p == s1.len() - 1 {
                    if s0.len() > 0 {
                        assert(s1[p - 1] == s0[s0.len() - 1]);
                    }
                } else {
                    assert(pre.pos_ok(p));
                    assert(s1[p] == s0[p]);
                    if p == s0.len() - 1 {
                        assert(s1[p + 1] == idx);
                    } else {
                        assert(s1[p + 1] == s0[p + 1]);
                        assert(s0[p] != s0.last());
                    }
                    if p > 0 {
                        assert(s1[p - 1] == s0[p - 1]);
                    }
                    assert(s0[p] != idx);
                }
            }
            assert forall|j1: int, j2: int|
                0 <= j1 < s1.len() && 0 <= j2 < s1.len() && j1 != j2 implies s1[j1] != s1[j2] by {
                if j1 == s1.len() - 1 || j2 == s1.len() - 1 {
                    assert(!s0.contains(idx));
                } else {
                    assert(s1[j1] == s0[j1]);
                    assert(s1[j2] == s0[j2]);
                }
            }
            assert(s1.no_duplicates());
        }
        idx
    }

    /// Unlink a member slot from the chain and return it to the free
    /// list. The other members keep their order.
    pub(crate) fn remove(&mut self, idx: usize)
        requires
            old(self).inv(),
            old(self).order().contains(idx),
        ensures
            final(self).inv(),
            ({
                let s0 = old(self).order();
                let p = s0.index_of(idx);
                &&& 0 <= p < s0.len()
                &&& s0[p] == idx
                &&& final(self).order() == s0.remove(p)
            }),
            !final(self).order().contains(idx),
            forall|i: int|
                0 <= i < old(self).n_slots() ==> final(self).val_of(i) == old(self).val_of(i),
            final(self).n_slots() == old(self).n_slots(),
    {
        let ghost pre = *old(self);
        let ghost s0 = pre.order();
        let ghost p = s0.index_of(idx);
        proof {
            pre.lemma_sizes_fit();
            let w = choose|w: int| 0 <= w < s0.len() && s0[w] == idx;
            assert(0 <= p < s0.len() && s0[p] == idx);
            assert(pre.pos_ok(p));
            s0.remove_ensures(p);
            // idx appears at no other position
            assert forall|q: int| 0 <= q < s0.len() && s0[q] == idx implies q == p by {}
            if p > 0 {
                assert(pre.pos_ok(p - 1));
            }
            if p < s0.len() - 1 {
                assert(pre.pos_ok(p + 1));
            }
        }
        let sl = self.slots[idx];
        match sl.prev {
            Some(pr) => {
                let ps = self.slots[pr];
                self.slots.set(
                    pr,
                    Slot { prev: ps.prev, next: sl.next, in_chain: true, val: ps.val },
                );
            },
            None => {
                self.head = sl.next;
            },
        }
        match sl.next {
            Some(nx) => {
                let ns = self.slots[nx];
                self.slots.set(
                    nx,
                    Slot { prev: sl.prev, next: ns.next, in_chain: true, val: ns.val },
                );
            },
            None => {
                self.tail = sl.prev;
            },
        }
        self.slots.set(idx, Slot { prev: None, next: None, in_chain: false, val: sl.val });
        self.free.push(idx);
        self.order = Ghost(s0.remove(p));
        proof {
            self.lemma_sizes_fit();
            let s1 = s0.remove(p);
            s0.remove_ensures(p);
            // the free list grew by exactly the unlinked slot
            assert(!pre.free@.contains(idx));
            assert forall|j1: int, j2: int|
                0 <= j1 < self.free@.len() && 0 <= j2 < self.free@.len() && j1 != j2 implies self
                .free@[j1] != self.free@[j2] by {
                if j1 < self.free@.len() - 1 && j2 < self.free@.len() - 1 {
                    assert(self.free@[j1] == pre.free@[j1]);
                    assert(self.free@[j2] == pre.free@[j2]);
                } else {
                    assert(pre.free@.contains(idx) == false);
                }
            }
            assert forall|j: int|
                #![trigger self.free@[j]]
                0 <= j < self.free@.len() implies (self.free@[j] as int) < self.n_slots()
                && !self.slots@[self.free@[j] as int].in_chain by {
                if j < self.free@.len() - 1 {
                    assert(self.free@[j] == pre.free@[j]);
                    assert((pre.free@[j] as int) < pre.n_slots());
                    assert(!pre.slots@[pre.free@[j] as int].in_chain);
                    if p > 0 {
                        assert(pre.free@[j] != s0[p - 1]);
                    }
                    if p < s0.len() - 1 {
                        assert(pre.free@[j] != s0[p + 1]);
                    }
                } else {
                    assert(self.free@[j] == idx);
                }
            }
            // every slot is where its mark says
            assert forall|i: int| 0 <= i < self.n_slots() implies #[trigger] self.slot_ok(i) by {
                if i == idx as int {
                    assert(self.free@[self.free@.len() - 1] == idx);
                    assert(self.free@.contains(idx));
                } else {
                    assert(pre.slot_ok(i));
                    if pre.slots@[i].in_chain {
                        let q = choose|q: int| 0 <= q < s0.len() && s0[q] == i as usize;
                        assert(q != p);
                        if q < p {
                            assert(s1[q] == s0[q]);
                        } else {
                            assert(s1[q - 1] == s0[q]);
                        }
                        assert(s1.contains(i as usize));
                    } else {
                        let j = choose|j: int|
                            0 <= j < pre.free@.len() && pre.free@[j] == i as usize;
                        assert(self.free@[j] == i as usize);
                        assert(self.free@.contains(i as usize));
                    }
                }
            }
            // the chain is still well linked
            assert forall|q: int| 0 <= q < s1.len() implies #[trigger] self.pos_ok(q) by {
                if q < p {
                    assert(s1[q] == s0[q]);
                    assert(pre.pos_ok(q));
                    if q == p - 1 {
                        if q > 0 {
                            assert(s1[q - 1] == s0[q - 1]);
                        }
                        if q < s1.len() - 1 {
                            assert(s1[q + 1] == s0[q + 2]);
                        }
                    } else {
                        assert(s0[q] != s0[p] && q != p);
                        if p > 0 {
                            assert(s0[q] != s0[p - 1] || q == p - 1);
                        }
                        if p < s0.len() - 1 {
                            assert(s0[q] != s0[p + 1]);
                        }
                        if q > 0 {
                            assert(s1[q - 1] == s0[q - 1]);
                        }
                        if q < s1.len() - 1 {
                            if q + 1 < p {
                                assert(s1[q + 1] == s0[q + 1]);
                            } else {
                                assert(s1[q + 1] == s0[q + 2]);
                            }
                        }
                    }
                } else {
                    assert(s1[q] == s0[q + 1]);
                    assert(pre.pos_ok(q + 1));
                    if q == p {
                        if q > 0 {
                            assert(s1[q - 1] == s0[q - 1]);
                        }
                        if q < s1.len() - 1 {
                            assert(s1[q + 1] == s0[q + 2]);
                        }
                    } else {
                        assert(s0[q + 1] != s0[p]);
                        if p > 0 {
                            assert(s0[q + 1] != s0[p - 1]);
                        }
                        if p < s0.len() - 1 {
                            assert(s0[q + 1] != s0[p + 1] || q == p);
                        }
                        if q > 0 {
                            if q - 1 < p {
                                assert(s1[q - 1] == s0[q - 1]);
                            } else {
                                assert(s1[q - 1] == s0[q]);
                            }
                        }
                        if q < s1.len() - 1 {
                            assert(s1[q + 1] == s0[q + 2]);
                        }
                    }
                }
            }
            assert forall|j1: int, j2: int|
                0 <= j1 < s1.len() && 0 <= j2 < s1.len() && j1 != j2 implies s1[j1] != s1[j2] by {
                let a1: int = if j1 < p {
                    j1
                } else {
                    j1 + 1
                };
                let a2: int = if j2 < p {
                    j2
                } else {
                    j2 + 1
                };
                assert(s1[j1] == s0[a1]);
                assert(s1[j2] == s0[a2]);
            }
            assert(s1.no_duplicates());
            if s1.len() > 0 {
                if p == 0 {
                    assert(s1[0] == s0[1]);
                } else {
                    assert(s1[0] == s0[0]);
                }
                if p == s0.len() - 1 {
                    assert(s1[s1.len() - 1] == s0[s0.len() - 2]);
                } else {
                    assert(s1[s1.len() - 1] == s0[s0.len() - 1]);
                }
            }
            // the freed slot is off the chain
            if self.order().contains(idx) {
                let q = choose|q: int| 0 <= q < self.order().len() && self.order()[q] == idx;
                assert(self.pos_ok(q));
            }
        }
    }

    /// The slot index at the head of the chain, if any.
    pub(crate) fn head(&self) -> (r: Option<usize>)
        requires
            self.inv(),
        ensures
            self.order().len() == 0 ==> r is None,
            self.order().len() > 0 ==> r == Some(self.order()[0]),
    {
        self.head
    }

    /// The slot index at the tail of the chain, if any.
    pub(crate) fn tail(&self) -> (r: Option<usize>)
        requires
            self.inv(),
        ensures
            self.order().len() == 0 ==> r is None,
            self.order().len() > 0 ==> r == Some(self.order().last()),
    {
        self.tail
    }

    /// The value held by a member slot.
    pub(crate) fn value(&self, idx: usize) -> (r: u64)
        requires
            self.inv(),
            self.order().contains(idx),
        ensures
            r == self.val_of(idx as int),
    {
        proof {
            let p = choose|p: int| 0 <= p < self.order().len() && self.order()[p] == idx;
            assert(self.pos_ok(p));
        }
        self.slots[idx].val
    }

    /// The successor of a member slot within the chain.
    pub(crate) fn next(&self, idx: usize) -> (r: Option<usize>)
        requires
            self.inv(),
            self.order().contains(idx),
        ensures
            ({
                let s = self.order();
                let p = s.index_of(idx);
                &&& 0 <= p < s.len()
                &&& s[p] == idx
                &&& (p == s.len() - 1 ==> r is None)
                &&& (p < s.len() - 1 ==> r == Some(s[p + 1]))
            }),
    {
        let ghost s = self.order();
        let ghost p = s.index_of(idx);
        proof {
            let w = choose|w: int| 0 <= w < s.len() && s[w] == idx;
            assert(0 <= p < s.len() && s[p] == idx);
            assert(self.pos_ok(p));
        }
        self.slots[idx].next
    }

    /// The predecessor of a member slot within the chain.
    pub(crate) fn prev(&self, idx: usize) -> (r: Option<usize>)
        requires
            self.inv(),
            self.order().contains(idx),
        ensures
            ({
                let s = self.order();
                let p = s.index_of(idx);
                &&& 0 <= p < s.len()
                &&& s[p] == idx
                &&& (p == 0 ==> r is None)
                &&& (p > 0 ==> r == Some(s[p - 1]))
            }),
    {
        let ghost s = self.order();
        let ghost p = s.index_of(idx);
        proof {
            let w = choose|w: int| 0 <= w < s.len() && s[w] == idx;
            assert(0 <= p < s.len() && s[p] == idx);
            assert(self.pos_ok(p));
        }
        self.slots[idx].prev
    }
}

} // verus!
