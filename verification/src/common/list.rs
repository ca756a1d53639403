//! A doubly-linked list of `u64` values with constant-time push and
//! pop at both ends and constant-time removal of any node by handle.
//!
//! The list owns one chain of the slot arena; a node handle is the
//! index of the slot that holds the node. The view of a list is the
//! sequence of its values, head first.

use crate::common::arena::ListArena;
use vstd::prelude::*;

verus! {

/// A doubly-linked list of `u64` values.
pub struct List {
    arena: ListArena,
    len: usize,
}

impl View for List {
    type V = Seq<u64>;

    /// The values of the list, head first.
    closed spec fn view(&self) -> Seq<u64> {
        self.arena.order().map_values(|h: usize| self.arena.val_of(h as int))
    }
}

impl List {
    /// The list is backed by a live, well-formed chain.
    pub closed spec fn wf(&self) -> bool {
        &&& self.arena.inv()
        &&& self.len == self.arena.order().len()
    }

    /// The node handles of the list, head first.
    pub closed spec fn nodes(&self) -> Seq<usize> {
        self.arena.order()
    }

    /// Handles are as many as values and never repeat.
    pub proof fn lemma_handles(&self)
        requires
            self.wf(),
        ensures
            self.nodes().len() == self@.len(),
            self.nodes().no_duplicates(),
    {
        self.arena.lemma_no_dup();
    }

    /// An empty list.
    pub fn new() -> (r: List)
        ensures
            r.wf(),
            r@ == Seq::<u64>::empty(),
            r.nodes() == Seq::<usize>::empty(),
    {
        let arena = ListArena::new();
        let r = List { arena, len: 0 };
        proof {
            assert(r@ =~= Seq::<u64>::empty());
        }
        r
    }

    /// The number of values in the list.
    pub fn len(&self) -> (r: usize)
        requires
            self.wf(),
        ensures
            r == self@.len(),
    {
        proof {
            assert(self@.len() == self.nodes().len());
        }
        self.len
    }

    /// The handle of the head node, if any.
    pub fn head(&self) -> (r: Option<usize>)
        requires
            self.wf(),
        ensures
            self@.len() == 0 ==> r is None,
            self@.len() > 0 ==> r == Some(self.nodes()[0]),
    {
        self.arena.head()
    }

    /// The handle of the tail node, if any.
    pub fn tail(&self) -> (r: Option<usize>)
        requires
            self.wf(),
        ensures
            self@.len() == 0 ==> r is None,
            self@.len() > 0 ==> r == Some(self.nodes().last()),
    {
        self.arena.tail()
    }

    /// The value held by a node of this list.
    pub fn value(&self, node: usize) -> (r: u64)
        requires
            self.wf(),
            self.nodes().contains(node),
        ensures
            r == self@[self.nodes().index_of(node)],
    {
        proof {
            let w = choose|w: int| 0 <= w < self.nodes().len() && self.nodes()[w] == node;
            let p = self.nodes().index_of(node);
            assert(0 <= p < self.nodes().len() && self.nodes()[p] == node);
        }
        self.arena.value(node)
    }

    /// Push a value at the head.
    pub fn push_front(&mut self, v: u64)
        requires
            old(self).wf(),
            old(self)@.len() < usize::MAX,
        ensures
            final(self).wf(),
            final(self)@ == seq![v] + old(self)@,
            final(self).nodes().len() == old(self).nodes().len() + 1,
            final(self).nodes().skip(1) == old(self).nodes(),
    {
        let h = self.arena.push_front(v);
        self.len = self.len + 1;
        proof {
            assert(final(self).nodes() == seq![h] + old(self).nodes());
            assert(final(self).nodes().skip(1) =~= old(self).nodes());
            assert(old(self).arena.chain_ok());
            assert forall|p: int| 0 <= p < final(self)@.len() implies final(self)@[p] == (seq![v]
                + old(self)@)[p] by {
                if p > 0 {
                    assert(final(self).nodes()[p] == old(self).nodes()[p - 1]);
                    assert(old(self).nodes().contains(old(self).nodes()[p - 1]));
                    assert(old(self).arena.pos_ok(p - 1));
                }
            }
            assert(final(self)@ =~= seq![v] + old(self)@);
        }
    }

    /// Push a value at the tail.
    pub fn push_back(&mut self, v: u64)
        requires
            old(self).wf(),
            old(self)@.len() < usize::MAX,
        ensures
            final(self).wf(),
            final(self)@ == old(self)@.push(v),
            final(self).nodes().len() == old(self).nodes().len() + 1,
            final(self).nodes().take(old(self).nodes().len() as int) == old(self).nodes(),
    {
        let h = self.arena.push_back(v);
        self.len = self.len + 1;
        proof {
            assert(final(self).nodes() == old(self).nodes().push(h));
            assert(final(self).nodes().take(old(self).nodes().len() as int) =~= old(
                self,
            ).nodes());
            assert(old(self).arena.chain_ok());
            assert forall|p: int| 0 <= p < final(self)@.len() implies final(self)@[p] == old(
                self,
            )@.push(v)[p] by {
                if p < final(self)@.len() - 1 {
                    assert(final(self).nodes()[p] == old(self).nodes()[p]);
                    assert(old(self).nodes().contains(old(self).nodes()[p]));
                    assert(old(self).arena.pos_ok(p));
                }
            }
            assert(final(self)@ =~= old(self)@.push(v));
        }
    }

    /// Remove the node behind a handle, which must belong to this
    /// list. The other nodes keep their order.
    pub fn remove_node(&mut self, node: Option<usize>)
        requires
            old(self).wf(),
            node matches Some(h) && old(self).nodes().contains(h),
        ensures
            final(self).wf(),
            ({
                let h = node.unwrap();
                let p = old(self).nodes().index_of(h);
                &&& 0 <= p < old(self)@.len()
                &&& final(self)@ == old(self)@.remove(p)
                &&& final(self).nodes() == old(self).nodes().remove(p)
            }),
    {
        let h = match node {
            Some(h) => h,
            None => {
                proof {
                    assert(false);
                }
                0
            },
        };
        proof {
            self.arena.lemma_no_dup();
            let w = choose|w: int| 0 <= w < self.nodes().len() && self.nodes()[w] == h;
            assert(self.nodes()[self.nodes().index_of(h)] == h);
        }
        let ghost s0 = self.nodes();
        let ghost v0 = self@;
        let ghost p = s0.index_of(h);
        self.arena.remove(h);
        self.len = self.len - 1;
        proof {
            s0.remove_ensures(p);
            v0.remove_ensures(p);
            assert(final(self).nodes() == s0.remove(p));
            assert(old(self).arena.chain_ok());
            assert forall|q: int| 0 <= q < final(self)@.len() implies final(self)@[q] == v0.remove(
                p,
            )[q] by {
                if q < p {
                    assert(final(self).nodes()[q] == s0[q]);
                    assert(old(self).arena.pos_ok(q));
                } else {
                    assert(final(self).nodes()[q] == s0[q + 1]);
                    assert(old(self).arena.pos_ok(q + 1));
                }
                assert(s0.contains(final(self).nodes()[q]));
            }
            assert(final(self)@ =~= v0.remove(p));
        }
    }

    /// Pop the head value, with its old handle.
    pub fn pop_front(&mut self) -> (r: Option<(usize, u64)>)
        requires
            old(self).wf(),
        ensures
            final(self).wf(),
            old(self)@.len() == 0 ==> r is None && final(self)@ == old(self)@
                && final(self).nodes() == old(self).nodes(),
            old(self)@.len() > 0 ==> ({
                &&& r matches Some(pair)
                &&& pair.0 == old(self).nodes()[0]
                &&& pair.1 == old(self)@[0]
                &&& final(self)@ == old(self)@.drop_first()
                &&& final(self).nodes() == old(self).nodes().drop_first()
            }),
    {
        let hd = self.arena.head();
        match hd {
            None => None,
            Some(h) => {
                proof {
                    assert(self.nodes().contains(self.nodes()[0]));
                    assert(self@[0] == self.arena.val_of(h as int));
                }
                let v = self.arena.value(h);
                self.remove_node(Some(h));
                proof {
                    let s0 = old(self).nodes();
                    let p = s0.index_of(h);
                    old(self).arena.lemma_no_dup();
                    assert(p == 0);
                    assert(final(self)@ =~= old(self)@.drop_first());
                    assert(final(self).nodes() =~= old(self).nodes().drop_first());
                }
                Some((h, v))
            },
        }
    }

    /// Pop the tail value, with its old handle.
    pub fn pop_back(&mut self) -> (r: Option<(usize, u64)>)
        requires
            old(self).wf(),
        ensures
            final(self).wf(),
            old(self)@.len() == 0 ==> r is None && final(self)@ == old(self)@
                && final(self).nodes() == old(self).nodes(),
            old(self)@.len() > 0 ==> ({
                &&& r matches Some(pair)
                &&& pair.0 == old(self).nodes().last()
                &&& pair.1 == old(self)@.last()
                &&& final(self)@ == old(self)@.drop_last()
                &&& final(self).nodes() == old(self).nodes().drop_last()
            }),
    {
        let tl = self.arena.tail();
        match tl {
            None => None,
            Some(h) => {
                proof {
                    assert(self.nodes().contains(self.nodes().last()));
                    assert(self@.last() == self.arena.val_of(h as int));
                }
                let v = self.arena.value(h);
                self.remove_node(Some(h));
                proof {
                    let s0 = old(self).nodes();
                    let p = s0.index_of(h);
                    old(self).arena.lemma_no_dup();
                    assert(p == s0.len() - 1);
                    assert(final(self)@ =~= old(self)@.drop_last());
                    assert(final(self).nodes() =~= old(self).nodes().drop_last());
                }
                Some((h, v))
            },
        }
    }

    /// The handle of the node `i` steps from the head, or `None` one
    /// step past the tail.
    pub fn get_node_at(&self, i: usize) -> (r: Option<usize>)
        requires
            self.wf(),
            i <= self@.len(),
        ensures
            (i as int) < self@.len() ==> r == Some(self.nodes()[i as int]),
            i as int == self@.len() ==> r is None,
    {
        proof {
            self.arena.lemma_no_dup();
        }
        let mut k: usize = 0;
        let mut cur: Option<usize> = self.arena.head();
        while k < i
            invariant
                self.wf(),
                i <= self@.len(),
                0 <= k <= i,
                (k as int) < self@.len() ==> cur == Some(self.nodes()[k as int]),
                k as int == self@.len() ==> cur is None,
                self.nodes().no_duplicates(),
            decreases i - k,
        {
            let c = match cur {
                Some(c) => c,
                None => {
                    proof {
                        assert(false);
                    }
                    0
                },
            };
            proof {
                assert(self.nodes().contains(self.nodes()[k as int]));
                let p = self.nodes().index_of(c);
                assert(self.nodes()[p] == c);
                assert(p == k as int);
            }
            cur = self.arena.next(c);
            k = k + 1;
        }
        cur
    }

    /// The handle of the node `i` steps from the tail, or `None` one
    /// step past the head.
    pub fn get_node_rev(&self, i: usize) -> (r: Option<usize>)
        requires
            self.wf(),
            i <= self@.len(),
        ensures
            (i as int) < self@.len() ==> r == Some(self.nodes()[self@.len() - 1 - i as int]),
            i as int == self@.len() ==> r is None,
    {
        proof {
            self.arena.lemma_no_dup();
        }
        let mut k: usize = 0;
        let mut cur: Option<usize> = self.arena.tail();
        while k < i
            invariant
                self.wf(),
                i <= self@.len(),
                0 <= k <= i,
                (k as int) < self@.len() ==> cur == Some(
                    self.nodes()[self@.len() - 1 - k as int],
                ),
                k as int == self@.len() ==> cur is None,
                self.nodes().no_duplicates(),
            decreases i - k,
        {
            let c = match cur {
                Some(c) => c,
                None => {
                    proof {
                        assert(false);
                    }
                    0
                },
            };
            proof {
                assert(self.nodes().contains(self.nodes()[self@.len() - 1 - k as int]));
                let p = self.nodes().index_of(c);
                assert(self.nodes()[p] == c);
                assert(p == self@.len() - 1 - k as int);
            }
            cur = self.arena.prev(c);
            k = k + 1;
        }
        cur
    }
}

impl Default for List {
    /// An empty list.
    fn default() -> (r: List)
        ensures
            r.wf(),
            r@ == Seq::<u64>::empty(),
    {
        List::new()
    }
}

} // verus!
