//! A doubly linked list whose nodes live in a dense array.
//!
//! Nodes are stored in a [`Vec`] and reference each other by integer index
//! instead of by pointer; `NIL` is the reserved sentinel index that never
//! names a real slot. The backing store is kept dense — its length always
//! equals the list's logical length — by implementing every removal as a
//! swap-remove against the last storage slot, repointing whichever neighbors
//! referred to the slot that moved.
//!
//! The verification tracks two ghost index maps: `order`, the storage index
//! of each list position, and `pos`, its inverse. The well-formedness
//! invariant says the two are inverse bijections and that every node's
//! `next` and `prev` fields agree with them, so following `next` from `head`
//! and `prev` from `tail` each visit every slot exactly once, in mirrored
//! orders.

use vstd::prelude::*;
use crate::vec::Vec;

verus! {

/// The sentinel index meaning "no node"; it never names a real slot.
pub const NIL: usize = usize::MAX;

/// One list node: a value and the storage indices of its two neighbors.
#[derive(Clone)]
pub struct Node<T> {
    val: T,
    next: usize,
    prev: usize,
}

/// An index-based doubly linked list with a dense backing store.
#[derive(Clone)]
pub struct LinkedList<T> {
    buf: Vec<Node<T>>,
    head: usize,
    tail: usize,
    order: Ghost<Seq<int>>,
    pos: Ghost<Seq<int>>,
}

impl<T> View for LinkedList<T> {
    type V = Seq<T>;

    /// The elements in list order, front to back.
    closed spec fn view(&self) -> Seq<T> {
        Seq::new(self.buf@.len(), |p: int| self.buf@[self.order@[p]].val)
    }
}

impl<T> LinkedList<T> {
    /// `order` maps list positions to storage indices and `pos` is its
    /// inverse: together they witness that the storage is a permutation of
    /// the list.
    spec fn index_maps_ok(&self) -> bool {
        let n = self.buf@.len() as int;
        &&& self.order@.len() == n
        &&& self.pos@.len() == n
        &&& forall|p: int| 0 <= p < n ==> 0 <= #[trigger] self.order@[p] < n
        &&& forall|i: int| 0 <= i < n ==> 0 <= #[trigger] self.pos@[i] < n
        &&& forall|p: int| 0 <= p < n ==> self.pos@[#[trigger] self.order@[p]] == p
        &&& forall|i: int| 0 <= i < n ==> self.order@[#[trigger] self.pos@[i]] == i
    }

    /// The forward link of the node at list position `p` names its successor
    /// (`NIL` at the back).
    spec fn next_ok_at(&self, p: int) -> bool {
        let n = self.buf@.len() as int;
        self.buf@[self.order@[p]].next as int == (if p == n - 1 {
            NIL as int
        } else {
            self.order@[p + 1]
        })
    }

    /// The backward link of the node at list position `p` names its
    /// predecessor (`NIL` at the front).
    spec fn prev_ok_at(&self, p: int) -> bool {
        self.buf@[self.order@[p]].prev as int == (if p == 0 {
            NIL as int
        } else {
            self.order@[p - 1]
        })
    }

    /// Every node's links agree with the position maps.
    spec fn links_ok(&self) -> bool {
        let n = self.buf@.len() as int;
        &&& forall|p: int| 0 <= p < n ==> #[trigger] self.next_ok_at(p)
        &&& forall|p: int| 0 <= p < n ==> #[trigger] self.prev_ok_at(p)
    }

    /// The sentinels name the first and last list position, or `NIL` when
    /// the list is empty.
    spec fn ends_ok(&self) -> bool {
        let n = self.buf@.len() as int;
        &&& self.head as int == (if n == 0 {
            NIL as int
        } else {
            self.order@[0]
        })
        &&& self.tail as int == (if n == 0 {
            NIL as int
        } else {
            self.order@[n - 1]
        })
    }

    /// Well-formedness: dense storage, inverse index maps, consistent links
    /// and sentinels.
    pub closed spec fn wf(&self) -> bool {
        &&& self.buf.wf()
        &&& self.buf@.len() < NIL
        &&& self.index_maps_ok()
        &&& self.links_ok()
        &&& self.ends_ok()
    }

    /// The values in storage (physical) order rather than list order.
    pub closed spec fn storage(&self) -> Seq<T> {
        Seq::new(self.buf@.len(), |i: int| self.buf@[i].val)
    }

    /// Capacity of the backing store.
    pub closed spec fn spec_cap(&self) -> nat {
        self.buf.spec_cap()
    }

    /// Well-formedness depends only on the buffer contents, the index maps
    /// and the sentinels, not on spare capacity.
    proof fn lemma_wf_parts(a: Self, b: Self)
        requires
            a.wf(),
            b.buf.wf(),
            b.buf@ == a.buf@,
            b.order@ == a.order@,
            b.pos@ == a.pos@,
            b.head == a.head,
            b.tail == a.tail,
        ensures
            b.wf(),
            b@ == a@,
    {
        assert forall|p: int| 0 <= p < b.buf@.len() implies #[trigger] b.next_ok_at(p) by {
            assert(a.next_ok_at(p));
        }
        assert forall|p: int| 0 <= p < b.buf@.len() implies #[trigger] b.prev_ok_at(p) by {
            assert(a.prev_ok_at(p));
        }
        assert(b.wf());
        assert(b@ =~= a@);
    }

    /// An empty list: no storage, both sentinels `NIL`.
    pub fn new() -> (r: Self)
        ensures
            r.wf(),
            r@ == Seq::<T>::empty(),
            r.spec_cap() == 0,
    {
        let r = LinkedList {
            buf: Vec::new(),
            head: NIL,
            tail: NIL,
            order: Ghost(Seq::empty()),
            pos: Ghost(Seq::empty()),
        };
        proof {
            assert(r@ =~= Seq::<T>::empty());
        }
        r
    }

    /// The number of elements; the backing store is dense, so this is also
    /// the storage length.
    pub fn len(&self) -> (r: usize)
        ensures
            r == self@.len(),
    {
        self.buf.len()
    }

    /// Whether the list holds no element.
    pub fn is_empty(&self) -> (r: bool)
        ensures
            r == (self@.len() == 0),
    {
        self.len() == 0
    }

    /// Make room for at least `additional` more nodes.
    pub fn reserve(&mut self, additional: usize)
        requires
            old(self).wf(),
            old(self).spec_cap() + additional <= usize::MAX / 2,
        ensures
            final(self).wf(),
            final(self)@ == old(self)@,
            final(self).spec_cap() >= old(self)@.len() + additional,
    {
        self.buf.reserve(additional);
        proof {
            Self::lemma_wf_parts(*old(self), *self);
        }
    }

    /// Append a node to the backing store and hand back its storage index.
    fn push_buf(&mut self, node: Node<T>) -> (ptr: usize)
        requires
            old(self).buf.wf(),
            old(self).buf@.len() < usize::MAX / 2,
        ensures
            final(self).buf.wf(),
            ptr == old(self).buf@.len(),
            final(self).buf@ == old(self).buf@.push(node),
            final(self).head == old(self).head,
            final(self).tail == old(self).tail,
            final(self).order == old(self).order,
            final(self).pos == old(self).pos,
    {
        let ptr = self.buf.len();
        self.buf.push(node);
        ptr
    }

    /// Add `val` at the back of the list.
    pub fn push_back(&mut self, val: T)
        requires
            old(self).wf(),
            old(self)@.len() < usize::MAX / 2,
        ensures
            final(self).wf(),
            final(self)@ == old(self)@.push(val),
    {
        let ghost n = self.buf@.len() as int;
        let ptr = self.push_buf(Node { val, prev: self.tail, next: NIL });
        if self.head == NIL {
            self.head = ptr;
        }
        if self.tail != NIL {
            let t = self.tail;
            self.buf.get_mut(t).next = ptr;
        }
        self.tail = ptr;
        proof {
            self.order@ = old(self).order@.push(n);
            self.pos@ = old(self).pos@.push(n);
            let pre = *old(self);
            assert forall|p: int| 0 <= p < n + 1 implies #[trigger] self.next_ok_at(p) by {
                if p < n {
                    assert(pre.next_ok_at(p));
                    if p < n - 1 {
                        assert(pre.order@[p] != pre.order@[n - 1]) by {
                            assert(pre.pos@[pre.order@[p]] == p);
                            assert(pre.pos@[pre.order@[n - 1]] == n - 1);
                        }
                    }
                }
            }
            assert forall|p: int| 0 <= p < n + 1 implies #[trigger] self.prev_ok_at(p) by {
                if p < n {
                    assert(pre.prev_ok_at(p));
                    if p < n - 1 {
                        assert(pre.order@[p] != pre.order@[n - 1]) by {
                            assert(pre.pos@[pre.order@[p]] == p);
                            assert(pre.pos@[pre.order@[n - 1]] == n - 1);
                        }
                    }
                }
            }
            assert(self.index_maps_ok()) by {
                assert forall|i: int| 0 <= i < n + 1 implies 0 <= #[trigger] self.pos@[i] < n + 1
                    && self.order@[self.pos@[i]] == i by {
                    if i < n {
                        assert(pre.order@[pre.pos@[i]] == i);
                    }
                }
            }
            assert(self.wf());
            assert(self@ =~= old(self)@.push(val));
        }
    }

    /// Remove and return the element at the back of the list.
    pub fn pop_back(&mut self) -> (r: Option<T>)
        requires
            old(self).wf(),
        ensures
            final(self).wf(),
            old(self)@.len() == 0 ==> r is None && final(self)@ == old(self)@,
            old(self)@.len() > 0 ==> (r matches Some(v) && v == old(self)@.last()
                && final(self)@ == old(self)@.drop_last()),
    {
        if self.is_empty() {
            return None;
        }
        let ghost pre = *old(self);
        let ghost n = pre.buf@.len() as int;
        proof {
            assert(pre.pos@[pre.order@[n - 1]] == n - 1);
        }
        let t = self.tail;
        let node = self.remove_node(t);
        let ghost m1 = *self;
        self.tail = node.prev;
        if self.tail != NIL {
            let t2 = self.tail;
            self.buf.get_mut(t2).next = NIL;
        } else {
            self.head = NIL;
        }
        proof {
            if n == 1 {
                assert(self.wf());
                assert(self@ =~= old(self)@.drop_last());
            } else {
                assert forall|p: int| 0 <= p < n - 1 implies #[trigger] self.next_ok_at(p) by {
                    if p < n - 2 {
                        assert(m1.next_ok_at(p));
                        assert(m1.pos@[m1.order@[p]] == p);
                        assert(m1.pos@[m1.order@[n - 2]] == n - 2);
                    }
                }
                assert forall|p: int| 0 <= p < n - 1 implies #[trigger] self.prev_ok_at(p) by {
                    assert(m1.prev_ok_at(p));
                    assert(m1.pos@[m1.order@[p]] == p);
                    assert(m1.pos@[m1.order@[n - 2]] == n - 2);
                }
                assert(self.index_maps_ok()) by {
                    assert forall|pp: int| 0 <= pp < n - 1 implies 0 <= #[trigger] self.order@[pp]
                        < n - 1 && self.pos@[self.order@[pp]] == pp by {
                        assert(0 <= m1.order@[pp] < n - 1);
                        assert(m1.pos@[m1.order@[pp]] == pp);
                    }
                    assert forall|i: int| 0 <= i < n - 1 implies 0 <= #[trigger] self.pos@[i] < n
                        - 1 && self.order@[self.pos@[i]] == i by {
                        assert(0 <= m1.pos@[i] < n - 1);
                        assert(m1.order@[m1.pos@[i]] == i);
                    }
                }
                assert(self.wf());
                assert(self@ =~= old(self)@.drop_last());
            }
        }
        Some(node.val)
    }

    /// Remove and return the element at the front of the list.
    pub fn pop_front(&mut self) -> (r: Option<T>)
        requires
            old(self).wf(),
        ensures
            final(self).wf(),
            old(self)@.len() == 0 ==> r is None && final(self)@ == old(self)@,
            old(self)@.len() > 0 ==> (r matches Some(v) && v == old(self)@.first()
                && final(self)@ == old(self)@.drop_first()),
    {
        if self.is_empty() {
            return None;
        }
        let ghost pre = *old(self);
        let ghost n = pre.buf@.len() as int;
        proof {
            assert(pre.pos@[pre.order@[0]] == 0);
            assert(pre.pos@[pre.order@[n - 1]] == n - 1);
        }
        let h = self.head;
        let node = self.remove_node(h);
        let ghost m1 = *self;
        self.head = node.next;
        if self.head != NIL {
            let h2 = self.head;
            self.buf.get_mut(h2).prev = NIL;
        } else {
            self.tail = NIL;
        }
        proof {
            if n == 1 {
                assert(self.wf());
                assert(self@ =~= old(self)@.drop_first());
            } else {
                assert forall|p: int| 0 <= p < n - 1 implies #[trigger] self.prev_ok_at(p) by {
                    if p > 0 {
                        assert(m1.prev_ok_at(p));
                        assert(m1.pos@[m1.order@[p]] == p);
                        assert(m1.pos@[m1.order@[0]] == 0);
                    }
                }
                assert forall|p: int| 0 <= p < n - 1 implies #[trigger] self.next_ok_at(p) by {
                    assert(m1.next_ok_at(p));
                    assert(m1.pos@[m1.order@[p]] == p);
                    assert(m1.pos@[m1.order@[0]] == 0);
                }
                assert(self.index_maps_ok()) by {
                    assert forall|pp: int| 0 <= pp < n - 1 implies 0 <= #[trigger] self.order@[pp]
                        < n - 1 && self.pos@[self.order@[pp]] == pp by {
                        assert(0 <= m1.order@[pp] < n - 1);
                        assert(m1.pos@[m1.order@[pp]] == pp);
                    }
                    assert forall|i: int| 0 <= i < n - 1 implies 0 <= #[trigger] self.pos@[i] < n
                        - 1 && self.order@[self.pos@[i]] == i by {
                        assert(0 <= m1.pos@[i] < n - 1);
                        assert(m1.order@[m1.pos@[i]] == i);
                    }
                }
                assert(self.wf());
                assert(self@ =~= old(self)@.drop_first());
            }
        }
        Some(node.val)
    }

    /// The removal step that keeps the storage dense: take out the node at
    /// any storage index `ptr` by swap-removing it against the last storage
    /// slot. Before the swap, whichever neighbors pointed at the last slot
    /// are repointed to `ptr`, where that node is about to land, and a
    /// sentinel equal to the old last index is repointed the same way.
    ///
    /// The caller still has to splice the removed node out of the traversal
    /// orders. Writing `p` for the removed node's list position: its
    /// predecessor (if any) keeps a dangling forward link to `ptr`, its
    /// successor (if any) a dangling backward one, both stated here
    /// exactly, and the returned node's own links resolve to the relocated
    /// storage indices of those neighbors. A sentinel that named the
    /// removed node itself still does, also stated.
    #[verifier::rlimit(100)]
    #[verifier::spinoff_prover]
    fn remove_node(&mut self, ptr: usize) -> (r: Node<T>)
        requires
            old(self).wf(),
            ptr < old(self)@.len(),
        ensures
            final(self).buf.wf(),
            final(self).buf@.len() == old(self)@.len() - 1,
            final(self).buf@.len() < NIL,
            final(self).index_maps_ok(),
            // the removed value, and what remains
            ({
                let n = old(self)@.len() as int;
                let p = old(self).pos@[ptr as int];
                &&& r.val == old(self)@[p]
                &&& final(self)@ == old(self)@.remove(p)
                &&& (p == 0 ==> r.prev as int == NIL as int)
                &&& (p > 0 ==> r.prev as int == final(self).order@[p - 1])
                &&& (p == n - 1 ==> r.next as int == NIL as int)
                &&& (p < n - 1 ==> r.next as int == final(self).order@[p])
                &&& (forall|pp: int|
                    0 <= pp < n - 1 && pp != p - 1 ==> #[trigger] final(self).next_ok_at(pp))
                &&& (p > 0 ==> final(self).buf@[final(self).order@[p - 1]].next == ptr)
                &&& (forall|pp: int|
                    0 <= pp < n - 1 && pp != p ==> #[trigger] final(self).prev_ok_at(pp))
                &&& (p < n - 1 ==> final(self).buf@[final(self).order@[p]].prev == ptr)
                &&& (p > 0 ==> final(self).head as int == final(self).order@[0])
                &&& (p == 0 ==> final(self).head == ptr)
                &&& (p < n - 1 ==> final(self).tail as int == final(self).order@[n - 2])
                &&& (p == n - 1 ==> final(self).tail == ptr)
            }),
    {
        let ghost pre = *old(self);
        let ghost n = pre.buf@.len() as int;
        let ghost q = pre.pos@[n - 1];
        let ghost p = pre.pos@[ptr as int];
        let e = self.buf.len() - 1;
        let end_prev = self.buf.get(e).prev;
        let end_next = self.buf.get(e).next;
        if end_prev < self.buf.len() {
            self.buf.get_mut(end_prev).next = ptr;
        }
        if end_next < self.buf.len() {
            self.buf.get_mut(end_next).prev = ptr;
        }
        let ghost b2 = self.buf@;
        let node = self.buf.swap_remove(ptr);
        if self.head == self.buf.len() {
            self.head = ptr;
        }
        if self.tail == self.buf.len() {
            self.tail = ptr;
        }
        proof {
            // facts about the old structure
            assert(pre.order@[p] == ptr && 0 <= p < n);
            assert(pre.order@[q] == n - 1);
            assert(pre.next_ok_at(q) && pre.prev_ok_at(q));
            assert(pre.next_ok_at(p) && pre.prev_ok_at(p));
            if q > 0 {
                assert(pre.next_ok_at(q - 1) && pre.prev_ok_at(q - 1));
            }
            if q < n - 1 {
                assert(pre.next_ok_at(q + 1) && pre.prev_ok_at(q + 1));
            }
            // the new index maps
            let qd = if q > p {
                q - 1
            } else {
                q
            };
            let mid_order = pre.order@.remove(p);
            if ptr as int == n - 1 {
                self.order@ = mid_order;
                self.pos@ = Seq::new(
                    (n - 1) as nat,
                    |i: int|
                        if pre.pos@[i] > p {
                            pre.pos@[i] - 1
                        } else {
                            pre.pos@[i]
                        },
                );
            } else {
                self.order@ = mid_order.update(qd, ptr as int);
                self.pos@ = Seq::new(
                    (n - 1) as nat,
                    |i: int|
                        if i == ptr as int {
                            qd
                        } else if pre.pos@[i] > p {
                            pre.pos@[i] - 1
                        } else {
                            pre.pos@[i]
                        },
                );
            }
            assert(self.index_maps_ok()) by {
                assert forall|pp: int| 0 <= pp < n - 1 implies 0 <= #[trigger] self.order@[pp] < n
                    - 1 && self.pos@[self.order@[pp]] == pp by {
                    assert(pre.pos@[pre.order@[pp]] == pp);
                    assert(pre.pos@[pre.order@[pp + 1]] == pp + 1);
                }
                assert forall|i: int| 0 <= i < n - 1 implies 0 <= #[trigger] self.pos@[i] < n - 1
                    && self.order@[self.pos@[i]] == i by {
                    assert(pre.order@[pre.pos@[i]] == i);
                }
            }
            // extra link facts around the removed position
            if p > 0 {
                assert(pre.next_ok_at(p - 1) && pre.prev_ok_at(p - 1));
            }
            if p < n - 1 {
                assert(pre.next_ok_at(p + 1) && pre.prev_ok_at(p + 1));
            }
            assert(pre.next_ok_at(p) && pre.prev_ok_at(p));
            // the surviving links, skipping the removed node's two neighbors
            assert forall|pp: int| 0 <= pp < n - 1 && pp != p - 1 implies #[trigger] self
                .next_ok_at(pp) by {
                let f = if pp < p {
                    pp
                } else {
                    pp + 1
                };
                let f2 = if pp + 1 < p {
                    pp + 1
                } else {
                    pp + 2
                };
                assert(pre.next_ok_at(f));
                assert(pre.pos@[pre.order@[f]] == f);
                if pp < n - 2 {
                    assert(pre.next_ok_at(f2));
                    assert(pre.pos@[pre.order@[f2]] == f2);
                }
            }
            assert forall|pp: int| 0 <= pp < n - 1 && pp != p implies #[trigger] self.prev_ok_at(
                pp,
            ) by {
                let f = if pp < p {
                    pp
                } else {
                    pp + 1
                };
                let f0 = if pp - 1 < p {
                    pp - 1
                } else {
                    pp
                };
                assert(pre.prev_ok_at(f));
                assert(pre.pos@[pre.order@[f]] == f);
                if pp > 0 {
                    assert(pre.prev_ok_at(f0));
                    assert(pre.pos@[pre.order@[f0]] == f0);
                }
            }
            // the removed node's value and relocated neighbor links
            assert(node.val == old(self)@[p]);
            if p == 0 {
                assert(node.prev as int == NIL as int);
            } else {
                assert(node.prev as int == self.order@[p - 1]) by {
                    if q == p - 1 {
                        assert(b2[ptr as int].prev == ptr);
                        assert(self.order@[p - 1] == ptr as int);
                    } else {
                        assert(b2[ptr as int].prev == pre.order@[p - 1]);
                    }
                }
            }
            if p == n - 1 {
                assert(node.next as int == NIL as int);
            } else {
                assert(node.next as int == self.order@[p]) by {
                    if q == p + 1 {
                        assert(b2[ptr as int].next == ptr);
                        assert(self.order@[p] == ptr as int);
                    } else {
                        assert(b2[ptr as int].next == pre.order@[p + 1]);
                    }
                }
            }
            // the two dangling links the caller must splice out
            if p > 0 {
                assert(self.buf@[self.order@[p - 1]].next == ptr) by {
                    if q == p - 1 {
                        assert(self.order@[p - 1] == ptr as int);
                        assert(self.buf@[ptr as int] == b2[n - 1]);
                    } else {
                        assert(self.order@[p - 1] == pre.order@[p - 1]);
                    }
                }
            }
            if p < n - 1 {
                assert(self.buf@[self.order@[p]].prev == ptr) by {
                    if q == p + 1 {
                        assert(self.order@[p] == ptr as int);
                        assert(self.buf@[ptr as int] == b2[n - 1]);
                    } else {
                        assert(self.order@[p] == pre.order@[p + 1]);
                    }
                }
            }
            // the sentinels, relocated where they named the moved slot
            if p > 0 {
                assert(self.head as int == self.order@[0]) by {
                    if q == 0 {
                        assert(pre.order@[0] == n - 1);
                    } else {
                        assert(pre.order@[0] != n - 1) by {
                            assert(pre.pos@[pre.order@[0]] == 0);
                        }
                    }
                }
            } else {
                assert(self.head == ptr);
            }
            if p < n - 1 {
                assert(self.tail as int == self.order@[n - 2]) by {
                    if q == n - 1 {
                        assert(pre.order@[n - 1] == n - 1);
                    } else {
                        assert(pre.order@[n - 1] != n - 1) by {
                            assert(pre.pos@[pre.order@[n - 1]] == n - 1);
                        }
                    }
                }
            } else {
                assert(self.tail == ptr);
            }
            assert(self@ =~= old(self)@.remove(p));
        }
        node
    }

    /// Add `val` at the front of the list.
    pub fn push_front(&mut self, val: T)
        requires
            old(self).wf(),
            old(self)@.len() < usize::MAX / 2,
        ensures
            final(self).wf(),
            final(self)@ == old(self)@.insert(0, val),
    {
        let ghost n = self.buf@.len() as int;
        let ptr = self.push_buf(Node { val, next: self.head, prev: NIL });
        if self.tail == NIL {
            self.tail = ptr;
        }
        if self.head != NIL {
            let h = self.head;
            self.buf.get_mut(h).prev = ptr;
        }
        self.head = ptr;
        proof {
            self.order@ = old(self).order@.insert(0, n);
            self.pos@ = Seq::new(
                (n + 1) as nat,
                |i: int| if i == n { 0int } else { old(self).pos@[i] + 1 },
            );
            let pre = *old(self);
            assert forall|p: int| 0 <= p < n + 1 implies #[trigger] self.next_ok_at(p) by {
                if p >= 1 {
                    assert(pre.next_ok_at(p - 1));
                    if p > 1 {
                        assert(pre.order@[p - 1] != pre.order@[0]) by {
                            assert(pre.pos@[pre.order@[p - 1]] == p - 1);
                            assert(pre.pos@[pre.order@[0]] == 0);
                        }
                    }
                }
            }
            assert forall|p: int| 0 <= p < n + 1 implies #[trigger] self.prev_ok_at(p) by {
                if p >= 1 {
                    assert(pre.prev_ok_at(p - 1));
                    if p > 1 {
                        assert(pre.order@[p - 1] != pre.order@[0]) by {
                            assert(pre.pos@[pre.order@[p - 1]] == p - 1);
                            assert(pre.pos@[pre.order@[0]] == 0);
                        }
                    }
                }
            }
            assert(self.index_maps_ok()) by {
                assert forall|i: int| 0 <= i < n + 1 implies 0 <= #[trigger] self.pos@[i] < n + 1
                    && self.order@[self.pos@[i]] == i by {
                    if i < n {
                        assert(pre.order@[pre.pos@[i]] == i);
                    }
                }
                assert forall|p: int| 0 <= p < n + 1 implies self.pos@[#[trigger] self.order@[p]]
                    == p by {
                    if p >= 1 {
                        assert(pre.pos@[pre.order@[p - 1]] == p - 1);
                    }
                }
            }
            assert(self.wf());
            assert(self@ =~= old(self)@.insert(0, val));
        }
    }
}

impl<T> LinkedList<T> {
    /// Start a borrowing traversal in list order. The two cursors of the
    /// returned iterator resolve their positions against this list on every
    /// step, so they never hold a reference across steps.
    pub fn iter<'a>(&'a self) -> (r: Iter<'a, T>)
        requires
            self.wf(),
        ensures
            r.wf(),
            r@ == self@,
            r.full() == self@,
    {
        let r = Iter {
            list: self,
            head: self.head,
            tail: self.tail,
            len: self.buf.len(),
            front: Ghost(0),
        };
        proof {
            assert(r@ =~= self@);
        }
        r
    }

    /// Start an owning traversal in list order; it pops from either end.
    pub fn into_iter(self) -> (r: IntoIter<T>)
        requires
            self.wf(),
        ensures
            r.wf(),
            r@ == self@,
    {
        IntoIter { list: self }
    }

    /// Consume the list, handing the elements out in storage order rather
    /// than list order: the same elements, as the contract states, but not
    /// necessarily the same sequence.
    pub fn into_iter_unordered(self) -> (r: IntoIterUnordered<T>)
        requires
            self.wf(),
        ensures
            r.wf(),
            r@ == self.storage(),
            r@.len() == self@.len(),
            r@.to_multiset() == self@.to_multiset(),
    {
        proof {
            lemma_storage_matches_list(self);
        }
        let LinkedList { buf, head: _, tail: _, order: _, pos: _ } = self;
        let inner = buf.into_iter();
        let r = IntoIterUnordered { inner };
        proof {
            assert(r@ =~= self.storage());
        }
        r
    }

    /// Borrow the elements in storage order rather than list order.
    pub fn iter_unordered<'a>(&'a self) -> (r: IterUnordered<'a, T>)
        requires
            self.wf(),
        ensures
            r.wf(),
            r@ == self.storage(),
            r@.len() == self@.len(),
            r@.to_multiset() == self@.to_multiset(),
    {
        proof {
            lemma_storage_matches_list(*self);
        }
        let r = IterUnordered { list: self, current: 0 };
        proof {
            assert(r@ =~= self.storage());
        }
        r
    }
}

/// A borrowing cursor pair over a list: a forward cursor starting at the
/// head and a backward cursor starting at the tail. Both are storage
/// indices resolved against the shared list on each step, and the remaining
/// count refuses another step once the cursors would cross, so the two ends
/// never yield the same element twice.
pub struct Iter<'a, T> {
    list: &'a LinkedList<T>,
    head: usize,
    tail: usize,
    len: usize,
    front: Ghost<int>,
}

impl<'a, T> View for Iter<'a, T> {
    type V = Seq<T>;

    /// The elements not yet yielded from either end, in list order.
    closed spec fn view(&self) -> Seq<T> {
        self.list@.subrange(self.front@, self.front@ + self.len)
    }
}

impl<'a, T> Iter<'a, T> {
    /// The whole sequence under iteration.
    pub closed spec fn full(&self) -> Seq<T> {
        self.list@
    }

    /// Well-formedness: the remaining window lies inside the list and the
    /// two cursors name its end slots.
    pub closed spec fn wf(&self) -> bool {
        &&& self.list.wf()
        &&& 0 <= self.front@
        &&& self.front@ + self.len <= self.list@.len()
        &&& (self.len > 0 ==> self.head as int == self.list.order@[self.front@]
            && self.tail as int == self.list.order@[self.front@ + self.len - 1])
    }

    /// How many elements remain between the cursors.
    pub fn len(&self) -> (r: usize)
        requires
            self.wf(),
        ensures
            r == self@.len(),
    {
        self.len
    }

    /// Yield the front element and advance the forward cursor.
    pub fn next(&mut self) -> (r: Option<&'a T>)
        requires
            old(self).wf(),
        ensures
            final(self).wf(),
            final(self).full() == old(self).full(),
            old(self)@.len() == 0 ==> r is None && final(self)@ == old(self)@,
            old(self)@.len() > 0 ==> (r matches Some(v) && *v == old(self)@.first()
                && final(self)@ == old(self)@.drop_first()),
    {
        if self.len == 0 {
            return None;
        }
        let list = self.list;
        let node = list.buf.get(self.head);
        self.head = node.next;
        self.len = self.len - 1;
        proof {
            self.front@ = self.front@ + 1;
            assert(list.next_ok_at(old(self).front@));
            if self.len > 0 {
                assert(list.pos@[list.order@[self.front@]] == self.front@);
            }
            assert(self@ =~= old(self)@.drop_first());
        }
        Some(&node.val)
    }

    /// Yield the back element and retreat the backward cursor: the exact
    /// mirror of `next`.
    pub fn next_back(&mut self) -> (r: Option<&'a T>)
        requires
            old(self).wf(),
        ensures
            final(self).wf(),
            final(self).full() == old(self).full(),
            old(self)@.len() == 0 ==> r is None && final(self)@ == old(self)@,
            old(self)@.len() > 0 ==> (r matches Some(v) && *v == old(self)@.last()
                && final(self)@ == old(self)@.drop_last()),
    {
        if self.len == 0 {
            return None;
        }
        let list = self.list;
        let node = list.buf.get(self.tail);
        self.tail = node.prev;
        self.len = self.len - 1;
        proof {
            assert(list.prev_ok_at(old(self).front@ + old(self).len - 1));
            assert(self@ =~= old(self)@.drop_last());
        }
        Some(&node.val)
    }
}

/// A pair of mutable cursors over a list, one advancing from the head and
/// one retreating from the tail. Neither cursor retains a borrow across
/// steps: each holds a storage index that every step resolves against the
/// exclusively borrowed backing store handed to it, and the remaining count
/// refuses to yield once the cursors would cross, so the two ends can never
/// alias the same live element.
pub struct IterMut {
    head: usize,
    tail: usize,
    len: usize,
    front: Ghost<int>,
}

impl IterMut {
    /// Well-formedness against the list under iteration: the remaining
    /// window lies inside it and the cursors name its end slots.
    pub closed spec fn wf<T>(&self, list: LinkedList<T>) -> bool {
        &&& list.wf()
        &&& 0 <= self.front@
        &&& self.front@ + self.len <= list@.len()
        &&& (self.len > 0 ==> self.head as int == list.order@[self.front@] && self.tail as int
            == list.order@[self.front@ + self.len - 1])
    }

    /// The elements not yet yielded from either end, in list order.
    pub closed spec fn remaining<T>(&self, list: LinkedList<T>) -> Seq<T> {
        list@.subrange(self.front@, self.front@ + self.len)
    }

    /// The list position of the forward cursor.
    pub closed spec fn spec_front(&self) -> int {
        self.front@
    }

    /// How many elements remain between the cursors.
    pub closed spec fn spec_len(&self) -> int {
        self.len as int
    }

    /// How many elements remain between the cursors.
    pub fn len(&self) -> (r: usize)
        ensures
            r == self.spec_len(),
    {
        self.len
    }

    /// Mutably borrow the front element of the remaining window and advance
    /// the forward cursor past it. Only that element can change through the
    /// borrow; the list keeps its shape and order.
    pub fn next<'a, T>(&mut self, list: &'a mut LinkedList<T>) -> (r: Option<&'a mut T>)
        requires
            old(self).wf(*old(list)),
        ensures
            old(self).spec_len() == 0 ==> r is None && *final(list) == *old(list) && *final(self)
                == *old(self),
            old(self).spec_len() > 0 ==> (r matches Some(v) && *v == old(list)@[old(self).spec_front()] && final(list)@ == old(list)@.update(old(self).spec_front(), *final(v))
                && final(self).wf(*final(list)) && final(self).spec_front() == old(self).spec_front() + 1 && final(self).spec_len() == old(self).spec_len() - 1 && final(self).remaining(*final(list)) == old(list)@.subrange(
                old(self).spec_front() + 1,
                old(self).spec_front() + old(self).spec_len(),
            )),
    {
        if self.len == 0 {
            return None;
        }
        let h = self.head;
        let ghost p = self.front@;
        proof {
            list.lemma_node_val_update(h as int);
            assert(list.next_ok_at(p));
            assert(list.pos@[list.order@[p]] == p);
            if self.len > 1 {
                assert(list.pos@[list.order@[p + 1]] == p + 1);
                assert(list.pos@[list.order@[p + self.len - 1]] == p + self.len - 1);
            }
        }
        let node_ref = list.buf.get_mut(h);
        self.head = node_ref.next;
        self.len = self.len - 1;
        proof {
            self.front@ = self.front@ + 1;
        }
        Some(&mut node_ref.val)
    }

    /// Mutably borrow the back element of the remaining window and retreat
    /// the backward cursor past it: the exact mirror of `next`.
    pub fn next_back<'a, T>(&mut self, list: &'a mut LinkedList<T>) -> (r: Option<&'a mut T>)
        requires
            old(self).wf(*old(list)),
        ensures
            old(self).spec_len() == 0 ==> r is None && *final(list) == *old(list) && *final(self)
                == *old(self),
            old(self).spec_len() > 0 ==> (r matches Some(v) && *v == old(list)@[old(self).spec_front() + old(self).spec_len() - 1] && final(list)@ == old(list)@.update(
                old(self).spec_front() + old(self).spec_len() - 1,
                *final(v),
            ) && final(self).wf(*final(list)) && final(self).spec_front() == old(self).spec_front()
                && final(self).spec_len() == old(self).spec_len() - 1 && final(self).remaining(
                *final(list),
            ) == old(list)@.subrange(
                old(self).spec_front(),
                old(self).spec_front() + old(self).spec_len() - 1,
            )),
    {
        if self.len == 0 {
            return None;
        }
        let t = self.tail;
        let ghost p = self.front@ + self.len - 1;
        proof {
            list.lemma_node_val_update(t as int);
            assert(list.prev_ok_at(p));
            assert(list.pos@[list.order@[p]] == p);
            if self.len > 1 {
                assert(list.pos@[list.order@[p - 1]] == p - 1);
                assert(list.pos@[list.order@[self.front@]] == self.front@);
            }
        }
        let node_ref = list.buf.get_mut(t);
        self.tail = node_ref.prev;
        self.len = self.len - 1;
        Some(&mut node_ref.val)
    }
}

/// A mutable traversal in storage order: a single index cursor resolved
/// against the exclusively borrowed backing store on every step, never
/// retaining a borrow across steps.
pub struct IterMutUnordered {
    current: usize,
    last_pos: Ghost<int>,
}

impl IterMutUnordered {
    /// The storage index the cursor stands at.
    pub closed spec fn spec_pos(&self) -> int {
        self.current as int
    }

    /// The list position of the storage slot the cursor last yielded.
    pub closed spec fn spec_last_pos(&self) -> int {
        self.last_pos@
    }

    /// Mutably borrow the value in the next storage slot and advance. Only
    /// that value can change through the borrow; the list keeps its shape,
    /// with the written value at whatever list position the slot occupies.
    pub fn next<'a, T>(&mut self, list: &'a mut LinkedList<T>) -> (r: Option<&'a mut T>)
        requires
            old(list).wf(),
        ensures
            old(self).spec_pos() >= old(list)@.len() ==> r is None && *final(list) == *old(list)
                && *final(self) == *old(self),
            old(self).spec_pos() < old(list)@.len() ==> (r matches Some(v) && final(self).spec_pos() == old(self).spec_pos() + 1 && *v == old(list).storage()[old(self).spec_pos()] && final(list).storage() == old(list).storage().update(
                old(self).spec_pos(),
                *final(v),
            ) && final(list).wf() && 0 <= final(self).spec_last_pos() < old(list)@.len() && *v
                == old(list)@[final(self).spec_last_pos()] && final(list)@ == old(list)@.update(
                final(self).spec_last_pos(),
                *final(v),
            )),
    {
        if self.current >= list.len() {
            return None;
        }
        let i = self.current;
        proof {
            self.last_pos@ = list.pos@[i as int];
            list.lemma_node_val_update(i as int);
            assert(0 <= list.pos@[i as int] < list@.len());
            assert(list.order@[list.pos@[i as int]] == i as int);
        }
        let node_ref = list.buf.get_mut(i);
        self.current = self.current + 1;
        Some(&mut node_ref.val)
    }
}

impl<T> LinkedList<T> {
    /// Start a mutable traversal in storage order.
    pub fn iter_mut_unordered(&mut self) -> (r: IterMutUnordered)
        requires
            old(self).wf(),
        ensures
            *final(self) == *old(self),
            r.spec_pos() == 0,
    {
        IterMutUnordered { current: 0, last_pos: Ghost(0) }
    }
}

impl<T> LinkedList<T> {
    /// Start a mutable traversal: a cursor pair that resolves against this
    /// list on every step.
    pub fn iter_mut(&mut self) -> (r: IterMut)
        requires
            old(self).wf(),
        ensures
            *final(self) == *old(self),
            r.wf(*final(self)),
            r.remaining(*final(self)) == final(self)@,
            r.spec_front() == 0,
            r.spec_len() == old(self)@.len(),
    {
        let r = IterMut {
            head: self.head,
            tail: self.tail,
            len: self.buf.len(),
            front: Ghost(0),
        };
        proof {
            assert(r.remaining(*self) =~= self@);
        }
        r
    }

    /// Changing only the value stored in one slot leaves the list well
    /// formed, with that slot's list position updated in the abstract
    /// sequence. Stated for every replacement node with the same links, so
    /// it can be applied before the slot is mutably borrowed.
    proof fn lemma_node_val_update(&self, h: int)
        requires
            self.wf(),
            0 <= h < self.buf@.len(),
        ensures
            forall|post: LinkedList<T>, nd: Node<T>|
                #![trigger post.buf@, self.buf@.update(h, nd)]
                (post.buf@ == self.buf@.update(h, nd) && post.buf.wf() && nd.next
                    == self.buf@[h].next && nd.prev == self.buf@[h].prev && post.head == self.head
                    && post.tail == self.tail && post.order@ == self.order@ && post.pos@
                    == self.pos@) ==> post.wf() && post@ == self@.update(self.pos@[h], nd.val)
                    && post.storage() == self.storage().update(h, nd.val),
    {
        assert forall|post: LinkedList<T>, nd: Node<T>|
            #![trigger post.buf@, self.buf@.update(h, nd)]
            (post.buf@ == self.buf@.update(h, nd) && post.buf.wf() && nd.next
                == self.buf@[h].next && nd.prev == self.buf@[h].prev && post.head == self.head
                && post.tail == self.tail && post.order@ == self.order@ && post.pos@
                == self.pos@) implies post.wf() && post@ == self@.update(self.pos@[h], nd.val)
            && post.storage() == self.storage().update(h, nd.val) by {
            let n = self.buf@.len() as int;
            assert forall|p: int| 0 <= p < n implies #[trigger] post.next_ok_at(p) by {
                assert(self.next_ok_at(p));
            }
            assert forall|p: int| 0 <= p < n implies #[trigger] post.prev_ok_at(p) by {
                assert(self.prev_ok_at(p));
            }
            assert(post.wf());
            assert(self.pos@[h] < n && self.order@[self.pos@[h]] == h);
            assert forall|p: int| 0 <= p < n implies post@[p] == self@.update(
                self.pos@[h],
                nd.val,
            )[p] by {
                if p != self.pos@[h] {
                    assert(self.order@[p] != h) by {
                        assert(self.pos@[self.order@[p]] == p);
                    }
                }
            }
            assert(post@ =~= self@.update(self.pos@[h], nd.val));
            assert(post.storage() =~= self.storage().update(h, nd.val));
        }
    }
}

/// An owning traversal in list order, double-ended: it pops elements off the
/// list from either end.
pub struct IntoIter<T> {
    list: LinkedList<T>,
}

impl<T> View for IntoIter<T> {
    type V = Seq<T>;

    /// The elements not yet yielded, in list order.
    closed spec fn view(&self) -> Seq<T> {
        self.list@
    }
}

impl<T> IntoIter<T> {
    /// Well-formedness of the remaining list.
    pub closed spec fn wf(&self) -> bool {
        self.list.wf()
    }

    /// How many elements remain.
    pub fn len(&self) -> (r: usize)
        ensures
            r == self@.len(),
    {
        self.list.len()
    }

    /// Take the front of what remains.
    pub fn next(&mut self) -> (r: Option<T>)
        requires
            old(self).wf(),
        ensures
            final(self).wf(),
            old(self)@.len() == 0 ==> r is None && final(self)@ == old(self)@,
            old(self)@.len() > 0 ==> (r matches Some(v) && v == old(self)@.first()
                && final(self)@ == old(self)@.drop_first()),
    {
        self.list.pop_front()
    }

    /// Take the back of what remains.
    pub fn next_back(&mut self) -> (r: Option<T>)
        requires
            old(self).wf(),
        ensures
            final(self).wf(),
            old(self)@.len() == 0 ==> r is None && final(self)@ == old(self)@,
            old(self)@.len() > 0 ==> (r matches Some(v) && v == old(self)@.last()
                && final(self)@ == old(self)@.drop_last()),
    {
        self.list.pop_back()
    }
}

/// An owning traversal in storage order, built directly on the backing
/// vector's iterator.
pub struct IntoIterUnordered<T> {
    inner: crate::vec::IntoIter<Node<T>>,
}

impl<T> View for IntoIterUnordered<T> {
    type V = Seq<T>;

    /// The values not yet yielded, in storage order.
    closed spec fn view(&self) -> Seq<T> {
        self.inner@.map_values(|node: Node<T>| node.val)
    }
}

impl<T> IntoIterUnordered<T> {
    /// Well-formedness of the underlying buffer iterator.
    pub closed spec fn wf(&self) -> bool {
        self.inner.wf()
    }

    /// How many elements remain.
    pub fn len(&self) -> (r: usize)
        requires
            self.wf(),
        ensures
            r == self@.len(),
    {
        self.inner.len()
    }

    /// Take the front of what remains.
    pub fn next(&mut self) -> (r: Option<T>)
        requires
            old(self).wf(),
        ensures
            final(self).wf(),
            old(self)@.len() == 0 ==> r is None && final(self)@ == old(self)@,
            old(self)@.len() > 0 ==> (r matches Some(v) && v == old(self)@.first()
                && final(self)@ == old(self)@.drop_first()),
    {
        match self.inner.next() {
            Some(node) => {
                proof {
                    assert(self@ =~= old(self)@.drop_first());
                }
                Some(node.val)
            },
            None => None,
        }
    }

    /// Take the back of what remains.
    pub fn next_back(&mut self) -> (r: Option<T>)
        requires
            old(self).wf(),
        ensures
            final(self).wf(),
            old(self)@.len() == 0 ==> r is None && final(self)@ == old(self)@,
            old(self)@.len() > 0 ==> (r matches Some(v) && v == old(self)@.last()
                && final(self)@ == old(self)@.drop_last()),
    {
        match self.inner.next_back() {
            Some(node) => {
                proof {
                    assert(self@ =~= old(self)@.drop_last());
                }
                Some(node.val)
            },
            None => None,
        }
    }
}

/// A borrowing traversal in storage order.
pub struct IterUnordered<'a, T> {
    list: &'a LinkedList<T>,
    current: usize,
}

impl<'a, T> View for IterUnordered<'a, T> {
    type V = Seq<T>;

    /// The values not yet yielded, in storage order.
    closed spec fn view(&self) -> Seq<T> {
        self.list.storage().skip(self.current as int)
    }
}

impl<'a, T> IterUnordered<'a, T> {
    /// Well-formedness: the cursor is inside the storage.
    pub closed spec fn wf(&self) -> bool {
        &&& self.list.wf()
        &&& self.current <= self.list@.len()
    }

    /// How many elements remain.
    pub fn len(&self) -> (r: usize)
        requires
            self.wf(),
        ensures
            r == self@.len(),
    {
        self.list.len() - self.current
    }

    /// Yield the next value in storage order.
    pub fn next(&mut self) -> (r: Option<&'a T>)
        requires
            old(self).wf(),
        ensures
            final(self).wf(),
            old(self)@.len() == 0 ==> r is None && final(self)@ == old(self)@,
            old(self)@.len() > 0 ==> (r matches Some(v) && *v == old(self)@.first()
                && final(self)@ == old(self)@.drop_first()),
    {
        let list = self.list;
        if self.current == list.len() {
            return None;
        }
        let node = list.buf.get(self.current);
        self.current = self.current + 1;
        proof {
            assert(self@ =~= old(self)@.drop_first());
        }
        Some(&node.val)
    }
}

/// Two sequences that are index permutations of each other hold the same
/// elements with the same multiplicities.
proof fn lemma_permuted_multiset<A>(s: Seq<A>, t: Seq<A>, perm: Seq<int>)
    requires
        s.len() == t.len(),
        perm.len() == t.len(),
        forall|p: int| 0 <= p < perm.len() ==> 0 <= #[trigger] perm[p] < s.len(),
        forall|p1: int, p2: int|
            0 <= p1 < perm.len() && 0 <= p2 < perm.len() && p1 != p2 ==> #[trigger] perm[p1]
                != #[trigger] perm[p2],
        forall|p: int| 0 <= p < t.len() ==> #[trigger] t[p] == s[perm[p]],
    ensures
        t.to_multiset() == s.to_multiset(),
    decreases s.len(),
{
    broadcast use vstd::seq_lib::group_to_multiset_ensures;

    if t.len() == 0 {
        assert(t.to_multiset() =~= s.to_multiset());
    } else {
        let n = s.len() as int;
        let j = perm[n - 1];
        let s2 = s.remove(j);
        let t2 = t.drop_last();
        let perm2 = Seq::new(
            (n - 1) as nat,
            |p: int|
                if perm[p] > j {
                    perm[p] - 1
                } else {
                    perm[p]
                },
        );
        assert forall|p: int| 0 <= p < t2.len() implies #[trigger] t2[p] == s2[perm2[p]] by {
            assert(perm[p] != perm[n - 1]);
            assert(t[p] == s[perm[p]]);
        }
        lemma_permuted_multiset(s2, t2, perm2);
        assert(t =~= t2.push(t.last()));
        assert(t.last() == s[j]);
        assert(s2.to_multiset() == s.to_multiset().remove(s[j]));
        assert(s.to_multiset().contains(s[j]));
        assert(s.to_multiset() =~= s2.to_multiset().insert(s[j]));
        assert(t.to_multiset() =~= s.to_multiset());
    }
}

/// Removal density: the backing storage of a well-formed list is exactly as
/// long as the list, and holds exactly the list's elements — unordered
/// traversal yields the same multiset as ordered traversal.
pub proof fn lemma_storage_matches_list<T>(l: LinkedList<T>)
    requires
        l.wf(),
    ensures
        l.storage().len() == l@.len(),
        l.storage().to_multiset() == l@.to_multiset(),
{
    assert forall|p1: int, p2: int|
        0 <= p1 < l.order@.len() && 0 <= p2 < l.order@.len() && p1 != p2 implies #[trigger] l
        .order@[p1] != #[trigger] l.order@[p2] by {
        assert(l.pos@[l.order@[p1]] == p1);
        assert(l.pos@[l.order@[p2]] == p2);
    }
    lemma_permuted_multiset(l.storage(), l@, l.order@);
}

impl<T> Default for LinkedList<T> {
    /// The default list is empty and owns no allocation.
    fn default() -> (r: Self)
        ensures
            r.wf(),
            r@ == Seq::<T>::empty(),
            r.spec_cap() == 0,
    {
        LinkedList::new()
    }
}

/// Dual-order invariant: the backward cursor's k-th element is the forward
/// cursor's (len − 1 − k)-th element, so a full backward traversal is the
/// exact mirror image of a full forward traversal.
pub proof fn lemma_dual_order<T>(s: Seq<T>, k: int)
    requires
        0 <= k < s.len(),
    ensures
        s.reverse()[k] == s[s.len() - 1 - k],
{
}

} // verus!
