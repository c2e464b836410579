//! A growable vector: a live-length counter on top of [`RawVec`].
//!
//! The invariant maintained by every operation is that slots `[0, len)` of
//! the backing buffer hold live elements and slots `[len, cap)` are
//! uninitialized. The abstract value of a vector is the sequence of its live
//! elements, and every operation's contract is stated against that sequence.
//!
//! Because each slot is held individually, no contiguous borrow of the live
//! elements exists; the vector exposes per-index access (`get`, `get_mut`)
//! in place of slice views, with the same contracts element by element.

use vstd::prelude::*;
use vstd::seq_lib::lemma_multiset_commutative;

pub use crate::raw_vec::RawVec;

verus! {

/// The recoverable outcome of a bounds-checked operation whose index was out
/// of range. The buffer is never touched when this is returned.
#[derive(Clone, Copy, Debug, PartialEq, Eq, Structural)]
pub struct IndexNotFound;

/// A growable vector of `T`, backed by a [`RawVec`].
#[derive(Clone)]
pub struct Vec<T> {
    buf: RawVec<T>,
    len: usize,
}

impl<T> View for Vec<T> {
    type V = Seq<T>;

    /// The live elements, in index order.
    closed spec fn view(&self) -> Seq<T> {
        Seq::new(self.len as nat, |i: int| self.buf@[i]->0)
    }
}

impl<T> Vec<T> {
    /// Well-formedness: the live prefix is initialized, the rest of the
    /// buffer is not.
    pub closed spec fn wf(&self) -> bool {
        &&& self.len <= self.buf@.len()
        &&& forall|i: int| 0 <= i < self.len ==> self.buf@[i] is Some
        &&& forall|i: int| self.len <= i < self.buf@.len() ==> self.buf@[i] is None
    }

    /// How many slots the backing buffer owns.
    pub closed spec fn spec_cap(&self) -> nat {
        self.buf@.len()
    }

    /// An empty vector that owns no allocation.
    pub fn new() -> (r: Self)
        ensures
            r.wf(),
            r@ == Seq::<T>::empty(),
            r.spec_cap() == 0,
    {
        let r = Vec { buf: RawVec::new(), len: 0 };
        proof {
            assert(r@ =~= Seq::<T>::empty());
        }
        r
    }

    /// An empty vector with room for at least `cap` elements.
    pub fn with_capacity(cap: usize) -> (r: Self)
        requires
            cap <= usize::MAX / 2,
        ensures
            r.wf(),
            r@ == Seq::<T>::empty(),
            r.spec_cap() >= cap,
    {
        let mut r = Self::new();
        r.reserve(cap);
        r
    }

    /// The number of live elements.
    pub fn len(&self) -> (r: usize)
        ensures
            r == self@.len(),
    {
        self.len
    }

    /// The capacity of the backing buffer.
    pub fn cap(&self) -> (r: usize)
        ensures
            r == self.spec_cap(),
    {
        self.buf.cap()
    }

    /// Whether no live element exists.
    pub fn is_empty(&self) -> (r: bool)
        ensures
            r == (self@.len() == 0),
    {
        self.len == 0
    }

    /// Append `val` after the last live element, growing if the buffer is
    /// full.
    pub fn push(&mut self, val: T)
        requires
            old(self).wf(),
            old(self)@.len() < usize::MAX / 2,
        ensures
            final(self).wf(),
            final(self)@ == old(self)@.push(val),
    {
        if self.len == self.buf.cap() {
            self.buf.grow();
        }
        self.buf.write(self.len, val);
        self.len = self.len + 1;
        proof {
            assert(self@ =~= old(self)@.push(val));
        }
    }

    /// Remove and return the last live element, or `None` if the vector is
    /// empty.
    pub fn pop(&mut self) -> (r: Option<T>)
        requires
            old(self).wf(),
        ensures
            final(self).wf(),
            old(self)@.len() == 0 ==> r is None && final(self)@ == old(self)@,
            old(self)@.len() > 0 ==> r == Some(old(self)@.last()) && final(self)@ == old(
                self,
            )@.drop_last(),
    {
        if self.is_empty() {
            return None;
        }
        let r = self.pop_unchecked();
        Some(r)
    }

    /// Remove the last element of a vector known to be non-empty.
    fn pop_unchecked(&mut self) -> (r: T)
        requires
            old(self).wf(),
            old(self)@.len() > 0,
        ensures
            final(self).wf(),
            r == old(self)@.last(),
            final(self)@ == old(self)@.drop_last(),
    {
        self.len = self.len - 1;
        let r = self.buf.read(self.len);
        proof {
            assert(self@ =~= old(self)@.drop_last());
        }
        r
    }

    /// Insert `val` at `index`, shifting everything at and after `index` one
    /// slot to the right. Fails without touching the buffer when
    /// `index > len`.
    pub fn try_insert(&mut self, index: usize, val: T) -> (r: Result<(), IndexNotFound>)
        requires
            old(self).wf(),
            old(self)@.len() < usize::MAX / 2,
        ensures
            final(self).wf(),
            index <= old(self)@.len() ==> r is Ok && final(self)@ == old(self)@.insert(
                index as int,
                val,
            ),
            index > old(self)@.len() ==> r is Err && *final(self) == *old(self),
    {
        if index > self.len {
            return Err(IndexNotFound);
        }
        if self.len == self.buf.cap() {
            self.buf.grow();
        }
        self.buf.shift(index, index + 1, self.len - index);
        self.buf.write(index, val);
        self.len = self.len + 1;
        proof {
            assert(self@ =~= old(self)@.insert(index as int, val));
        }
        Ok(())
    }

    /// Remove and return the element at `index`, shifting everything after it
    /// one slot to the left. Fails without touching the buffer when
    /// `index >= len`.
    pub fn try_remove(&mut self, index: usize) -> (r: Result<T, IndexNotFound>)
        requires
            old(self).wf(),
        ensures
            final(self).wf(),
            index < old(self)@.len() ==> (r matches Ok(v) && v == old(self)@[index as int]
                && final(self)@ == old(self)@.remove(index as int)),
            index >= old(self)@.len() ==> r is Err && *final(self) == *old(self),
    {
        if index >= self.len {
            return Err(IndexNotFound);
        }
        let val = self.buf.read(index);
        self.buf.shift(index + 1, index, self.len - index - 1);
        self.len = self.len - 1;
        proof {
            assert(self@ =~= old(self)@.remove(index as int));
        }
        Ok(val)
    }

    /// Remove and return the element at `index` by swapping the last element
    /// into its place: O(1), but the order of the survivors changes. Fails
    /// without touching the buffer when `index >= len`.
    pub fn try_swap_remove(&mut self, index: usize) -> (r: Result<T, IndexNotFound>)
        requires
            old(self).wf(),
        ensures
            final(self).wf(),
            index < old(self)@.len() ==> (r matches Ok(v) && v == old(self)@[index as int]
                && final(self)@ == old(self)@.update(index as int, old(self)@.last()).drop_last()),
            index >= old(self)@.len() ==> r is Err && *final(self) == *old(self),
    {
        if index >= self.len {
            return Err(IndexNotFound);
        }
        let last = self.len - 1;
        self.swap(index, last);
        let val = self.pop_unchecked();
        proof {
            assert(self@ =~= old(self)@.update(index as int, old(self)@.last()).drop_last());
        }
        Ok(val)
    }

    /// `try_insert`, for callers that have already checked the index.
    pub fn insert(&mut self, index: usize, val: T)
        requires
            old(self).wf(),
            index <= old(self)@.len(),
            old(self)@.len() < usize::MAX / 2,
        ensures
            final(self).wf(),
            final(self)@ == old(self)@.insert(index as int, val),
    {
        match self.try_insert(index, val) {
            Ok(()) => (),
            Err(_) => vstd::pervasive::unreached(),
        }
    }

    /// `try_remove`, for callers that have already checked the index.
    pub fn remove(&mut self, index: usize) -> (r: T)
        requires
            old(self).wf(),
            index < old(self)@.len(),
        ensures
            final(self).wf(),
            r == old(self)@[index as int],
            final(self)@ == old(self)@.remove(index as int),
    {
        match self.try_remove(index) {
            Ok(v) => v,
            Err(_) => vstd::pervasive::unreached(),
        }
    }

    /// `try_swap_remove`, for callers that have already checked the index.
    pub fn swap_remove(&mut self, index: usize) -> (r: T)
        requires
            old(self).wf(),
            index < old(self)@.len(),
        ensures
            final(self).wf(),
            r == old(self)@[index as int],
            final(self)@ == old(self)@.update(index as int, old(self)@.last()).drop_last(),
    {
        match self.try_swap_remove(index) {
            Ok(v) => v,
            Err(_) => vstd::pervasive::unreached(),
        }
    }

    /// Exchange the elements at `a` and `b`.
    pub fn swap(&mut self, a: usize, b: usize)
        requires
            old(self).wf(),
            a < old(self)@.len(),
            b < old(self)@.len(),
        ensures
            final(self).wf(),
            final(self)@ == old(self)@.update(a as int, old(self)@[b as int]).update(
                b as int,
                old(self)@[a as int],
            ),
    {
        if a != b {
            let va = self.buf.read(a);
            let vb = self.buf.read(b);
            self.buf.write(a, vb);
            self.buf.write(b, va);
        }
        proof {
            assert(self@ =~= old(self)@.update(a as int, old(self)@[b as int]).update(
                b as int,
                old(self)@[a as int],
            ));
        }
    }

    /// Replace the element at `index` with `val` and hand back the old one.
    pub fn replace(&mut self, index: usize, val: T) -> (r: T)
        requires
            old(self).wf(),
            index < old(self)@.len(),
        ensures
            final(self).wf(),
            r == old(self)@[index as int],
            final(self)@ == old(self)@.update(index as int, val),
    {
        let r = self.buf.read(index);
        self.buf.write(index, val);
        proof {
            assert(self@ =~= old(self)@.update(index as int, val));
        }
        r
    }

    /// Borrow the element at `index`.
    pub fn get(&self, index: usize) -> (r: &T)
        requires
            self.wf(),
            index < self@.len(),
        ensures
            *r == self@[index as int],
    {
        self.buf.get(index)
    }

    /// Mutably borrow the element at `index`.
    pub fn get_mut(&mut self, index: usize) -> (r: &mut T)
        requires
            old(self).wf(),
            index < old(self)@.len(),
        ensures
            *r == old(self)@[index as int],
            final(self).wf(),
            final(self)@ =~= old(self)@.update(index as int, *final(r)),
            final(self).spec_cap() == old(self).spec_cap(),
    {
        self.buf.get_mut(index)
    }

    /// Make room for at least `additional` elements beyond the current
    /// length; a no-op when the capacity is already sufficient.
    pub fn reserve(&mut self, additional: usize)
        requires
            old(self).wf(),
            old(self).spec_cap() + additional <= usize::MAX / 2,
        ensures
            final(self).wf(),
            final(self)@ == old(self)@,
            final(self).spec_cap() >= old(self)@.len() + additional,
    {
        if self.buf.cap() - self.len < additional {
            self.buf.reserve(additional);
        }
        proof {
            assert(self@ =~= old(self)@);
        }
    }

    /// Reallocate to exactly the live length, releasing all spare slots.
    pub fn shrink_to_fit(&mut self)
        requires
            old(self).wf(),
        ensures
            final(self).wf(),
            final(self)@ == old(self)@,
            final(self).spec_cap() == old(self)@.len(),
    {
        self.buf.resize(self.len);
        proof {
            assert(self@ =~= old(self)@);
        }
    }

    /// Hand the elements off as one exactly-sized boxed slice.
    pub fn into_boxed_slice(self) -> (r: Box<[T]>)
        requires
            self.wf(),
        ensures
            r@ == self@,
    {
        let mut this = self;
        let ghost orig = this@;
        let n = this.len;
        let mut out: std::vec::Vec<T> = std::vec::Vec::new();
        let mut i: usize = 0;
        while i < n
            invariant
                0 <= i <= n,
                n == this.len,
                this.len <= this.buf@.len(),
                forall|k: int| i <= k < n ==> this.buf@[k] is Some,
                forall|k: int| i <= k < n ==> this.buf@[k]->0 == orig[k],
                out@.len() == i,
                forall|k: int| 0 <= k < i ==> out@[k] == orig[k],
            decreases n - i,
        {
            let v = this.buf.read(i);
            out.push(v);
            i = i + 1;
        }
        proof {
            assert(out@ =~= orig);
        }
        into_boxed(out)
    }

    /// Rebuild a vector from a boxed slice produced by `into_boxed_slice`:
    /// the same elements in the same order, sized exactly to them.
    pub fn from_boxed_slice(b: Box<[T]>) -> (r: Self)
        requires
            b@.len() <= usize::MAX / 2,
        ensures
            r.wf(),
            r@ == b@,
            r.spec_cap() == b@.len(),
    {
        let mut rest: std::vec::Vec<T> = b.into_vec();
        let ghost orig = rest@;
        let mut flipped: std::vec::Vec<T> = std::vec::Vec::new();
        while rest.len() != 0
            invariant
                rest@.len() + flipped@.len() == orig.len(),
                rest@ =~= orig.subrange(0, rest@.len() as int),
                forall|j: int|
                    0 <= j < flipped@.len() ==> flipped@[j] == orig[orig.len() - 1 - j],
            decreases rest@.len(),
        {
            match rest.pop() {
                Some(v) => {
                    flipped.push(v);
                },
                None => (),
            }
        }
        let mut r = Self::with_capacity(flipped.len());
        while flipped.len() != 0
            invariant
                r.wf(),
                orig.len() <= usize::MAX / 2,
                r@.len() + flipped@.len() == orig.len(),
                r@ =~= orig.subrange(0, r@.len() as int),
                forall|j: int|
                    0 <= j < flipped@.len() ==> flipped@[j] == orig[orig.len() - 1 - j],
            decreases flipped@.len(),
        {
            match flipped.pop() {
                Some(v) => {
                    r.push(v);
                    proof {
                        assert(r@ =~= orig.subrange(0, r@.len() as int));
                    }
                },
                None => (),
            }
        }
        proof {
            assert(r@ =~= orig);
        }
        r.shrink_to_fit();
        r
    }

    /// Start an owning traversal that consumes the vector.
    pub fn into_iter(self) -> (r: IntoIter<T>)
        requires
            self.wf(),
        ensures
            r.wf(),
            r@ == self@,
    {
        let Vec { buf, len } = self;
        let r = IntoIter { buf, current: 0, end: len };
        proof {
            assert(r@ =~= self@);
        }
        r
    }
}

impl<T> Default for Vec<T> {
    /// The default vector is empty and owns no allocation.
    fn default() -> (r: Self)
        ensures
            r.wf(),
            r@ == Seq::<T>::empty(),
            r.spec_cap() == 0,
    {
        Vec::new()
    }
}

/// Relies on alloc's `Vec::into_boxed_slice`: the boxed slice holds exactly
/// the vector's elements, in order.
#[verifier::external_body]
fn into_boxed<T>(v: std::vec::Vec<T>) -> (r: Box<[T]>)
    ensures
        r@ == v@,
{
    v.into_boxed_slice()
}

/// An owning traversal of a vector. It reads each live slot exactly once and
/// may take elements from either end of the remaining range.
pub struct IntoIter<T> {
    buf: RawVec<T>,
    current: usize,
    end: usize,
}

impl<T> View for IntoIter<T> {
    type V = Seq<T>;

    /// The elements not yet handed out, in index order.
    closed spec fn view(&self) -> Seq<T> {
        Seq::new((self.end - self.current) as nat, |i: int| self.buf@[self.current + i]->0)
    }
}

impl<T> IntoIter<T> {
    /// Well-formedness: the remaining range is in bounds and initialized.
    pub closed spec fn wf(&self) -> bool {
        &&& self.current <= self.end <= self.buf@.len()
        &&& forall|i: int| self.current <= i < self.end ==> self.buf@[i] is Some
    }

    /// How many elements remain.
    pub fn len(&self) -> (r: usize)
        requires
            self.wf(),
        ensures
            r == self@.len(),
    {
        self.end - self.current
    }

    /// Take the front element of the remaining range.
    pub fn next(&mut self) -> (r: Option<T>)
        requires
            old(self).wf(),
        ensures
            final(self).wf(),
            old(self)@.len() == 0 ==> r is None && final(self)@ == old(self)@,
            old(self)@.len() > 0 ==> r == Some(old(self)@.first()) && final(self)@ == old(
                self,
            )@.drop_first(),
    {
        if self.current == self.end {
            return None;
        }
        let v = self.buf.read(self.current);
        self.current = self.current + 1;
        proof {
            assert(self@ =~= old(self)@.drop_first());
        }
        Some(v)
    }

    /// Take the back element of the remaining range.
    pub fn next_back(&mut self) -> (r: Option<T>)
        requires
            old(self).wf(),
        ensures
            final(self).wf(),
            old(self)@.len() == 0 ==> r is None && final(self)@ == old(self)@,
            old(self)@.len() > 0 ==> r == Some(old(self)@.last()) && final(self)@ == old(
                self,
            )@.drop_last(),
    {
        if self.current == self.end {
            return None;
        }
        self.end = self.end - 1;
        let v = self.buf.read(self.end);
        proof {
            assert(self@ =~= old(self)@.drop_last());
        }
        Some(v)
    }
}

/// Growth keeps every element reachable: a well-formed vector's capacity
/// covers its length, so holding more elements than some starting capacity
/// means the capacity has grown strictly past that starting point.
pub proof fn lemma_growth<T>(v: &Vec<T>, start: nat)
    requires
        v.wf(),
        v@.len() > start,
    ensures
        v@.len() <= v.spec_cap(),
        v.spec_cap() > start,
{
}

/// Order preservation of the shifting operations: inserting at an index and
/// then removing at the same index leaves every element where it was.
pub proof fn lemma_insert_remove_roundtrip<T>(s: Seq<T>, i: int, x: T)
    requires
        0 <= i <= s.len(),
    ensures
        s.insert(i, x).remove(i) == s,
{
    assert(s.insert(i, x).remove(i) =~= s);
}

/// What `swap_remove` preserves: the surviving elements are exactly the old
/// ones minus one occurrence of the removed element, as a multiset — order is
/// not preserved.
pub proof fn lemma_swap_remove_multiset<T>(s: Seq<T>, i: int)
    requires
        0 <= i < s.len(),
    ensures
        s.update(i, s.last()).drop_last().to_multiset() == s.to_multiset().remove(s[i]),
{
    let n = s.len() as int;
    broadcast use vstd::seq_lib::group_to_multiset_ensures;

    if i == n - 1 {
        assert(s.update(i, s.last()).drop_last() =~= s.remove(i));
    } else {
        let a = s.subrange(0, i);
        let b = s.subrange(i + 1, n - 1);
        let x = seq![s[i]];
        let l = seq![s[n - 1]];
        assert(s =~= a + x + b + l);
        assert(s.update(i, s.last()).drop_last() =~= a + l + b);
        assert(s.remove(i) =~= a + b + l);
        lemma_multiset_commutative(a + l, b);
        lemma_multiset_commutative(a + b, l);
        lemma_multiset_commutative(a, l);
        lemma_multiset_commutative(a, b);
        assert((a + l + b).to_multiset() =~= (a + b + l).to_multiset());
        assert(s.remove(i).to_multiset() == s.to_multiset().remove(s[i]));
    }
}

} // verus!
