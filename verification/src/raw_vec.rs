//! The raw backing buffer that every container in this crate stores its
//! elements in.
//!
//! A `RawVec<T>` owns `cap()` slots. Each slot either holds a live value or
//! is logically uninitialized; freshly acquired slots start uninitialized.
//! The access primitives (`write`, `read`, `shift`) are unchecked in the
//! sense that they place the entire burden of slot discipline on the caller:
//! every index must be in bounds, a slot may only be read while it holds a
//! value, and reading moves the value out, so a slot must be rewritten before
//! it can be read again. Those obligations appear here as `requires` clauses,
//! and the one caller of each primitive discharges them statically.

use vstd::prelude::*;

verus! {

/// A block of `cap()` element slots, each either live or uninitialized.
///
/// The abstract value of a `RawVec<T>` is the sequence of its slots, where
/// `Some(v)` is a slot holding `v` and `None` is an uninitialized slot.
#[derive(Clone)]
pub struct RawVec<T> {
    slots: std::vec::Vec<Option<T>>,
}

impl<T> View for RawVec<T> {
    type V = Seq<Option<T>>;

    closed spec fn view(&self) -> Seq<Option<T>> {
        self.slots@
    }
}

impl<T> RawVec<T> {
    /// The capacity a zero-capacity buffer first grows to: small elements get
    /// more starting slots than large ones, to amortize allocation overhead.
    pub open spec fn spec_start_capacity() -> usize {
        if vstd::layout::size_of::<T>() == 1 {
            8usize
        } else if vstd::layout::size_of::<T>() <= 1024 {
            4usize
        } else {
            1usize
        }
    }

    /// The capacity that one `reserve(additional)` call produces.
    pub open spec fn spec_grown_capacity(cap: usize, additional: usize) -> int {
        let doubled: int = if cap == 0 {
            Self::spec_start_capacity() as int
        } else {
            2 * (cap as int)
        };
        if doubled >= cap + additional {
            doubled
        } else {
            cap + additional
        }
    }

    /// A buffer with no slots at all; it owns nothing.
    pub fn new() -> (r: Self)
        ensures
            r@ == Seq::<Option<T>>::empty(),
    {
        RawVec { slots: std::vec::Vec::new() }
    }

    /// How many slots this buffer owns.
    pub fn cap(&self) -> (r: usize)
        ensures
            r == self@.len(),
    {
        self.slots.len()
    }

    /// Starting capacity, chosen by element size.
    pub fn start_capacity() -> (r: usize)
        ensures
            r == Self::spec_start_capacity(),
            1 <= r <= 8,
    {
        let size: usize = core::mem::size_of::<T>();
        if size == 1 {
            8
        } else if size <= 1024 {
            4
        } else {
            1
        }
    }

    /// Grow by one doubling step.
    pub fn grow(&mut self)
        requires
            old(self)@.len() + 1 <= usize::MAX / 2,
        ensures
            final(self)@.len() == Self::spec_grown_capacity(old(self)@.len() as usize, 1),
            final(self)@.len() > old(self)@.len(),
            forall|i: int| 0 <= i < old(self)@.len() ==> final(self)@[i] == old(self)@[i],
            forall|i: int|
                old(self)@.len() <= i < final(self)@.len() ==> final(self)@[i] is None,
    {
        self.reserve(1);
    }

    /// Grow so that at least `additional` more slots exist beyond the current
    /// capacity, keeping exponential growth: the new capacity is the larger of
    /// one doubling step and the exact request.
    pub fn reserve(&mut self, additional: usize)
        requires
            old(self)@.len() + additional <= usize::MAX / 2,
        ensures
            final(self)@.len() == Self::spec_grown_capacity(
                old(self)@.len() as usize,
                additional,
            ),
            final(self)@.len() >= old(self)@.len() + additional,
            forall|i: int| 0 <= i < old(self)@.len() ==> final(self)@[i] == old(self)@[i],
            forall|i: int|
                old(self)@.len() <= i < final(self)@.len() ==> final(self)@[i] is None,
    {
        let cap = self.slots.len();
        let new_cap: usize = if cap == 0 {
            Self::start_capacity()
        } else {
            2 * cap
        };
        let requested = cap + additional;
        let new_cap: usize = if new_cap >= requested {
            new_cap
        } else {
            requested
        };
        self.resize(new_cap);
    }

    /// Set the capacity to exactly `new_cap` slots. Slots that survive keep
    /// their contents; new slots start uninitialized. Slots that are cut off
    /// must already be uninitialized: a live value may not be discarded here.
    pub fn resize(&mut self, new_cap: usize)
        requires
            forall|i: int| new_cap <= i < old(self)@.len() ==> old(self)@[i] is None,
        ensures
            final(self)@.len() == new_cap,
            forall|i: int|
                0 <= i < new_cap && i < old(self)@.len() ==> final(self)@[i] == old(self)@[i],
            forall|i: int|
                old(self)@.len() <= i < new_cap ==> final(self)@[i] is None,
    {
        if new_cap <= self.slots.len() {
            self.slots.truncate(new_cap);
        } else {
            let ghost orig = self.slots@;
            while self.slots.len() < new_cap
                invariant
                    orig.len() <= self.slots@.len() <= new_cap,
                    self.slots@.subrange(0, orig.len() as int) == orig,
                    forall|i: int|
                        orig.len() <= i < self.slots@.len() ==> self.slots@[i] is None,
                decreases new_cap - self.slots@.len(),
            {
                self.slots.push(None);
                proof {
                    assert(self.slots@.subrange(0, orig.len() as int) =~= orig);
                }
            }
            proof {
                assert(forall|i: int|
                    0 <= i < orig.len() ==> self.slots@[i] == #[trigger] orig[i]) by {
                    assert(forall|i: int|
                        0 <= i < orig.len() ==> self.slots@.subrange(0, orig.len() as int)[i]
                            == #[trigger] orig[i]);
                }
            }
        }
    }

    /// Move `val` into slot `index`, which must be uninitialized: a live
    /// value is never silently discarded by an overwrite.
    pub fn write(&mut self, index: usize, val: T)
        requires
            index < old(self)@.len(),
            old(self)@[index as int] is None,
        ensures
            final(self)@ == old(self)@.update(index as int, Some(val)),
    {
        self.slots[index] = Some(val);
    }

    /// Move the value out of slot `index`, leaving the slot uninitialized.
    /// The slot must hold a value, so a slot can be read at most once between
    /// writes.
    pub fn read(&mut self, index: usize) -> (r: T)
        requires
            index < old(self)@.len(),
            old(self)@[index as int] is Some,
        ensures
            old(self)@[index as int] == Some(r),
            final(self)@ == old(self)@.update(index as int, None),
    {
        let slot = &mut self.slots[index];
        slot.take().unwrap()
    }

    /// Borrow the value in slot `index`, which must hold one.
    pub fn get(&self, index: usize) -> (r: &T)
        requires
            index < self@.len(),
            self@[index as int] is Some,
        ensures
            self@[index as int] == Some(*r),
    {
        let slot: &Option<T> = &self.slots[index];
        slot.as_ref().unwrap()
    }

    /// Mutably borrow the value in slot `index`, which must hold one.
    pub fn get_mut(&mut self, index: usize) -> (r: &mut T)
        requires
            index < old(self)@.len(),
            old(self)@[index as int] is Some,
        ensures
            old(self)@[index as int] == Some(*r),
            final(self)@ == old(self)@.update(index as int, Some(*final(r))),
    {
        let slot = &mut self.slots[index];
        slot.as_mut().unwrap()
    }

    /// Bulk-relocate `count` values from the slots starting at `from` to the
    /// slots starting at `to`. The two ranges may overlap; every source slot
    /// must hold a value, and destination slots outside the source range must
    /// be uninitialized. Source slots that are not also destinations are left
    /// uninitialized: the values move, they are not duplicated.
    pub fn shift(&mut self, from: usize, to: usize, count: usize)
        requires
            from + count <= old(self)@.len(),
            to + count <= old(self)@.len(),
            forall|i: int| from <= i < from + count ==> old(self)@[i] is Some,
            forall|i: int|
                to <= i < to + count && !(from <= i < from + count) ==> old(self)@[i] is None,
        ensures
            final(self)@.len() == old(self)@.len(),
            forall|i: int|
                to <= i < to + count ==> final(self)@[i] == old(self)@[i - to + from],
            forall|i: int|
                from <= i < from + count && !(to <= i < to + count) ==> final(self)@[i] is None,
            forall|i: int|
                0 <= i < old(self)@.len() && !(from <= i < from + count) && !(to <= i < to
                    + count) ==> final(self)@[i] == old(self)@[i],
    {
        let ghost orig = self.slots@;
        let cap = self.slots.len();
        if to <= from {
            let mut k: usize = 0;
            while k < count
                invariant
                    to <= from,
                    from + count <= cap,
                    to + count <= cap,
                    cap == self.slots@.len(),
                    0 <= k <= count,
                    self.slots@.len() == orig.len(),
                    forall|i: int|
                        to <= i < to + k ==> self.slots@[i] == orig[i - to + from],
                    forall|i: int|
                        from + k <= i < from + count ==> self.slots@[i] == orig[i],
                    forall|i: int|
                        from <= i < from + k && !(to <= i < to + count) ==> self.slots@[i] is None,
                    forall|i: int|
                        0 <= i < orig.len() && !(from <= i < from + count) && !(to <= i < to
                            + count) ==> self.slots@[i] == orig[i],
                    forall|i: int| from <= i < from + count ==> orig[i] is Some,
                decreases count - k,
            {
                let slot = &mut self.slots[from + k];
                let val = slot.take();
                self.slots[to + k] = val;
                k += 1;
            }
        } else {
            let mut k: usize = count;
            while k > 0
                invariant
                    to > from,
                    from + count <= cap,
                    to + count <= cap,
                    cap == self.slots@.len(),
                    0 <= k <= count,
                    self.slots@.len() == orig.len(),
                    forall|i: int|
                        to + k <= i < to + count ==> self.slots@[i] == orig[i - to + from],
                    forall|i: int|
                        from <= i < from + k ==> self.slots@[i] == orig[i],
                    forall|i: int|
                        from + k <= i < from + count && !(to <= i < to + count) ==> self.slots@[i]
                            is None,
                    forall|i: int|
                        0 <= i < orig.len() && !(from <= i < from + count) && !(to <= i < to
                            + count) ==> self.slots@[i] == orig[i],
                    forall|i: int| from <= i < from + count ==> orig[i] is Some,
                decreases k,
            {
                k -= 1;
                let slot = &mut self.slots[from + k];
                let val = slot.take();
                self.slots[to + k] = val;
            }
        }
    }
}

impl<T> Default for RawVec<T> {
    /// The default buffer owns no slots.
    fn default() -> (r: Self)
        ensures
            r@ == Seq::<Option<T>>::empty(),
    {
        RawVec::new()
    }
}

} // verus!
