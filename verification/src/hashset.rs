//! A hash set: a zero-payload specialization of the chained hash map.
//!
//! Every operation delegates to a [`HashMap`] whose values are the unit
//! type, exposing only the keys. The abstract value of a set is the [`Set`]
//! of its members' models.

use vstd::prelude::*;
use crate::hasher::HashKey;
use crate::hashmap::HashMap;
use crate::vec::Vec;

verus! {

/// A set of keys, stored as a map from each key to the unit value.
pub struct HashSet<T> {
    inner: HashMap<T, ()>,
}

impl<T: HashKey> View for HashSet<T> {
    type V = Set<<T as HashKey>::Model>;

    /// The members, as their models.
    closed spec fn view(&self) -> Set<<T as HashKey>::Model> {
        self.inner@.dom()
    }
}

impl<T: HashKey> HashSet<T> {
    /// Well-formedness of the underlying map.
    pub closed spec fn wf(&self) -> bool {
        self.inner.wf()
    }

    /// An empty set.
    pub fn new() -> (r: Self)
        ensures
            r.wf(),
            r@ == Set::<<T as HashKey>::Model>::empty(),
    {
        let r = HashSet { inner: HashMap::new() };
        proof {
            assert(r@ =~= Set::<<T as HashKey>::Model>::empty());
        }
        r
    }

    /// How many members the set has.
    pub fn len(&self) -> (r: usize)
        requires
            self.wf(),
        ensures
            r == self@.len(),
    {
        self.inner.len()
    }

    /// Whether the set has no member.
    pub fn is_empty(&self) -> (r: bool)
        requires
            self.wf(),
        ensures
            r == (self@.len() == 0),
    {
        self.len() == 0
    }

    /// Add `val`. If a member with the same model was already present, it
    /// is replaced and handed back.
    pub fn insert(&mut self, val: T) -> (r: Option<T>)
        requires
            old(self).wf(),
            old(self)@.len() < usize::MAX / 2,
        ensures
            final(self).wf(),
            final(self)@ == old(self)@.insert(val.model()),
            match r {
                None => !old(self)@.contains(val.model()),
                Some(prev) => old(self)@.contains(val.model()) && prev.model() == val.model(),
            },
    {
        let ghost gval = val;
        let r = match self.inner.insert(val, ()) {
            Some((k0, ())) => Some(k0),
            None => None,
        };
        proof {
            assert(self@ =~= old(self)@.insert(gval.model()));
        }
        r
    }

    /// Borrow every member, in unspecified order, each exactly once.
    pub fn iter<'a>(&'a self) -> (r: Vec<&'a T>)
        requires
            self.wf(),
        ensures
            r.wf(),
            r@.len() == self@.len(),
            forall|i: int| 0 <= i < r@.len() ==> self@.contains((#[trigger] r@[i]).model()),
            forall|i1: int, i2: int|
                0 <= i1 < i2 < r@.len() ==> (#[trigger] r@[i1]).model() != (
                #[trigger] r@[i2]).model(),
    {
        self.inner.keys()
    }

    /// Whether a member with the same model as `val` is present.
    pub fn contains(&self, val: &T) -> (r: bool)
        requires
            self.wf(),
        ensures
            r == self@.contains(val.model()),
    {
        self.inner.contains_key(val)
    }

    /// Remove and hand back the member with the same model as `val`.
    pub fn remove(&mut self, val: &T) -> (r: Option<T>)
        requires
            old(self).wf(),
        ensures
            final(self).wf(),
            final(self)@ == old(self)@.remove(val.model()),
            match r {
                None => !old(self)@.contains(val.model()) && final(self)@ == old(self)@,
                Some(prev) => old(self)@.contains(val.model()) && prev.model() == val.model(),
            },
    {
        let r = match self.inner.remove_entry(val) {
            Some((k0, ())) => Some(k0),
            None => None,
        };
        proof {
            assert(self@ =~= old(self)@.remove(val.model()));
        }
        r
    }
}

impl<T: HashKey> Default for HashSet<T> {
    /// The default set is empty.
    fn default() -> (r: Self)
        ensures
            r.wf(),
            r@ == Set::<<T as HashKey>::Model>::empty(),
    {
        HashSet::new()
    }
}

/// A well-formed set's abstract value is a finite set, so its size is a
/// number.
pub proof fn lemma_view_finite<T: HashKey>(s: &HashSet<T>)
    requires
        s.wf(),
    ensures
        s@.finite(),
{
    crate::hashmap::lemma_view_finite(&s.inner);
}

/// Set uniqueness: adding a fresh member grows the size by exactly one and
/// re-adding an existing member leaves it unchanged; removing a member
/// shrinks the size by exactly one.
pub proof fn lemma_insert_size<A>(s: Set<A>, a: A)
    requires
        s.finite(),
    ensures
        s.contains(a) ==> s.insert(a).len() == s.len(),
        !s.contains(a) ==> s.insert(a).len() == s.len() + 1,
        s.contains(a) ==> s.remove(a).len() == s.len() - 1,
        !s.contains(a) ==> s.remove(a).len() == s.len(),
{
    vstd::set::axiom_set_insert_len(s, a);
    vstd::set::axiom_set_remove_len(s, a);
}

} // verus!
