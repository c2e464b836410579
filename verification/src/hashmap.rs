//! A chained-bucket hash table.
//!
//! The table is an array of buckets, each bucket an ordered chain of
//! key–value entries held in a [`Vec`]; a key lives in the bucket its hash
//! selects modulo the bucket count, which is always zero or a power of two.
//! Growth doubles the bucket array and rehashes every entry; it triggers
//! when an insertion brings the touched bucket's chain to a fixed threshold
//! length, or lazily on the first insert into an empty map.
//!
//! The abstract value of a map is the [`Map`] from key models (see
//! [`HashKey`]) to values; the well-formedness invariant is that every
//! chain's keys are distinct and every entry sits in the bucket its hash
//! selects, so every live key appears in exactly one bucket.

use vstd::prelude::*;
use crate::hasher::HashKey;
use crate::vec::Vec;

verus! {

/// A bucket chain that reaches this length triggers growth.
pub const MAX_BUCKET_LEN: usize = 6;

/// The bucket count installed by the first insertion into an empty map.
pub const START_CAPACITY: usize = 8;

/// The largest bucket count that growth will double; past it the requested
/// allocation could exceed the addressable range, so the table stops
/// growing instead.
pub const LARGEST_BUCKET_ARRAY: usize = usize::MAX / 8;

/// One chain entry.
struct Node<K, V> {
    key: K,
    val: V,
}

/// One bucket: an ordered chain of entries.
struct Bucket<K, V> {
    entries: Vec<Node<K, V>>,
}

/// Whether `n` is a power of two.
pub open spec fn is_pow2(n: nat) -> bool
    decreases n,
{
    if n == 0 {
        false
    } else if n == 1 {
        true
    } else {
        n % 2 == 0 && is_pow2(n / 2)
    }
}

/// The chain's keys are pairwise distinct, measured by their models.
spec fn chain_distinct<K: HashKey, V>(s: Seq<Node<K, V>>) -> bool {
    forall|j1: int, j2: int|
        0 <= j1 < j2 < s.len() ==> (#[trigger] s[j1].key.model()) != (#[trigger] s[j2].key.model())
}

/// Every entry of the chain belongs in bucket `b` of `nb` buckets.
spec fn chain_in_bucket<K: HashKey, V>(s: Seq<Node<K, V>>, nb: int, b: int) -> bool {
    forall|j: int| 0 <= j < s.len() ==> (#[trigger] s[j].key.hash_spec()) as int % nb == b
}

/// The association a chain represents.
spec fn chain_as_map<K: HashKey, V>(s: Seq<Node<K, V>>) -> Map<<K as HashKey>::Model, V>
    decreases s.len(),
{
    if s.len() == 0 {
        Map::empty()
    } else {
        chain_as_map(s.drop_last()).insert(s.last().key.model(), s.last().val)
    }
}

/// What a distinct chain's map holds: exactly its entries.
proof fn lemma_chain_map<K: HashKey, V>(s: Seq<Node<K, V>>)
    requires
        chain_distinct(s),
    ensures
        chain_as_map(s).dom().finite(),
        chain_as_map(s).dom().len() == s.len(),
        forall|j: int|
            0 <= j < s.len() ==> chain_as_map(s).dom().contains(#[trigger] s[j].key.model()),
        forall|j: int|
            0 <= j < s.len() ==> chain_as_map(s)[(#[trigger] s[j].key.model())] == s[j].val,
        forall|k: <K as HashKey>::Model| #[trigger]
            chain_as_map(s).dom().contains(k) ==> exists|j: int|
                0 <= j < s.len() && (#[trigger] s[j].key.model()) == k,
    decreases s.len(),
{
    if s.len() > 0 {
        lemma_chain_map(s.drop_last());
        let inner = chain_as_map(s.drop_last());
        let lastm = s.last().key.model();
        assert(!inner.dom().contains(lastm)) by {
            if inner.dom().contains(lastm) {
                let j = choose|j: int|
                    0 <= j < s.drop_last().len() && (#[trigger] s.drop_last()[j].key.model())
                        == lastm;
                assert(s[j].key.model() == lastm);
            }
        }
        vstd::set::axiom_set_insert_len(inner.dom(), lastm);
        assert forall|j: int| 0 <= j < s.len() implies chain_as_map(s).dom().contains(
            #[trigger] s[j].key.model(),
        ) && chain_as_map(s)[s[j].key.model()] == s[j].val by {
            if j < s.len() - 1 {
                assert(s.drop_last()[j].key.model() == s[j].key.model());
                assert(inner.dom().contains(s.drop_last()[j].key.model()));
                assert(inner[s.drop_last()[j].key.model()] == s.drop_last()[j].val);
                assert(s[j].key.model() != lastm);
            }
        }
        assert forall|k: <K as HashKey>::Model| #[trigger]
            chain_as_map(s).dom().contains(k) implies exists|j: int|
            0 <= j < s.len() && (#[trigger] s[j].key.model()) == k by {
            if k == lastm {
                assert(s[s.len() - 1].key.model() == k);
            } else {
                let j = choose|j: int|
                    0 <= j < s.drop_last().len() && (#[trigger] s.drop_last()[j].key.model()) == k;
                assert(s[j].key.model() == k);
            }
        }
    }
}

/// Replacing the entry at `j` with one that has the same key model updates
/// the chain's map at that key.
proof fn lemma_chain_update<K: HashKey, V>(s: Seq<Node<K, V>>, j: int, node: Node<K, V>)
    requires
        chain_distinct(s),
        0 <= j < s.len(),
        s[j].key.model() == node.key.model(),
    ensures
        chain_distinct(s.update(j, node)),
        chain_as_map(s.update(j, node)) == chain_as_map(s).insert(node.key.model(), node.val),
    decreases s.len(),
{
    lemma_chain_map(s);
    let t = s.update(j, node);
    if j == s.len() - 1 {
        assert(t.drop_last() =~= s.drop_last());
        assert(chain_as_map(t) =~= chain_as_map(s).insert(node.key.model(), node.val));
    } else {
        lemma_chain_update(s.drop_last(), j, node);
        assert(t.drop_last() =~= s.drop_last().update(j, node));
        assert(t.last() == s.last());
        assert(chain_as_map(t) == chain_as_map(s.drop_last()).insert(
            node.key.model(),
            node.val,
        ).insert(s.last().key.model(), s.last().val));
        assert(s.last().key.model() != node.key.model());
        assert(chain_as_map(t) =~= chain_as_map(s).insert(node.key.model(), node.val));
    }
}

/// Splicing the entry at `j` out of the chain removes exactly its key from
/// the chain's map.
proof fn lemma_chain_remove<K: HashKey, V>(s: Seq<Node<K, V>>, j: int)
    requires
        chain_distinct(s),
        0 <= j < s.len(),
    ensures
        chain_distinct(s.remove(j)),
        chain_as_map(s.remove(j)) == chain_as_map(s).remove(s[j].key.model()),
    decreases s.len(),
{
    lemma_chain_map(s);
    let t = s.remove(j);
    assert forall|j1: int, j2: int| 0 <= j1 < j2 < t.len() implies (#[trigger] t[j1].key.model())
        != (#[trigger] t[j2].key.model()) by {
        let i1 = if j1 < j { j1 } else { j1 + 1 };
        let i2 = if j2 < j { j2 } else { j2 + 1 };
        assert(t[j1] == s[i1] && t[j2] == s[i2]);
    }
    if j == s.len() - 1 {
        assert(t =~= s.drop_last());
        lemma_chain_map(s.drop_last());
        assert(!chain_as_map(s.drop_last()).dom().contains(s[j].key.model())) by {
            if chain_as_map(s.drop_last()).dom().contains(s[j].key.model()) {
                let jj = choose|jj: int|
                    0 <= jj < s.drop_last().len() && (#[trigger] s.drop_last()[jj].key.model())
                        == s[j].key.model();
                assert(s[jj].key.model() == s[j].key.model());
            }
        }
        assert(chain_as_map(t) =~= chain_as_map(s).remove(s[j].key.model()));
    } else {
        lemma_chain_remove(s.drop_last(), j);
        assert(t.drop_last() =~= s.drop_last().remove(j));
        assert(t.last() == s.last());
        assert(s.last().key.model() != s[j].key.model());
        assert(chain_as_map(t) =~= chain_as_map(s).remove(s[j].key.model()));
    }
}

impl<K: HashKey, V> Bucket<K, V> {
    /// An empty chain.
    fn new() -> (r: Self)
        ensures
            r.entries.wf(),
            r.entries@ == Seq::<Node<K, V>>::empty(),
    {
        Bucket { entries: Vec::new() }
    }

    /// The chain length.
    fn len(&self) -> (r: usize)
        requires
            self.entries.wf(),
        ensures
            r == self.entries@.len(),
    {
        self.entries.len()
    }

    /// Append `(key, val)` to the chain, or replace the entry whose key has
    /// the same model, handing the replaced pair back.
    fn push(&mut self, key: K, val: V) -> (r: Option<(K, V)>)
        requires
            old(self).entries.wf(),
            chain_distinct(old(self).entries@),
            old(self).entries@.len() < usize::MAX / 2,
        ensures
            final(self).entries.wf(),
            chain_distinct(final(self).entries@),
            chain_as_map(final(self).entries@) == chain_as_map(old(self).entries@).insert(
                key.model(),
                val,
            ),
            match r {
                None => !chain_as_map(old(self).entries@).dom().contains(key.model()) && final(self).entries@ == old(self).entries@.push((Node { key, val })),
                Some((k0, v0)) => k0.model() == key.model() && chain_as_map(
                    old(self).entries@,
                ).dom().contains(key.model()) && v0 == chain_as_map(old(self).entries@)[key.model()]
                    && exists|j: int|
                    0 <= j < old(self).entries@.len() && final(self).entries@ == old(self).entries@.update(j, (Node { key, val })),
            },
    {
        proof {
            lemma_chain_map(old(self).entries@);
        }
        let n = self.entries.len();
        let mut j: usize = 0;
        while j < n
            invariant
                n == self.entries@.len(),
                0 <= j <= n,
                *self == *old(self),
                self.entries.wf(),
                chain_distinct(self.entries@),
                forall|jj: int|
                    0 <= jj < j ==> (#[trigger] self.entries@[jj].key.model()) != key.model(),
            decreases n - j,
        {
            if self.entries.get(j).key.key_eq(&key) {
                let old_node = self.entries.replace(j, Node { key, val });
                proof {
                    lemma_chain_map(old(self).entries@);
                    lemma_chain_update(old(self).entries@, j as int, (Node { key, val }));
                    let entries0 = old(self).entries@;
                    assert(old_node == entries0[j as int]);
                    assert(entries0[j as int].key.model() == key.model());
                    assert(chain_as_map(entries0).dom().contains(entries0[j as int].key.model()));
                    assert(chain_as_map(entries0)[entries0[j as int].key.model()] == entries0[
                        j as int
                    ].val);
                }
                return Some((old_node.key, old_node.val));
            }
            j = j + 1;
        }
        proof {
            if chain_as_map(self.entries@).dom().contains(key.model()) {
                let jj = choose|jj: int|
                    0 <= jj < self.entries@.len() && (#[trigger] self.entries@[jj].key.model())
                        == key.model();
                assert(false);
            }
        }
        self.entries.push(Node { key, val });
        proof {
            assert(self.entries@.drop_last() =~= old(self).entries@);
        }
        None
    }

    /// Append an entry whose key is known to be absent from the chain; used
    /// by growth, which re-files entries that are globally distinct.
    fn push_node(&mut self, node: Node<K, V>)
        requires
            old(self).entries.wf(),
            chain_distinct(old(self).entries@),
            old(self).entries@.len() < usize::MAX / 2,
            !chain_as_map(old(self).entries@).dom().contains(node.key.model()),
        ensures
            final(self).entries.wf(),
            final(self).entries@ == old(self).entries@.push(node),
            chain_distinct(final(self).entries@),
            chain_as_map(final(self).entries@) == chain_as_map(old(self).entries@).insert(
                node.key.model(),
                node.val,
            ),
    {
        proof {
            lemma_chain_map(old(self).entries@);
        }
        let ghost pre = self.entries@;
        self.entries.push(node);
        proof {
            assert(self.entries@.drop_last() =~= pre);
            assert forall|j1: int, j2: int| 0 <= j1 < j2 < self.entries@.len() implies (
            #[trigger] self.entries@[j1].key.model()) != (#[trigger] self.entries@[j2].key.model())
                by {
                if j2 == self.entries@.len() - 1 {
                    assert(pre[j1].key.model() != node.key.model());
                }
            }
        }
    }

    /// Borrow the value of the entry whose key has the same model as `key`.
    fn get(&self, key: &K) -> (r: Option<&V>)
        requires
            self.entries.wf(),
            chain_distinct(self.entries@),
        ensures
            match r {
                Some(v) => chain_as_map(self.entries@).dom().contains(key.model()) && *v
                    == chain_as_map(self.entries@)[key.model()],
                None => !chain_as_map(self.entries@).dom().contains(key.model()),
            },
    {
        proof {
            lemma_chain_map(self.entries@);
        }
        let n = self.entries.len();
        let mut j: usize = 0;
        while j < n
            invariant
                n == self.entries@.len(),
                0 <= j <= n,
                self.entries.wf(),
                chain_distinct(self.entries@),
                forall|jj: int|
                    0 <= jj < j ==> (#[trigger] self.entries@[jj].key.model()) != key.model(),
            decreases n - j,
        {
            let node = self.entries.get(j);
            if node.key.key_eq(key) {
                proof {
                    lemma_chain_map(self.entries@);
                    assert(self.entries@[j as int].key.model() == key.model());
                    assert(chain_as_map(self.entries@).dom().contains(
                        self.entries@[j as int].key.model(),
                    ));
                    assert(chain_as_map(self.entries@)[self.entries@[j as int].key.model()]
                        == self.entries@[j as int].val);
                }
                return Some(&node.val);
            }
            j = j + 1;
        }
        proof {
            if chain_as_map(self.entries@).dom().contains(key.model()) {
                let jj = choose|jj: int|
                    0 <= jj < self.entries@.len() && (#[trigger] self.entries@[jj].key.model())
                        == key.model();
                assert(false);
            }
        }
        None
    }

    /// Mutably borrow the value of the matching entry. Only that entry's
    /// value can change through the borrow: every key keeps its place, so
    /// the chain's shape is stated for any value the caller writes.
    fn get_mut(&mut self, key: &K) -> (r: Option<&mut V>)
        requires
            old(self).entries.wf(),
            chain_distinct(old(self).entries@),
        ensures
            match r {
                None => *final(self) == *old(self) && !chain_as_map(
                    old(self).entries@,
                ).dom().contains(key.model()),
                Some(v) => ({
                    let oldc = old(self).entries@;
                    let newc = final(self).entries@;
                    &&& chain_as_map(oldc).dom().contains(key.model())
                    &&& *v == chain_as_map(oldc)[key.model()]
                    &&& final(self).entries.wf()
                    &&& newc.len() == oldc.len()
                    &&& (forall|jj: int|
                        0 <= jj < oldc.len() ==> (#[trigger] newc[jj]).key == oldc[jj].key)
                    &&& chain_distinct(newc)
                    &&& chain_as_map(newc) == chain_as_map(oldc).insert(key.model(), *final(v))
                }),
            },
    {
        proof {
            lemma_chain_map(old(self).entries@);
        }
        let n = self.entries.len();
        let mut j: usize = 0;
        while j < n
            invariant
                n == self.entries@.len(),
                0 <= j <= n,
                *self == *old(self),
                self.entries.wf(),
                chain_distinct(self.entries@),
                forall|jj: int|
                    0 <= jj < j ==> (#[trigger] self.entries@[jj].key.model()) != key.model(),
            decreases n - j,
        {
            if self.entries.get(j).key.key_eq(key) {
                proof {
                    lemma_chain_map(self.entries@);
                    let oldc = self.entries@;
                    assert(oldc[j as int].key.model() == key.model());
                    assert(chain_as_map(oldc).dom().contains(oldc[j as int].key.model()));
                    assert(chain_as_map(oldc)[oldc[j as int].key.model()] == oldc[j as int].val);
                    assert forall|nd: Node<K, V>| #![trigger oldc.update(j as int, nd)]
                        nd.key == oldc[j as int].key implies chain_distinct(
                        oldc.update(j as int, nd),
                    ) && chain_as_map(oldc.update(j as int, nd)) == chain_as_map(oldc).insert(
                        key.model(),
                        nd.val,
                    ) && (forall|jj: int|
                        0 <= jj < oldc.len() ==> (#[trigger] oldc.update(j as int, nd)[jj]).key
                            == oldc[jj].key) by {
                        lemma_chain_update(oldc, j as int, nd);
                    }
                }
                let node_ref = self.entries.get_mut(j);
                return Some(&mut node_ref.val);
            }
            j = j + 1;
        }
        proof {
            if chain_as_map(self.entries@).dom().contains(key.model()) {
                let jj = choose|jj: int|
                    0 <= jj < self.entries@.len() && (#[trigger] self.entries@[jj].key.model())
                        == key.model();
                assert(false);
            }
        }
        None
    }

    /// Splice the matching entry out of the chain and hand it back.
    fn remove(&mut self, key: &K) -> (r: Option<(K, V)>)
        requires
            old(self).entries.wf(),
            chain_distinct(old(self).entries@),
        ensures
            final(self).entries.wf(),
            chain_distinct(final(self).entries@),
            match r {
                Some((k0, v0)) => k0.model() == key.model() && chain_as_map(
                    old(self).entries@,
                ).dom().contains(key.model()) && v0 == chain_as_map(old(self).entries@)[key.model()]
                    && chain_as_map(final(self).entries@) == chain_as_map(
                    old(self).entries@,
                ).remove(key.model()) && exists|j: int|
                    0 <= j < old(self).entries@.len() && final(self).entries@ == old(self).entries@.remove(j),
                None => !chain_as_map(old(self).entries@).dom().contains(key.model()) && *final(self) == *old(self),
            },
    {
        proof {
            lemma_chain_map(old(self).entries@);
        }
        let n = self.entries.len();
        let mut j: usize = 0;
        while j < n
            invariant
                n == self.entries@.len(),
                0 <= j <= n,
                *self == *old(self),
                self.entries.wf(),
                chain_distinct(self.entries@),
                forall|jj: int|
                    0 <= jj < j ==> (#[trigger] self.entries@[jj].key.model()) != key.model(),
            decreases n - j,
        {
            if self.entries.get(j).key.key_eq(key) {
                proof {
                    lemma_chain_map(old(self).entries@);
                    lemma_chain_remove(old(self).entries@, j as int);
                    let entries0 = old(self).entries@;
                    assert(entries0[j as int].key.model() == key.model());
                    assert(chain_as_map(entries0).dom().contains(entries0[j as int].key.model()));
                    assert(chain_as_map(entries0)[entries0[j as int].key.model()] == entries0[
                        j as int
                    ].val);
                }
                let node = self.entries.remove(j);
                return Some((node.key, node.val));
            }
            j = j + 1;
        }
        proof {
            if chain_as_map(self.entries@).dom().contains(key.model()) {
                let jj = choose|jj: int|
                    0 <= jj < self.entries@.len() && (#[trigger] self.entries@[jj].key.model())
                        == key.model();
                assert(false);
            }
        }
        None
    }
}

/// The association a whole bucket array represents: the union of its
/// chains, which the residency invariant keeps pairwise disjoint.
spec fn buckets_as_map<K: HashKey, V>(s: Seq<Bucket<K, V>>) -> Map<<K as HashKey>::Model, V>
    decreases s.len(),
{
    if s.len() == 0 {
        Map::empty()
    } else {
        buckets_as_map(s.drop_last()).union_prefer_right(chain_as_map(s.last().entries@))
    }
}

/// How many entries the bucket array holds in all.
spec fn total_entries<K, V>(s: Seq<Bucket<K, V>>) -> int
    decreases s.len(),
{
    if s.len() == 0 {
        0
    } else {
        total_entries(s.drop_last()) + s.last().entries@.len()
    }
}

/// A well-formed bucket at index `b` of `nb`: a distinct chain whose every
/// key hashes there.
spec fn bucket_ok<K: HashKey, V>(bk: Bucket<K, V>, nb: int, b: int) -> bool {
    &&& bk.entries.wf()
    &&& chain_distinct(bk.entries@)
    &&& chain_in_bucket(bk.entries@, nb, b)
}

/// What a well-formed bucket array's map holds: exactly its entries, every
/// live key in exactly one bucket.
proof fn lemma_buckets_map<K: HashKey, V>(s: Seq<Bucket<K, V>>, nb: int)
    requires
        forall|b: int| 0 <= b < s.len() ==> bucket_ok(#[trigger] s[b], nb, b),
    ensures
        buckets_as_map(s).dom().finite(),
        buckets_as_map(s).dom().len() == total_entries(s),
        forall|b: int, j: int|
            0 <= b < s.len() && 0 <= j < s[b].entries@.len() ==> buckets_as_map(s).dom().contains(
                (#[trigger] s[b].entries@[j]).key.model(),
            ) && buckets_as_map(s)[s[b].entries@[j].key.model()] == s[b].entries@[j].val,
        forall|k: <K as HashKey>::Model| #[trigger]
            buckets_as_map(s).dom().contains(k) ==> exists|b: int, j: int|
                0 <= b < s.len() && 0 <= j < s[b].entries@.len() && (#[trigger] s[b].entries@[j]).key.model() == k,
    decreases s.len(),
{
    if s.len() > 0 {
        let prefix = s.drop_last();
        assert forall|b: int| 0 <= b < prefix.len() implies bucket_ok(
            #[trigger] prefix[b],
            nb,
            b,
        ) by {
            assert(prefix[b] == s[b]);
        }
        lemma_buckets_map(prefix, nb);
        let bl = s.len() - 1;
        let last_chain = s[bl].entries@;
        assert(bucket_ok(s[bl], nb, bl));
        lemma_chain_map(last_chain);
        let inner = buckets_as_map(prefix);
        let lastm = chain_as_map(last_chain);
        let whole = buckets_as_map(s);
        assert forall|k: <K as HashKey>::Model| !(inner.dom().contains(k)
            && #[trigger] lastm.dom().contains(k)) by {
            if inner.dom().contains(k) && lastm.dom().contains(k) {
                let (b1, j1) = choose|b1: int, j1: int|
                    0 <= b1 < prefix.len() && 0 <= j1 < prefix[b1].entries@.len() && (
                    #[trigger] prefix[b1].entries@[j1]).key.model() == k;
                let j2 = choose|j2: int|
                    0 <= j2 < last_chain.len() && (#[trigger] last_chain[j2].key.model()) == k;
                assert(prefix[b1] == s[b1]);
                assert(bucket_ok(s[b1], nb, b1));
                s[b1].entries@[j1].key.lemma_hash_respects_model(&last_chain[j2].key);
                assert(s[b1].entries@[j1].key.hash_spec() as int % nb == b1);
                assert(last_chain[j2].key.hash_spec() as int % nb == bl);
                assert(false);
            }
        }
        assert(whole.dom() =~= inner.dom() + lastm.dom());
        assert(inner.dom().disjoint(lastm.dom()));
        vstd::set_lib::lemma_set_disjoint_lens(inner.dom(), lastm.dom());
        assert(whole.dom().len() == total_entries(s));
        assert forall|b: int, j: int|
            0 <= b < s.len() && 0 <= j < s[b].entries@.len() implies whole.dom().contains(
            (#[trigger] s[b].entries@[j]).key.model(),
        ) && whole[s[b].entries@[j].key.model()] == s[b].entries@[j].val by {
            let k = s[b].entries@[j].key.model();
            if b == bl {
                assert(lastm.dom().contains(k) && lastm[k] == s[b].entries@[j].val);
            } else {
                assert(prefix[b] == s[b]);
                assert(inner.dom().contains(k) && inner[k] == s[b].entries@[j].val);
                assert(!lastm.dom().contains(k));
            }
        }
        assert forall|k: <K as HashKey>::Model| #[trigger]
            whole.dom().contains(k) implies exists|b: int, j: int|
            0 <= b < s.len() && 0 <= j < s[b].entries@.len() && (
            #[trigger] s[b].entries@[j]).key.model() == k by {
            if lastm.dom().contains(k) {
                let j2 = choose|j2: int|
                    0 <= j2 < last_chain.len() && (#[trigger] last_chain[j2].key.model()) == k;
                assert(0 <= bl < s.len() && 0 <= j2 < s[bl].entries@.len()
                    && s[bl].entries@[j2].key.model() == k);
            } else {
                let (b1, j1) = choose|b1: int, j1: int|
                    0 <= b1 < prefix.len() && 0 <= j1 < prefix[b1].entries@.len() && (
                    #[trigger] prefix[b1].entries@[j1]).key.model() == k;
                assert(prefix[b1] == s[b1]);
                assert(0 <= b1 < s.len() && 0 <= j1 < s[b1].entries@.len()
                    && s[b1].entries@[j1].key.model() == k);
            }
        }
    }
}

/// For a key whose hash selects bucket `b`, the whole map answers exactly
/// as chain `b` does.
proof fn lemma_lookup<K: HashKey, V>(s: Seq<Bucket<K, V>>, nb: int, key: K)
    requires
        forall|b: int| 0 <= b < s.len() ==> bucket_ok(#[trigger] s[b], nb, b),
        s.len() == nb,
        nb > 0,
    ensures
        ({
            let k = key.model();
            let b = key.hash_spec() as int % nb;
            &&& buckets_as_map(s).dom().contains(k) == chain_as_map(s[b].entries@).dom().contains(
                k,
            )
            &&& (chain_as_map(s[b].entries@).dom().contains(k) ==> buckets_as_map(s)[k]
                == chain_as_map(s[b].entries@)[k])
        }),
{
    let k = key.model();
    let b = key.hash_spec() as int % nb;
    let h = key.hash_spec() as int;
    assert(h % nb >= 0 && h % nb < nb) by (nonlinear_arith)
        requires
            nb > 0,
    ;
    lemma_buckets_map(s, nb);
    lemma_chain_map(s[b].entries@);
    if buckets_as_map(s).dom().contains(k) {
        let (b1, j1) = choose|b1: int, j1: int|
            0 <= b1 < s.len() && 0 <= j1 < s[b1].entries@.len() && (
            #[trigger] s[b1].entries@[j1]).key.model() == k;
        s[b1].entries@[j1].key.lemma_hash_respects_model(&key);
        assert(b1 == b);
        assert(chain_as_map(s[b].entries@).dom().contains(k));
        assert(chain_as_map(s[b].entries@)[k] == s[b].entries@[j1].val);
        assert(buckets_as_map(s)[k] == s[b].entries@[j1].val);
    } else {
        if chain_as_map(s[b].entries@).dom().contains(k) {
            let j2 = choose|j2: int|
                0 <= j2 < s[b].entries@.len() && (#[trigger] s[b].entries@[j2].key.model()) == k;
            assert(buckets_as_map(s).dom().contains(k));
        }
    }
}

/// An array map built only from well-formed buckets at one count stays the
/// same when one bucket is replaced by another whose chain map, length and
/// residency match; stated for the two updates the operations make.
proof fn lemma_buckets_update<K: HashKey, V>(
    s: Seq<Bucket<K, V>>,
    nb: int,
    b: int,
    bk: Bucket<K, V>,
    key: K,
)
    requires
        forall|b2: int| 0 <= b2 < s.len() ==> bucket_ok(#[trigger] s[b2], nb, b2),
        s.len() == nb,
        0 <= b < nb,
        b == key.hash_spec() as int % nb,
        bucket_ok(bk, nb, b),
    ensures
        chain_as_map(bk.entries@) == chain_as_map(s[b].entries@).insert(
            key.model(),
            chain_as_map(bk.entries@)[key.model()],
        ) && chain_as_map(bk.entries@).dom().contains(key.model()) ==> buckets_as_map(
            s.update(b, bk),
        ) == buckets_as_map(s).insert(key.model(), chain_as_map(bk.entries@)[key.model()]),
        chain_as_map(bk.entries@) == chain_as_map(s[b].entries@).remove(key.model())
            ==> buckets_as_map(s.update(b, bk)) == buckets_as_map(s).remove(key.model()),
{
    let t = s.update(b, bk);
    assert forall|b2: int| 0 <= b2 < t.len() implies bucket_ok(#[trigger] t[b2], nb, b2) by {
        if b2 != b {
            assert(t[b2] == s[b2]);
        }
    }
    lemma_buckets_map(s, nb);
    lemma_buckets_map(t, nb);
    lemma_chain_map(s[b].entries@);
    lemma_chain_map(bk.entries@);
    let k = key.model();
    let old_whole = buckets_as_map(s);
    let new_whole = buckets_as_map(t);
    // Any key other than `k` answers alike in the two arrays, because the
    // only changed bucket agrees off `k` and a key occupies one bucket.
    assert forall|k2: <K as HashKey>::Model|
        k2 != k && (chain_as_map(bk.entries@) == chain_as_map(s[b].entries@).insert(
            k,
            chain_as_map(bk.entries@)[k],
        ) || chain_as_map(bk.entries@) == chain_as_map(s[b].entries@).remove(k)) implies (
    old_whole.dom().contains(k2) == new_whole.dom().contains(k2)) && (old_whole.dom().contains(k2)
        ==> old_whole[k2] == new_whole[k2]) by {
        if old_whole.dom().contains(k2) {
            let (b1, j1) = choose|b1: int, j1: int|
                0 <= b1 < s.len() && 0 <= j1 < s[b1].entries@.len() && (
                #[trigger] s[b1].entries@[j1]).key.model() == k2;
            if b1 == b {
                assert(chain_as_map(s[b].entries@).dom().contains(k2));
                assert(chain_as_map(bk.entries@).dom().contains(k2));
                assert(chain_as_map(bk.entries@)[k2] == chain_as_map(s[b].entries@)[k2]);
                let j2 = choose|j2: int|
                    0 <= j2 < bk.entries@.len() && (#[trigger] bk.entries@[j2].key.model()) == k2;
                assert(t[b].entries@[j2].key.model() == k2);
                assert(new_whole.dom().contains(k2) && new_whole[k2] == bk.entries@[j2].val);
                assert(chain_as_map(bk.entries@)[k2] == bk.entries@[j2].val);
                assert(old_whole[k2] == s[b].entries@[j1].val);
                assert(chain_as_map(s[b].entries@)[k2] == s[b].entries@[j1].val);
            } else {
                assert(t[b1] == s[b1]);
                assert(new_whole.dom().contains(k2) && new_whole[k2] == s[b1].entries@[j1].val);
                assert(old_whole[k2] == s[b1].entries@[j1].val);
            }
        }
        if new_whole.dom().contains(k2) && !old_whole.dom().contains(k2) {
            let (b1, j1) = choose|b1: int, j1: int|
                0 <= b1 < t.len() && 0 <= j1 < t[b1].entries@.len() && (
                #[trigger] t[b1].entries@[j1]).key.model() == k2;
            if b1 == b {
                assert(chain_as_map(bk.entries@).dom().contains(k2));
                assert(chain_as_map(s[b].entries@).dom().contains(k2));
                let j2 = choose|j2: int|
                    0 <= j2 < s[b].entries@.len() && (#[trigger] s[b].entries@[j2].key.model())
                        == k2;
                assert(old_whole.dom().contains(k2));
            } else {
                assert(t[b1] == s[b1]);
                assert(old_whole.dom().contains(k2));
            }
        }
    }
    if chain_as_map(bk.entries@) == chain_as_map(s[b].entries@).insert(
        k,
        chain_as_map(bk.entries@)[k],
    ) && chain_as_map(bk.entries@).dom().contains(k) {
        let v = chain_as_map(bk.entries@)[k];
        let j2 = choose|j2: int|
            0 <= j2 < bk.entries@.len() && (#[trigger] bk.entries@[j2].key.model()) == k;
        assert(t[b] == bk);
        assert(t[b].entries@[j2].key.model() == k);
        assert(new_whole.dom().contains(t[b].entries@[j2].key.model()));
        assert(new_whole[t[b].entries@[j2].key.model()] == t[b].entries@[j2].val);
        assert(chain_as_map(bk.entries@)[k] == bk.entries@[j2].val);
        assert(new_whole =~= old_whole.insert(k, v));
    }
    if chain_as_map(bk.entries@) == chain_as_map(s[b].entries@).remove(k) {
        assert(!chain_as_map(bk.entries@).dom().contains(k));
        assert(!new_whole.dom().contains(k)) by {
            if new_whole.dom().contains(k) {
                let (b1, j1) = choose|b1: int, j1: int|
                    0 <= b1 < t.len() && 0 <= j1 < t[b1].entries@.len() && (
                    #[trigger] t[b1].entries@[j1]).key.model() == k;
                t[b1].entries@[j1].key.lemma_hash_respects_model(&key);
                assert(b1 == b);
                assert(chain_as_map(bk.entries@).dom().contains(k));
            }
        }
        assert(new_whole =~= old_whole.remove(k));
    }
}

/// A chained hash table from keys to values.
pub struct HashMap<K, V> {
    buckets: Vec<Bucket<K, V>>,
}

impl<K: HashKey, V> View for HashMap<K, V> {
    type V = Map<<K as HashKey>::Model, V>;

    /// The association this table represents.
    closed spec fn view(&self) -> Map<<K as HashKey>::Model, V> {
        buckets_as_map(self.buckets@)
    }
}

impl<K: HashKey, V> HashMap<K, V> {
    /// Every bucket is well formed for the current bucket count.
    spec fn buckets_ok(&self) -> bool {
        forall|b: int|
            0 <= b < self.buckets@.len() ==> bucket_ok(
                #[trigger] self.buckets@[b],
                self.buckets@.len() as int,
                b,
            )
    }

    /// Well-formedness: a power-of-two bucket count (or none yet), chains
    /// that are distinct and correctly filed, and a total entry count that
    /// fits the machine.
    pub closed spec fn wf(&self) -> bool {
        &&& self.buckets.wf()
        &&& (self.buckets@.len() == 0 || is_pow2(self.buckets@.len() as nat))
        &&& (self.buckets@.len() == 0 || self.buckets@.len() >= START_CAPACITY)
        &&& self.buckets@.len() <= usize::MAX / 4
        &&& self.buckets_ok()
        &&& total_entries(self.buckets@) <= usize::MAX / 2
    }

    /// The number of buckets.
    pub closed spec fn spec_capacity(&self) -> nat {
        self.buckets@.len()
    }

    /// An empty map with no buckets at all.
    pub fn new() -> (r: Self)
        ensures
            r.wf(),
            r@ == Map::<<K as HashKey>::Model, V>::empty(),
            r.spec_capacity() == 0,
    {
        HashMap { buckets: Vec::new() }
    }

    /// The number of buckets.
    pub fn capacity(&self) -> (r: usize)
        ensures
            r == self.spec_capacity(),
    {
        self.buckets.len()
    }

    /// The number of entries, summed over the chains.
    pub fn len(&self) -> (r: usize)
        requires
            self.wf(),
        ensures
            r == self@.len(),
    {
        proof {
            lemma_buckets_map(self.buckets@, self.buckets@.len() as int);
        }
        let nb = self.buckets.len();
        let mut acc: usize = 0;
        let mut b: usize = 0;
        while b < nb
            invariant
                nb == self.buckets@.len(),
                self.wf(),
                0 <= b <= nb,
                acc == total_entries(self.buckets@.subrange(0, b as int)),
                acc <= total_entries(self.buckets@),
                total_entries(self.buckets@) <= usize::MAX / 2,
            decreases nb - b,
        {
            proof {
                lemma_total_entries_step(self.buckets@, b as int);
            }
            acc = acc + self.buckets.get(b).len();
            b = b + 1;
        }
        proof {
            assert(self.buckets@.subrange(0, nb as int) =~= self.buckets@);
        }
        acc
    }

    /// Whether the map holds no entry.
    pub fn is_empty(&self) -> (r: bool)
        requires
            self.wf(),
        ensures
            r == (self@.len() == 0),
    {
        self.len() == 0
    }

    /// The bucket `key` belongs to; callable once buckets exist.
    fn get_bucket_unchecked(&self, key: &K) -> (r: usize)
        requires
            self.wf(),
            self.spec_capacity() > 0,
        ensures
            r as int == key.hash_spec() as int % self.spec_capacity() as int,
            r < self.spec_capacity(),
    {
        let hash = key.hash_key();
        let nb64 = self.buckets.len() as u64;
        let bucket = hash % nb64;
        proof {
            let h = key.hash_spec() as int;
            let c = self.spec_capacity() as int;
            assert(h % c >= 0 && h % c < c) by (nonlinear_arith)
                requires
                    c > 0,
            ;
            assert(nb64 as int == c) by {
                assert(self.spec_capacity() <= usize::MAX / 4);
            }
        }
        bucket as usize
    }

    /// The bucket `key` belongs to, or `None` while the map is empty.
    fn get_bucket(&self, key: &K) -> (r: Option<usize>)
        requires
            self.wf(),
        ensures
            match r {
                Some(b) => self.spec_capacity() > 0 && b as int == key.hash_spec() as int
                    % self.spec_capacity() as int && b < self.spec_capacity(),
                None => self@.len() == 0,
            },
    {
        if self.is_empty() {
            return None;
        }
        proof {
            if self.buckets@.len() == 0 {
                assert(self@ =~= Map::<<K as HashKey>::Model, V>::empty());
            }
        }
        Some(self.get_bucket_unchecked(key))
    }

    /// Borrow the value stored for `key`, if one is.
    pub fn get(&self, key: &K) -> (r: Option<&V>)
        requires
            self.wf(),
        ensures
            match r {
                Some(v) => self@.dom().contains(key.model()) && *v == self@[key.model()],
                None => !self@.dom().contains(key.model()),
            },
    {
        match self.get_bucket(key) {
            None => {
                proof {
                    lemma_buckets_map(self.buckets@, self.buckets@.len() as int);
                }
                None
            },
            Some(b) => {
                proof {
                    lemma_lookup(self.buckets@, self.buckets@.len() as int, *key);
                }
                self.buckets.get(b).get(key)
            },
        }
    }

    /// Whether `key` is present.
    pub fn contains_key(&self, key: &K) -> (r: bool)
        requires
            self.wf(),
        ensures
            r == self@.dom().contains(key.model()),
    {
        match self.get(key) {
            Some(_) => true,
            None => false,
        }
    }
}

impl<K: HashKey, V> HashMap<K, V> {
    /// Insert `key → val`. If an entry with the same key already exists it
    /// is replaced, and the old pair is handed back. The first insertion
    /// installs the starting bucket array; any insertion that brings the
    /// touched chain to the threshold length doubles it.
    pub fn insert(&mut self, key: K, val: V) -> (r: Option<(K, V)>)
        requires
            old(self).wf(),
            old(self)@.len() < usize::MAX / 2,
        ensures
            final(self).wf(),
            final(self)@ == old(self)@.insert(key.model(), val),
            final(self).spec_capacity() >= old(self).spec_capacity(),
            final(self).spec_capacity() >= START_CAPACITY,
            old(self).spec_capacity() > 0 ==> final(self).spec_capacity() == old(
                self,
            ).spec_capacity() || final(self).spec_capacity() == 2 * old(self).spec_capacity(),
            match r {
                None => !old(self)@.dom().contains(key.model()),
                Some((k0, v0)) => old(self)@.dom().contains(key.model()) && k0.model()
                    == key.model() && v0 == old(self)@[key.model()],
            },
    {
        let ghost gkey = key;
        if self.buckets.len() == 0 {
            self.grow();
        }
        let ghost mid = *self;
        let ghost nb = self.buckets@.len() as int;
        proof {
            lemma_lookup(mid.buckets@, nb, gkey);
            lemma_buckets_map(mid.buckets@, nb);
            lemma_chain_map(mid.buckets@[gkey.hash_spec() as int % nb].entries@);
            lemma_total_entries_step(mid.buckets@, gkey.hash_spec() as int % nb);
            lemma_total_entries_prefix(mid.buckets@, gkey.hash_spec() as int % nb);
        }
        let b = self.get_bucket_unchecked(&key);
        let bucket_ref = self.buckets.get_mut(b);
        let prev = bucket_ref.push(key, val);
        proof {
            let newbk = self.buckets@[b as int];
            assert(self.buckets@ =~= mid.buckets@.update(b as int, newbk));
            assert(chain_in_bucket(newbk.entries@, nb, b as int)) by {
                let oldc = mid.buckets@[b as int].entries@;
                let newc = newbk.entries@;
                match prev {
                    None => {
                        assert(newc == oldc.push((Node { key: gkey, val })));
                        assert forall|j: int| 0 <= j < newc.len() implies (
                        #[trigger] newc[j].key.hash_spec()) as int % nb == b as int by {
                            if j < oldc.len() {
                                assert(newc[j] == oldc[j]);
                            }
                        }
                    },
                    Some(p0) => {
                        let j0 = choose|j0: int|
                            0 <= j0 < oldc.len() && newc == oldc.update(
                                j0,
                                (Node { key: gkey, val }),
                            );
                        assert forall|j: int| 0 <= j < newc.len() implies (
                        #[trigger] newc[j].key.hash_spec()) as int % nb == b as int by {
                            if j != j0 {
                                assert(newc[j] == oldc[j]);
                            }
                        }
                    },
                }
            }
            assert(bucket_ok(newbk, nb, b as int));
            lemma_buckets_update(mid.buckets@, nb, b as int, newbk, gkey);
            assert(chain_as_map(newbk.entries@)[gkey.model()] == val);
            assert(self@ =~= old(self)@.insert(gkey.model(), val));
            // well-formedness of the grown state
            lemma_total_entries_update(mid.buckets@, b as int, newbk);
            assert forall|b2: int| 0 <= b2 < self.buckets@.len() implies bucket_ok(
                #[trigger] self.buckets@[b2],
                nb,
                b2,
            ) by {
                if b2 != b as int {
                    assert(self.buckets@[b2] == mid.buckets@[b2]);
                }
            }
            assert(newbk.entries@.len() <= mid.buckets@[b as int].entries@.len() + 1);
            assert(total_entries(self.buckets@) <= total_entries(mid.buckets@) + 1);
            assert(total_entries(mid.buckets@) == mid@.dom().len());
            assert(self.wf());
            assert(self.spec_capacity() == mid.spec_capacity());
            assert(old(self).spec_capacity() > 0 ==> mid.spec_capacity() == old(
                self,
            ).spec_capacity());
        }
        if self.buckets.get(b).len() == MAX_BUCKET_LEN {
            self.grow();
        }
        prev
    }

    /// Replacing bucket `b` with one that keeps every key in place and
    /// updates its chain's map at the looked-up key updates the whole map
    /// there; stated for any replacement bucket, so it can be applied
    /// before the bucket is mutably borrowed.
    proof fn lemma_map_value_update(&self, b: int, key: K)
        requires
            self.wf(),
            0 <= b < self.buckets@.len(),
            b == key.hash_spec() as int % self.buckets@.len() as int,
        ensures
            forall|post: Self, bk: Bucket<K, V>|
                #![trigger post.buckets@, self.buckets@.update(b, bk)]
                ({
                    let oldbk = self.buckets@[b];
                    &&& post.buckets@ == self.buckets@.update(b, bk)
                    &&& post.buckets.wf()
                    &&& bk.entries.wf()
                    &&& chain_distinct(bk.entries@)
                    &&& bk.entries@.len() == oldbk.entries@.len()
                    &&& (forall|jj: int|
                        0 <= jj < oldbk.entries@.len() ==> (#[trigger] bk.entries@[jj]).key
                            == oldbk.entries@[jj].key)
                    &&& chain_as_map(bk.entries@).dom().contains(key.model())
                    &&& chain_as_map(bk.entries@) == chain_as_map(oldbk.entries@).insert(
                        key.model(),
                        chain_as_map(bk.entries@)[key.model()],
                    )
                }) ==> post.wf() && post@ == self@.insert(
                    key.model(),
                    chain_as_map(bk.entries@)[key.model()],
                ),
            forall|post: Self, bk: Bucket<K, V>|
                #![trigger post.buckets@, self.buckets@.update(b, bk)]
                (post.buckets@ == self.buckets@.update(b, bk) && bk == self.buckets@[b]
                    && post.buckets.wf()) ==> post.wf() && post@ == self@,
    {
        let nb = self.buckets@.len() as int;
        assert forall|post: Self, bk: Bucket<K, V>|
            #![trigger post.buckets@, self.buckets@.update(b, bk)]
            ({
                let oldbk = self.buckets@[b];
                &&& post.buckets@ == self.buckets@.update(b, bk)
                &&& post.buckets.wf()
                &&& bk.entries.wf()
                &&& chain_distinct(bk.entries@)
                &&& bk.entries@.len() == oldbk.entries@.len()
                &&& (forall|jj: int|
                    0 <= jj < oldbk.entries@.len() ==> (#[trigger] bk.entries@[jj]).key
                        == oldbk.entries@[jj].key)
                &&& chain_as_map(bk.entries@).dom().contains(key.model())
                &&& chain_as_map(bk.entries@) == chain_as_map(oldbk.entries@).insert(
                    key.model(),
                    chain_as_map(bk.entries@)[key.model()],
                )
            }) implies post.wf() && post@ == self@.insert(
            key.model(),
            chain_as_map(bk.entries@)[key.model()],
        ) by {
            let oldbk = self.buckets@[b];
            assert(chain_in_bucket(bk.entries@, nb, b)) by {
                assert forall|jj: int| 0 <= jj < bk.entries@.len() implies (
                #[trigger] bk.entries@[jj].key.hash_spec()) as int % nb == b by {
                    assert(bk.entries@[jj].key == oldbk.entries@[jj].key);
                    assert(oldbk.entries@[jj].key.hash_spec() as int % nb == b);
                }
            }
            assert(bucket_ok(bk, nb, b));
            lemma_buckets_update(self.buckets@, nb, b, bk, key);
            assert forall|b2: int| 0 <= b2 < post.buckets@.len() implies bucket_ok(
                #[trigger] post.buckets@[b2],
                nb,
                b2,
            ) by {
                if b2 != b {
                    assert(post.buckets@[b2] == self.buckets@[b2]);
                }
            }
            lemma_total_entries_update(self.buckets@, b, bk);
            assert(post.wf());
        }
        assert forall|post: Self, bk: Bucket<K, V>|
            #![trigger post.buckets@, self.buckets@.update(b, bk)]
            (post.buckets@ == self.buckets@.update(b, bk) && bk == self.buckets@[b]
                && post.buckets.wf()) implies post.wf() && post@ == self@ by {
            assert(post.buckets@ =~= self.buckets@);
            assert forall|b2: int| 0 <= b2 < post.buckets@.len() implies bucket_ok(
                #[trigger] post.buckets@[b2],
                nb,
                b2,
            ) by {
                assert(post.buckets@[b2] == self.buckets@[b2]);
            }
            assert(post.wf());
        }
    }

    /// Mutably borrow the value stored for `key`, if one is. Only that
    /// value can change through the borrow: the map afterwards holds
    /// whatever the caller wrote there, under the same keys.
    pub fn get_mut(&mut self, key: &K) -> (r: Option<&mut V>)
        requires
            old(self).wf(),
        ensures
            final(self).spec_capacity() == old(self).spec_capacity(),
            match r {
                None => final(self).wf() && final(self)@ == old(self)@ && !old(
                    self,
                )@.dom().contains(key.model()),
                Some(v) => old(self)@.dom().contains(key.model()) && *v == old(
                    self,
                )@[key.model()] && final(self).wf() && final(self)@ == old(self)@.insert(
                    key.model(),
                    *final(v),
                ),
            },
    {
        let ghost nb = self.buckets@.len() as int;
        match self.get_bucket(key) {
            None => {
                proof {
                    lemma_buckets_map(self.buckets@, nb);
                    assert(!self@.dom().contains(key.model())) by {
                        if self@.dom().contains(key.model()) {
                            vstd::set::axiom_set_contains_len(self@.dom(), key.model());
                        }
                    }
                }
                None
            },
            Some(b) => {
                let ghost mid = *self;
                proof {
                    lemma_lookup(mid.buckets@, nb, *key);
                    mid.lemma_map_value_update(b as int, *key);
                }
                let bucket_ref = self.buckets.get_mut(b);
                bucket_ref.get_mut(key)
            },
        }
    }

    /// Remove the entry for `key`, handing back the stored key and value.
    pub fn remove_entry(&mut self, key: &K) -> (r: Option<(K, V)>)
        requires
            old(self).wf(),
        ensures
            final(self).wf(),
            final(self)@ == old(self)@.remove(key.model()),
            final(self).spec_capacity() == old(self).spec_capacity(),
            match r {
                None => !old(self)@.dom().contains(key.model()) && final(self)@ == old(self)@,
                Some((k0, v0)) => old(self)@.dom().contains(key.model()) && k0.model()
                    == key.model() && v0 == old(self)@[key.model()],
            },
    {
        let ghost nb = self.buckets@.len() as int;
        match self.get_bucket(key) {
            None => {
                proof {
                    lemma_buckets_map(self.buckets@, nb);
                    assert(!self@.dom().contains(key.model())) by {
                        if self@.dom().contains(key.model()) {
                            vstd::set::axiom_set_contains_len(self@.dom(), key.model());
                        }
                    }
                    assert(self@ =~= self@.remove(key.model()));
                }
                None
            },
            Some(b) => {
                let ghost mid = *self;
                proof {
                    lemma_lookup(mid.buckets@, nb, *key);
                    lemma_buckets_map(mid.buckets@, nb);
                    lemma_chain_map(mid.buckets@[b as int].entries@);
                }
                let bucket_ref = self.buckets.get_mut(b);
                let r = bucket_ref.remove(key);
                proof {
                    let newbk = self.buckets@[b as int];
                    assert(self.buckets@ =~= mid.buckets@.update(b as int, newbk));
                    let oldc = mid.buckets@[b as int].entries@;
                    let newc = newbk.entries@;
                    match &r {
                        Some(p0) => {
                            let j0 = choose|j0: int|
                                0 <= j0 < oldc.len() && newc == oldc.remove(j0);
                            assert(chain_in_bucket(newc, nb, b as int)) by {
                                assert forall|j: int| 0 <= j < newc.len() implies (
                                #[trigger] newc[j].key.hash_spec()) as int % nb == b as int by {
                                    if j < j0 {
                                        assert(newc[j] == oldc[j]);
                                    } else {
                                        assert(newc[j] == oldc[j + 1]);
                                    }
                                }
                            }
                            assert(bucket_ok(newbk, nb, b as int));
                            lemma_buckets_update(mid.buckets@, nb, b as int, newbk, *key);
                            assert(self@ =~= old(self)@.remove(key.model()));
                            lemma_total_entries_update(mid.buckets@, b as int, newbk);
                        },
                        None => {
                            assert(self.buckets@ =~= mid.buckets@);
                            assert(!self@.dom().contains(key.model()));
                            assert(self@ =~= self@.remove(key.model()));
                        },
                    }
                    assert forall|b2: int| 0 <= b2 < self.buckets@.len() implies bucket_ok(
                        #[trigger] self.buckets@[b2],
                        nb,
                        b2,
                    ) by {
                        if b2 != b as int {
                            assert(self.buckets@[b2] == mid.buckets@[b2]);
                        }
                    }
                    assert(self.wf());
                }
                r
            },
        }
    }

    /// Remove the entry for `key`, handing back only the stored value.
    pub fn remove(&mut self, key: &K) -> (r: Option<V>)
        requires
            old(self).wf(),
        ensures
            final(self).wf(),
            final(self)@ == old(self)@.remove(key.model()),
            final(self).spec_capacity() == old(self).spec_capacity(),
            match r {
                None => !old(self)@.dom().contains(key.model()) && final(self)@ == old(self)@,
                Some(v0) => old(self)@.dom().contains(key.model()) && v0 == old(
                    self,
                )@[key.model()],
            },
    {
        match self.remove_entry(key) {
            Some((_k0, v0)) => Some(v0),
            None => None,
        }
    }
}

/// Entries filed in different buckets have different key models: their
/// hashes leave different residues.
proof fn lemma_cross_bucket_distinct<K: HashKey, V>(s: Seq<Bucket<K, V>>, nb: int)
    requires
        forall|b: int| 0 <= b < s.len() ==> bucket_ok(#[trigger] s[b], nb, b),
    ensures
        forall|b1: int, j1: int, b2: int, j2: int|
            0 <= b1 < s.len() && 0 <= b2 < s.len() && b1 != b2 && 0 <= j1 < s[b1].entries@.len()
                && 0 <= j2 < s[b2].entries@.len() ==> (#[trigger] s[b1].entries@[j1]).key.model()
                != (#[trigger] s[b2].entries@[j2]).key.model(),
{
    assert forall|b1: int, j1: int, b2: int, j2: int|
        0 <= b1 < s.len() && 0 <= b2 < s.len() && b1 != b2 && 0 <= j1 < s[b1].entries@.len() && 0
            <= j2 < s[b2].entries@.len() implies (#[trigger] s[b1].entries@[j1]).key.model() != (
    #[trigger] s[b2].entries@[j2]).key.model() by {
        if s[b1].entries@[j1].key.model() == s[b2].entries@[j2].key.model() {
            s[b1].entries@[j1].key.lemma_hash_respects_model(&s[b2].entries@[j2].key);
        }
    }
}

/// An array of empty buckets represents the empty map.
proof fn lemma_buckets_all_empty<K: HashKey, V>(s: Seq<Bucket<K, V>>)
    requires
        forall|b: int| 0 <= b < s.len() ==> (#[trigger] s[b]).entries@.len() == 0,
    ensures
        buckets_as_map(s) == Map::<<K as HashKey>::Model, V>::empty(),
        total_entries(s) == 0,
    decreases s.len(),
{
    if s.len() > 0 {
        assert forall|b: int| 0 <= b < s.drop_last().len() implies (
        #[trigger] s.drop_last()[b]).entries@.len() == 0 by {
            assert(s.drop_last()[b] == s[b]);
        }
        lemma_buckets_all_empty(s.drop_last());
        assert(s.last().entries@.len() == 0);
        assert(buckets_as_map(s) =~= Map::<<K as HashKey>::Model, V>::empty());
    }
}

impl<K: HashKey, V> HashMap<K, V> {
    /// Double the bucket array — or install the starting one — and re-file
    /// every entry by recomputing its hash under the new bucket count. No
    /// entry is lost or duplicated; order across buckets is not preserved.
    /// A bucket count already past `LARGEST_BUCKET_ARRAY` stays as it is,
    /// since doubling it would ask for an allocation beyond the addressable
    /// range.
    #[verifier::rlimit(100)]
    #[verifier::spinoff_prover]
    fn grow(&mut self)
        requires
            old(self).wf(),
        ensures
            final(self).wf(),
            final(self)@ == old(self)@,
            old(self).spec_capacity() == 0 ==> final(self).spec_capacity() == START_CAPACITY,
            old(self).spec_capacity() > 0 && old(self).spec_capacity() <= LARGEST_BUCKET_ARRAY
                ==> final(self).spec_capacity() == 2 * old(self).spec_capacity(),
            old(self).spec_capacity() > LARGEST_BUCKET_ARRAY ==> final(self).spec_capacity()
                == old(self).spec_capacity(),
    {
        proof {
            assert(is_pow2(1));
            assert(is_pow2(2));
            assert(is_pow2(4));
            assert(is_pow2(8));
        }
        let nb = self.buckets.len();
        if nb == 0 {
            let mut bs: Vec<Bucket<K, V>> = Vec::with_capacity(START_CAPACITY);
            let mut i: usize = 0;
            while i < START_CAPACITY
                invariant
                    bs.wf(),
                    bs@.len() == i,
                    i <= START_CAPACITY,
                    forall|b2: int|
                        0 <= b2 < i ==> (#[trigger] bs@[b2]).entries@.len() == 0
                            && bs@[b2].entries.wf(),
                decreases START_CAPACITY - i,
            {
                bs.push(Bucket::new());
                i = i + 1;
            }
            proof {
                lemma_buckets_map(old(self).buckets@, 0);
                old(self)@.dom().lemma_len0_is_empty();
                assert(old(self)@ =~= Map::<<K as HashKey>::Model, V>::empty());
            }
            self.buckets = bs;
            proof {
                lemma_buckets_all_empty(self.buckets@);
                assert(self@ =~= old(self)@);
                assert(self.wf());
            }
            return ;
        }
        if nb > LARGEST_BUCKET_ARRAY {
            return ;
        }
        let ghost orig_view = self@;
        let ghost orig_total = total_entries(self.buckets@);
        proof {
            lemma_buckets_map(self.buckets@, nb as int);
        }
        let new_nb = nb * 2;
        let mut fresh: Vec<Bucket<K, V>> = Vec::with_capacity(new_nb);
        let mut i: usize = 0;
        while i < new_nb
            invariant
                fresh.wf(),
                fresh@.len() == i,
                i <= new_nb,
                new_nb <= usize::MAX / 4,
                forall|b2: int|
                    0 <= b2 < i ==> (#[trigger] fresh@[b2]).entries@.len() == 0
                        && fresh@[b2].entries.wf(),
            decreases new_nb - i,
        {
            fresh.push(Bucket::new());
            i = i + 1;
        }
        core::mem::swap(&mut self.buckets, &mut fresh);
        let mut drained = fresh;
        proof {
            lemma_buckets_all_empty(self.buckets@);
        }
        while drained.len() != 0
            invariant
                self.buckets.wf(),
                drained.wf(),
                self.buckets@.len() == new_nb,
                nb as int * 2 == new_nb,
                is_pow2(nb as nat),
                new_nb <= usize::MAX / 4,
                forall|b2: int|
                    0 <= b2 < new_nb ==> bucket_ok(#[trigger] self.buckets@[b2], new_nb as int, b2),
                forall|b2: int|
                    0 <= b2 < drained@.len() ==> bucket_ok(#[trigger] drained@[b2], nb as int, b2),
                buckets_as_map(drained@).union_prefer_right(buckets_as_map(self.buckets@))
                    == orig_view,
                buckets_as_map(drained@).dom().disjoint(buckets_as_map(self.buckets@).dom()),
                total_entries(drained@) + total_entries(self.buckets@) == orig_total,
                orig_total <= usize::MAX / 2,
            decreases drained@.len(),
        {
            let ghost drained_pre = drained@;
            proof {
                lemma_buckets_map(drained@, nb as int);
                lemma_cross_bucket_distinct(drained@, nb as int);
                lemma_total_entries_nonneg(drained@.drop_last());
            }
            let mut bucket = match drained.pop() {
                Some(bk) => bk,
                None => vstd::pervasive::unreached(),
            };
            proof {
                assert(buckets_as_map(drained_pre) == buckets_as_map(drained@).union_prefer_right(
                    chain_as_map(bucket.entries@),
                ));
                // the prefix's chains and the popped chain are disjoint
                lemma_buckets_map(drained@, nb as int);
                lemma_chain_map(bucket.entries@);
                assert forall|k: <K as HashKey>::Model|
                    !(#[trigger] buckets_as_map(drained@).dom().contains(k) && chain_as_map(
                        bucket.entries@,
                    ).dom().contains(k)) by {
                    if buckets_as_map(drained@).dom().contains(k) && chain_as_map(
                        bucket.entries@,
                    ).dom().contains(k) {
                        let (b1, j1) = choose|b1: int, j1: int|
                            0 <= b1 < drained@.len() && 0 <= j1 < drained@[b1].entries@.len() && (
                            #[trigger] drained@[b1].entries@[j1]).key.model() == k;
                        let j2 = choose|j2: int|
                            0 <= j2 < bucket.entries@.len() && (
                            #[trigger] bucket.entries@[j2].key.model()) == k;
                        assert(drained_pre[b1].entries@[j1].key.model() == k);
                        assert(drained_pre[drained_pre.len() - 1].entries@[j2].key.model() == k);
                        assert(false);
                    }
                }
            }
            while bucket.len() != 0
                invariant
                    self.buckets.wf(),
                    bucket.entries.wf(),
                    chain_distinct(bucket.entries@),
                    self.buckets@.len() == new_nb,
                    nb as int * 2 == new_nb,
                    2 <= new_nb <= usize::MAX / 4,
                    forall|b2: int|
                        0 <= b2 < new_nb ==> bucket_ok(
                            #[trigger] self.buckets@[b2],
                            new_nb as int,
                            b2,
                        ),
                    buckets_as_map(drained@).union_prefer_right(
                        chain_as_map(bucket.entries@),
                    ).union_prefer_right(buckets_as_map(self.buckets@)) == orig_view,
                    buckets_as_map(drained@).dom().disjoint(
                        buckets_as_map(self.buckets@).dom(),
                    ),
                    buckets_as_map(drained@).dom().disjoint(chain_as_map(bucket.entries@).dom()),
                    chain_as_map(bucket.entries@).dom().disjoint(
                        buckets_as_map(self.buckets@).dom(),
                    ),
                    total_entries(drained@) + bucket.entries@.len() + total_entries(
                        self.buckets@,
                    ) == orig_total,
                    total_entries(drained@) >= 0,
                    orig_total <= usize::MAX / 2,
                decreases bucket.entries@.len(),
            {
                let ghost chain_pre = bucket.entries@;
                proof {
                    lemma_chain_map(chain_pre);
                }
                let node = match bucket.entries.pop() {
                    Some(n) => n,
                    None => vstd::pervasive::unreached(),
                };
                let ghost gnode = node;
                let ghost m = gnode.key.model();
                proof {
                    assert(chain_as_map(chain_pre) == chain_as_map(bucket.entries@).insert(
                        m,
                        gnode.val,
                    ));
                    assert(!chain_as_map(bucket.entries@).dom().contains(m)) by {
                        lemma_chain_map(bucket.entries@);
                        if chain_as_map(bucket.entries@).dom().contains(m) {
                            let jj = choose|jj: int|
                                0 <= jj < bucket.entries@.len() && (
                                #[trigger] bucket.entries@[jj].key.model()) == m;
                            assert(chain_pre[jj].key.model() == m);
                            assert(chain_pre[chain_pre.len() - 1].key.model() == m);
                        }
                    }
                }
                let h = node.key.hash_key();
                let b2 = (h % (new_nb as u64)) as usize;
                let ghost mid2 = *self;
                proof {
                    let hh = gnode.key.hash_spec() as int;
                    let c = new_nb as int;
                    assert(hh % c >= 0 && hh % c < c) by (nonlinear_arith)
                        requires
                            c > 0,
                    ;
                    assert(b2 as int == hh % c);
                    // the key is absent from the target chain
                    lemma_buckets_map(mid2.buckets@, new_nb as int);
                    lemma_chain_map(mid2.buckets@[b2 as int].entries@);
                    assert(!chain_as_map(mid2.buckets@[b2 as int].entries@).dom().contains(m)) by {
                        if chain_as_map(mid2.buckets@[b2 as int].entries@).dom().contains(m) {
                            let jj = choose|jj: int|
                                0 <= jj < mid2.buckets@[b2 as int].entries@.len() && (
                                #[trigger] mid2.buckets@[b2 as int].entries@[jj].key.model()) == m;
                            assert(buckets_as_map(mid2.buckets@).dom().contains(m));
                        }
                    }
                    // the target chain is short enough to take one more entry
                    lemma_total_entries_step(mid2.buckets@, b2 as int);
                    lemma_total_entries_prefix(mid2.buckets@, b2 as int);
                }
                let target = self.buckets.get_mut(b2);
                target.push_node(node);
                proof {
                    let newbk = self.buckets@[b2 as int];
                    assert(self.buckets@ =~= mid2.buckets@.update(b2 as int, newbk));
                    assert(chain_in_bucket(newbk.entries@, new_nb as int, b2 as int)) by {
                        let oldc = mid2.buckets@[b2 as int].entries@;
                        let newc = newbk.entries@;
                        assert forall|j: int| 0 <= j < newc.len() implies (
                        #[trigger] newc[j].key.hash_spec()) as int % (new_nb as int)
                            == b2 as int by {
                            if j < oldc.len() {
                                assert(newc[j] == oldc[j]);
                            } else {
                                assert(newc[j] == gnode);
                            }
                        }
                    }
                    assert(bucket_ok(newbk, new_nb as int, b2 as int));
                    lemma_buckets_update(mid2.buckets@, new_nb as int, b2 as int, newbk, gnode.key);
                    assert(chain_as_map(newbk.entries@)[m] == gnode.val);
                    assert(buckets_as_map(self.buckets@) == buckets_as_map(mid2.buckets@).insert(
                        m,
                        gnode.val,
                    ));
                    assert forall|b3: int| 0 <= b3 < new_nb implies bucket_ok(
                        #[trigger] self.buckets@[b3],
                        new_nb as int,
                        b3,
                    ) by {
                        if b3 != b2 as int {
                            assert(self.buckets@[b3] == mid2.buckets@[b3]);
                        }
                    }
                    lemma_total_entries_update(mid2.buckets@, b2 as int, newbk);
                    // the running union is unchanged: the entry moved from
                    // the popped chain to the new array
                    let dm = buckets_as_map(drained@);
                    let cpre = chain_as_map(chain_pre);
                    let cpost = chain_as_map(bucket.entries@);
                    let wpre = buckets_as_map(mid2.buckets@);
                    let wpost = buckets_as_map(self.buckets@);
                    assert(dm.union_prefer_right(cpost).union_prefer_right(wpost)
                        =~= dm.union_prefer_right(cpre).union_prefer_right(wpre));
                }
            }
            proof {
                assert(bucket.entries@.len() == 0);
                assert(chain_as_map(bucket.entries@) =~= Map::<<K as HashKey>::Model, V>::empty());
                let dm = buckets_as_map(drained@);
                let w = buckets_as_map(self.buckets@);
                assert(dm.union_prefer_right(chain_as_map(bucket.entries@)).union_prefer_right(w)
                    =~= dm.union_prefer_right(w));
                lemma_total_entries_nonneg(drained@);
            }
        }
        proof {
            assert(drained@.len() == 0);
            assert(buckets_as_map(drained@) == Map::<<K as HashKey>::Model, V>::empty());
            assert(buckets_as_map(drained@).union_prefer_right(buckets_as_map(self.buckets@))
                =~= buckets_as_map(self.buckets@));
            assert(self@ == orig_view);
            assert(is_pow2(new_nb as nat)) by {
                assert(new_nb as nat % 2 == 0);
                assert(new_nb as nat / 2 == nb as nat);
            }
            assert(self.wf());
        }
    }
}

/// The pair borrows some entry of the array that sits strictly before the
/// cursor position `(b, j)` in bucket-major order.
spec fn entry_before<K: HashKey, V>(s: Seq<Bucket<K, V>>, pair: (&K, &V), b: int, j: int) -> bool {
    exists|b2: int, j2: int|
        0 <= b2 < s.len() && 0 <= j2 < s[b2].entries@.len() && (b2 < b || (b2 == b && j2 < j))
            && *pair.0 == (#[trigger] s[b2].entries@[j2]).key && *pair.1 == s[b2].entries@[j2].val
}

/// A witness position stays a witness when the cursor moves forward.
proof fn lemma_entry_before_mono<K: HashKey, V>(
    s: Seq<Bucket<K, V>>,
    pair: (&K, &V),
    b: int,
    j: int,
    b3: int,
    j3: int,
)
    requires
        entry_before(s, pair, b, j),
        b < b3 || (b == b3 && j <= j3),
    ensures
        entry_before(s, pair, b3, j3),
{
    let (b2, j2) = choose|b2: int, j2: int|
        0 <= b2 < s.len() && 0 <= j2 < s[b2].entries@.len() && (b2 < b || (b2 == b && j2 < j))
            && *pair.0 == (#[trigger] s[b2].entries@[j2]).key && *pair.1 == s[b2].entries@[j2].val;
    assert(*pair.0 == (#[trigger] s[b2].entries@[j2]).key);
}

impl<K: HashKey, V> HashMap<K, V> {
    /// Borrow every entry, in unspecified order: each live key exactly
    /// once, paired with its value.
    pub fn iter<'a>(&'a self) -> (r: Vec<(&'a K, &'a V)>)
        requires
            self.wf(),
        ensures
            r.wf(),
            r@.len() == self@.len(),
            forall|i: int|
                0 <= i < r@.len() ==> self@.dom().contains((#[trigger] r@[i]).0.model())
                    && self@[r@[i].0.model()] == *r@[i].1,
            forall|i1: int, i2: int|
                0 <= i1 < i2 < r@.len() ==> (#[trigger] r@[i1]).0.model() != (
                #[trigger] r@[i2]).0.model(),
    {
        let ghost nbi = self.buckets@.len() as int;
        proof {
            lemma_buckets_map(self.buckets@, nbi);
        }
        let nb = self.buckets.len();
        let mut out: Vec<(&'a K, &'a V)> = Vec::new();
        let mut b: usize = 0;
        while b < nb
            invariant
                self.wf(),
                nbi == self.buckets@.len(),
                nb == self.buckets@.len(),
                0 <= b <= nb,
                out.wf(),
                out@.len() == total_entries(self.buckets@.subrange(0, b as int)),
                out@.len() <= total_entries(self.buckets@),
                total_entries(self.buckets@) <= usize::MAX / 2,
                forall|i: int|
                    0 <= i < out@.len() ==> entry_before(
                        self.buckets@,
                        #[trigger] out@[i],
                        b as int,
                        0,
                    ),
                forall|i1: int, i2: int|
                    0 <= i1 < i2 < out@.len() ==> (#[trigger] out@[i1]).0.model() != (
                    #[trigger] out@[i2]).0.model(),
            decreases nb - b,
        {
            let bucket = self.buckets.get(b);
            let n = bucket.len();
            let mut j: usize = 0;
            while j < n
                invariant
                    self.wf(),
                    nbi == self.buckets@.len(),
                    nb == self.buckets@.len(),
                    0 <= b < nb,
                    bucket == self.buckets@[b as int],
                    n == bucket.entries@.len(),
                    0 <= j <= n,
                    out.wf(),
                    out@.len() == total_entries(self.buckets@.subrange(0, b as int)) + j,
                    total_entries(self.buckets@) <= usize::MAX / 2,
                    forall|i: int|
                        0 <= i < out@.len() ==> entry_before(
                            self.buckets@,
                            #[trigger] out@[i],
                            b as int,
                            j as int,
                        ),
                    forall|i1: int, i2: int|
                        0 <= i1 < i2 < out@.len() ==> (#[trigger] out@[i1]).0.model() != (
                        #[trigger] out@[i2]).0.model(),
                decreases n - j,
            {
                proof {
                    lemma_total_entries_step(self.buckets@, b as int);
                    lemma_total_entries_prefix(self.buckets@, b as int);
                    lemma_total_entries_prefix(self.buckets@, b as int + 1);
                    lemma_cross_bucket_distinct(self.buckets@, nbi);
                }
                let node = bucket.entries.get(j);
                let ghost prev_out = out@;
                out.push((&node.key, &node.val));
                proof {
                    let s = self.buckets@;
                    assert(*out@[out@.len() - 1].0 == (
                    #[trigger] s[b as int].entries@[j as int]).key);
                    assert(entry_before(s, out@[out@.len() - 1], b as int, j as int + 1));
                    assert forall|i: int| 0 <= i < out@.len() implies entry_before(
                        s,
                        #[trigger] out@[i],
                        b as int,
                        j as int + 1,
                    ) by {
                        if i < out@.len() - 1 {
                            assert(out@[i] == prev_out[i]);
                            lemma_entry_before_mono(
                                s,
                                out@[i],
                                b as int,
                                j as int,
                                b as int,
                                j as int + 1,
                            );
                        }
                    }
                    assert forall|i1: int, i2: int|
                        0 <= i1 < i2 < out@.len() implies (#[trigger] out@[i1]).0.model() != (
                    #[trigger] out@[i2]).0.model() by {
                        if i2 == out@.len() - 1 {
                            assert(entry_before(s, prev_out[i1], b as int, j as int));
                            let (b2, j2) = choose|b2: int, j2: int|
                                0 <= b2 < s.len() && 0 <= j2 < s[b2].entries@.len() && (b2
                                    < b as int || (b2 == b as int && j2 < j as int)) && *(prev_out[
                                i1
                            ]).0 == (#[trigger] s[b2].entries@[j2]).key && *(prev_out[i1]).1 == s[
                                b2
                            ].entries@[j2].val;
                            if b2 < b as int {
                                assert(s[b2].entries@[j2].key.model() != s[b as int].entries@[
                                    j as int
                                ].key.model());
                            } else {
                                assert(chain_distinct(s[b as int].entries@));
                                assert(s[b2].entries@[j2].key.model() != s[b as int].entries@[
                                    j as int
                                ].key.model());
                            }
                        }
                    }
                }
                j = j + 1;
            }
            proof {
                lemma_total_entries_step(self.buckets@, b as int);
                assert forall|i: int| 0 <= i < out@.len() implies entry_before(
                    self.buckets@,
                    #[trigger] out@[i],
                    b as int + 1,
                    0,
                ) by {
                    lemma_entry_before_mono(
                        self.buckets@,
                        out@[i],
                        b as int,
                        n as int,
                        b as int + 1,
                        0,
                    );
                }
            }
            b = b + 1;
        }
        proof {
            let s = self.buckets@;
            assert(s.subrange(0, nb as int) =~= s);
            assert forall|i: int| 0 <= i < out@.len() implies self@.dom().contains(
                (#[trigger] out@[i]).0.model(),
            ) && self@[out@[i].0.model()] == *out@[i].1 by {
                assert(entry_before(s, out@[i], nb as int, 0));
                let (b2, j2) = choose|b2: int, j2: int|
                    0 <= b2 < s.len() && 0 <= j2 < s[b2].entries@.len() && (b2 < nb as int || (b2
                        == nb as int && j2 < 0)) && *(out@[i]).0 == (
                    #[trigger] s[b2].entries@[j2]).key && *(out@[i]).1 == s[b2].entries@[j2].val;
                assert(self@.dom().contains(s[b2].entries@[j2].key.model()));
                assert(self@[s[b2].entries@[j2].key.model()] == s[b2].entries@[j2].val);
            }
        }
        out
    }

    /// Borrow every key, in unspecified order: each live key exactly once.
    pub fn keys<'a>(&'a self) -> (r: Vec<&'a K>)
        requires
            self.wf(),
        ensures
            r.wf(),
            r@.len() == self@.len(),
            forall|i: int| 0 <= i < r@.len() ==> self@.dom().contains((#[trigger] r@[i]).model()),
            forall|i1: int, i2: int|
                0 <= i1 < i2 < r@.len() ==> (#[trigger] r@[i1]).model() != (
                #[trigger] r@[i2]).model(),
    {
        proof {
            lemma_buckets_map(self.buckets@, self.buckets@.len() as int);
        }
        let pairs = self.iter();
        let n = pairs.len();
        let mut out: Vec<&'a K> = Vec::new();
        let mut i: usize = 0;
        while i < n
            invariant
                self.wf(),
                pairs.wf(),
                out.wf(),
                n == pairs@.len(),
                pairs@.len() == self@.len(),
                pairs@.len() <= usize::MAX / 2,
                0 <= i <= n,
                out@.len() == i,
                forall|i2: int| 0 <= i2 < i ==> (#[trigger] out@[i2]) == pairs@[i2].0,
                forall|i2: int|
                    0 <= i2 < pairs@.len() ==> self@.dom().contains(
                        (#[trigger] pairs@[i2]).0.model(),
                    ),
                forall|i1: int, i2: int|
                    0 <= i1 < i2 < pairs@.len() ==> (#[trigger] pairs@[i1]).0.model() != (
                    #[trigger] pairs@[i2]).0.model(),
            decreases n - i,
        {
            let (k, _v) = *pairs.get(i);
            out.push(k);
            i = i + 1;
        }
        out
    }

    /// Borrow every value, in unspecified order, one per live key: some
    /// sequence of distinct keys — the map's keys — pairs up with the
    /// returned values position by position.
    pub fn values<'a>(&'a self) -> (r: Vec<&'a V>)
        requires
            self.wf(),
        ensures
            r.wf(),
            r@.len() == self@.len(),
            exists|ks: Seq<<K as HashKey>::Model>|
                #![trigger ks.len()]
                ks.len() == r@.len() && (forall|i1: int, i2: int|
                    0 <= i1 < i2 < ks.len() ==> (#[trigger] ks[i1]) != (#[trigger] ks[i2])) && (
                forall|i: int|
                    0 <= i < ks.len() ==> self@.dom().contains(#[trigger] ks[i]) && self@[ks[i]]
                        == *r@[i]),
    {
        proof {
            lemma_buckets_map(self.buckets@, self.buckets@.len() as int);
        }
        let pairs = self.iter();
        let n = pairs.len();
        let mut out: Vec<&'a V> = Vec::new();
        let mut i: usize = 0;
        while i < n
            invariant
                self.wf(),
                pairs.wf(),
                out.wf(),
                n == pairs@.len(),
                pairs@.len() == self@.len(),
                pairs@.len() <= usize::MAX / 2,
                0 <= i <= n,
                out@.len() == i,
                forall|i2: int| 0 <= i2 < i ==> (#[trigger] out@[i2]) == pairs@[i2].1,
                forall|i2: int|
                    0 <= i2 < pairs@.len() ==> self@.dom().contains(
                        (#[trigger] pairs@[i2]).0.model(),
                    ) && self@[pairs@[i2].0.model()] == *pairs@[i2].1,
            decreases n - i,
        {
            let (_k, v) = *pairs.get(i);
            out.push(v);
            i = i + 1;
        }
        proof {
            let ks = Seq::new(out@.len(), |i2: int| pairs@[i2].0.model());
            assert(ks.len() == out@.len());
            assert forall|i1: int, i2: int| 0 <= i1 < i2 < ks.len() implies (#[trigger] ks[i1])
                != (#[trigger] ks[i2]) by {
                assert(pairs@[i1].0.model() != pairs@[i2].0.model());
            }
            assert forall|i2: int| 0 <= i2 < ks.len() implies self@.dom().contains(
                #[trigger] ks[i2],
            ) && self@[ks[i2]] == *out@[i2] by {
                assert(self@.dom().contains(pairs@[i2].0.model()) && self@[pairs@[i2].0.model()]
                    == *out@[i2]);
            }
        }
        out
    }
}

impl<K: HashKey, V> Default for HashMap<K, V> {
    /// The default map is empty, with no buckets yet.
    fn default() -> (r: Self)
        ensures
            r.wf(),
            r@ == Map::<<K as HashKey>::Model, V>::empty(),
            r.spec_capacity() == 0,
    {
        HashMap::new()
    }
}

/// The bucket count of a well-formed map is zero before the first
/// insertion; afterwards it is a power of two no smaller than the starting
/// array, and the operations' contracts only ever keep or double it.
pub proof fn lemma_capacity_invariant<K: HashKey, V>(m: &HashMap<K, V>)
    requires
        m.wf(),
    ensures
        m.spec_capacity() == 0 || (is_pow2(m.spec_capacity() as nat) && m.spec_capacity()
            >= START_CAPACITY),
{
}

/// A well-formed map's abstract domain is finite, so its size is a number.
pub proof fn lemma_view_finite<K: HashKey, V>(m: &HashMap<K, V>)
    requires
        m.wf(),
    ensures
        m@.dom().finite(),
{
    lemma_buckets_map(m.buckets@, m.buckets@.len() as int);
}

/// Map uniqueness: inserting a fresh key grows the size by exactly one,
/// and inserting an existing key does not change the size — so the size is
/// always the number of distinct keys inserted and not yet removed.
pub proof fn lemma_insert_size<K, V>(m: Map<K, V>, k: K, v: V)
    requires
        m.dom().finite(),
    ensures
        m.dom().contains(k) ==> m.insert(k, v).dom().len() == m.dom().len(),
        !m.dom().contains(k) ==> m.insert(k, v).dom().len() == m.dom().len() + 1,
{
    vstd::set::axiom_set_insert_len(m.dom(), k);
    assert(m.insert(k, v).dom() =~= m.dom().insert(k));
}

/// Lookup correctness: after an insert the key maps to the new value, every
/// other key is untouched, and a removed key is absent.
pub proof fn lemma_lookup_after_insert<K, V>(m: Map<K, V>, k1: K, k2: K, v: V)
    ensures
        m.insert(k1, v).dom().contains(k1),
        m.insert(k1, v)[k1] == v,
        k2 != k1 ==> m.insert(k1, v).dom().contains(k2) == m.dom().contains(k2),
        k2 != k1 && m.dom().contains(k2) ==> m.insert(k1, v)[k2] == m[k2],
        !m.remove(k1).dom().contains(k1),
        k2 != k1 ==> m.remove(k1).dom().contains(k2) == m.dom().contains(k2),
        k2 != k1 && m.dom().contains(k2) ==> m.remove(k1)[k2] == m[k2],
{
}

/// Replacing one bucket changes the entry total by the difference of the
/// two chain lengths.
proof fn lemma_total_entries_update<K, V>(s: Seq<Bucket<K, V>>, b: int, bk: Bucket<K, V>)
    requires
        0 <= b < s.len(),
    ensures
        total_entries(s.update(b, bk)) == total_entries(s) - s[b].entries@.len()
            + bk.entries@.len(),
    decreases s.len(),
{
    let t = s.update(b, bk);
    if b == s.len() - 1 {
        assert(t.drop_last() =~= s.drop_last());
    } else {
        assert(t.drop_last() =~= s.drop_last().update(b, bk));
        assert(t.last() == s.last());
        lemma_total_entries_update(s.drop_last(), b, bk);
    }
}

/// One step of the chain-length sum.
proof fn lemma_total_entries_step<K, V>(s: Seq<Bucket<K, V>>, b: int)
    requires
        0 <= b < s.len(),
    ensures
        total_entries(s.subrange(0, b + 1)) == total_entries(s.subrange(0, b))
            + s[b].entries@.len(),
        total_entries(s.subrange(0, b + 1)) <= total_entries(s),
    decreases s.len(),
{
    assert(s.subrange(0, b + 1).drop_last() =~= s.subrange(0, b));
    lemma_total_entries_prefix(s, b + 1);
}

/// A prefix never holds more entries than the whole array.
proof fn lemma_total_entries_prefix<K, V>(s: Seq<Bucket<K, V>>, n: int)
    requires
        0 <= n <= s.len(),
    ensures
        total_entries(s.subrange(0, n)) <= total_entries(s),
        total_entries(s.subrange(0, n)) >= 0,
    decreases s.len() - n,
{
    lemma_total_entries_nonneg(s.subrange(0, n));
    if n == s.len() {
        assert(s.subrange(0, n) =~= s);
    } else {
        assert(s.subrange(0, n + 1).drop_last() =~= s.subrange(0, n));
        lemma_total_entries_nonneg(s.subrange(0, n + 1));
        lemma_total_entries_prefix(s, n + 1);
    }
}

/// Entry counts are never negative.
proof fn lemma_total_entries_nonneg<K, V>(s: Seq<Bucket<K, V>>)
    ensures
        total_entries(s) >= 0,
    decreases s.len(),
{
    if s.len() > 0 {
        lemma_total_entries_nonneg(s.drop_last());
    }
}

} // verus!
