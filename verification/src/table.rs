//! The table itself: buckets of chains, and the operations on them.

use crate::growth::lemma_distributed_empty;
use crate::growth::lemma_distributed_push;
use crate::growth::lemma_rehashed;
use crate::key::Equivalent;
use crate::key::Key;
use crate::lemmas::lemma_chain_pos;
use crate::lemmas::lemma_placed;
use crate::lemmas::lemma_removed;
use crate::model::bucket_of;
use crate::model::chain_has;
use crate::model::chains_wf;
use crate::model::distributed;
use crate::model::entries_before;
use crate::model::entries_of;
use crate::model::grown_len;
use crate::model::inserted;
use crate::model::lookup;
use crate::model::map_of;
use crate::model::must_grow;
use crate::model::placed;
use crate::model::rehashed;
use crate::model::removed;
use crate::traversal::lemma_entries_before_ends;
use crate::traversal::lemma_entries_before_next;
use crate::traversal::lemma_entries_count;
use crate::traversal::lemma_update_count;
use vstd::prelude::*;

verus! {

/// A map from keys to values, kept as a hash table with separate chaining.
///
/// The table starts without buckets. An insertion that finds it without
/// buckets, or more than three quarters full, first doubles the number of
/// buckets. Removals never shrink it.
pub struct HashMap<K: Key, V> {
    buckets: Vec<Vec<(K, V)>>,
    items_size: usize,
}

/// The chains that a vector of buckets holds.
spec fn chains_of<K, V>(buckets: Seq<Vec<(K, V)>>) -> Seq<Seq<(K, V)>> {
    Seq::new(buckets.len(), |i: int| buckets[i]@)
}

impl<K: Key, V> View for HashMap<K, V> {
    type V = Map<K::V, V>;

    /// The map that the table denotes.
    open spec fn view(&self) -> Map<K::V, V> {
        map_of(self.chains())
    }
}

impl<K: Key, V> HashMap<K, V> {
    /// The chains of the table, bucket by bucket.
    pub closed spec fn chains(&self) -> Seq<Seq<(K, V)>> {
        chains_of(self.buckets@)
    }

    /// The entries of the table in traversal order.
    pub open spec fn entries(&self) -> Seq<(K, V)> {
        entries_of(self.chains())
    }

    /// What holds of every table: its chains form a table, and its counter is
    /// the number of its entries.
    #[verifier::type_invariant]
    pub closed spec fn wf(&self) -> bool {
        &&& chains_wf(self.chains())
        &&& self.items_size == entries_of(self.chains()).len()
    }

    /// The chains of a table form a table, and its map has as many keys as the
    /// table has entries.
    pub proof fn lemma_wf(&self)
        requires
            self.wf(),
        ensures
            chains_wf(self.chains()),
            self@.dom().finite(),
            self@.len() == self.entries().len(),
            self.entries().len() <= usize::MAX,
    {
        lemma_entries_count(self.chains());
    }

    /// Creates an empty table, without buckets.
    pub fn new() -> (table: Self)
        ensures
            table.chains() == Seq::<Seq<(K, V)>>::empty(),
            table@ == Map::<K::V, V>::empty(),
    {
        let table = HashMap { buckets: Vec::new(), items_size: 0 };
        proof {
            lemma_entries_before_ends(table.chains());
        }
        table
    }

    /// The number of entries.
    pub fn len(&self) -> (count: usize)
        ensures
            count == self@.len(),
            count == self.entries().len(),
    {
        proof {
            use_type_invariant(self);
            self.lemma_wf();
        }
        self.items_size
    }

    /// Whether the table holds no entry.
    pub fn is_empty(&self) -> (empty: bool)
        ensures
            empty == (self@.len() == 0),
            empty == (self.entries().len() == 0),
    {
        proof {
            use_type_invariant(self);
            self.lemma_wf();
        }
        self.items_size == 0
    }

    /// The index of the bucket in which `key` belongs.
    fn get_bucket_index<Q: Equivalent<K> + ?Sized>(&self, key: &Q) -> (index: usize)
        requires
            self.chains().len() > 0,
        ensures
            index == bucket_of::<K>(key.key(), self.chains().len() as int),
            index < self.chains().len(),
    {
        let hash = key.lookup_hash();
        (hash % (self.buckets.len() as u64)) as usize
    }

    /// The chain of bucket `index`, where the table has such a bucket.
    pub(crate) fn chain(&self, index: usize) -> (chain: Option<&Vec<(K, V)>>)
        ensures
            self.chains().len() <= usize::MAX,
            match chain {
                Some(chain) => index < self.chains().len() && chain@ == self.chains()[index as int],
                None => index >= self.chains().len(),
            },
    {
        if index < self.buckets.len() {
            Some(&self.buckets[index])
        } else {
            None
        }
    }

    /// Gives `key` the value `value` and returns the value it had, if it had
    /// one.
    ///
    /// The table first grows if it has no bucket yet or holds more than three
    /// entries for every four buckets. A key that is present keeps its place
    /// and the key that is stored; one that is new joins the end of the chain
    /// of its bucket.
    ///
    /// The table must have room: one entry more must be countable in a
    /// `usize`, and so must the buckets where the table has to grow. Both hold
    /// whenever four times the number of entries fits in a `usize`.
    pub fn insert(&mut self, key: K, value: V) -> (previous: Option<V>)
        requires
            old(self)@.len() < usize::MAX,
            must_grow(old(self)@.len() as int, old(self).chains().len() as int) ==> grown_len(
                old(self).chains().len() as int,
            ) <= usize::MAX,
        ensures
            final(self).chains() == inserted(old(self).chains(), key, value),
            final(self)@ == old(self)@.insert(key@, value),
            previous == lookup(old(self)@, key@),
    {
        proof {
            use_type_invariant(&*self);
            self.lemma_wf();
        }
        if self.buckets.len() == 0 || (self.items_size as u128) * 4 > (self.buckets.len() as u128)
            * 3 {
            self.resize();
        }
        proof {
            use_type_invariant(&*self);
            lemma_placed(self.chains(), key, value);
        }
        let index = self.get_bucket_index(&key);
        let found = position(&self.buckets[index], &key);
        let mut table = HashMap::new();
        core::mem::swap(self, &mut table);
        let HashMap { mut buckets, items_size } = table;
        let ghost before = chains_of(buckets@);
        let ghost chain = before[index as int];
        match found {
            Some(at) => {
                proof {
                    lemma_chain_pos(chain, at as int);
                    lemma_update_count(
                        before,
                        index as int,
                        chain.update(at as int, (chain[at as int].0, value)),
                    );
                }
                let ghost given = value;
                let mut value = value;
                core::mem::swap(&mut buckets[index][at].1, &mut value);
                proof {
                    assert(chains_of(buckets@) =~= placed(before, key, given));
                }
                *self = HashMap { buckets, items_size };
                Some(value)
            },
            None => {
                proof {
                    lemma_update_count(before, index as int, chain.push((key, value)));
                }
                buckets[index].push((key, value));
                proof {
                    assert(chains_of(buckets@) =~= placed(before, key, value));
                }
                *self = HashMap { buckets, items_size: items_size + 1 };
                None
            },
        }
    }

    /// Doubles the number of buckets, or makes the first one, and deals the
    /// entries out again in traversal order.
    fn resize(&mut self)
        requires
            2 * old(self).chains().len() <= usize::MAX,
        ensures
            final(self).chains() == rehashed(
                old(self).chains(),
                grown_len(old(self).chains().len() as int),
            ),
            final(self)@ == old(self)@,
            final(self).entries().len() == old(self).entries().len(),
    {
        proof {
            use_type_invariant(&*self);
        }
        let mut table = HashMap::new();
        core::mem::swap(self, &mut table);
        let HashMap { buckets, items_size } = table;
        let ghost before = chains_of(buckets@);
        let new_size: usize = if buckets.len() == 0 {
            1
        } else {
            2 * buckets.len()
        };
        let ghost n = new_size as int;
        let mut new_buckets: Vec<Vec<(K, V)>> = Vec::with_capacity(new_size);
        while new_buckets.len() < new_size
            invariant
                new_buckets@.len() <= new_size,
                forall|i: int|
                    0 <= i < new_buckets@.len() ==> (#[trigger] new_buckets@[i])@ == Seq::<
                        (K, V),
                    >::empty(),
            decreases new_size - new_buckets@.len(),
        {
            new_buckets.push(Vec::new());
        }
        proof {
            lemma_distributed_empty::<K, V>(n);
            lemma_entries_before_ends(before);
        }
        for chain in outer: buckets
            invariant
                n == new_size,
                n > 0,
                new_buckets@.len() == n,
                outer.seq().len() == before.len(),
                forall|i: int| 0 <= i < before.len() ==> (#[trigger] outer.seq()[i])@ == before[i],
                chains_of(new_buckets@) == distributed(entries_before(before, outer.index()), n),
        {
            let ghost done = entries_before(before, outer.index());
            let ghost this = chain@;
            for entry in inner: chain
                invariant
                    n == new_size,
                    n > 0,
                    new_buckets@.len() == n,
                    inner.seq() == this,
                    chains_of(new_buckets@) == distributed(done + this.take(inner.index()), n),
            {
                let hash = entry.0.hash_code();
                let index = (hash % (new_size as u64)) as usize;
                proof {
                    lemma_distributed_push(done + this.take(inner.index()), entry, n);
                    assert(done + this.take(inner.index() + 1) =~= (done + this.take(
                        inner.index(),
                    )).push(entry));
                }
                let ghost old_buckets = new_buckets@;
                new_buckets[index].push(entry);
                proof {
                    assert(chains_of(new_buckets@) =~= chains_of(old_buckets).update(
                        index as int,
                        chains_of(old_buckets)[index as int].push(entry),
                    ));
                }
            }
            proof {
                lemma_entries_before_next(before, outer.index());
                assert(this.take(this.len() as int) =~= this);
            }
        }
        proof {
            lemma_entries_before_ends(before);
            lemma_rehashed(before, n);
        }
        *self = HashMap { buckets: new_buckets, items_size };
    }

    /// Looks `key` up and returns a reference to its value, if it has one.
    pub fn get<Q: Equivalent<K> + ?Sized>(&self, key: &Q) -> (value: Option<&V>)
        ensures
            value == (if self@.contains_key(key.key()) {
                Some(&self@[key.key()])
            } else {
                None
            }),
    {
        proof {
            use_type_invariant(self);
        }
        if self.buckets.len() == 0 {
            return None;
        }
        let index = self.get_bucket_index(key);
        let chain = &self.buckets[index];
        match position(chain, key) {
            Some(at) => {
                proof {
                    assert(self.chains()[index as int] == chain@);
                    lemma_chain_pos(chain@, at as int);
                }
                Some(&chain[at].1)
            },
            None => None,
        }
    }

    /// Removes `key` and returns the value it had, if it had one. The table
    /// keeps its buckets; the last entry of the key's chain moves into the
    /// place of the removed one.
    pub fn remove<Q: Equivalent<K> + ?Sized>(&mut self, key: &Q) -> (value: Option<V>)
        ensures
            final(self).chains() == removed(old(self).chains(), key.key()),
            final(self)@ == old(self)@.remove(key.key()),
            value == lookup(old(self)@, key.key()),
    {
        proof {
            use_type_invariant(&*self);
            lemma_removed(self.chains(), key.key());
        }
        if self.buckets.len() == 0 {
            return None;
        }
        let index = self.get_bucket_index(key);
        let at = match position(&self.buckets[index], key) {
            Some(at) => at,
            None => {
                return None;
            },
        };
        let mut table = HashMap::new();
        core::mem::swap(self, &mut table);
        let HashMap { mut buckets, items_size } = table;
        let ghost before = chains_of(buckets@);
        let ghost chain = before[index as int];
        proof {
            lemma_chain_pos(chain, at as int);
            lemma_update_count(
                before,
                index as int,
                chain.update(at as int, chain.last()).drop_last(),
            );
        }
        let entry = buckets[index].swap_remove(at);
        proof {
            assert(chains_of(buckets@) =~= removed(before, key.key()));
        }
        *self = HashMap { buckets, items_size: items_size - 1 };
        Some(entry.1)
    }

    /// Whether `key` has a value.
    pub fn contains_key<Q: Equivalent<K> + ?Sized>(&self, key: &Q) -> (found: bool)
        ensures
            found == self@.contains_key(key.key()),
    {
        proof {
            use_type_invariant(self);
        }
        if self.buckets.len() == 0 {
            return false;
        }
        let index = self.get_bucket_index(key);
        position(&self.buckets[index], key).is_some()
    }
}

/// Scans `chain` from its start for an entry whose key `key` stands for, and
/// returns the place of the first.
fn position<K: Key, V, Q: Equivalent<K> + ?Sized>(chain: &Vec<(K, V)>, key: &Q) -> (found: Option<
    usize,
>)
    ensures
        match found {
            Some(at) => {
                &&& at < chain@.len()
                &&& chain@[at as int].0@ == key.key()
                &&& forall|i: int| 0 <= i < at ==> (#[trigger] chain@[i]).0@ != key.key()
                &&& chain_has(chain@, key.key())
            },
            None => !chain_has(chain@, key.key()),
        },
{
    let mut at: usize = 0;
    while at < chain.len()
        invariant
            at <= chain@.len(),
            forall|i: int| 0 <= i < at ==> (#[trigger] chain@[i]).0@ != key.key(),
        decreases chain.len() - at,
    {
        if key.equivalent(&chain[at].0) {
            return Some(at);
        }
        at += 1;
    }
    None
}

} // verus!
