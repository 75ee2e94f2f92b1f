//! Traversal of a table, entry by entry.

use crate::key::Key;
use crate::model::entries_before;
use crate::table::HashMap;
use crate::traversal::lemma_entries_before_ends;
use crate::traversal::lemma_entries_before_next;
use crate::traversal::lemma_entry_at;
use vstd::prelude::*;

verus! {

/// A cursor over the entries of a table.
///
/// It meets the buckets in order and each chain from its start, and every
/// entry once. It borrows the table, which therefore does not change while
/// the cursor lives.
pub struct Iter<'a, K: Key, V> {
    map: &'a HashMap<K, V>,
    bucket: usize,
    at: usize,
}

impl<'a, K: Key, V> Iter<'a, K, V> {
    /// The entries of the table, in the order in which the cursor meets them.
    pub closed spec fn entries(&self) -> Seq<(K, V)> {
        self.map.entries()
    }

    /// The number of entries that the cursor has passed.
    pub closed spec fn position(&self) -> int {
        entries_before(self.map.chains(), self.bucket as int).len() + self.at
    }

    /// The cursor stands in a chain of the table, or behind the last one.
    #[verifier::type_invariant]
    pub closed spec fn wf(&self) -> bool {
        &&& self.bucket <= self.map.chains().len()
        &&& self.bucket < self.map.chains().len() ==> self.at <= self.map.chains()[self.bucket
            as int].len()
        &&& self.bucket == self.map.chains().len() ==> self.at == 0
    }

    /// Passes one entry and returns its key and value, or returns `None` when
    /// every entry has been passed.
    pub fn next(&mut self) -> (item: Option<(&'a K, &'a V)>)
        ensures
            final(self).entries() == old(self).entries(),
            0 <= old(self).position() <= old(self).entries().len(),
            match item {
                Some((key, value)) => {
                    &&& old(self).position() < old(self).entries().len()
                    &&& (*key, *value) == old(self).entries()[old(self).position()]
                    &&& final(self).position() == old(self).position() + 1
                },
                None => {
                    &&& old(self).position() == old(self).entries().len()
                    &&& final(self).position() == old(self).position()
                },
            },
    {
        let map: &'a HashMap<K, V> = self.map;
        loop
            invariant
                self.map == map,
                map == old(self).map,
                self.position() == old(self).position(),
            decreases map.chains().len() - self.bucket,
        {
            proof {
                use_type_invariant(&*self);
            }
            match map.chain(self.bucket) {
                Some(chain) => {
                    if self.at < chain.len() {
                        let entry = &chain[self.at];
                        proof {
                            lemma_entry_at(map.chains(), self.bucket as int, self.at as int);
                        }
                        self.at += 1;
                        return Some((&entry.0, &entry.1));
                    } else {
                        proof {
                            lemma_entries_before_next(map.chains(), self.bucket as int);
                        }
                        *self = Iter { map, bucket: self.bucket + 1, at: 0 };
                    }
                },
                None => {
                    proof {
                        lemma_entries_before_ends(map.chains());
                    }
                    return None;
                },
            }
        }
    }
}

impl<K: Key, V> HashMap<K, V> {
    /// Starts a traversal of the table at its first entry.
    pub fn into_iter(&self) -> (cursor: Iter<'_, K, V>)
        ensures
            cursor.entries() == self.entries(),
            cursor.position() == 0,
    {
        proof {
            lemma_entries_before_ends(self.chains());
        }
        Iter { map: self, bucket: 0, at: 0 }
    }
}

} // verus!
