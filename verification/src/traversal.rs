//! Facts about the order in which a traversal meets the entries of a table.

use crate::key::Key;
use crate::lemmas::lemma_map_of_entry;
use crate::model::bucket_of;
use crate::model::chain_distinct;
use crate::model::chain_in_bucket;
use crate::model::chain_pos;
use crate::model::chains_wf;
use crate::model::entries_before;
use crate::model::entries_of;
use crate::model::map_of;
use vstd::prelude::*;

verus! {

/// A traversal that has reached bucket `i` meets the chain of that bucket
/// next.
pub proof fn lemma_entries_before_next<K, V>(chains: Seq<Seq<(K, V)>>, i: int)
    requires
        0 <= i < chains.len(),
    ensures
        entries_before(chains, i + 1) == entries_before(chains, i) + chains[i],
{
    assert(chains.take(i + 1) =~= chains.take(i).push(chains[i]));
    chains.take(i).lemma_flatten_push(chains[i]);
}

/// Before the first bucket a traversal has met nothing; after the last it has
/// met every entry.
pub proof fn lemma_entries_before_ends<K, V>(chains: Seq<Seq<(K, V)>>)
    ensures
        entries_before(chains, 0) == Seq::<(K, V)>::empty(),
        entries_before(chains, chains.len() as int) == entries_of(chains),
{
    assert(chains.take(chains.len() as int) =~= chains);
}

/// What a traversal has met before bucket `i` is the beginning of what it
/// meets in all.
pub proof fn lemma_entries_before_prefix<K, V>(chains: Seq<Seq<(K, V)>>, i: int)
    requires
        0 <= i <= chains.len(),
    ensures
        entries_before(chains, i).len() <= entries_of(chains).len(),
        entries_before(chains, i) == entries_of(chains).take(
            entries_before(chains, i).len() as int,
        ),
    decreases chains.len() - i,
{
    if i == chains.len() {
        lemma_entries_before_ends(chains);
    } else {
        lemma_entries_before_next(chains, i);
        lemma_entries_before_prefix(chains, i + 1);
    }
}

/// The entry at position `j` of bucket `i` is met after the entries of the
/// buckets before `i` and the `j` entries before it in its chain.
pub proof fn lemma_entry_at<K, V>(chains: Seq<Seq<(K, V)>>, i: int, j: int)
    requires
        0 <= i < chains.len(),
        0 <= j < chains[i].len(),
    ensures
        entries_before(chains, i).len() + j < entries_of(chains).len(),
        entries_of(chains)[entries_before(chains, i).len() + j] == chains[i][j],
{
    lemma_entries_before_next(chains, i);
    lemma_entries_before_prefix(chains, i + 1);
    let longer = entries_before(chains, i + 1);
    let p = entries_before(chains, i).len() + j;
    assert(entries_of(chains).take(longer.len() as int)[p] == entries_of(chains)[p]);
}

/// Finds the bucket and the place in its chain of the entry that a traversal
/// meets at position `p`, searching from bucket `from` on.
pub proof fn lemma_locate_from<K, V>(chains: Seq<Seq<(K, V)>>, from: int, p: int) -> (at: (
    int,
    int,
))
    requires
        0 <= from <= chains.len(),
        entries_before(chains, from).len() <= p < entries_of(chains).len(),
    ensures
        from <= at.0 < chains.len(),
        0 <= at.1 < chains[at.0].len(),
        p == entries_before(chains, at.0).len() + at.1,
        entries_of(chains)[p] == chains[at.0][at.1],
    decreases chains.len() - from,
{
    if from == chains.len() {
        lemma_entries_before_ends(chains);
        (0, 0)
    } else {
        lemma_entries_before_next(chains, from);
        if p < entries_before(chains, from + 1).len() {
            let j = p - entries_before(chains, from).len();
            lemma_entry_at(chains, from, j);
            (from, j)
        } else {
            lemma_locate_from(chains, from + 1, p)
        }
    }
}

/// Finds the bucket and the place in its chain of the entry that a traversal
/// meets at position `p`.
pub proof fn lemma_locate<K, V>(chains: Seq<Seq<(K, V)>>, p: int) -> (at: (int, int))
    requires
        0 <= p < entries_of(chains).len(),
    ensures
        0 <= at.0 < chains.len(),
        0 <= at.1 < chains[at.0].len(),
        p == entries_before(chains, at.0).len() + at.1,
        entries_of(chains)[p] == chains[at.0][at.1],
{
    lemma_entries_before_ends(chains);
    lemma_locate_from(chains, 0, p)
}

/// A traversal meets no key twice.
pub proof fn lemma_entries_distinct<K: Key, V>(chains: Seq<Seq<(K, V)>>)
    requires
        chains_wf(chains),
    ensures
        chain_distinct(entries_of(chains)),
{
    let entries = entries_of(chains);
    let n = chains.len() as int;
    assert forall|p: int, q: int| 0 <= p < q < entries.len() implies (#[trigger] entries[p]).0@ != (
    #[trigger] entries[q]).0@ by {
        // Two entries of one chain stand at different places of it; two of
        // different chains belong in different buckets.
        let a = lemma_locate(chains, p);
        let b = lemma_locate(chains, q);
        assert(chain_distinct(chains[a.0]) && chain_in_bucket(chains[a.0], a.0, n));
        assert(chain_in_bucket(chains[b.0], b.0, n));
    }
}

/// Every entry that a traversal meets is an entry of the map.
pub proof fn lemma_entries_in_map<K: Key, V>(chains: Seq<Seq<(K, V)>>, p: int)
    requires
        chains_wf(chains),
        0 <= p < entries_of(chains).len(),
    ensures
        map_of(chains).contains_key(entries_of(chains)[p].0@),
        map_of(chains)[entries_of(chains)[p].0@] == entries_of(chains)[p].1,
{
    let a = lemma_locate(chains, p);
    lemma_map_of_entry(chains, a.0, a.1);
}

/// A traversal meets every key of the map, with the value that the map gives
/// it. The result is the position at which it does.
pub proof fn lemma_map_in_entries<K: Key, V>(chains: Seq<Seq<(K, V)>>, k: K::V) -> (p: int)
    requires
        chains_wf(chains),
        map_of(chains).contains_key(k),
    ensures
        0 <= p < entries_of(chains).len(),
        entries_of(chains)[p].0@ == k,
        entries_of(chains)[p].1 == map_of(chains)[k],
{
    let b = bucket_of::<K>(k, chains.len() as int);
    let j = chain_pos(chains[b], k);
    lemma_entry_at(chains, b, j);
    entries_before(chains, b).len() + j
}

/// The keys of the given entries, in order.
pub open spec fn keys_of<K: Key, V>(entries: Seq<(K, V)>) -> Seq<K::V> {
    entries.map_values(|e: (K, V)| e.0@)
}

/// A table holds as many entries as its map has keys, and these are finitely
/// many.
pub proof fn lemma_entries_count<K: Key, V>(chains: Seq<Seq<(K, V)>>)
    requires
        chains_wf(chains),
    ensures
        map_of(chains).dom().finite(),
        map_of(chains).dom().len() == entries_of(chains).len(),
{
    let entries = entries_of(chains);
    let keys = keys_of(entries);
    lemma_entries_distinct(chains);
    assert(keys.no_duplicates());
    assert(keys.to_set() =~= map_of(chains).dom()) by {
        assert forall|k: K::V| keys.to_set().contains(k) == map_of(chains).dom().contains(k) by {
            if keys.to_set().contains(k) {
                let p = choose|p: int| 0 <= p < keys.len() && keys[p] == k;
                lemma_entries_in_map(chains, p);
            }
            if map_of(chains).dom().contains(k) {
                let p = lemma_map_in_entries(chains, k);
                assert(keys[p] == k);
            }
        }
    }
    keys.unique_seq_to_set();
    vstd::seq_lib::seq_to_set_is_finite(keys);
}

/// Replacing one chain changes the number of entries by the difference of
/// the two chains' lengths, and what a traversal meets before that chain not
/// at all.
pub proof fn lemma_update_count<K, V>(chains: Seq<Seq<(K, V)>>, b: int, chain: Seq<(K, V)>)
    requires
        0 <= b < chains.len(),
    ensures
        entries_of(chains.update(b, chain)).len() == entries_of(chains).len() - chains[b].len()
            + chain.len(),
        entries_before(chains.update(b, chain), b) == entries_before(chains, b),
{
    let after = chains.update(b, chain);
    assert(after.take(b) =~= chains.take(b));
    lemma_update_count_upto(chains, b, chain, chains.len() as int);
    lemma_entries_before_ends(chains);
    lemma_entries_before_ends(after);
}

proof fn lemma_update_count_upto<K, V>(
    chains: Seq<Seq<(K, V)>>,
    b: int,
    chain: Seq<(K, V)>,
    i: int,
)
    requires
        0 <= b < i <= chains.len(),
    ensures
        entries_before(chains.update(b, chain), i).len() == entries_before(chains, i).len()
            - chains[b].len() + chain.len(),
    decreases i,
{
    let after = chains.update(b, chain);
    lemma_entries_before_next(chains, i - 1);
    lemma_entries_before_next(after, i - 1);
    if i - 1 == b {
        assert(after.take(b) =~= chains.take(b));
    } else {
        lemma_update_count_upto(chains, b, chain, i - 1);
    }
}

} // verus!
