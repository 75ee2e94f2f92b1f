//! The table as mathematics: a sequence of chains, each a sequence of entries.
//!
//! Everything the table does is defined here on plain sequences, together with
//! the map that a sequence of chains denotes.

use crate::key::Key;
use vstd::prelude::*;

verus! {

/// The bucket, among `n`, in which the key denoted by `k` belongs.
pub open spec fn bucket_of<K: Key>(k: K::V, n: int) -> int {
    (K::spec_hash(k) as int) % n
}

/// Whether `chain` holds an entry for the key denoted by `k`.
pub open spec fn chain_has<K: Key, V>(chain: Seq<(K, V)>, k: K::V) -> bool {
    exists|j: int| 0 <= j < chain.len() && (#[trigger] chain[j]).0@ == k
}

/// The position in `chain` of an entry for the key denoted by `k`, where
/// there is one.
pub open spec fn chain_pos<K: Key, V>(chain: Seq<(K, V)>, k: K::V) -> int {
    choose|j: int| 0 <= j < chain.len() && (#[trigger] chain[j]).0@ == k
}

/// No key occurs twice in `chain`.
pub open spec fn chain_distinct<K: Key, V>(chain: Seq<(K, V)>) -> bool {
    forall|i: int, j: int|
        0 <= i < j < chain.len() ==> (#[trigger] chain[i]).0@ != (#[trigger] chain[j]).0@
}

/// Every entry of `chain` belongs in bucket `b` among `n`.
pub open spec fn chain_in_bucket<K: Key, V>(chain: Seq<(K, V)>, b: int, n: int) -> bool {
    forall|j: int| 0 <= j < chain.len() ==> bucket_of::<K>((#[trigger] chain[j]).0@, n) == b
}

/// The chains form a table: every entry lies in the bucket of its key, and no
/// chain holds a key twice. Hence no key occurs twice in the whole table.
pub open spec fn chains_wf<K: Key, V>(chains: Seq<Seq<(K, V)>>) -> bool {
    forall|i: int|
        0 <= i < chains.len() ==> chain_distinct(#[trigger] chains[i]) && chain_in_bucket(
            chains[i],
            i,
            chains.len() as int,
        )
}

/// The map that the chains denote, from keys to values.
pub open spec fn map_of<K: Key, V>(chains: Seq<Seq<(K, V)>>) -> Map<K::V, V> {
    Map::new(
        |k: K::V|
            chains.len() > 0 && chain_has(chains[bucket_of::<K>(k, chains.len() as int)], k),
        |k: K::V|
            {
                let chain = chains[bucket_of::<K>(k, chains.len() as int)];
                chain[chain_pos(chain, k)].1
            },
    )
}

/// The entries in the order in which a traversal meets them: bucket by
/// bucket, and within a bucket along its chain.
pub open spec fn entries_of<K, V>(chains: Seq<Seq<(K, V)>>) -> Seq<(K, V)> {
    chains.flatten()
}

/// The entries that a traversal meets before it reaches bucket `i`.
pub open spec fn entries_before<K, V>(chains: Seq<Seq<(K, V)>>, i: int) -> Seq<(K, V)> {
    chains.take(i).flatten()
}

/// What a lookup of `k` in `m` gives.
pub open spec fn lookup<A, V>(m: Map<A, V>, k: A) -> Option<V> {
    if m.contains_key(k) {
        Some(m[k])
    } else {
        None
    }
}

/// Whether a table of `n` buckets that holds `count` entries grows before the
/// next insertion: when it has no bucket yet, or is more than three quarters
/// full.
pub open spec fn must_grow(count: int, n: int) -> bool {
    n == 0 || 4 * count > 3 * n
}

/// The number of buckets after a table of `n` buckets has grown.
pub open spec fn grown_len(n: int) -> int {
    if n == 0 {
        1
    } else {
        2 * n
    }
}

/// The test that an entry belongs in bucket `i` among `n`.
pub open spec fn in_bucket<K: Key, V>(n: int, i: int) -> spec_fn((K, V)) -> bool {
    |e: (K, V)| bucket_of::<K>(e.0@, n) == i
}

/// The entries `entries` dealt out, in order, over `n` buckets.
pub open spec fn distributed<K: Key, V>(entries: Seq<(K, V)>, n: int) -> Seq<Seq<(K, V)>> {
    Seq::new(n as nat, |i: int| entries.filter(in_bucket::<K, V>(n, i)))
}

/// The chains after growth to `n` buckets: the entries, in traversal order,
/// are dealt out again, each to the end of the chain of its new bucket.
pub open spec fn rehashed<K: Key, V>(chains: Seq<Seq<(K, V)>>, n: int) -> Seq<Seq<(K, V)>> {
    distributed(entries_of(chains), n)
}

/// The chains after `key` has been given `value`: where the chain of the
/// key's bucket holds the key, the value is replaced in place; where it does
/// not, the entry joins the end of that chain.
pub open spec fn placed<K: Key, V>(chains: Seq<Seq<(K, V)>>, key: K, value: V) -> Seq<
    Seq<(K, V)>,
> {
    let b = bucket_of::<K>(key@, chains.len() as int);
    let chain = chains[b];
    if chain_has(chain, key@) {
        let j = chain_pos(chain, key@);
        chains.update(b, chain.update(j, (chain[j].0, value)))
    } else {
        chains.update(b, chain.push((key, value)))
    }
}

/// The chains after the key denoted by `k` has been removed: its entry is
/// overwritten by the last entry of its chain, which then loses its last
/// position. Chains that do not hold the key stay as they are.
pub open spec fn removed<K: Key, V>(chains: Seq<Seq<(K, V)>>, k: K::V) -> Seq<Seq<(K, V)>> {
    if chains.len() > 0 && chain_has(chains[bucket_of::<K>(k, chains.len() as int)], k) {
        let b = bucket_of::<K>(k, chains.len() as int);
        let chain = chains[b];
        let j = chain_pos(chain, k);
        chains.update(b, chain.update(j, chain.last()).drop_last())
    } else {
        chains
    }
}

/// The chains as an insertion finds them once the table has grown where it
/// must: a table without buckets, or with more than three entries for every
/// four buckets, grows; any other stays as it is.
pub open spec fn grown<K: Key, V>(chains: Seq<Seq<(K, V)>>) -> Seq<Seq<(K, V)>> {
    if must_grow(entries_of(chains).len() as int, chains.len() as int) {
        rehashed(chains, grown_len(chains.len() as int))
    } else {
        chains
    }
}

/// The chains after an insertion: the table grows first where it must, then
/// the entry is placed.
pub open spec fn inserted<K: Key, V>(chains: Seq<Seq<(K, V)>>, key: K, value: V) -> Seq<
    Seq<(K, V)>,
> {
    placed(grown(chains), key, value)
}

} // verus!
