//! Facts about growth: dealing the entries of a table out over more buckets
//! changes neither the map nor the number of entries.

use crate::key::Key;
use crate::lemmas::lemma_placed;
use crate::lemmas::lemma_placed_count;
use crate::model::bucket_of;
use crate::model::chain_distinct;
use crate::model::chain_in_bucket;
use crate::model::chain_pos;
use crate::model::chains_wf;
use crate::model::distributed;
use crate::model::entries_of;
use crate::model::grown;
use crate::model::grown_len;
use crate::model::inserted;
use crate::model::must_grow;
use crate::model::in_bucket;
use crate::model::map_of;
use crate::model::rehashed;
use crate::traversal::lemma_entries_before_ends;
use crate::traversal::lemma_entries_before_next;
use crate::traversal::lemma_entries_distinct;
use crate::traversal::lemma_entries_in_map;
use crate::traversal::lemma_map_in_entries;
use crate::traversal::lemma_update_count;
use vstd::prelude::*;

verus! {

/// Dealing out no entries leaves every bucket empty.
pub proof fn lemma_distributed_empty<K: Key, V>(n: int)
    requires
        n >= 0,
    ensures
        distributed(Seq::<(K, V)>::empty(), n) == Seq::new(
            n as nat,
            |i: int| Seq::<(K, V)>::empty(),
        ),
{
    let empty = Seq::<(K, V)>::empty();
    assert forall|i: int| 0 <= i < n implies #[trigger] distributed(empty, n)[i] == empty by {
        empty.lemma_filter_len(in_bucket::<K, V>(n, i));
    }
    assert(distributed(empty, n) =~= Seq::new(n as nat, |i: int| Seq::<(K, V)>::empty()));
}

/// Dealing out one entry more adds it to the end of the chain of its bucket
/// and changes no other chain.
pub proof fn lemma_distributed_push<K: Key, V>(entries: Seq<(K, V)>, e: (K, V), n: int)
    requires
        n > 0,
    ensures
        distributed(entries.push(e), n) == distributed(entries, n).update(
            bucket_of::<K>(e.0@, n),
            distributed(entries, n)[bucket_of::<K>(e.0@, n)].push(e),
        ),
{
    let b = bucket_of::<K>(e.0@, n);
    let before = distributed(entries, n);
    let after = distributed(entries.push(e), n);
    assert forall|i: int| 0 <= i < n implies #[trigger] after[i] == before.update(
        b,
        before[b].push(e),
    )[i] by {
        entries.lemma_filter_push(e, in_bucket::<K, V>(n, i));
    }
    assert(after =~= before.update(b, before[b].push(e)));
}

/// Dealing entries out loses and adds none.
pub proof fn lemma_distributed_count<K: Key, V>(entries: Seq<(K, V)>, n: int)
    requires
        n > 0,
    ensures
        entries_of(distributed(entries, n)).len() == entries.len(),
    decreases entries.len(),
{
    if entries.len() == 0 {
        assert(entries =~= Seq::<(K, V)>::empty());
        lemma_distributed_empty::<K, V>(n);
        lemma_empty_chains_count::<K, V>(n, n);
        lemma_entries_before_ends(distributed(entries, n));
    } else {
        let rest = entries.drop_last();
        let e = entries.last();
        assert(entries =~= rest.push(e));
        lemma_distributed_count(rest, n);
        lemma_distributed_push(rest, e, n);
        let b = bucket_of::<K>(e.0@, n);
        lemma_update_count(distributed(rest, n), b, distributed(rest, n)[b].push(e));
    }
}

/// A table of empty chains holds no entry.
pub proof fn lemma_empty_chains_count<K, V>(n: int, i: int)
    requires
        0 <= i <= n,
    ensures
        Seq::new(n as nat, |i: int| Seq::<(K, V)>::empty()).take(i).flatten().len() == 0,
    decreases i,
{
    let chains = Seq::new(n as nat, |i: int| Seq::<(K, V)>::empty());
    if i == 0 {
        lemma_entries_before_ends(chains);
    } else {
        lemma_empty_chains_count::<K, V>(n, i - 1);
        lemma_entries_before_next(chains, i - 1);
    }
}

/// Leaving entries out of a chain without repeated keys repeats no key.
pub proof fn lemma_filter_distinct<K: Key, V>(entries: Seq<(K, V)>, keep: spec_fn((K, V)) -> bool)
    requires
        chain_distinct(entries),
    ensures
        chain_distinct(entries.filter(keep)),
    decreases entries.len(),
{
    if entries.len() == 0 {
        entries.lemma_filter_len(keep);
    } else {
        let rest = entries.drop_last();
        let e = entries.last();
        assert(entries =~= rest.push(e));
        assert forall|i: int, j: int| 0 <= i < j < rest.len() implies (#[trigger] rest[i]).0@ != (
        #[trigger] rest[j]).0@ by {}
        lemma_filter_distinct(rest, keep);
        rest.lemma_filter_push(e, keep);
        let kept = rest.filter(keep);
        let all = entries.filter(keep);
        if keep(e) {
            assert forall|i: int, j: int| 0 <= i < j < all.len() implies (#[trigger] all[i]).0@ != (
            #[trigger] all[j]).0@ by {
                if j == kept.len() {
                    // The entry at `i` was kept from `rest`, where `e` is not.
                    rest.lemma_filter_contains_rev(keep, kept[i]);
                    let p = choose|p: int| 0 <= p < rest.len() && rest[p] == kept[i];
                    assert(entries[p].0@ != entries[entries.len() - 1].0@);
                }
            }
        }
    }
}

/// Growth to `n` buckets keeps the table a table, and changes neither its map
/// nor the number of its entries: every key is found after it as before.
pub proof fn lemma_rehashed<K: Key, V>(chains: Seq<Seq<(K, V)>>, n: int)
    requires
        chains_wf(chains),
        n > 0,
    ensures
        chains_wf(rehashed(chains, n)),
        rehashed(chains, n).len() == n,
        map_of(rehashed(chains, n)) == map_of(chains),
        entries_of(rehashed(chains, n)).len() == entries_of(chains).len(),
{
    let entries = entries_of(chains);
    let after = rehashed(chains, n);
    lemma_entries_distinct(chains);
    lemma_distributed_count(entries, n);
    assert forall|i: int| 0 <= i < after.len() implies chain_distinct(#[trigger] after[i])
        && chain_in_bucket(after[i], i, after.len() as int) by {
        let keep = in_bucket::<K, V>(n, i);
        lemma_filter_distinct(entries, keep);
        assert forall|j: int| 0 <= j < after[i].len() implies bucket_of::<K>(
            (#[trigger] after[i][j]).0@,
            n,
        ) == i by {
            entries.lemma_filter_pred(keep, j);
        }
    }
    assert forall|k: K::V| #[trigger] map_of(after).contains_key(k) implies map_of(
        chains,
    ).contains_key(k) && map_of(chains)[k] == map_of(after)[k] by {
        let b = bucket_of::<K>(k, n);
        let keep = in_bucket::<K, V>(n, b);
        // The entry of the key in its new chain is an entry of the table.
        let x = chain_pos(after[b], k);
        assert(after[b].contains(after[b][x]));
        entries.lemma_filter_contains_rev(keep, after[b][x]);
        let p = choose|p: int| 0 <= p < entries.len() && entries[p] == after[b][x];
        lemma_entries_in_map(chains, p);
    }
    assert forall|k: K::V| #[trigger] map_of(chains).contains_key(k) implies map_of(
        after,
    ).contains_key(k) by {
        let b = bucket_of::<K>(k, n);
        let keep = in_bucket::<K, V>(n, b);
        // The entry of the key in the table is dealt to the key's new chain.
        let p = lemma_map_in_entries(chains, k);
        entries.lemma_filter_contains(keep, p);
        let x = choose|x: int| 0 <= x < after[b].len() && after[b][x] == entries[p];
        assert(after[b][x].0@ == k);
    }
    assert(map_of(after) =~= map_of(chains));
}

/// Growing where it must gives a table without buckets its first one,
/// doubles the buckets of one that is more than three quarters full, and
/// leaves any other as it is.
pub proof fn lemma_grown_len<K: Key, V>(chains: Seq<Seq<(K, V)>>)
    ensures
        grown(chains).len() > 0,
        grown(chains).len() == if chains.len() == 0 {
            1
        } else if 4 * entries_of(chains).len() > 3 * chains.len() {
            2 * chains.len()
        } else {
            chains.len()
        },
{
}

/// Growing where it must keeps the table a table and changes neither its map
/// nor the number of its entries.
pub proof fn lemma_grown<K: Key, V>(chains: Seq<Seq<(K, V)>>)
    requires
        chains_wf(chains),
    ensures
        chains_wf(grown(chains)),
        grown(chains).len() > 0,
        map_of(grown(chains)) == map_of(chains),
        entries_of(grown(chains)).len() == entries_of(chains).len(),
{
    if must_grow(entries_of(chains).len() as int, chains.len() as int) {
        lemma_rehashed(chains, grown_len(chains.len() as int));
    }
}

/// An insertion keeps the table a table and acts on its map as an insertion
/// does, whether or not the table grows. It adds one to the number of entries
/// where the key is new and leaves it as it is where the key is present.
pub proof fn lemma_inserted<K: Key, V>(chains: Seq<Seq<(K, V)>>, key: K, value: V)
    requires
        chains_wf(chains),
    ensures
        chains_wf(inserted(chains, key, value)),
        inserted(chains, key, value).len() == grown(chains).len(),
        map_of(inserted(chains, key, value)) == map_of(chains).insert(key@, value),
        entries_of(inserted(chains, key, value)).len() == entries_of(chains).len() + if map_of(
            chains,
        ).contains_key(key@) {
            0int
        } else {
            1int
        },
{
    lemma_grown(chains);
    lemma_placed(grown(chains), key, value);
    lemma_placed_count(grown(chains), key, value);
}

} // verus!
