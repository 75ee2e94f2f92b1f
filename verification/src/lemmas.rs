//! Facts about single chains and about the map that a table denotes.

use crate::key::Key;
use crate::model::bucket_of;
use crate::model::chain_distinct;
use crate::model::chain_has;
use crate::model::chain_in_bucket;
use crate::model::chain_pos;
use crate::model::chains_wf;
use crate::model::entries_of;
use crate::model::map_of;
use crate::model::placed;
use crate::model::removed;
use crate::traversal::lemma_update_count;
use vstd::prelude::*;

verus! {

/// In a chain without repeated keys, a key is found where it stands.
pub proof fn lemma_chain_pos<K: Key, V>(chain: Seq<(K, V)>, j: int)
    requires
        chain_distinct(chain),
        0 <= j < chain.len(),
    ensures
        chain_has(chain, chain[j].0@),
        chain_pos(chain, chain[j].0@) == j,
{
    let p = chain_pos(chain, chain[j].0@);
    assert(0 <= p < chain.len() && chain[p].0@ == chain[j].0@);
}

/// Every entry of a table is in the map: its key is mapped to its value.
pub proof fn lemma_map_of_entry<K: Key, V>(chains: Seq<Seq<(K, V)>>, i: int, j: int)
    requires
        chains_wf(chains),
        0 <= i < chains.len(),
        0 <= j < chains[i].len(),
    ensures
        map_of(chains).contains_key(chains[i][j].0@),
        map_of(chains)[chains[i][j].0@] == chains[i][j].1,
{
    lemma_chain_pos(chains[i], j);
}

/// Placing an entry keeps the table a table and acts on its map as an
/// insertion does.
pub proof fn lemma_placed<K: Key, V>(chains: Seq<Seq<(K, V)>>, key: K, value: V)
    requires
        chains_wf(chains),
        chains.len() > 0,
    ensures
        chains_wf(placed(chains, key, value)),
        placed(chains, key, value).len() == chains.len(),
        map_of(placed(chains, key, value)) == map_of(chains).insert(key@, value),
{
    let n = chains.len() as int;
    let b = bucket_of::<K>(key@, n);
    let chain = chains[b];
    let after = placed(chains, key, value);
    // The place of the key in its chain after the change. Every other place
    // of that chain holds what it held before.
    let at = if chain_has(chain, key@) {
        chain_pos(chain, key@)
    } else {
        chain.len() as int
    };
    let new_chain = if chain_has(chain, key@) {
        chain.update(at, (chain[at].0, value))
    } else {
        chain.push((key, value))
    };
    assert(after == chains.update(b, new_chain));
    assert(chain_distinct(chain) && chain_in_bucket(chain, b, n));
    assert(chain_distinct(new_chain)) by {
        assert forall|x: int, y: int| 0 <= x < y < new_chain.len() implies (
        #[trigger] new_chain[x]).0@ != (#[trigger] new_chain[y]).0@ by {
            if y < chain.len() {
                assert(chain[x].0@ != chain[y].0@);
            } else {
                assert(chain[x].0@ != key@);
            }
        }
    }
    assert(chain_in_bucket(new_chain, b, n)) by {
        assert forall|x: int| 0 <= x < new_chain.len() implies bucket_of::<K>(
            (#[trigger] new_chain[x]).0@,
            n,
        ) == b by {
            if x < chain.len() {
                assert(bucket_of::<K>(chain[x].0@, n) == b);
            }
        }
    }
    assert(chains_wf(after));
    lemma_chain_pos(new_chain, at);
    assert forall|k: K::V| k != key@ && bucket_of::<K>(k, n) == b implies (chain_has(
        new_chain,
        k,
    ) <==> chain_has(chain, k)) && (chain_has(new_chain, k) ==> new_chain[chain_pos(
        new_chain,
        k,
    )].1 == chain[chain_pos(chain, k)].1) by {
        if chain_has(chain, k) {
            lemma_chain_pos(new_chain, chain_pos(chain, k));
        }
        if chain_has(new_chain, k) {
            lemma_chain_pos(chain, chain_pos(new_chain, k));
        }
    }
    assert(map_of(after) =~= map_of(chains).insert(key@, value));
}

/// Removing a key keeps the table a table and acts on its map as a removal
/// does.
pub proof fn lemma_removed<K: Key, V>(chains: Seq<Seq<(K, V)>>, k: K::V)
    requires
        chains_wf(chains),
    ensures
        chains_wf(removed(chains, k)),
        removed(chains, k).len() == chains.len(),
        map_of(removed(chains, k)) == map_of(chains).remove(k),
{
    let n = chains.len() as int;
    let after = removed(chains, k);
    if map_of(chains).contains_key(k) {
        let b = bucket_of::<K>(k, n);
        let chain = chains[b];
        let j = chain_pos(chain, k);
        let last = chain.len() - 1;
        let new_chain = after[b];
        // Where each entry of the shortened chain stood in the old one.
        let from = |x: int| if x == j { last } else { x };
        assert forall|x: int| 0 <= x < new_chain.len() implies #[trigger] new_chain[x]
            == chain[from(x)] by {}
        assert(chain_distinct(new_chain) && chain_in_bucket(new_chain, b, n)) by {
            assert(chain_distinct(chain) && chain_in_bucket(chain, b, n));
            assert forall|x: int, y: int| 0 <= x < y < new_chain.len() implies (
            #[trigger] new_chain[x]).0@ != (#[trigger] new_chain[y]).0@ by {
                if from(x) < from(y) {
                    assert(chain[from(x)].0@ != chain[from(y)].0@);
                } else {
                    assert(chain[from(y)].0@ != chain[from(x)].0@);
                }
            }
        }
        assert(chains_wf(after));
        assert forall|q: K::V| bucket_of::<K>(q, n) == b implies (chain_has(new_chain, q) <==> q
            != k && chain_has(chain, q)) && (chain_has(new_chain, q) ==> new_chain[chain_pos(
            new_chain,
            q,
        )].1 == chain[chain_pos(chain, q)].1) by {
            if chain_has(new_chain, q) {
                lemma_chain_pos(chain, from(chain_pos(new_chain, q)));
            }
            if q != k && chain_has(chain, q) {
                let p = chain_pos(chain, q);
                assert(new_chain[if p == last { j } else { p }] == chain[p]);
            }
        }
    }
    assert(map_of(after) =~= map_of(chains).remove(k));
}

/// Placing an entry adds one to the number of entries where the key is new,
/// and leaves it as it is where the key is present.
pub proof fn lemma_placed_count<K: Key, V>(chains: Seq<Seq<(K, V)>>, key: K, value: V)
    requires
        chains.len() > 0,
    ensures
        entries_of(placed(chains, key, value)).len() == entries_of(chains).len() + if map_of(
            chains,
        ).contains_key(key@) {
            0int
        } else {
            1int
        },
{
    let b = bucket_of::<K>(key@, chains.len() as int);
    let chain = chains[b];
    if chain_has(chain, key@) {
        let j = chain_pos(chain, key@);
        lemma_update_count(chains, b, chain.update(j, (chain[j].0, value)));
    } else {
        lemma_update_count(chains, b, chain.push((key, value)));
    }
}

/// Removing a key takes one from the number of entries where the key is
/// present, and leaves the table as it is where the key is absent.
pub proof fn lemma_removed_count<K: Key, V>(chains: Seq<Seq<(K, V)>>, k: K::V)
    ensures
        map_of(chains).contains_key(k) ==> entries_of(removed(chains, k)).len() == entries_of(
            chains,
        ).len() - 1,
        !map_of(chains).contains_key(k) ==> removed(chains, k) == chains,
{
    if map_of(chains).contains_key(k) {
        let b = bucket_of::<K>(k, chains.len() as int);
        let chain = chains[b];
        let j = chain_pos(chain, k);
        lemma_update_count(chains, b, chain.update(j, chain.last()).drop_last());
    }
}

} // verus!
