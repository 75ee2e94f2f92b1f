//! What holds of the table as a whole: laws that relate its operations to one
//! another, stated over the chains and the map that the operations' own
//! contracts speak of.

use crate::growth::lemma_grown_len;
use crate::growth::lemma_inserted;
use crate::key::Equivalent;
use crate::key::Key;
use crate::lemmas::lemma_removed;
use crate::lemmas::lemma_removed_count;
use crate::model::chain_distinct;
use crate::model::chains_wf;
use crate::model::entries_of;
use crate::model::inserted;
use crate::model::lookup;
use crate::model::map_of;
use crate::model::removed;
use crate::traversal::lemma_entries_before_ends;
use crate::traversal::lemma_entries_count;
use crate::traversal::lemma_entries_distinct;
use crate::traversal::lemma_entries_in_map;
use crate::traversal::lemma_map_in_entries;
use vstd::prelude::*;

verus! {

/// One change to a table: an insertion or a removal.
pub enum Step<K, V> {
    Insert { key: K, value: V },
    Remove { key: K },
}

impl<K: Key, V> Step<K, V> {
    /// The key that the step is about.
    pub open spec fn key(self) -> K::V {
        match self {
            Step::Insert { key, value } => key@,
            Step::Remove { key } => key@,
        }
    }
}

/// The chains after one step.
pub open spec fn applied<K: Key, V>(chains: Seq<Seq<(K, V)>>, step: Step<K, V>) -> Seq<
    Seq<(K, V)>,
> {
    match step {
        Step::Insert { key, value } => inserted(chains, key, value),
        Step::Remove { key } => removed(chains, key@),
    }
}

/// The chains after a run of steps, taken in order.
pub open spec fn run<K: Key, V>(chains: Seq<Seq<(K, V)>>, steps: Seq<Step<K, V>>) -> Seq<
    Seq<(K, V)>,
>
    decreases steps.len(),
{
    if steps.len() == 0 {
        chains
    } else {
        applied(run(chains, steps.drop_last()), steps.last())
    }
}

/// The table without buckets that every table starts as.
pub open spec fn empty_chains<K, V>() -> Seq<Seq<(K, V)>> {
    Seq::empty()
}

/// One step keeps a table a table and acts on its map as the same step on a
/// map does.
pub proof fn lemma_applied<K: Key, V>(chains: Seq<Seq<(K, V)>>, step: Step<K, V>)
    requires
        chains_wf(chains),
    ensures
        chains_wf(applied(chains, step)),
        match step {
            Step::Insert { key, value } => map_of(applied(chains, step)) == map_of(chains).insert(
                key@,
                value,
            ),
            Step::Remove { key } => map_of(applied(chains, step)) == map_of(chains).remove(key@),
        },
{
    match step {
        Step::Insert { key, value } => {
            lemma_inserted(chains, key, value);
        },
        Step::Remove { key } => {
            lemma_removed(chains, key@);
        },
    }
}

/// The table never shrinks: a removal leaves the number of buckets as it is,
/// and an insertion takes none away and leaves at least one.
pub proof fn lemma_never_shrinks<K: Key, V>(chains: Seq<Seq<(K, V)>>, step: Step<K, V>)
    ensures
        applied(chains, step).len() >= chains.len(),
        step is Insert ==> applied(chains, step).len() > 0,
        step is Remove ==> applied(chains, step).len() == chains.len(),
{
    lemma_grown_len(chains);
}

/// A run of steps keeps a table a table.
pub proof fn lemma_run_wf<K: Key, V>(chains: Seq<Seq<(K, V)>>, steps: Seq<Step<K, V>>)
    requires
        chains_wf(chains),
    ensures
        chains_wf(run(chains, steps)),
    decreases steps.len(),
{
    if steps.len() > 0 {
        lemma_run_wf(chains, steps.drop_last());
        lemma_applied(run(chains, steps.drop_last()), steps.last());
    }
}

/// A run of steps in two parts is the second part run after the first.
pub proof fn lemma_run_split<K: Key, V>(
    chains: Seq<Seq<(K, V)>>,
    first: Seq<Step<K, V>>,
    second: Seq<Step<K, V>>,
)
    ensures
        run(chains, first + second) == run(run(chains, first), second),
    decreases second.len(),
{
    if second.len() == 0 {
        assert(first + second =~= first);
    } else {
        lemma_run_split(chains, first, second.drop_last());
        assert((first + second).drop_last() =~= first + second.drop_last());
    }
}

/// Steps about other keys leave a key as it is: present with the same value,
/// or absent.
pub proof fn lemma_untouched<K: Key, V>(
    chains: Seq<Seq<(K, V)>>,
    steps: Seq<Step<K, V>>,
    k: K::V,
)
    requires
        chains_wf(chains),
        forall|i: int| 0 <= i < steps.len() ==> (#[trigger] steps[i]).key() != k,
    ensures
        lookup(map_of(run(chains, steps)), k) == lookup(map_of(chains), k),
    decreases steps.len(),
{
    if steps.len() > 0 {
        let rest = steps.drop_last();
        assert forall|i: int| 0 <= i < rest.len() implies (#[trigger] rest[i]).key() != k by {
            assert(rest[i] == steps[i]);
        }
        lemma_untouched(chains, rest, k);
        lemma_run_wf(chains, rest);
        lemma_applied(run(chains, rest), steps.last());
    }
}

/// Round trip: a lookup of a key gives the value of its last insertion,
/// whatever insertions and removals of other keys have come since.
pub proof fn lemma_round_trip<K: Key, V>(
    chains: Seq<Seq<(K, V)>>,
    key: K,
    value: V,
    later: Seq<Step<K, V>>,
)
    requires
        chains_wf(chains),
        forall|i: int| 0 <= i < later.len() ==> (#[trigger] later[i]).key() != key@,
    ensures
        lookup(map_of(run(inserted(chains, key, value), later)), key@) == Some(value),
{
    lemma_inserted(chains, key, value);
    lemma_untouched(inserted(chains, key, value), later, key@);
}

/// Overwrite: of two insertions of one key in a row the second meets the
/// value of the first, leaves the number of entries as it is, and leaves the
/// key with the second value.
pub proof fn lemma_overwrite<K: Key, V>(
    chains: Seq<Seq<(K, V)>>,
    key: K,
    first: V,
    again: K,
    second: V,
)
    requires
        chains_wf(chains),
        again@ == key@,
    ensures
        lookup(map_of(inserted(chains, key, first)), again@) == Some(first),
        entries_of(inserted(inserted(chains, key, first), again, second)).len() == entries_of(
            inserted(chains, key, first),
        ).len(),
        map_of(inserted(inserted(chains, key, first), again, second)).len() == map_of(
            inserted(chains, key, first),
        ).len(),
        lookup(map_of(inserted(inserted(chains, key, first), again, second)), key@) == Some(
            second,
        ),
{
    let once = inserted(chains, key, first);
    lemma_inserted(chains, key, first);
    lemma_inserted(once, again, second);
    lemma_entries_count(once);
    lemma_entries_count(inserted(once, again, second));
}

/// Removal of a present key: the removal meets the key's value, takes one
/// from the number of entries, and leaves the key absent.
pub proof fn lemma_remove_present<K: Key, V>(chains: Seq<Seq<(K, V)>>, k: K::V)
    requires
        chains_wf(chains),
        map_of(chains).contains_key(k),
    ensures
        lookup(map_of(chains), k) == Some(map_of(chains)[k]),
        entries_of(removed(chains, k)).len() == entries_of(chains).len() - 1,
        map_of(removed(chains, k)).len() == map_of(chains).len() - 1,
        !map_of(removed(chains, k)).contains_key(k),
        lookup(map_of(removed(chains, k)), k) == None::<V>,
{
    lemma_removed(chains, k);
    lemma_removed_count(chains, k);
    lemma_entries_count(chains);
    lemma_entries_count(removed(chains, k));
}

/// Removal of an absent key: the removal meets no value and leaves the table
/// as it is.
pub proof fn lemma_remove_absent<K: Key, V>(chains: Seq<Seq<(K, V)>>, k: K::V)
    requires
        !map_of(chains).contains_key(k),
    ensures
        lookup(map_of(chains), k) == None::<V>,
        removed(chains, k) == chains,
{
}

/// Borrowed lookup: a form that stands for a key is looked up and removed
/// exactly as the key itself is.
pub proof fn lemma_borrowed_lookup<K: Key, V, Q: Equivalent<K> + ?Sized>(
    chains: Seq<Seq<(K, V)>>,
    owned: &K,
    form: &Q,
)
    requires
        form.key() == owned@,
    ensures
        lookup(map_of(chains), form.key()) == lookup(map_of(chains), owned.key()),
        map_of(chains).contains_key(form.key()) == map_of(chains).contains_key(owned.key()),
        removed(chains, form.key()) == removed(chains, owned.key()),
{
}

/// For a table keyed by owned strings, a string slice is looked up and
/// removed exactly as the owned string with the same characters is.
pub proof fn lemma_str_stands_for_string<V>(
    chains: Seq<Seq<(String, V)>>,
    owned: String,
    form: &str,
)
    requires
        form@ == owned@,
    ensures
        Equivalent::<String>::key(form) == owned@,
        lookup(map_of(chains), Equivalent::<String>::key(form)) == lookup(map_of(chains), owned@),
        removed(chains, Equivalent::<String>::key(form)) == removed(chains, owned@),
{
}

/// Traversal is complete: the entries that a traversal meets are exactly the
/// entries of the map, each met once.
pub proof fn lemma_traversal_complete<K: Key, V>(chains: Seq<Seq<(K, V)>>)
    requires
        chains_wf(chains),
    ensures
        chain_distinct(entries_of(chains)),
        forall|p: int|
            0 <= p < entries_of(chains).len() ==> map_of(chains).contains_pair(
                (#[trigger] entries_of(chains)[p]).0@,
                entries_of(chains)[p].1,
            ),
        forall|k: K::V| #[trigger]
            map_of(chains).contains_key(k) ==> exists|p: int|
                0 <= p < entries_of(chains).len() && (#[trigger] entries_of(chains)[p]).0@ == k,
        entries_of(chains).len() == map_of(chains).len(),
{
    lemma_entries_distinct(chains);
    lemma_entries_count(chains);
    assert forall|p: int| 0 <= p < entries_of(chains).len() implies map_of(chains).contains_pair(
        (#[trigger] entries_of(chains)[p]).0@,
        entries_of(chains)[p].1,
    ) by {
        lemma_entries_in_map(chains, p);
    }
    assert forall|k: K::V| #[trigger] map_of(chains).contains_key(k) implies exists|p: int|
        0 <= p < entries_of(chains).len() && (#[trigger] entries_of(chains)[p]).0@ == k by {
        let p = lemma_map_in_entries(chains, k);
    }
}

/// Whether step `i` of `steps` inserts the key denoted by `k`.
pub open spec fn inserts_at<K: Key, V>(steps: Seq<Step<K, V>>, i: int, k: K::V) -> bool {
    0 <= i < steps.len() && steps[i] is Insert && steps[i].key() == k
}

/// Whether step `j` of `steps` removes the key denoted by `k`.
pub open spec fn removes_at<K: Key, V>(steps: Seq<Step<K, V>>, j: int, k: K::V) -> bool {
    0 <= j < steps.len() && steps[j] is Remove && steps[j].key() == k
}

/// Whether step `i` of `steps` inserts the key denoted by `k` and no later
/// step removes it.
pub open spec fn live_at<K: Key, V>(steps: Seq<Step<K, V>>, i: int, k: K::V) -> bool {
    inserts_at(steps, i, k) && forall|j: int| i < j ==> !#[trigger] removes_at(steps, j, k)
}

/// The keys that `steps` insert and do not remove afterwards.
pub open spec fn live_keys<K: Key, V>(steps: Seq<Step<K, V>>) -> Set<K::V> {
    Set::new(|k: K::V| exists|i: int| #[trigger] live_at(steps, i, k))
}

/// One step more changes the live keys by its own key alone: an insertion
/// adds it, a removal takes it away.
pub proof fn lemma_live_keys_push<K: Key, V>(steps: Seq<Step<K, V>>, step: Step<K, V>)
    ensures
        live_keys(steps.push(step)) == if step is Insert {
            live_keys(steps).insert(step.key())
        } else {
            live_keys(steps).remove(step.key())
        },
{
    let more = steps.push(step);
    let last = steps.len() as int;
    let expected = if step is Insert {
        live_keys(steps).insert(step.key())
    } else {
        live_keys(steps).remove(step.key())
    };
    assert forall|k: K::V| live_keys(more).contains(k) == expected.contains(k) by {
        if live_keys(more).contains(k) {
            let i = choose|i: int| #[trigger] live_at(more, i, k);
            if i < last {
                assert forall|j: int| i < j implies !#[trigger] removes_at(steps, j, k) by {
                    if removes_at(steps, j, k) {
                        assert(removes_at(more, j, k));
                    }
                }
                assert(live_at(steps, i, k));
                if step is Remove && step.key() == k {
                    assert(removes_at(more, last, k));
                }
            }
        }
        if expected.contains(k) {
            if step is Insert && step.key() == k {
                assert(live_at(more, last, k));
            } else {
                let i = choose|i: int| #[trigger] live_at(steps, i, k);
                assert forall|j: int| i < j implies !#[trigger] removes_at(more, j, k) by {
                    if removes_at(more, j, k) {
                        if j < last {
                            assert(removes_at(steps, j, k));
                        }
                    }
                }
                assert(live_at(more, i, k));
            }
        }
    }
}

/// Length: after any run of steps on an empty table, the keys of the map are
/// the keys that were inserted and not removed afterwards, and the table
/// holds one entry for each, however often a key was inserted.
pub proof fn lemma_length<K: Key, V>(steps: Seq<Step<K, V>>)
    ensures
        chains_wf(run(empty_chains::<K, V>(), steps)),
        map_of(run(empty_chains::<K, V>(), steps)).dom() == live_keys(steps),
        live_keys(steps).finite(),
        entries_of(run(empty_chains::<K, V>(), steps)).len() == live_keys(steps).len(),
    decreases steps.len(),
{
    let start = empty_chains::<K, V>();
    if steps.len() > 0 {
        let rest = steps.drop_last();
        let step = steps.last();
        lemma_length(rest);
        lemma_applied(run(start, rest), step);
        assert(steps =~= rest.push(step));
        lemma_live_keys_push(rest, step);
    }
    lemma_entries_count(run(start, steps));
}

/// Whether every step of `steps` is an insertion, and no two are of one key.
pub open spec fn distinct_insertions<K: Key, V>(steps: Seq<Step<K, V>>) -> bool {
    &&& forall|i: int| 0 <= i < steps.len() ==> (#[trigger] steps[i]) is Insert
    &&& forall|i: int, j: int|
        0 <= i < j < steps.len() ==> (#[trigger] steps[i]).key() != (#[trigger] steps[j]).key()
}

/// Growth is transparent: during a run of insertions of distinct keys, every
/// key inserted so far is found with its value after every step, however
/// often the table has grown on the way.
pub proof fn lemma_growth_transparent<K: Key, V>(
    chains: Seq<Seq<(K, V)>>,
    steps: Seq<Step<K, V>>,
    done: int,
    i: int,
)
    requires
        chains_wf(chains),
        distinct_insertions(steps),
        0 <= i < done <= steps.len(),
    ensures
        steps[i] matches Step::Insert { key, value } && lookup(
            map_of(run(chains, steps.take(done))),
            key@,
        ) == Some(value),
{
    let before = steps.take(i);
    let later = steps.subrange(i + 1, done);
    match steps[i] {
        Step::Insert { key, value } => {
            assert(steps.take(done) =~= before.push(steps[i]) + later);
            lemma_run_split(chains, before.push(steps[i]), later);
            assert(before.push(steps[i]).drop_last() =~= before);
            lemma_run_wf(chains, before);
            assert forall|j: int| 0 <= j < later.len() implies (#[trigger] later[j]).key()
                != key@ by {
                assert(later[j] == steps[i + 1 + j]);
            }
            lemma_round_trip(run(chains, before), key, value, later);
        },
        Step::Remove { key } => {},
    }
}

/// The load stays bounded: a table built from the empty one by any run of
/// steps holds at most one entry more than three for every four buckets.
pub proof fn lemma_load_bounded<K: Key, V>(steps: Seq<Step<K, V>>)
    ensures
        4 * (entries_of(run(empty_chains::<K, V>(), steps)).len() - 1) <= 3 * run(
            empty_chains::<K, V>(),
            steps,
        ).len(),
    decreases steps.len(),
{
    let start = empty_chains::<K, V>();
    if steps.len() == 0 {
        lemma_entries_before_ends(start);
    } else {
        let before = run(start, steps.drop_last());
        lemma_load_bounded(steps.drop_last());
        lemma_run_wf(start, steps.drop_last());
        match steps.last() {
            Step::Insert { key, value } => {
                lemma_grown_len(before);
                lemma_inserted(before, key, value);
                if before.len() == 0 {
                    lemma_entries_before_ends(before);
                }
            },
            Step::Remove { key } => {
                lemma_removed(before, key@);
                lemma_removed_count(before, key@);
            },
        }
    }
}

} // verus!
