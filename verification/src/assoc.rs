//! Association lists viewed as maps.  Entries are folded left to right, so a
//! later entry for the same key wins, as an insert into a map does.

use vstd::prelude::*;

verus! {

/// The map an association list stands for; a later entry for a key wins.
pub open spec fn assoc_map<K, V>(entries: Seq<(K, V)>) -> Map<K, V>
    decreases entries.len(),
{
    if entries.len() == 0 {
        Map::empty()
    } else {
        assoc_map(entries.drop_last()).insert(entries.last().0, entries.last().1)
    }
}

/// Entries at or after `i` that all miss `k` leave the map at `k` to the
/// entries before `i`.
pub proof fn lemma_assoc_map_skip<K, V>(entries: Seq<(K, V)>, i: int, k: K)
    requires
        0 <= i <= entries.len(),
        forall|j: int| i <= j < entries.len() ==> (#[trigger] entries[j]).0 != k,
    ensures
        assoc_map(entries).dom().contains(k) == assoc_map(entries.take(i)).dom().contains(k),
        assoc_map(entries).dom().contains(k) ==> assoc_map(entries)[k] == assoc_map(
            entries.take(i),
        )[k],
    decreases entries.len() - i,
{
    if i == entries.len() {
        assert(entries.take(i) =~= entries);
    } else {
        lemma_assoc_map_skip(entries, i + 1, k);
        let t = entries.take(i + 1);
        assert(t.drop_last() =~= entries.take(i));
        assert(assoc_map(t) == assoc_map(entries.take(i)).insert(t.last().0, t.last().1));
        assert(t.last() == entries[i]);
    }
}

/// If no later entry repeats `entries[i]`'s key, that entry decides the key.
pub proof fn lemma_assoc_map_found<K, V>(entries: Seq<(K, V)>, i: int)
    requires
        0 <= i < entries.len(),
        forall|j: int| i < j < entries.len() ==> (#[trigger] entries[j]).0 != entries[i].0,
    ensures
        assoc_map(entries).dom().contains(entries[i].0),
        assoc_map(entries)[entries[i].0] == entries[i].1,
{
    let k = entries[i].0;
    lemma_assoc_map_skip(entries, i + 1, k);
    let t = entries.take(i + 1);
    assert(t.drop_last() =~= entries.take(i));
    assert(t.last() == entries[i]);
}

/// The map's domain is exactly the keys of the list.
pub proof fn lemma_assoc_map_dom<K, V>(entries: Seq<(K, V)>)
    ensures
        forall|j: int|
            0 <= j < entries.len() ==> assoc_map(entries).dom().contains(
                (#[trigger] entries[j]).0,
            ),
        forall|k: K|
            #[trigger] assoc_map(entries).dom().contains(k) ==> exists|j: int|
                0 <= j < entries.len() && (#[trigger] entries[j]).0 == k,
    decreases entries.len(),
{
    if entries.len() > 0 {
        lemma_assoc_map_dom(entries.drop_last());
        assert forall|j: int| 0 <= j < entries.len() implies assoc_map(entries).dom().contains(
            (#[trigger] entries[j]).0,
        ) by {
            if j < entries.len() - 1 {
                assert(entries.drop_last()[j] == entries[j]);
            } else {
                assert(entries[j] == entries.last());
            }
        }
        assert forall|k: K| #[trigger] assoc_map(entries).dom().contains(k) implies exists|j: int|
            0 <= j < entries.len() && (#[trigger] entries[j]).0 == k by {
            if k == entries.last().0 {
                assert(entries[entries.len() - 1].0 == k);
            } else {
                assert(assoc_map(entries.drop_last()).dom().contains(k));
                let j = choose|j: int|
                    0 <= j < entries.drop_last().len() && (#[trigger] entries.drop_last()[j]).0
                        == k;
                assert(entries[j].0 == k);
            }
        }
    }
}

} // verus!
