//! Identifiers and the positions at which they stand.

use std::collections::HashMap;
use vstd::prelude::*;

use crate::topology::swap_removed;

verus! {

broadcast use vstd::std_specs::hash::group_hash_axioms;

/// The map holds, for each of `ids`, the position at which it stands, and
/// nothing else.
pub open spec fn indexes(map: Map<u128, usize>, ids: Seq<u128>) -> bool {
    &&& forall|i: int| 0 <= i < ids.len() ==> map.contains_key(#[trigger] ids[i]) && map[ids[i]] == i
    &&& forall|k: u128| #[trigger] map.contains_key(k) ==> map[k] < ids.len() && ids[map[k] as int] == k
}

/// What is looked up is found exactly where it is among the identifiers.
pub proof fn lemma_indexes_lookup(map: Map<u128, usize>, ids: Seq<u128>, k: u128)
    requires
        indexes(map, ids),
    ensures
        map.contains_key(k) <==> ids.contains(k),
        map.contains_key(k) ==> map[k] < ids.len() && ids[map[k] as int] == k,
        ids.no_duplicates(),
{
    if ids.contains(k) {
        let j = choose|j: int| 0 <= j < ids.len() && ids[j] == k;
        assert(map.contains_key(ids[j]));
    }
    assert forall|i: int, j: int| 0 <= i < ids.len() && 0 <= j < ids.len() && i != j implies ids[i]
        != ids[j] by {
        assert(map[ids[i]] == i);
        assert(map[ids[j]] == j);
    }
}

/// A new identifier stands at the end.
pub proof fn lemma_indexes_push(map: Map<u128, usize>, ids: Seq<u128>, k: u128)
    requires
        indexes(map, ids),
        !ids.contains(k),
        ids.len() <= usize::MAX,
    ensures
        indexes(map.insert(k, ids.len() as usize), ids.push(k)),
{
    let more = ids.push(k);
    let m = map.insert(k, ids.len() as usize);
    assert forall|i: int| 0 <= i < more.len() implies m.contains_key(#[trigger] more[i]) && m[more[i]]
        == i by {
        if i < ids.len() {
            assert(more[i] == ids[i]);
            assert(map.contains_key(ids[i]));
        }
    }
    assert forall|q: u128| #[trigger] m.contains_key(q) implies m[q] < more.len() && more[m[q] as int]
        == q by {
        if q != k {
            assert(map.contains_key(q));
            assert(more[map[q] as int] == ids[map[q] as int]);
        }
    }
}

/// The map after the identifier at `i` left and the last took its place.
pub open spec fn moved(map: Map<u128, usize>, ids: Seq<u128>, i: int) -> Map<u128, usize> {
    if i == ids.len() - 1 {
        map.remove(ids[i])
    } else {
        map.remove(ids[i]).insert(ids.last(), i as usize)
    }
}

/// When an identifier leaves and the last takes its place, the map follows.
pub proof fn lemma_indexes_swap_remove(map: Map<u128, usize>, ids: Seq<u128>, i: int)
    requires
        indexes(map, ids),
        0 <= i < ids.len(),
    ensures
        indexes(moved(map, ids, i), swap_removed(ids, i)),
{
    lemma_indexes_lookup(map, ids, ids[i]);
    let less = swap_removed(ids, i);
    let m = moved(map, ids, i);
    let last = ids.len() - 1;
    assert forall|j: int| 0 <= j < less.len() implies m.contains_key(#[trigger] less[j]) && m[less[j]]
        == j by {
        if j == i {
            assert(less[j] == ids[last]);
            assert(map.contains_key(ids[last]));
        } else {
            assert(less[j] == ids[j]);
            assert(map.contains_key(ids[j]));
            assert(ids[j] != ids[i]);
            assert(ids[j] != ids[last]);
        }
    }
    assert forall|q: u128| #[trigger] m.contains_key(q) implies m[q] < less.len() && less[m[q] as int]
        == q by {
        assert(map.contains_key(q));
        if i != last && q == ids[last] {
            assert(less[i] == ids[last]);
        } else {
            assert(q != ids[i]);
            let j = map[q] as int;
            assert(ids[j] == q);
            assert(j != i);
            if j == last {
                assert(i == last);
            }
            assert(less[j] == ids[j]);
        }
    }
}

/// Whether the map holds the identifier, and where it stands.
pub fn lookup(map: &HashMap<u128, usize>, k: u128) -> (r: Option<usize>)
    ensures
        r == if map@.contains_key(k) {
            Some(map@[k])
        } else {
            None
        },
{
    match map.get(&k) {
        Some(i) => Some(*i),
        None => None,
    }
}

} // verus!
