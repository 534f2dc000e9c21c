//! Components on their way into a world: each with its id, and the order
//! in which an archetype takes them.
use vstd::prelude::*;
use crate::matching::is_schema;
use crate::ComponentId;

verus! {

/// No id occurs twice in `ids`.
pub open spec fn distinct_ids(ids: Seq<ComponentId>) -> bool {
    forall|i: int, j: int| 0 <= i < j < ids.len() ==> ids[i] != ids[j]
}

/// The ids of components that are on their way into columns.
pub open spec fn pair_ids<T>(pairs: Seq<(Option<T>, ComponentId)>) -> Seq<ComponentId> {
    Seq::new(pairs.len(), |i: int| pairs[i].1)
}

/// Every one of `pairs` still holds its component.
pub open spec fn all_held<T>(pairs: Seq<(Option<T>, ComponentId)>) -> bool {
    forall|i: int| 0 <= i < pairs.len() ==> (#[trigger] pairs[i]).0 is Some
}

/// The position in a sequence from which the entry at position `k` comes
/// once the entry at `from` has moved down to `to`.
pub open spec fn move_source(from: int, to: int, k: int) -> int {
    if k < to {
        k
    } else if k == to {
        from
    } else if k <= from {
        k - 1
    } else {
        k
    }
}

/// Moving the entry at `from` down to `to` rearranges the entries as
/// `move_source` says.
pub proof fn lemma_move<A>(v: Seq<A>, from: int, to: int)
    requires
        0 <= to <= from < v.len(),
    ensures
        v.remove(from).insert(to, v[from]).len() == v.len(),
        forall|k: int|
            0 <= k < v.len() ==> #[trigger] v.remove(from).insert(to, v[from])[k] == v[move_source(
                from,
                to,
                k,
            )],
{
}

/// Sorts the components by their ids.
pub fn sort_components<T>(pairs: &mut Vec<(Option<T>, ComponentId)>)
    requires
        distinct_ids(pair_ids(old(pairs)@)),
    ensures
        final(pairs)@.len() == old(pairs)@.len(),
        is_schema(pair_ids(final(pairs)@)),
        forall|k: int| 0 <= k < old(pairs)@.len() ==> old(pairs)@.contains(#[trigger] final(pairs)@[k]),
        forall|k: int| 0 <= k < old(pairs)@.len() ==> final(pairs)@.contains(#[trigger] old(pairs)@[k]),
{
    let mut i: usize = 0;
    while i < pairs.len()
        invariant
            i <= pairs@.len(),
            pairs@.len() == old(pairs)@.len(),
            distinct_ids(pair_ids(pairs@)),
            forall|k: int| 0 <= k < pairs@.len() ==> old(pairs)@.contains(#[trigger] pairs@[k]),
            forall|k: int| 0 <= k < pairs@.len() ==> pairs@.contains(#[trigger] old(pairs)@[k]),
            forall|k: int, l: int| 0 <= k < l < i ==> pairs@[k].1.id < pairs@[l].1.id,
        decreases pairs@.len() - i,
    {
        let mut j: usize = i;
        while j > 0 && pairs[j - 1].1.id > pairs[i].1.id
            invariant
                j <= i < pairs@.len(),
                forall|k: int| j <= k < i ==> pairs@[k].1.id > pairs@[i as int].1.id,
            decreases j,
        {
            j -= 1;
        }
        let ghost before = pairs@;
        proof {
            if j > 0 {
                assert(pair_ids(before)[j - 1] != pair_ids(before)[i as int]);
                assert(before[j - 1].1.id != before[i as int].1.id);
            }
        }
        if j < i {
            let moved = pairs.remove(i);
            pairs.insert(j, moved);
        }
        proof {
            if j < i {
                lemma_move(before, i as int, j as int);
            }
            let source = |k: int| if j < i { move_source(i as int, j as int, k) } else { k };
            assert forall|k: int| 0 <= k < pairs@.len() implies #[trigger] pairs@[k] == before[source(k)]
                && 0 <= source(k) < before.len() by {}
            assert forall|k: int, l: int| 0 <= k < l < pairs@.len() implies pair_ids(pairs@)[k]
                != pair_ids(pairs@)[l] by {
                assert(pairs@[k] == before[source(k)]);
                assert(pairs@[l] == before[source(l)]);
                if source(k) < source(l) {
                    assert(pair_ids(before)[source(k)] != pair_ids(before)[source(l)]);
                } else {
                    assert(pair_ids(before)[source(l)] != pair_ids(before)[source(k)]);
                }
            }
            assert forall|k: int| 0 <= k < pairs@.len() implies old(pairs)@.contains(
                #[trigger] pairs@[k],
            ) by {
                assert(pairs@[k] == before[source(k)]);
                assert(old(pairs)@.contains(before[source(k)]));
            }
            assert forall|k: int| 0 <= k < pairs@.len() implies pairs@.contains(
                #[trigger] old(pairs)@[k],
            ) by {
                assert(before.contains(old(pairs)@[k]));
                let m = before.index_of(old(pairs)@[k]);
                assert(0 <= m < before.len() && before[m] == old(pairs)@[k]);
                let target = if j < i {
                    if m < j {
                        m
                    } else if m == i {
                        j as int
                    } else if m < i {
                        m + 1
                    } else {
                        m
                    }
                } else {
                    m
                };
                assert(pairs@[target] == before[source(target)]);
                assert(source(target) == m);
            }
            assert forall|k: int, l: int| 0 <= k < l < i + 1 implies pairs@[k].1.id < pairs@[l].1.id by {
                assert(pairs@[k] == before[source(k)]);
                assert(pairs@[l] == before[source(l)]);
                if l == j && j > 0 {
                    if k < j - 1 {
                        assert(before[k].1.id < before[j - 1].1.id);
                    }
                }
            }
        }
        i += 1;
    }
    proof {
        assert forall|k: int, l: int| 0 <= k < l < pair_ids(pairs@).len() implies pair_ids(pairs@)[k].id
            < pair_ids(pairs@)[l].id by {
            assert(pairs@[k].1.id < pairs@[l].1.id);
        }
    }
}

} // verus!
