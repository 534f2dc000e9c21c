//! Moving an entity between archetypes: adding components to it and
//! removing components from it.
use vstd::prelude::*;
use crate::matching::{column_in, is_schema, lemma_column_in, lemma_schema_position};
use crate::archetype::{swap_removed, Archetype};
use crate::bundle::{all_held, distinct_ids, pair_ids, sort_components};
use crate::world::{kept, others_kept, row_after_removal, slots_grow, World};
use crate::{ComponentBundleTrait, ComponentId, ECSError, Entity, EntityLocation};

verus! {

/// Writes to `out` the ids of the schema of `archetype` together with the
/// ids of `added`, in ascending order. No id of `added` may be in the schema.
pub fn merged_ids<T>(
    archetype: &Archetype<T>,
    added: &Vec<(Option<T>, ComponentId)>,
    out: &mut Vec<ComponentId>,
)
    requires
        archetype.wf_schema(),
        is_schema(pair_ids(added@)),
        forall|k: int| 0 <= k < added@.len() ==> !archetype.schema().contains((#[trigger] added@[k]).1),
    ensures
        is_schema(final(out)@),
        final(out)@.len() == archetype.schema().len() + added@.len(),
        forall|id: ComponentId|
            #[trigger] final(out)@.contains(id) <==> archetype.schema().contains(id)
                || pair_ids(added@).contains(
                id,
            ),
{
    out.clear();
    let ghost schema = archetype.schema();
    let ghost ids = pair_ids(added@);
    let count = archetype.channel_count();
    let mut i: usize = 0;
    let mut j: usize = 0;
    while i < count || j < added.len()
        invariant
            archetype.wf_schema(),
            schema == archetype.schema(),
            ids == pair_ids(added@),
            is_schema(ids),
            count == schema.len(),
            i <= count,
            j <= added@.len(),
            out@.len() == i + j,
            is_schema(out@),
            forall|k: int| 0 <= k < added@.len() ==> !schema.contains((#[trigger] added@[k]).1),
            forall|k: int, l: int| 0 <= k < out@.len() && i <= l < schema.len() ==> out@[k].id < schema[l].id,
            forall|k: int, l: int| 0 <= k < out@.len() && j <= l < ids.len() ==> out@[k].id < ids[l].id,
            forall|k: int| 0 <= k < i ==> out@.contains(#[trigger] schema[k]),
            forall|k: int| 0 <= k < j ==> out@.contains(#[trigger] ids[k]),
            forall|k: int|
                0 <= k < out@.len() ==> (exists|l: int| 0 <= l < i && schema[l] == #[trigger] out@[k]) || (
                exists|l: int| 0 <= l < j && ids[l] == out@[k]),
        decreases (count - i) + (added@.len() - j),
    {
        let ghost before = out@;
        let take_left: bool = if i < count && j < added.len() {
            archetype.channel_id(i).id < added[j].1.id
        } else {
            i < count
        };
        let ghost taken = if take_left { schema[i as int] } else { ids[j as int] };
        proof {
            if i < count && j < added@.len() {
                assert(ids[j as int] == added@[j as int].1);
                assert(!schema.contains(added@[j as int].1));
                assert(schema[i as int] != ids[j as int]);
                assert(schema[i as int].id != ids[j as int].id);
            }
        }
        if take_left {
            out.push(archetype.channel_id(i));
            i += 1;
        } else {
            out.push(added[j].1);
            j += 1;
        }
        proof {
            assert(out@ == before.push(taken));
            assert forall|k: int, l: int| 0 <= k < l < out@.len() implies out@[k].id < out@[l].id by {
                if l < before.len() {
                    assert(before[k].id < before[l].id);
                }
            }
            assert forall|k: int| 0 <= k < i implies out@.contains(#[trigger] schema[k]) by {
                if take_left && k == i - 1 {
                    assert(out@[before.len() as int] == schema[k]);
                } else {
                    assert(before.contains(schema[k]));
                    let m = before.index_of(schema[k]);
                    assert(out@[m] == schema[k]);
                }
            }
            assert forall|k: int| 0 <= k < j implies out@.contains(#[trigger] ids[k]) by {
                if !take_left && k == j - 1 {
                    assert(out@[before.len() as int] == ids[k]);
                } else {
                    assert(before.contains(ids[k]));
                    let m = before.index_of(ids[k]);
                    assert(out@[m] == ids[k]);
                }
            }
            assert forall|k: int| 0 <= k < out@.len() implies (exists|l: int|
                0 <= l < i && schema[l] == #[trigger] out@[k]) || (exists|l: int|
                0 <= l < j && ids[l] == out@[k]) by {
                if k < before.len() {
                    assert(out@[k] == before[k]);
                    if exists|l: int| 0 <= l < i && schema[l] == before[k] {
                        let l = choose|l: int| 0 <= l < i && schema[l] == before[k];
                        assert(0 <= l < i && schema[l] == out@[k]);
                    } else {
                        let l = choose|l: int| 0 <= l < j && ids[l] == before[k];
                        assert(0 <= l < j && ids[l] == out@[k]);
                    }
                } else {
                    if take_left {
                        assert(0 <= i - 1 < i && schema[i - 1] == out@[k]);
                    } else {
                        assert(0 <= j - 1 < j && ids[j - 1] == out@[k]);
                    }
                }
            }
        }
    }
    proof {
        assert forall|id: ComponentId|
            #[trigger] out@.contains(id) <==> schema.contains(id) || ids.contains(id) by {
            if out@.contains(id) {
                let k = out@.index_of(id);
                assert(out@[k] == id);
            }
            if schema.contains(id) {
                let k = schema.index_of(id);
                assert(schema[k] == id);
            }
            if ids.contains(id) {
                let k = ids.index_of(id);
                assert(ids[k] == id);
            }
        }
    }
}

/// Whether `id` is one of `ids`.
pub fn contains_id(ids: &[ComponentId], id: ComponentId) -> (found: bool)
    ensures
        found == ids@.contains(id),
{
    let mut k: usize = 0;
    while k < ids.len()
        invariant
            k <= ids@.len(),
            forall|l: int| 0 <= l < k ==> ids@[l] != id,
        decreases ids@.len() - k,
    {
        if ids[k].id == id.id {
            assert(ids@[k as int] == id);
            return true;
        }
        k += 1;
    }
    proof {
        if ids@.contains(id) {
            let l = ids@.index_of(id);
            assert(ids@[l] == id);
        }
    }
    false
}

/// Writes to `out` the ids of the schema of `archetype` that are not among
/// `removed`, in ascending order.
pub fn remaining_ids<T>(archetype: &Archetype<T>, removed: &[ComponentId], out: &mut Vec<ComponentId>)
    requires
        archetype.wf_schema(),
    ensures
        is_schema(final(out)@),
        forall|id: ComponentId|
            #[trigger] final(out)@.contains(id) <==> archetype.schema().contains(id)
                && !removed@.contains(id),
{
    out.clear();
    let ghost schema = archetype.schema();
    let count = archetype.channel_count();
    let mut i: usize = 0;
    while i < count
        invariant
            archetype.wf_schema(),
            schema == archetype.schema(),
            count == schema.len(),
            i <= count,
            is_schema(out@),
            forall|k: int, l: int| 0 <= k < out@.len() && i <= l < schema.len() ==> out@[k].id < schema[l].id,
            forall|k: int| 0 <= k < i && !removed@.contains(schema[k])
                ==> out@.contains(#[trigger] schema[k]),
            forall|k: int|
                0 <= k < out@.len() ==> !removed@.contains(#[trigger] out@[k]) && exists|l: int|
                    0 <= l < i && schema[l] == out@[k],
        decreases count - i,
    {
        let ghost before = out@;
        let id = archetype.channel_id(i);
        let keep = !contains_id(removed, id);
        if keep {
            out.push(id);
        }
        i += 1;
        proof {
            assert forall|k: int, l: int| 0 <= k < l < out@.len() implies out@[k].id < out@[l].id by {
                if l < before.len() {
                    assert(before[k].id < before[l].id);
                }
            }
            assert forall|k: int| 0 <= k < i && !removed@.contains(schema[k]) implies out@.contains(
                #[trigger] schema[k],
            ) by {
                if k == i - 1 {
                    assert(out@[before.len() as int] == schema[k]);
                } else {
                    assert(before.contains(schema[k]));
                    let m = before.index_of(schema[k]);
                    assert(out@[m] == schema[k]);
                }
            }
            assert forall|k: int| 0 <= k < out@.len() implies !removed@.contains(#[trigger] out@[k])
                && exists|l: int| 0 <= l < i && schema[l] == out@[k] by {
                if k < before.len() {
                    assert(out@[k] == before[k]);
                    let l = choose|l: int| 0 <= l < i - 1 && schema[l] == before[k];
                    assert(0 <= l < i && schema[l] == out@[k]);
                } else {
                    assert(0 <= i - 1 < i && schema[i - 1] == out@[k]);
                }
            }
        }
    }
    proof {
        assert forall|id: ComponentId|
            #[trigger] out@.contains(id) <==> schema.contains(id) && !removed@.contains(id) by {
            if out@.contains(id) {
                let k = out@.index_of(id);
                assert(out@[k] == id);
            }
            if schema.contains(id) {
                let k = schema.index_of(id);
                assert(schema[k] == id);
            }
        }
    }
}

/// How a world changes when the living entity `entity` moves to the
/// archetype of another schema: its row is swap-removed from its archetype
/// and becomes the last row of the other one, which is created at the end
/// of the archetypes if there was none of that schema. Every other entity
/// keeps its components; the entity of the last row of the archetype that
/// is left moves to the row that became free.
pub open spec fn rehomed<T>(before: World<T>, after: World<T>, entity: Entity) -> bool {
    let from = before.slots()[entity.index as int].1;
    let to = after.slots()[entity.index as int].1;
    let a = from.storage_index as int;
    let row = from.index_within_storage as int;
    let b = to.storage_index as int;
    &&& after.is_alive(entity)
    &&& a != b
    &&& b < after.tables().len()
    &&& after.tables().len() == after.schemas().len()
    &&& if before.has_schema(after.schema_of(entity)) {
        &&& b < before.tables().len()
        &&& after.schemas() == before.schemas()
        &&& after.tables()[b].rows() == before.tables()[b].rows().push(entity.index)
    } else {
        &&& b == before.tables().len()
        &&& after.schemas() == before.schemas().push(after.schema_of(entity))
        &&& after.tables()[b].rows() == seq![entity.index]
    }
    &&& to.index_within_storage == after.tables()[b].rows().len() - 1
    &&& after.tables()[a].rows() == swap_removed(before.tables()[a].rows(), row)
    &&& forall|c: int|
        0 <= c < before.tables().len() && c != a && c != b ==> #[trigger] after.tables()[c]
            == before.tables()[c]
    &&& after.slots().len() == before.slots().len()
    &&& after.free_slots() == before.free_slots()
    &&& slots_grow(before, after)
    &&& after.slots()[entity.index as int].0 == entity.generation
    &&& others_kept(before, after, entity)
}

/// The slots after the entity of slot `index` has moved from the row
/// `row` of the archetype `a` to the end of the archetype `b`.
pub open spec fn rehomed_slots<T>(before: World<T>, index: usize, b: int) -> Seq<
    (u32, EntityLocation),
> {
    let from = before.slots()[index as int].1;
    let a = from.storage_index as int;
    let last = before.tables()[a].rows().last();
    before.slots().update(
        last as int,
        (
            before.slots()[last as int].0,
            (EntityLocation {
                storage_index: a as usize,
                index_within_storage: from.index_within_storage,
            }),
        ),
    ).update(
        index as int,
        (
            before.slots()[index as int].0,
            (EntityLocation {
                storage_index: b as usize,
                index_within_storage: before.tables()[b].rows().len() as usize,
            }),
        ),
    )
}

/// Moving the row of a living entity to the end of another archetype keeps
/// the world well-formed and the other entities as they were.
proof fn lemma_rehome_keeps_wf<T>(before: World<T>, after: World<T>, entity: Entity, b: int)
    requires
        before.wf(),
        before.is_alive(entity),
        0 <= b < before.tables().len(),
        b != before.slots()[entity.index as int].1.storage_index,
        after.archetype_lookup == before.archetype_lookup,
        after.entity_manager.wf(),
        after.tables().len() == before.tables().len(),
        after.free_slots() == before.free_slots(),
        after.slots() == rehomed_slots(before, entity.index, b),
        ({
            let a = before.slots()[entity.index as int].1.storage_index as int;
            let row = before.slots()[entity.index as int].1.index_within_storage as int;
            &&& forall|c: int|
                0 <= c < before.tables().len() && c != a && c != b ==> #[trigger] after.tables()[c]
                    == before.tables()[c]
            &&& after.tables()[a].schema() == before.tables()[a].schema()
            &&& after.tables()[a].rows() == swap_removed(before.tables()[a].rows(), row)
            &&& forall|c: int|
                0 <= c < before.tables()[a].schema().len() ==> #[trigger] after.tables()[a].column(c)
                    == swap_removed(before.tables()[a].column(c), row)
            &&& after.tables()[b].schema() == before.tables()[b].schema()
            &&& after.tables()[b].rows() == before.tables()[b].rows().push(entity.index)
            &&& forall|c: int|
                0 <= c < before.tables()[b].schema().len() ==> (#[trigger] after.tables()[b].column(
                    c,
                )).len() == before.tables()[b].rows().len() + 1 && after.tables()[b].column(c).drop_last()
                    == before.tables()[b].column(c)
        }),
    ensures
        after.wf(),
        after.is_alive(entity),
        after.slots()[entity.index as int] == (
            entity.generation,
            (EntityLocation {
                storage_index: b as usize,
                index_within_storage: before.tables()[b].rows().len() as usize,
            }),
        ),
        slots_grow(before, after),
        others_kept(before, after, entity),
{
    before.lemma_bounded();
    after.lemma_bounded();
    before.lemma_layout();
    let from = before.slots()[entity.index as int].1;
    let a = from.storage_index as int;
    let row = from.index_within_storage as int;
    let old_rows = before.tables()[a].rows();
    let new_rows = after.tables()[a].rows();
    let last = old_rows.last();
    let new_row = before.tables()[b].rows().len() as int;
    assert(old_rows[old_rows.len() - 1] == last);
    assert(old_rows[row] == entity.index);
    assert(before.slots()[last as int].1 == EntityLocation {
        storage_index: a as usize,
        index_within_storage: (old_rows.len() - 1) as usize,
    });
    assert(before.slots()[entity.index as int].0 == entity.generation);
    // What each slot holds afterwards.
    assert(after.slots()[entity.index as int].1 == EntityLocation {
        storage_index: b as usize,
        index_within_storage: new_row as usize,
    });
    assert(last != entity.index ==> after.slots()[last as int].1 == EntityLocation {
        storage_index: a as usize,
        index_within_storage: row as usize,
    });
    assert forall|index: int|
        0 <= index < before.slots().len() && index != last && index != entity.index
            implies after.slots()[index]
        == before.slots()[index] by {}
    assert(after.tables()[b].rows()[new_row] == entity.index);
    assert forall|c: int| 0 <= c < after.tables().len() implies (#[trigger] after.tables()[c]).wf()
        && after.tables()[c].schema() == after.schemas()[c] by {
        if c == a {
            assert forall|i: int| 0 <= i < after.tables()[a].schema().len() implies (
            #[trigger] after.tables()[a].column(i)).len() == after.tables()[a].rows().len() by {
                assert(before.tables()[a].column(i).len() == old_rows.len());
            }
        } else if c == b {
        } else {
            assert(after.tables()[c] == before.tables()[c]);
        }
    }
    assert forall|c: int, r: int|
        0 <= c < after.tables().len() && 0 <= r < after.tables()[c].rows().len() implies {
        let index = #[trigger] after.tables()[c].rows()[r];
        &&& index < after.slots().len()
        &&& after.slots()[index as int].1 == (EntityLocation {
            storage_index: c as usize,
            index_within_storage: r as usize,
        })
    } by {
        let index = after.tables()[c].rows()[r];
        if c == a {
            if r == row {
                assert(index == last);
                assert(last != entity.index);
            } else {
                assert(index == old_rows[r]);
                assert(before.slots()[index as int].1 == EntityLocation {
                    storage_index: a as usize,
                    index_within_storage: r as usize,
                });
            }
        } else if c == b {
            if r < new_row {
                assert(index == before.tables()[b].rows()[r]);
                assert(before.slots()[index as int].1 == EntityLocation {
                    storage_index: b as usize,
                    index_within_storage: r as usize,
                });
            }
        } else {
            assert(after.tables()[c] == before.tables()[c]);
            assert(index == before.tables()[c].rows()[r]);
            assert(before.slots()[index as int].1 == EntityLocation {
                storage_index: c as usize,
                index_within_storage: r as usize,
            });
        }
    }
    assert forall|index: usize| #[trigger] after.occupied(index) implies before.occupied(index) by {
        let place = after.slots()[index as int].1;
        let c = place.storage_index as int;
        let r = place.index_within_storage as int;
        assert(after.tables()[c].rows()[r] == index);
        if index == entity.index {
        } else if c == a {
            if r == row {
                assert(index == last);
            } else {
                assert(old_rows[r] == index);
            }
        } else if c == b {
            assert(r != new_row);
            assert(before.tables()[b].rows()[r] == index);
        } else {
            assert(after.tables()[c] == before.tables()[c]);
            assert(before.tables()[c].rows()[r] == index);
        }
    }
    assert forall|k: int| 0 <= k < after.free_slots().len() implies {
        let index = #[trigger] after.free_slots()[k];
        &&& index < after.slots().len()
        &&& !after.occupied(index)
    } by {
        let index = after.free_slots()[k];
        assert(!before.occupied(before.free_slots()[k]));
        assert(before.occupied(last));
        assert(before.occupied(entity.index));
    }
    assert forall|k: int, l: int| 0 <= k < l < after.free_slots().len() implies after.free_slots()[k]
        != after.free_slots()[l] by {
        assert(before.free_slots()[k] != before.free_slots()[l]);
    }
    assert forall|other: Entity| #[trigger] before.is_alive(other) && other != entity implies kept(
        before,
        after,
        other,
    ) && after.slots()[other.index as int].1.index_within_storage == row_after_removal(
        before,
        entity,
        other,
    ) by {
        let place = before.slots()[other.index as int].1;
        let c = place.storage_index as int;
        let r = place.index_within_storage as int;
        assert(before.tables()[c].rows()[r] == other.index);
        assert(other.index != entity.index);
        assert(before.tables()[c].schema() == before.schemas()[c]);
        before.tables()[c].lemma_bounded();
        if c == a {
            if r == old_rows.len() - 1 {
                assert(other.index == last);
                assert(new_rows[row] == last);
            } else {
                assert(other.index != last);
                assert(new_rows[r] == other.index);
            }
            assert forall|id: ComponentId| after.component_spec(other, id) == before.component_spec(
                other,
                id,
            ) by {
                lemma_column_in(before.schemas()[a], id);
                match column_in(before.schemas()[a], id) {
                    Some(position) => {
                        assert(after.tables()[a].column(position as int) == swap_removed(
                            before.tables()[a].column(position as int),
                            row,
                        ));
                        assert(before.tables()[a].column(position as int).len() == old_rows.len());
                    },
                    None => {},
                }
            }
        } else if c == b {
            assert(other.index != last);
            assert(after.tables()[b].rows()[r] == other.index);
            assert forall|id: ComponentId| after.component_spec(other, id) == before.component_spec(
                other,
                id,
            ) by {
                lemma_column_in(before.schemas()[b], id);
                match column_in(before.schemas()[b], id) {
                    Some(position) => {
                        assert(after.tables()[b].column(position as int).drop_last()
                            == before.tables()[b].column(position as int));
                        assert(before.tables()[b].column(position as int).len() == new_row);
                        assert(after.tables()[b].column(position as int).drop_last()[r]
                            == after.tables()[b].column(position as int)[r]);
                    },
                    None => {},
                }
            }
        } else {
            assert(other.index != last);
            assert(after.tables()[c] == before.tables()[c]);
        }
    }
}

/// How a world changes when the components `bundle` are added to the
/// living entity `entity`: nothing changes where the bundle is empty;
/// otherwise the entity moves to the archetype whose schema holds the ids of
/// its old schema and those of the bundle, keeps the components it had and
/// has those of the bundle.
pub open spec fn components_added<T>(
    before: World<T>,
    after: World<T>,
    entity: Entity,
    bundle: Seq<(ComponentId, T)>,
) -> bool {
    if bundle.len() == 0 {
        &&& after.tables() == before.tables()
        &&& after.schemas() == before.schemas()
        &&& after.slots() == before.slots()
        &&& after.free_slots() == before.free_slots()
    } else {
        &&& rehomed(before, after, entity)
        &&& after.schema_of(entity).len() == before.schema_of(entity).len() + bundle.len()
        &&& forall|id: ComponentId|
            #[trigger] after.schema_of(entity).contains(id) <==> before.schema_of(entity).contains(id)
                || crate::ids_of(bundle).contains(id)
        &&& forall|id: ComponentId|
            before.schema_of(entity).contains(id) ==> after.component_spec(entity, id)
                == before.component_spec(entity, id)
        &&& forall|k: int|
            0 <= k < bundle.len() ==> after.component_spec(entity, (#[trigger] bundle[k]).0) == Some(
                bundle[k].1,
            )
    }
}

/// The position of the pair of the id `id`, if there is one.
fn find_pair<T>(pairs: &Vec<(Option<T>, ComponentId)>, id: ComponentId) -> (position: Option<usize>)
    ensures
        match position {
            Some(m) => m < pairs@.len() && pairs@[m as int].1 == id,
            None => !pair_ids(pairs@).contains(id),
        },
{
    let mut m: usize = 0;
    while m < pairs.len()
        invariant
            m <= pairs@.len(),
            forall|l: int| 0 <= l < m ==> pairs@[l].1 != id,
        decreases pairs@.len() - m,
    {
        if pairs[m].1.id == id.id {
            assert(pairs@[m as int].1 == id);
            return Some(m);
        }
        m += 1;
    }
    proof {
        if pair_ids(pairs@).contains(id) {
            let l = pair_ids(pairs@).index_of(id);
            assert(pair_ids(pairs@)[l] == id);
        }
    }
    None
}

/// The component that the last row of the column of `id` gets when a row
/// moves in from `source` together with the components `given`.
pub open spec fn arriving<T>(
    source: Archetype<T>,
    row: int,
    given: Seq<(Option<T>, ComponentId)>,
    id: ComponentId,
) -> T {
    match column_in(source.schema(), id) {
        Some(position) => source.column(position as int)[row],
        None => given[pair_ids(given).index_of(id)].0->0,
    }
}

impl<T> Archetype<T> {
    /// Completes the row that `migrate_entity_components` has begun in this
    /// archetype: every column that got no component from `source` gets the
    /// component of its id from `pairs`.
    fn complete_row(
        &mut self,
        left: &Archetype<T>,
        pairs: &mut Vec<(Option<T>, ComponentId)>,
        Ghost(base): Ghost<Archetype<T>>,
        Ghost(source): Ghost<Archetype<T>>,
        Ghost(row): Ghost<int>,
    )
        requires
            old(self).wf_schema(),
            source.wf_schema(),
            left.schema() == source.schema(),
            base.wf(),
            old(self).schema() == base.schema(),
            old(self).rows() == base.rows(),
            all_held(old(pairs)@),
            is_schema(pair_ids(old(pairs)@)),
            forall|j: int|
                0 <= j < base.schema().len() ==> source.schema().contains(#[trigger] base.schema()[j])
                    || pair_ids(old(pairs)@).contains(base.schema()[j]),
            forall|j: int|
                0 <= j < base.schema().len() ==> #[trigger] old(self).column(j) == match column_in(
                    source.schema(),
                    base.schema()[j],
                ) {
                    Some(i) => base.column(j).push(source.column(i as int)[row]),
                    None => base.column(j),
                },
        ensures
            final(self).schema() == base.schema(),
            final(self).rows() == base.rows(),
            forall|j: int|
                0 <= j < base.schema().len() ==> #[trigger] final(self).column(j) == base.column(j).push(
                    arriving(source, row, old(pairs)@, base.schema()[j]),
                ),
    {
        let ghost given = pairs@;
        let ghost begun = *self;
        let count = self.channel_count();
        let mut j: usize = 0;
        while j < count
            invariant
                j <= count,
                count == base.schema().len(),
                self.wf_schema(),
                source.wf_schema(),
                left.schema() == source.schema(),
                base.wf(),
                self.schema() == base.schema(),
                self.rows() == base.rows(),
                begun.schema() == base.schema(),
                all_held(given),
                is_schema(pair_ids(given)),
                pairs@.len() == given.len(),
                pair_ids(pairs@) == pair_ids(given),
                forall|m: int|
                    0 <= m < given.len() ==> (forall|c: int|
                        0 <= c < j ==> base.schema()[c] != (#[trigger] given[m]).1) ==> pairs@[m] == given[m],
                forall|c: int|
                    0 <= c < base.schema().len() ==> source.schema().contains(#[trigger] base.schema()[c])
                        || pair_ids(given).contains(base.schema()[c]),
                forall|c: int|
                    0 <= c < base.schema().len() ==> #[trigger] begun.column(c) == match column_in(
                        source.schema(),
                        base.schema()[c],
                    ) {
                        Some(i) => base.column(c).push(source.column(i as int)[row]),
                        None => base.column(c),
                    },
                forall|c: int|
                    0 <= c < j ==> #[trigger] self.column(c) == base.column(c).push(
                        arriving(source, row, given, base.schema()[c]),
                    ),
                forall|c: int| j <= c < count ==> #[trigger] self.column(c) == begun.column(c),
            decreases count - j,
        {
            let id = self.channel_id(j);
            let ghost before = *self;
            let ghost taken = pairs@;
            proof {
                assert(self.column(j as int) == begun.column(j as int));
                source.lemma_bounded();
                lemma_column_in(source.schema(), id);
            }
            match left.find_channel(id) {
                Some(_) => {},
                None => {
                    match find_pair(pairs, id) {
                        Some(m) => {
                            proof {
                                assert(pair_ids(given)[m as int] == id);
                                lemma_schema_position(pair_ids(given), m as int);
                                lemma_schema_position(base.schema(), j as int);
                                assert forall|c: int| 0 <= c < j implies base.schema()[c]
                                    != given[m as int].1 by {
                                    lemma_schema_position(base.schema(), c);
                                }
                                assert(pairs@[m as int] == given[m as int]);
                                assert(given[m as int].0 is Some);
                            }
                            self.push_component(j, &mut pairs[m].0);
                        },
                        None => {
                            assert(false);
                        },
                    }
                },
            }
            proof {
                assert(pair_ids(pairs@) =~= pair_ids(given));
                assert forall|c: int| 0 <= c < j + 1 implies #[trigger] self.column(c)
                    == base.column(c).push(arriving(source, row, given, base.schema()[c])) by {
                    if c < j {
                        assert(self.column(c) == before.column(c));
                    }
                }
                assert forall|c: int| j + 1 <= c < count implies #[trigger] self.column(c)
                    == begun.column(c) by {
                    assert(self.column(c) == before.column(c));
                }
                assert forall|m: int| 0 <= m < given.len() && (forall|c: int|
                    0 <= c < j + 1 ==> base.schema()[c] != (#[trigger] given[m]).1) implies pairs@[m]
                    == given[m] by {
                    assert(base.schema()[j as int] != given[m].1);
                    assert(taken[m] == given[m]);
                }
            }
            j += 1;
        }
    }
}

impl<T> World<T> {
    /// Moves the row `row` of the archetype `source` to the end of the
    /// archetype `target`, whose schema holds every id of the schema of
    /// `source` and the ids of `pairs` besides: the components of the row and
    /// those that `pairs` holds become the last row of `target`.
    fn move_row_up(
        &mut self,
        entity: Entity,
        source: usize,
        row: usize,
        target: usize,
        pairs: &mut Vec<(Option<T>, ComponentId)>,
    )
        requires
            old(self).wf(),
            old(self).is_alive(entity),
            old(self).slots()[entity.index as int].1 == (EntityLocation {
                storage_index: source,
                index_within_storage: row,
            }),
            target < old(self).tables().len(),
            target != source,
            all_held(old(pairs)@),
            is_schema(pair_ids(old(pairs)@)),
            forall|id: ComponentId|
                #[trigger] old(self).schemas()[target as int].contains(id)
                    <==> old(self).schemas()[source as int].contains(
                    id,
                ) || pair_ids(old(pairs)@).contains(id),
        ensures
            final(self).wf(),
            final(self).schemas() == old(self).schemas(),
            final(self).tables().len() == old(self).tables().len(),
            final(self).free_slots() == old(self).free_slots(),
            final(self).slots() == rehomed_slots(*old(self), entity.index, target as int),
            final(self).is_alive(entity),
            slots_grow(*old(self), *final(self)),
            final(self).tables()[source as int].rows() == swap_removed(
                old(self).tables()[source as int].rows(),
                row as int,
            ),
            final(self).tables()[target as int].rows() == old(self).tables()[target as int].rows().push(
                entity.index,
            ),
            forall|c: int|
                0 <= c < old(self).tables().len() && c != source && c != target
                    ==> #[trigger] final(self).tables()[c] == old(self).tables()[c],
            forall|j: int|
                0 <= j < old(self).schemas()[target as int].len()
                    ==> #[trigger] final(self).tables()[target as int].column(
                    j,
                ) == old(self).tables()[target as int].column(j).push(
                    arriving(
                        old(self).tables()[source as int],
                        row as int,
                        old(pairs)@,
                        old(self).schemas()[target as int][j],
                    ),
                ),
            others_kept(*old(self), *final(self), entity),
    {
        proof {
            old(self).lemma_layout();
            old(self).lemma_bounded();
        }
        let ghost origin = old(self).tables()[source as int];
        let ghost base = old(self).tables()[target as int];
        let mut moved = Archetype::new();
        std::mem::swap(&mut moved, &mut self.archetypes[source]);
        assert(moved == origin);
        assert(self.tables()[target as int] == base);
        moved.migrate_entity_components(&mut self.archetypes[target], row);
        proof {
            assert forall|j: int| 0 <= j < base.schema().len() implies origin.schema().contains(
                #[trigger] base.schema()[j],
            ) || pair_ids(pairs@).contains(base.schema()[j]) by {
                assert(base.schema().contains(base.schema()[j]));
            }
        }
        self.archetypes[target].complete_row(&moved, pairs, Ghost(base), Ghost(origin), Ghost(row as int));
        let last = moved.entity_indices()[moved.len() - 1];
        assert(last == origin.rows().last());
        self.entity_manager.update_entity_index_in_archetype(last, row);
        moved.swap_remove_entity_index(row);
        let ghost left = moved;
        std::mem::swap(&mut moved, &mut self.archetypes[source]);
        let new_row = self.archetypes[target].len();
        self.archetypes[target].push_entity_index(entity.index);
        self.entity_manager.set_entity_location(
            entity.index,
            EntityLocation { storage_index: target, index_within_storage: new_row },
        );
        proof {
            let a = source as int;
            let b = target as int;
            assert(self.tables()[a] == left);
            assert(self.slots() =~= rehomed_slots(*old(self), entity.index, b));
            assert forall|c: int| 0 <= c < origin.schema().len() implies #[trigger] self.tables()[a].column(
                c,
            ) == swap_removed(origin.column(c), row as int) by {
                assert(base.schema().contains(origin.schema()[c])) by {
                    assert(origin.schema().contains(origin.schema()[c]));
                }
            }
            assert forall|c: int| 0 <= c < base.schema().len() implies (#[trigger] self.tables()[b].column(
                c,
            )).len() == base.rows().len() + 1 && self.tables()[b].column(c).drop_last() == base.column(
                c,
            ) by {
                let value = arriving(origin, row as int, old(pairs)@, base.schema()[c]);
                assert(base.column(c).len() == base.rows().len());
                assert(base.column(c).push(value).drop_last() =~= base.column(c));
            }
            assert(self.entity_manager.wf()) by {
                assert forall|i: int| 0 <= i < self.entity_manager.free().len() implies (
                #[trigger] self.entity_manager.free()[i]) < self.entity_manager.table().len() by {
                    assert(old(self).entity_manager.free()[i] < old(self).entity_manager.table().len());
                }
            }
            lemma_rehome_keeps_wf(*old(self), *self, entity, b);
        }
    }
}

/// A world that has at most got one more archetype, without rows, holds
/// the same entities with the same components.
proof fn lemma_extended<T>(before: World<T>, mid: World<T>)
    requires
        before.wf(),
        mid.wf(),
        mid.entity_manager == before.entity_manager,
        before.tables().len() <= mid.tables().len(),
        forall|c: int| 0 <= c < before.tables().len() ==> #[trigger] mid.tables()[c] == before.tables()[c],
        forall|c: int|
            before.tables().len() <= c < mid.tables().len() ==> (#[trigger] mid.tables()[c]).rows().len()
                == 0,
    ensures
        forall|index: usize| #[trigger] mid.occupied(index) <==> before.occupied(index),
        forall|other: Entity| #[trigger] mid.is_alive(other) <==> before.is_alive(other),
        forall|other: Entity| #[trigger]
            before.is_alive(other) ==> mid.schema_of(other) == before.schema_of(other) && forall|
                id: ComponentId,
            |
                mid.component_spec(other, id) == before.component_spec(other, id),
{
    before.lemma_layout();
    mid.lemma_layout();
    assert forall|index: usize| #[trigger] mid.occupied(index) <==> before.occupied(index) by {
        if index < mid.slots().len() {
            let c = mid.slots()[index as int].1.storage_index as int;
            if c < before.tables().len() {
                assert(mid.tables()[c] == before.tables()[c]);
            } else if c < mid.tables().len() {
                assert(mid.tables()[c].rows().len() == 0);
            }
        }
    }
    assert forall|other: Entity| #[trigger] mid.is_alive(other) <==> before.is_alive(other) by {
        assert(mid.occupied(other.index) <==> before.occupied(other.index));
    }
    assert forall|other: Entity| #[trigger] before.is_alive(other) implies mid.schema_of(other)
        == before.schema_of(other) && forall|id: ComponentId|
        mid.component_spec(other, id) == before.component_spec(other, id) by {
        let c = before.slots()[other.index as int].1.storage_index as int;
        assert(mid.tables()[c] == before.tables()[c]);
        assert(mid.schemas()[c] == mid.tables()[c].schema());
        assert(before.schemas()[c] == before.tables()[c].schema());
    }
}

impl<T> World<T> {
    /// Adds the components of `components` to `entity`, which may have
    /// none of their kinds yet, and no two of which may be of the same kind.
    pub fn add_components<B: ComponentBundleTrait<T>>(&mut self, entity: Entity, components: B) -> (outcome:
        Result<(), ECSError>)
        requires
            old(self).wf(),
            distinct_ids(crate::ids_of(components.components())),
            old(self).is_alive(entity) ==> forall|k: int|
                0 <= k < components.components().len() ==> !old(self).schema_of(entity).contains(
                    (#[trigger] components.components()[k]).0,
                ),
        ensures
            final(self).wf(),
            match outcome {
                Ok(()) => old(self).location_spec(entity) is Ok && components_added(
                    *old(self),
                    *final(self),
                    entity,
                    components.components(),
                ),
                Err(error) => {
                    &&& old(self).location_spec(entity) == Err::<EntityLocation, ECSError>(error)
                    &&& final(self).schemas() == old(self).schemas()
                    &&& final(self).tables() == old(self).tables()
                    &&& final(self).slots() == old(self).slots()
                    &&& final(self).free_slots() == old(self).free_slots()
                },
            },
    {
        let location = match self.get_location(entity) {
            Ok(location) => location,
            Err(error) => {
                return Err(error);
            },
        };
        let ghost bundle = components.components();
        let mut pairs = components.get_components_and_ids();
        if pairs.len() == 0 {
            return Ok(());
        }
        let ghost given = pairs@;
        proof {
            assert(pair_ids(given) =~= crate::ids_of(bundle));
        }
        sort_components(&mut pairs);
        let ghost sorted = pairs@;
        let source = location.storage_index;
        let row = location.index_within_storage;
        let ghost old_schema = old(self).schemas()[source as int];
        proof {
            old(self).lemma_layout();
            assert(old(self).tables()[source as int].schema() == old_schema);
            assert forall|k: int| 0 <= k < sorted.len() implies (#[trigger] sorted[k]).0 is Some
                && !old_schema.contains(sorted[k].1) by {
                assert(given.contains(sorted[k]));
                let m = given.index_of(sorted[k]);
                assert(given[m] == sorted[k]);
                assert(given[m] == (Some(bundle[m].1), bundle[m].0));
            }
        }
        merged_ids(&self.archetypes[source], &pairs, &mut self.component_ids_temp);
        proof {
            old(self).lemma_wf_without_temp(self);
        }
        let target = self.find_or_create_archetype();
        let ghost mid = *self;
        proof {
            lemma_extended(*old(self), mid);
            mid.lemma_layout();
            assert(mid.tables()[source as int] == old(self).tables()[source as int]);
            assert(mid.schemas()[source as int] == old_schema);
            assert(mid.schemas()[target as int].len() == old_schema.len() + sorted.len());
            assert(target != source);
        }
        self.move_row_up(entity, source, row, target, &mut pairs);
        proof {
            let a = source as int;
            let b = target as int;
            let new_row = mid.tables()[b].rows().len() as int;
            let new_schema = mid.schemas()[b];
            mid.lemma_bounded();
            mid.tables()[b].lemma_bounded();
            assert(self.schema_of(entity) == new_schema);
            assert(mid.tables()[b].schema() == new_schema);
            assert forall|id: ComponentId|
                #[trigger] new_schema.contains(id) <==> old_schema.contains(id)
                    || crate::ids_of(bundle).contains(
                    id,
                ) by {
                if pair_ids(sorted).contains(id) {
                    let m = pair_ids(sorted).index_of(id);
                    assert(pair_ids(sorted)[m] == id);
                    assert(given.contains(sorted[m]));
                    let k = given.index_of(sorted[m]);
                    assert(pair_ids(given)[k] == id);
                }
                if pair_ids(given).contains(id) {
                    let k = pair_ids(given).index_of(id);
                    assert(pair_ids(given)[k] == id);
                    assert(sorted.contains(given[k]));
                    let m = sorted.index_of(given[k]);
                    assert(pair_ids(sorted)[m] == id);
                }
            }
            assert forall|other: Entity| #[trigger]
                old(self).is_alive(other) && other != entity implies kept(*old(self), *self, other) by {
                assert(mid.is_alive(other));
                assert(kept(mid, *self, other));
            }
            assert forall|id: ComponentId| old_schema.contains(id) implies self.component_spec(
                entity,
                id,
            ) == old(self).component_spec(entity, id) by {
                lemma_column_in(new_schema, id);
                old(self).tables()[a].lemma_bounded();
                lemma_column_in(old_schema, id);
                let j = column_in(new_schema, id)->0 as int;
                assert(self.tables()[b].column(j) == mid.tables()[b].column(j).push(
                    arriving(mid.tables()[a], row as int, sorted, new_schema[j]),
                ));
                assert(mid.tables()[b].column(j).len() == new_row);
            }
            assert forall|k: int| 0 <= k < bundle.len() implies self.component_spec(
                entity,
                (#[trigger] bundle[k]).0,
            ) == Some(bundle[k].1) by {
                let id = bundle[k].0;
                assert(pair_ids(given)[k] == id);
                assert(sorted.contains(given[k]));
                let m = sorted.index_of(given[k]);
                assert(sorted[m] == given[k]);
                assert(pair_ids(sorted)[m] == id);
                lemma_schema_position(pair_ids(sorted), m);
                assert(pair_ids(sorted).contains(id));
                lemma_column_in(new_schema, id);
                old(self).tables()[a].lemma_bounded();
                lemma_column_in(old_schema, id);
                assert(!old_schema.contains(id));
                let j = column_in(new_schema, id)->0 as int;
                assert(self.tables()[b].column(j) == mid.tables()[b].column(j).push(
                    arriving(mid.tables()[a], row as int, sorted, new_schema[j]),
                ));
                assert(mid.tables()[b].column(j).len() == new_row);
            }
            if old(self).has_schema(new_schema) {
            } else {
                assert(self.tables()[b].rows() =~= seq![entity.index]);
            }
            assert forall|c: int|
                0 <= c < old(self).tables().len() && c != a && c != b implies #[trigger] self.tables()[c]
                == old(self).tables()[c] by {
                assert(self.tables()[c] == mid.tables()[c]);
            }
        }
        Ok(())
    }
}

/// How a world changes when the components of the kinds `ids` are removed
/// from the living entity `entity`: `removed` holds them in the order of
/// `ids`. Nothing else changes where `ids` is empty; otherwise the entity
/// moves to the archetype whose schema holds the ids of its old schema but
/// those of `ids`, and keeps the components of these kinds.
pub open spec fn components_removed<T>(
    before: World<T>,
    after: World<T>,
    entity: Entity,
    ids: Seq<ComponentId>,
    removed: Seq<T>,
) -> bool {
    &&& removed.len() == ids.len()
    &&& forall|k: int|
        0 <= k < ids.len() ==> Some(#[trigger] removed[k]) == before.component_spec(entity, ids[k])
    &&& if ids.len() == 0 {
        &&& after.tables() == before.tables()
        &&& after.schemas() == before.schemas()
        &&& after.slots() == before.slots()
        &&& after.free_slots() == before.free_slots()
    } else {
        &&& rehomed(before, after, entity)
        &&& forall|id: ComponentId|
            #[trigger] after.schema_of(entity).contains(id) <==> before.schema_of(entity).contains(id)
                && !ids.contains(id)
        &&& forall|id: ComponentId|
            #[trigger] after.schema_of(entity).contains(id) ==> after.component_spec(entity, id)
                == before.component_spec(entity, id)
    }
}

/// `id` is among the first `k` of `ids`.
pub open spec fn among_first(ids: Seq<ComponentId>, k: int, id: ComponentId) -> bool {
    exists|m: int| 0 <= m < k && m < ids.len() && ids[m] == id
}

impl<T> World<T> {
    /// Moves the row `row` of the archetype `source` to the end of the
    /// archetype `target`, whose schema holds the ids of the schema of
    /// `source` but those of `component_ids`: the components of these kinds
    /// are taken out and returned in the order of `component_ids`, the others
    /// become the last row of `target`.
    fn move_row_down(
        &mut self,
        entity: Entity,
        source: usize,
        row: usize,
        target: usize,
        component_ids: &[ComponentId],
    ) -> (removed: Vec<T>)
        requires
            old(self).wf(),
            old(self).is_alive(entity),
            old(self).slots()[entity.index as int].1 == (EntityLocation {
                storage_index: source,
                index_within_storage: row,
            }),
            target < old(self).tables().len(),
            target != source,
            distinct_ids(component_ids@),
            forall|k: int|
                0 <= k < component_ids@.len() ==> old(self).schemas()[source as int].contains(
                    #[trigger] component_ids@[k],
                ),
            forall|id: ComponentId|
                #[trigger] old(self).schemas()[target as int].contains(id)
                    <==> old(self).schemas()[source as int].contains(
                    id,
                ) && !component_ids@.contains(id),
        ensures
            final(self).wf(),
            final(self).schemas() == old(self).schemas(),
            final(self).tables().len() == old(self).tables().len(),
            final(self).free_slots() == old(self).free_slots(),
            final(self).slots() == rehomed_slots(*old(self), entity.index, target as int),
            final(self).is_alive(entity),
            slots_grow(*old(self), *final(self)),
            final(self).tables()[source as int].rows() == swap_removed(
                old(self).tables()[source as int].rows(),
                row as int,
            ),
            final(self).tables()[target as int].rows() == old(self).tables()[target as int].rows().push(
                entity.index,
            ),
            forall|c: int|
                0 <= c < old(self).tables().len() && c != source && c != target
                    ==> #[trigger] final(self).tables()[c]
                    == old(self).tables()[c],
            forall|j: int|
                0 <= j < old(self).schemas()[target as int].len()
                    ==> #[trigger] final(self).tables()[target as int].column(
                    j,
                ) == old(self).tables()[target as int].column(j).push(
                    old(self).tables()[source as int].column(
                        column_in(
                            old(self).schemas()[source as int],
                            old(self).schemas()[target as int][j],
                        )->0 as int,
                    )[row as int],
                ),
            removed@.len() == component_ids@.len(),
            forall|k: int|
                0 <= k < component_ids@.len() ==> #[trigger] removed@[k]
                    == old(self).tables()[source as int].column(
                    column_in(old(self).schemas()[source as int], component_ids@[k])->0 as int,
                )[row as int],
            others_kept(*old(self), *final(self), entity),
    {
        proof {
            old(self).lemma_layout();
            old(self).lemma_bounded();
        }
        let ghost origin = old(self).tables()[source as int];
        let ghost base = old(self).tables()[target as int];
        let mut moved = Archetype::new();
        std::mem::swap(&mut moved, &mut self.archetypes[source]);
        assert(moved == origin);
        assert(self.tables()[target as int] == base);
        moved.migrate_entity_components(&mut self.archetypes[target], row);
        let ghost arrived = self.tables()[target as int];
        let mut removed: Vec<T> = Vec::new();
        let mut k: usize = 0;
        proof {
            origin.lemma_bounded();
            assert(base.schema() == old(self).schemas()[target as int]);
            assert(origin.schema() == old(self).schemas()[source as int]);
            assert forall|id: ComponentId|
                #[trigger] base.schema().contains(id) <==> origin.schema().contains(id)
                    && !component_ids@.contains(
                    id,
                ) by {
                assert(old(self).schemas()[target as int].contains(id)
                    <==> old(self).schemas()[source as int].contains(
                    id,
                ) && !component_ids@.contains(id));
            }
            assert forall|i: int| 0 <= i < origin.schema().len() implies #[trigger] moved.column(i)
                == if base.schema().contains(origin.schema()[i]) || among_first(
                component_ids@,
                0,
                origin.schema()[i],
            ) {
                swap_removed(origin.column(i), row as int)
            } else {
                origin.column(i)
            } by {}
        }
        while k < component_ids.len()
            invariant
                k <= component_ids@.len(),
                origin.wf(),
                origin.schema().len() <= usize::MAX,
                row < origin.rows().len(),
                distinct_ids(component_ids@),
                moved.schema() == origin.schema(),
                moved.rows() == origin.rows(),
                forall|m: int| 0 <= m < component_ids@.len()
                    ==> origin.schema().contains(#[trigger] component_ids@[m]),
                forall|id: ComponentId|
                    #[trigger] base.schema().contains(id) <==> origin.schema().contains(id)
                        && !component_ids@.contains(
                        id,
                    ),
                forall|i: int|
                    0 <= i < origin.schema().len() ==> #[trigger] moved.column(i)
                        == if base.schema().contains(
                        origin.schema()[i],
                    ) || among_first(component_ids@, k as int, origin.schema()[i]) {
                        swap_removed(origin.column(i), row as int)
                    } else {
                        origin.column(i)
                    },
                removed@.len() == k,
                forall|m: int|
                    0 <= m < k ==> #[trigger] removed@[m] == origin.column(
                        column_in(origin.schema(), component_ids@[m])->0 as int,
                    )[row as int],
            decreases component_ids@.len() - k,
        {
            let id = component_ids[k];
            let ghost before = moved;
            let ghost taken = removed@;
            proof {
                assert(origin.schema().contains(component_ids@[k as int]));
                lemma_column_in(origin.schema(), id);
            }
            match moved.find_channel(id) {
                Some(position) => {
                    proof {
                        assert(component_ids@.contains(id));
                        assert(!base.schema().contains(id));
                        assert(!among_first(component_ids@, k as int, id)) by {
                            if among_first(component_ids@, k as int, id) {
                                let m = choose|m: int|
                                    0 <= m < k && m < component_ids@.len() && component_ids@[m] == id;
                                assert(component_ids@[m] != component_ids@[k as int]);
                            }
                        }
                        assert(moved.column(position as int) == origin.column(position as int));
                        assert(origin.column(position as int).len() == origin.rows().len());
                    }
                    let component = moved.take_component(position, row);
                    removed.push(component);
                    proof {
                        assert forall|i: int| 0 <= i < origin.schema().len() implies #[trigger] moved.column(
                            i,
                        ) == if base.schema().contains(origin.schema()[i]) || among_first(
                            component_ids@,
                            k + 1,
                            origin.schema()[i],
                        ) {
                            swap_removed(origin.column(i), row as int)
                        } else {
                            origin.column(i)
                        } by {
                            let other = origin.schema()[i];
                            if i == position {
                                assert(among_first(component_ids@, k + 1, other)) by {
                                    assert(component_ids@[k as int] == other);
                                }
                            } else {
                                assert(moved.column(i) == before.column(i));
                                lemma_schema_position(origin.schema(), i);
                                lemma_schema_position(origin.schema(), position as int);
                                assert(other != id);
                                if among_first(component_ids@, k + 1, other) {
                                    let m = choose|m: int|
                                        0 <= m < k + 1 && m < component_ids@.len() && component_ids@[m]
                                            == other;
                                    assert(m != k);
                                    assert(among_first(component_ids@, k as int, other));
                                }
                                if among_first(component_ids@, k as int, other) {
                                    let m = choose|m: int|
                                        0 <= m < k && m < component_ids@.len() && component_ids@[m]
                                            == other;
                                    assert(0 <= m < k + 1 && m < component_ids@.len()
                                        && component_ids@[m] == other);
                                }
                            }
                        }
                        assert forall|m: int| 0 <= m < k + 1 implies #[trigger] removed@[m]
                            == origin.column(
                            column_in(origin.schema(), component_ids@[m])->0 as int,
                        )[row as int] by {
                            if m < k {
                                assert(removed@[m] == taken[m]);
                            }
                        }
                    }
                },
                None => {
                    assert(false);
                },
            }
            k += 1;
        }
        let last = moved.entity_indices()[moved.len() - 1];
        assert(last == origin.rows().last());
        self.entity_manager.update_entity_index_in_archetype(last, row);
        let ghost emptied = moved;
        moved.swap_remove_entity_index(row);
        let ghost left = moved;
        std::mem::swap(&mut moved, &mut self.archetypes[source]);
        let new_row = self.archetypes[target].len();
        self.archetypes[target].push_entity_index(entity.index);
        self.entity_manager.set_entity_location(
            entity.index,
            EntityLocation { storage_index: target, index_within_storage: new_row },
        );
        proof {
            let a = source as int;
            let b = target as int;
            assert(self.tables()[a] == left);
            assert(self.slots() =~= rehomed_slots(*old(self), entity.index, b));
            assert forall|c: int| 0 <= c < origin.schema().len() implies #[trigger] self.tables()[a].column(
                c,
            ) == swap_removed(origin.column(c), row as int) by {
                let id = origin.schema()[c];
                assert(self.tables()[a].column(c) == emptied.column(c));
                assert(origin.schema().contains(id));
                if !base.schema().contains(id) {
                    assert(component_ids@.contains(id));
                    let m = component_ids@.index_of(id);
                    assert(0 <= m < component_ids@.len() && component_ids@[m] == id);
                    assert(among_first(component_ids@, component_ids@.len() as int, id));
                }
            }
            assert forall|c: int| 0 <= c < base.schema().len() implies #[trigger] self.tables()[b].column(
                c,
            ) == base.column(c).push(
                origin.column(column_in(origin.schema(), base.schema()[c])->0 as int)[row as int],
            ) by {
                assert(self.tables()[b].column(c) == arrived.column(c));
                let id = base.schema()[c];
                assert(base.schema().contains(id));
                assert(base.schema().contains(id) <==> origin.schema().contains(id)
                    && !component_ids@.contains(id));
                assert(origin.schema().contains(id));
            }
            assert forall|c: int| 0 <= c < base.schema().len() implies (#[trigger] self.tables()[b].column(
                c,
            )).len() == base.rows().len() + 1 && self.tables()[b].column(c).drop_last() == base.column(
                c,
            ) by {
                let value = origin.column(
                    column_in(origin.schema(), base.schema()[c])->0 as int,
                )[row as int];
                assert(self.tables()[b].column(c) == base.column(c).push(value));
                assert(base.column(c).len() == base.rows().len());
                assert(base.column(c).push(value).drop_last() =~= base.column(c));
            }
            assert(self.entity_manager.wf()) by {
                assert forall|i: int| 0 <= i < self.entity_manager.free().len() implies (
                #[trigger] self.entity_manager.free()[i]) < self.entity_manager.table().len() by {
                    assert(old(self).entity_manager.free()[i] < old(self).entity_manager.table().len());
                }
            }
            lemma_rehome_keeps_wf(*old(self), *self, entity, b);
        }
        removed
    }

    /// Removes the components of the kinds `component_ids` from `entity`,
    /// which must have a component of each, and returns them in the order of
    /// `component_ids`, in which no id may occur twice.
    pub fn remove_components(&mut self, entity: Entity, component_ids: &[ComponentId]) -> (outcome:
        Result<Vec<T>, ECSError>)
        requires
            old(self).wf(),
            distinct_ids(component_ids@),
            old(self).is_alive(entity) ==> forall|k: int|
                0 <= k < component_ids@.len() ==> old(self).schema_of(entity).contains(
                    #[trigger] component_ids@[k],
                ),
        ensures
            final(self).wf(),
            match outcome {
                Ok(removed) => old(self).location_spec(entity) is Ok && components_removed(
                    *old(self),
                    *final(self),
                    entity,
                    component_ids@,
                    removed@,
                ),
                Err(error) => {
                    &&& old(self).location_spec(entity) == Err::<EntityLocation, ECSError>(error)
                    &&& final(self).schemas() == old(self).schemas()
                    &&& final(self).tables() == old(self).tables()
                    &&& final(self).slots() == old(self).slots()
                    &&& final(self).free_slots() == old(self).free_slots()
                },
            },
    {
        let location = match self.get_location(entity) {
            Ok(location) => location,
            Err(error) => {
                return Err(error);
            },
        };
        if component_ids.len() == 0 {
            return Ok(Vec::new());
        }
        let source = location.storage_index;
        let row = location.index_within_storage;
        let ghost old_schema = old(self).schemas()[source as int];
        proof {
            old(self).lemma_layout();
            assert(old(self).tables()[source as int].schema() == old_schema);
        }
        remaining_ids(&self.archetypes[source], component_ids, &mut self.component_ids_temp);
        proof {
            old(self).lemma_wf_without_temp(self);
            assert(self.archetypes@[source as int].schema() == old_schema);
            assert forall|id: ComponentId|
                #[trigger] self.component_ids_temp@.contains(id) <==> old_schema.contains(id)
                    && !component_ids@.contains(id) by {}
        }
        let target = self.find_or_create_archetype();
        let ghost mid = *self;
        proof {
            lemma_extended(*old(self), mid);
            mid.lemma_layout();
            assert(mid.tables()[source as int] == old(self).tables()[source as int]);
            assert(mid.schemas()[source as int] == old_schema);
            assert(target != source) by {
                assert(old_schema.contains(component_ids@[0]));
                assert(component_ids@.contains(component_ids@[0]));
            }
        }
        proof {
            assert forall|id: ComponentId|
                #[trigger] mid.schemas()[target as int].contains(id)
                    <==> mid.schemas()[source as int].contains(
                    id,
                ) && !component_ids@.contains(id) by {
                assert(mid.temp_ids().contains(id) <==> old_schema.contains(id)
                    && !component_ids@.contains(id));
            }
        }
        let removed = self.move_row_down(entity, source, row, target, component_ids);
        proof {
            let a = source as int;
            let b = target as int;
            let new_row = mid.tables()[b].rows().len() as int;
            let new_schema = mid.schemas()[b];
            mid.lemma_bounded();
            mid.tables()[b].lemma_bounded();
            old(self).tables()[a].lemma_bounded();
            assert(self.schema_of(entity) == new_schema);
            assert(mid.tables()[b].schema() == new_schema);
            assert forall|other: Entity| #[trigger]
                old(self).is_alive(other) && other != entity implies kept(*old(self), *self, other) by {
                assert(mid.is_alive(other));
                assert(kept(mid, *self, other));
            }
            assert forall|k: int| 0 <= k < component_ids@.len() implies Some(#[trigger] removed@[k])
                == old(self).component_spec(entity, component_ids@[k]) by {
                lemma_column_in(old_schema, component_ids@[k]);
            }
            assert forall|id: ComponentId| new_schema.contains(id) implies self.component_spec(
                entity,
                id,
            ) == old(self).component_spec(entity, id) by {
                assert(new_schema.contains(id) <==> old_schema.contains(id)
                    && !component_ids@.contains(id));
                lemma_column_in(new_schema, id);
                lemma_column_in(old_schema, id);
                let j = column_in(new_schema, id)->0 as int;
                assert(self.tables()[b].column(j) == mid.tables()[b].column(j).push(
                    mid.tables()[a].column(column_in(old_schema, new_schema[j])->0 as int)[row as int],
                ));
                assert(mid.tables()[b].column(j).len() == new_row);
            }
            if old(self).has_schema(new_schema) {
            } else {
                assert(self.tables()[b].rows() =~= seq![entity.index]);
            }
            assert forall|c: int|
                0 <= c < old(self).tables().len() && c != a && c != b implies #[trigger] self.tables()[c]
                == old(self).tables()[c] by {
                assert(self.tables()[c] == mid.tables()[c]);
            }
        }
        Ok(removed)
    }
}

} // verus!
