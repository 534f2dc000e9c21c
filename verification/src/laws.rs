//! What holds of a world across several of its operations.
use vstd::prelude::*;
use crate::archetype_lookup::Filter;
use crate::matching::{all_matches, is_schema, lemma_matches_bounded};
use crate::queries::{borrow_describes, part_describes, ArchetypeInfo};
use crate::migration::{components_added, components_removed, rehomed};
use crate::world::{despawned_from, kept, slots_grow, spawned_into, written, World};
use crate::{ids_of, ComponentId, ECSError, Entity, EntityLocation};

verus! {

/// In every archetype of a well-formed world each column has as many
/// components as the archetype has rows.
pub proof fn lemma_columns_match_rows<T>(world: World<T>, a: int, position: int)
    requires
        world.wf(),
        0 <= a < world.tables().len(),
        0 <= position < world.tables()[a].schema().len(),
    ensures
        world.tables()[a].column(position).len() == world.tables()[a].rows().len(),
{
    world.lemma_layout();
    assert(world.tables()[a].wf());
}

/// An entity that exists is found, at the location that its slot holds.
pub proof fn lemma_alive_is_found<T>(world: World<T>, entity: Entity)
    requires
        world.is_alive(entity),
    ensures
        world.location_spec(entity) == Ok::<EntityLocation, ECSError>(
            world.slots()[entity.index as int].1,
        ),
{
}

/// An entity that exists goes on existing while other entities are spawned
/// or despawned and while components are added to or removed from any
/// entity.
pub proof fn lemma_alive_until_despawned<T>(
    before: World<T>,
    after: World<T>,
    entity: Entity,
    subject: Entity,
)
    requires
        before.is_alive(entity),
        spawned_into(before, after, subject) || (subject != entity && despawned_from(
            before,
            after,
            subject,
        )) || rehomed(before, after, subject),
    ensures
        after.is_alive(entity),
        after.location_spec(entity) is Ok,
{
}

/// An entity that exists goes on existing while a component of any entity
/// is written.
pub proof fn lemma_alive_across_write<T>(
    before: World<T>,
    after: World<T>,
    entity: Entity,
    subject: Entity,
    id: ComponentId,
    value: T,
)
    requires
        before.is_alive(entity),
        written(before, after, subject, id, value),
    ensures
        after.is_alive(entity),
        after.location_spec(entity) is Ok,
        slots_grow(before, after),
{
    if subject != entity {
        assert(kept(before, after, entity));
    }
}

/// A despawned entity is not found again: once the generation of its slot
/// has moved past the handle, the handle stays stale in every later world.
pub proof fn lemma_despawned_stays_gone<T>(before: World<T>, after: World<T>, entity: Entity)
    requires
        slots_grow(before, after),
        entity.index < before.slots().len(),
        before.slots()[entity.index as int].0 > entity.generation,
    ensures
        after.location_spec(entity) == Err::<EntityLocation, ECSError>(
            ECSError::EntityNoLongerExists,
        ),
{
    assert(before.slots()[entity.index as int].0 <= after.slots()[entity.index as int].0);
}

/// Every operation on a world keeps its slots and lets no generation go
/// back.
pub proof fn lemma_operations_grow_slots<T>(
    before: World<T>,
    after: World<T>,
    subject: Entity,
)
    requires
        spawned_into(before, after, subject) || despawned_from(before, after, subject) || rehomed(
            before,
            after,
            subject,
        ),
    ensures
        slots_grow(before, after),
{
}

/// Right after a despawn the generation of the slot is past the handle.
pub proof fn lemma_despawn_moves_generation<T>(before: World<T>, after: World<T>, entity: Entity)
    requires
        before.is_alive(entity),
        despawned_from(before, after, entity),
    ensures
        entity.index < after.slots().len(),
        after.slots()[entity.index as int].0 > entity.generation,
{
}

/// Two schemas that hold the same ids are the same schema.
pub proof fn lemma_schema_by_ids(left: Seq<ComponentId>, right: Seq<ComponentId>)
    requires
        is_schema(left),
        is_schema(right),
        forall|id: ComponentId| #[trigger] left.contains(id) <==> right.contains(id),
    ensures
        left == right,
    decreases left.len(),
{
    if left.len() == 0 {
        if right.len() > 0 {
            assert(right.contains(right[0]));
            assert(left.contains(right[0]));
        }
        assert(left =~= right);
    } else {
        let top = left.last();
        assert(left[left.len() - 1] == top);
        assert(left.contains(top));
        assert(right.contains(top));
        let at = right.index_of(top);
        assert(0 <= at < right.len() && right[at] == top);
        assert(at == right.len() - 1) by {
            if at < right.len() - 1 {
                let above = right[right.len() - 1];
                assert(right[at].id < above.id);
                assert(right.contains(above));
                assert(left.contains(above));
                let m = left.index_of(above);
                assert(0 <= m < left.len() && left[m] == above);
                if m < left.len() - 1 {
                    assert(left[m].id < left[left.len() - 1].id);
                }
            }
        }
        let shorter_left = left.drop_last();
        let shorter_right = right.drop_last();
        assert forall|id: ComponentId| #[trigger]
            shorter_left.contains(id) <==> shorter_right.contains(id) by {
            if shorter_left.contains(id) {
                let m = shorter_left.index_of(id);
                assert(0 <= m < shorter_left.len() && shorter_left[m] == id);
                assert(left[m] == id);
                assert(left[m].id < left[left.len() - 1].id);
                assert(left.contains(id));
                assert(right.contains(id));
                let n = right.index_of(id);
                assert(0 <= n < right.len() && right[n] == id);
                assert(n != right.len() - 1);
                assert(shorter_right[n] == id);
            }
            if shorter_right.contains(id) {
                let n = shorter_right.index_of(id);
                assert(0 <= n < shorter_right.len() && shorter_right[n] == id);
                assert(right[n] == id);
                assert(right[n].id < right[right.len() - 1].id);
                assert(right.contains(id));
                assert(left.contains(id));
                let m = left.index_of(id);
                assert(0 <= m < left.len() && left[m] == id);
                assert(m != left.len() - 1);
                assert(shorter_left[m] == id);
            }
        }
        lemma_schema_by_ids(shorter_left, shorter_right);
        assert(left =~= shorter_left.push(top));
        assert(right =~= shorter_right.push(top));
    }
}

/// Adding components to an entity and then removing the components of
/// the same kinds brings the entity back to an archetype of the schema
/// that it had at first.
pub proof fn lemma_add_then_remove_restores_schema<T>(
    first: World<T>,
    second: World<T>,
    third: World<T>,
    entity: Entity,
    bundle: Seq<(ComponentId, T)>,
    ids: Seq<ComponentId>,
    removed: Seq<T>,
)
    requires
        first.wf(),
        second.wf(),
        third.wf(),
        first.is_alive(entity),
        forall|k: int| 0 <= k < bundle.len() ==> !first.schema_of(entity).contains((#[trigger] bundle[k]).0),
        components_added(first, second, entity, bundle),
        forall|id: ComponentId| #[trigger] ids.contains(id) <==> ids_of(bundle).contains(id),
        components_removed(second, third, entity, ids, removed),
    ensures
        third.is_alive(entity),
        third.schema_of(entity) == first.schema_of(entity),
{
    first.lemma_layout();
    second.lemma_layout();
    third.lemma_layout();
    if bundle.len() == 0 {
        if ids.len() > 0 {
            assert(ids.contains(ids[0]));
            let k = ids_of(bundle).index_of(ids[0]);
            assert(0 <= k < ids_of(bundle).len());
        }
        assert(second.is_alive(entity));
        assert(third.is_alive(entity));
    } else {
        assert(ids_of(bundle).contains(ids_of(bundle)[0]));
        assert(ids.contains(ids_of(bundle)[0]));
        assert(ids.len() > 0);
        let initial = first.schema_of(entity);
        let widened = second.schema_of(entity);
        let narrowed = third.schema_of(entity);
        assert forall|id: ComponentId| #[trigger] narrowed.contains(id) <==> initial.contains(id) by {
            assert(narrowed.contains(id) <==> widened.contains(id) && !ids.contains(id));
            assert(widened.contains(id) <==> initial.contains(id) || ids_of(bundle).contains(id));
            assert(ids.contains(id) <==> ids_of(bundle).contains(id));
            if initial.contains(id) && ids_of(bundle).contains(id) {
                let k = ids_of(bundle).index_of(id);
                assert(0 <= k < bundle.len() && ids_of(bundle)[k] == id);
                assert(bundle[k].0 == id);
            }
        }
        lemma_schema_by_ids(narrowed, initial);
    }
}

/// An entity is spawned behind the entities that its archetype holds: in
/// the world right after the spawn, every entity that existed before and
/// lives in the same archetype has a row before that of the new entity.
pub proof fn lemma_spawn_goes_last<T>(before: World<T>, after: World<T>, entity: Entity, earlier: Entity)
    requires
        before.wf(),
        spawned_into(before, after, entity),
        before.is_alive(earlier),
        after.slots()[earlier.index as int].1.storage_index
            == after.slots()[entity.index as int].1.storage_index,
    ensures
        after.slots()[earlier.index as int].1.index_within_storage
            < after.slots()[entity.index as int].1.index_within_storage,
{
    before.lemma_layout();
    assert(after.slots()[earlier.index as int] == before.slots()[earlier.index as int]);
    assert(before.occupied(earlier.index));
}

/// A query yields the rows of an archetype in storage order, so an entity
/// comes behind the entities that its archetype held when it was spawned: in
/// a result of any query on the world right after the spawn, the archetype
/// of the new entity is shown by one part at most, and in that part each of
/// the two entities stands at one row only, the earlier one before the new
/// one.
pub proof fn lemma_spawn_order_in_query<T>(
    before: World<T>,
    after: World<T>,
    entity: Entity,
    earlier: Entity,
    borrow: Seq<(ArchetypeInfo, Vec<Option<&Vec<T>>>)>,
    filters: Seq<Filter>,
    k: int,
)
    requires
        before.wf(),
        after.wf(),
        spawned_into(before, after, entity),
        before.is_alive(earlier),
        after.slots()[earlier.index as int].1.storage_index
            == after.slots()[entity.index as int].1.storage_index,
        borrow_describes(borrow, after, filters),
        0 <= k < borrow.len(),
        borrow[k].0.index_spec() == after.slots()[entity.index as int].1.storage_index,
    ensures
        ({
            let entities = borrow[k].0.entities_spec();
            let first = after.slots()[earlier.index as int].1.index_within_storage as int;
            let second = after.slots()[entity.index as int].1.index_within_storage as int;
            &&& first < second < entities.len()
            &&& entities[first] == earlier.index
            &&& entities[second] == entity.index
            &&& forall|r: int|
                0 <= r < entities.len() && #[trigger] entities[r] == earlier.index ==> r == first
            &&& forall|r: int|
                0 <= r < entities.len() && #[trigger] entities[r] == entity.index ==> r == second
        }),
        forall|l: int|
            0 <= l < borrow.len() && (#[trigger] borrow[l]).0.index_spec() == borrow[k].0.index_spec()
                ==> l == k,
{
    lemma_spawn_goes_last(before, after, entity, earlier);
    after.lemma_layout();
    after.lemma_bounded();
    let a = after.slots()[entity.index as int].1.storage_index as int;
    let found = all_matches(after.schemas(), filters);
    assert(part_describes(borrow[k], after, found[k]));
    let entities = borrow[k].0.entities_spec();
    assert(entities == after.tables()[a].rows());
    assert(after.occupied(earlier.index));
    assert forall|r: int| 0 <= r < entities.len() implies after.slots()[(#[trigger] entities[r]) as int].1
        == (EntityLocation { storage_index: a as usize, index_within_storage: r as usize }) by {
        assert(after.tables()[a].rows()[r] == entities[r]);
    }
    lemma_matches_bounded(after.schemas(), filters, 0);
    assert forall|l: int|
        0 <= l < borrow.len() && (#[trigger] borrow[l]).0.index_spec() == borrow[k].0.index_spec()
        implies l == k by {
        assert(part_describes(borrow[l], after, found[l]));
        if l < k {
            assert(found[l].0 < found[k].0);
        }
        if k < l {
            assert(found[k].0 < found[l].0);
        }
    }
}

} // verus!
