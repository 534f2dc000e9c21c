//! The entity table: one slot per entity index, holding the slot's current
//! generation and the location of the entity that occupies it, and the list
//! of slots that wait to be issued again.
use vstd::prelude::*;
use crate::{ECSError, Entity, EntityLocation};

verus! {

/// Issues entities and keeps the generation and the location of each.
pub struct EntityManager {
    free_entities: Vec<usize>,
    entity_index_to_generation_and_location: Vec<(u32, EntityLocation)>,
}

/// What a lookup of `entity` in `table` gives.
pub open spec fn lookup_location(table: Seq<(u32, EntityLocation)>, entity: Entity) -> Result<
    EntityLocation,
    ECSError,
> {
    if entity.index >= table.len() {
        Err(ECSError::NoMatchingEntity)
    } else if table[entity.index as int].0 != entity.generation {
        Err(ECSError::EntityNoLongerExists)
    } else {
        Ok(table[entity.index as int].1)
    }
}

impl EntityManager {
    /// Generation and location of each slot.
    pub closed spec fn table(&self) -> Seq<(u32, EntityLocation)> {
        self.entity_index_to_generation_and_location@
    }

    /// The slots that wait to be issued again; the last one goes first.
    pub closed spec fn free(&self) -> Seq<usize> {
        self.free_entities@
    }

    /// Every free slot is a slot of the table.
    pub open spec fn wf(&self) -> bool {
        forall|i: int| 0 <= i < self.free().len() ==> (#[trigger] self.free()[i]) < self.table().len()
    }

    /// `entity` names a slot of the table in the slot's current generation.
    pub open spec fn is_current(&self, entity: Entity) -> bool {
        lookup_location(self.table(), entity) is Ok
    }

    /// The table and the free list fit in memory.
    pub proof fn lemma_bounded(&self)
        ensures
            self.table().len() <= usize::MAX,
            self.free().len() <= usize::MAX,
    {
        assert(self.entity_index_to_generation_and_location.len() == self.table().len());
        assert(self.free_entities.len() == self.free().len());
    }

    /// An entity table without slots.
    pub fn new() -> (manager: Self)
        ensures
            manager.wf(),
            manager.table() == Seq::<(u32, EntityLocation)>::empty(),
            manager.free() == Seq::<usize>::empty(),
    {
        Self { free_entities: Vec::new(), entity_index_to_generation_and_location: Vec::new() }
    }

    /// Number of slots in the table.
    pub fn slot_count(&self) -> (n: usize)
        ensures
            n == self.table().len(),
    {
        self.entity_index_to_generation_and_location.len()
    }

    /// Issues an entity at `entity_location`: in the free slot that was given
    /// up last, under the generation to which the slot has moved on, or in a
    /// new slot under generation 0 when no slot is free.
    pub fn new_entity(&mut self, entity_location: EntityLocation) -> (entity: Entity)
        requires
            old(self).wf(),
        ensures
            final(self).wf(),
            old(self).free().len() > 0 ==> {
                &&& entity.index == old(self).free().last()
                &&& entity.generation == old(self).table()[entity.index as int].0
                &&& final(self).free() == old(self).free().drop_last()
                &&& final(self).table() == old(self).table().update(
                    entity.index as int,
                    (entity.generation, entity_location),
                )
            },
            old(self).free().len() == 0 ==> {
                &&& entity.index == old(self).table().len()
                &&& entity.generation == 0
                &&& final(self).free() == old(self).free()
                &&& final(self).table() == old(self).table().push((0u32, entity_location))
            },
            lookup_location(final(self).table(), entity) == Ok::<EntityLocation, ECSError>(
                entity_location,
            ),
    {
        match self.free_entities.pop() {
            Some(index) => {
                assert(index == old(self).free()[old(self).free().len() - 1]);
                let generation = self.entity_index_to_generation_and_location[index].0;
                self.entity_index_to_generation_and_location[index] = (generation, entity_location);
                Entity { index, generation }
            },
            None => {
                self.entity_index_to_generation_and_location.push((0, entity_location));
                Entity { index: self.entity_index_to_generation_and_location.len() - 1, generation: 0 }
            },
        }
    }

    /// The location that the slot of `entity` holds: `NoMatchingEntity` where
    /// the index lies beyond the table, `EntityNoLongerExists` where the slot
    /// is in another generation than the handle.
    pub fn get_entity_location(&self, entity: Entity) -> (location: Result<EntityLocation, ECSError>)
        ensures
            location == lookup_location(self.table(), entity),
    {
        if entity.index < self.entity_index_to_generation_and_location.len() {
            let (generation, entity_location) = self.entity_index_to_generation_and_location[entity.index];
            if generation == entity.generation {
                Ok(entity_location)
            } else {
                Err(ECSError::EntityNoLongerExists)
            }
        } else {
            Err(ECSError::NoMatchingEntity)
        }
    }

    /// Gives up the slot of `entity` if the handle is current: the slot moves
    /// on to the next generation and joins the free list. A handle that is
    /// not current changes nothing. A current handle of the generation
    /// `u32::MAX` is left out: its slot has no generation to move on to.
    pub fn despawn_entity(&mut self, entity: Entity)
        requires
            old(self).wf(),
            old(self).is_current(entity) ==> entity.generation < u32::MAX,
        ensures
            final(self).wf(),
            final(self).table().len() == old(self).table().len(),
            forall|i: int|
                0 <= i < old(self).table().len() && i != entity.index ==> final(self).table()[i]
                    == old(self).table()[i],
            !old(self).is_current(entity) ==> final(self).table() == old(self).table()
                && final(self).free() == old(self).free(),
            old(self).is_current(entity) ==> {
                &&& final(self).table()[entity.index as int] == (
                    (entity.generation + 1) as u32,
                    old(self).table()[entity.index as int].1,
                )
                &&& final(self).free() == old(self).free().push(entity.index)
                &&& lookup_location(final(self).table(), entity) == Err::<EntityLocation, ECSError>(
                    ECSError::EntityNoLongerExists,
                )
            },
    {
        if entity.index < self.entity_index_to_generation_and_location.len() {
            let (generation, location) = self.entity_index_to_generation_and_location[entity.index];
            if generation == entity.generation {
                // The next generation makes this handle and its copies stale.
                self.entity_index_to_generation_and_location[entity.index] = (generation + 1, location);
                self.free_entities.push(entity.index);
                assert forall|i: int| 0 <= i < self.free().len() implies (#[trigger] self.free()[i])
                    < self.table().len() by {
                    if i < old(self).free().len() {
                        assert(self.free()[i] == old(self).free()[i]);
                    }
                }
            }
        }
    }

    /// Sets the location of the slot `entity_index`, for an entity whose
    /// components have moved to another archetype.
    pub fn set_entity_location(&mut self, entity_index: usize, entity_location: EntityLocation)
        requires
            entity_index < old(self).table().len(),
        ensures
            final(self).free() == old(self).free(),
            final(self).table() == old(self).table().update(
                entity_index as int,
                (old(self).table()[entity_index as int].0, entity_location),
            ),
    {
        let generation = self.entity_index_to_generation_and_location[entity_index].0;
        self.entity_index_to_generation_and_location[entity_index] = (generation, entity_location);
    }

    /// Sets the row of the slot `entity_index`, for an entity that a
    /// swap-remove has moved within its archetype.
    pub fn update_entity_index_in_archetype(
        &mut self,
        entity_index: usize,
        entity_index_in_archetype: usize,
    )
        requires
            entity_index < old(self).table().len(),
        ensures
            final(self).free() == old(self).free(),
            final(self).table() == old(self).table().update(
                entity_index as int,
                (
                    old(self).table()[entity_index as int].0,
                    (EntityLocation {
                        storage_index: old(self).table()[entity_index as int].1.storage_index,
                        index_within_storage: entity_index_in_archetype,
                    }),
                ),
            ),
    {
        let (generation, location) = self.entity_index_to_generation_and_location[entity_index];
        self.entity_index_to_generation_and_location[entity_index] = (
            generation,
            EntityLocation {
                storage_index: location.storage_index,
                index_within_storage: entity_index_in_archetype,
            },
        );
    }
}

} // verus!
