//! The world: the archetypes together with the entity table and the
//! archetype index.
use vstd::prelude::*;
use crate::archetype::{swap_removed, Archetype};
use crate::archetype_lookup::{ArchetypeLookup, Filter};
use crate::bundle::{all_held, distinct_ids, pair_ids, sort_components};
use crate::entity_manager::{lookup_location, EntityManager};
use crate::matching::{
    all_matches, column_in, is_schema, lemma_column_in, lemma_schema_position, matched_columns,
    matches_view, schema_matches,
};
use crate::queries::{MutQueryTrait, QueryParametersTrait, QueryTrait};
use crate::{ComponentBundleTrait, ComponentId, ECSError, Entity, EntityLocation};

verus! {

/// Owns the archetypes, the entity table and the archetype index.
pub struct World<T> {
    pub(crate) entity_manager: EntityManager,
    pub(crate) archetypes: Vec<Archetype<T>>,
    pub(crate) archetype_lookup: ArchetypeLookup,
    /// A scratch buffer for component ids.
    pub(crate) component_ids_temp: Vec<ComponentId>,
}

impl<T> World<T> {
    /// The schema of each archetype, by archetype index.
    pub open(crate) spec fn schemas(&self) -> Seq<Seq<ComponentId>> {
        self.archetype_lookup.schemas()
    }

    /// The archetypes, by archetype index.
    pub open(crate) spec fn tables(&self) -> Seq<Archetype<T>> {
        self.archetypes@
    }

    /// Generation and location of each slot of the entity table.
    pub open(crate) spec fn slots(&self) -> Seq<(u32, EntityLocation)> {
        self.entity_manager.table()
    }

    /// The slots that wait to be issued again.
    pub open(crate) spec fn free_slots(&self) -> Seq<usize> {
        self.entity_manager.free()
    }

    /// The slot `index` belongs to an entity: its location names a row that
    /// names the slot in turn.
    pub open spec fn occupied(&self, index: usize) -> bool {
        let location = self.slots()[index as int].1;
        let a = location.storage_index as int;
        let row = location.index_within_storage as int;
        &&& index < self.slots().len()
        &&& a < self.tables().len()
        &&& row < self.tables()[a].rows().len()
        &&& self.tables()[a].rows()[row] == index
    }

    /// `entity` is a handle to an entity that exists.
    pub open spec fn is_alive(&self, entity: Entity) -> bool {
        &&& lookup_location(self.slots(), entity) is Ok
        &&& self.occupied(entity.index)
    }

    /// What a lookup of `entity` gives.
    pub open spec fn location_spec(&self, entity: Entity) -> Result<EntityLocation, ECSError> {
        if entity.index >= self.slots().len() {
            Err(ECSError::NoMatchingEntity)
        } else if !self.is_alive(entity) {
            Err(ECSError::EntityNoLongerExists)
        } else {
            Ok(self.slots()[entity.index as int].1)
        }
    }

    /// The schema of the archetype in which a living entity is stored.
    pub open spec fn schema_of(&self, entity: Entity) -> Seq<ComponentId> {
        self.schemas()[self.slots()[entity.index as int].1.storage_index as int]
    }

    /// The component of kind `id` of a living entity, if it has one.
    pub open spec fn component_spec(&self, entity: Entity, id: ComponentId) -> Option<T> {
        let location = self.slots()[entity.index as int].1;
        match column_in(self.schema_of(entity), id) {
            Some(position) => Some(
                self.tables()[location.storage_index as int].column(
                    position as int,
                )[location.index_within_storage as int],
            ),
            None => None,
        }
    }

    /// Every row names a slot whose location is that row.
    pub open spec fn rows_point_back(&self) -> bool {
        forall|a: int, r: int|
            0 <= a < self.tables().len() && 0 <= r < self.tables()[a].rows().len() ==> {
                let index = #[trigger] self.tables()[a].rows()[r];
                &&& index < self.slots().len()
                &&& self.slots()[index as int].1 == (EntityLocation {
                    storage_index: a as usize,
                    index_within_storage: r as usize,
                })
            }
    }

    /// The free slots differ from each other and belong to no entity.
    pub open spec fn free_slots_unused(&self) -> bool {
        &&& forall|k: int|
            0 <= k < self.free_slots().len() ==> {
                let index = #[trigger] self.free_slots()[k];
                &&& index < self.slots().len()
                &&& !self.occupied(index)
            }
        &&& forall|k: int, l: int|
            0 <= k < l < self.free_slots().len() ==> self.free_slots()[k] != self.free_slots()[l]
    }

    /// The archetypes are those of the index, each with its schema and with
    /// one component per row in every column.
    pub open spec fn tables_match_index(&self) -> bool {
        &&& self.tables().len() == self.schemas().len()
        &&& forall|a: int|
            0 <= a < self.tables().len() ==> (#[trigger] self.tables()[a]).wf() && self.tables()[a].schema()
                == self.schemas()[a]
    }

    /// The index, the archetypes and the entity table agree with each other.
    pub open(crate) spec fn wf(&self) -> bool {
        &&& self.archetype_lookup.wf()
        &&& self.entity_manager.wf()
        &&& self.tables_match_index()
        &&& self.rows_point_back()
        &&& self.free_slots_unused()
    }

    /// What well-formedness says of the layout.
    pub proof fn lemma_layout(&self)
        requires
            self.wf(),
        ensures
            self.tables_match_index(),
            self.rows_point_back(),
            self.free_slots_unused(),
            forall|a: int| 0 <= a < self.schemas().len() ==> is_schema(#[trigger] self.schemas()[a]),
            forall|a: int, b: int|
                0 <= a < self.schemas().len() && 0 <= b < self.schemas().len() && self.schemas()[a]
                    == self.schemas()[b] ==> a == b,
    {
        self.archetype_lookup.lemma_schemas();
    }

    /// Archetypes, rows and slots fit in memory.
    pub proof fn lemma_bounded(&self)
        ensures
            self.tables().len() <= usize::MAX,
            self.slots().len() <= usize::MAX,
            forall|a: int|
                0 <= a < self.tables().len() ==> (#[trigger] self.tables()[a]).rows().len()
                    <= usize::MAX && self.tables()[a].schema().len() <= usize::MAX,
    {
        assert(self.archetypes.len() == self.tables().len());
        self.entity_manager.lemma_bounded();
        assert forall|a: int| 0 <= a < self.tables().len() implies (#[trigger] self.tables()[a]).rows().len()
            <= usize::MAX && self.tables()[a].schema().len() <= usize::MAX by {
            self.tables()[a].lemma_bounded();
        }
    }

    /// Well-formedness does not depend on the scratch buffer.
    pub(crate) proof fn lemma_wf_without_temp(&self, other: &Self)
        requires
            self.wf(),
            other.archetype_lookup == self.archetype_lookup,
            other.entity_manager == self.entity_manager,
            other.archetypes == self.archetypes,
        ensures
            other.wf(),
    {
        assert(other.tables() == self.tables());
        assert(other.slots() == self.slots());
        assert(other.free_slots() == self.free_slots());
        assert(other.schemas() == self.schemas());
        assert forall|index: usize| #[trigger] other.occupied(index) == self.occupied(index) by {}
        assert forall|k: int| 0 <= k < other.free_slots().len() implies {
            let index = #[trigger] other.free_slots()[k];
            &&& index < other.slots().len()
            &&& !other.occupied(index)
        } by {
            assert(!self.occupied(self.free_slots()[k]));
        }
    }

    /// A world without archetypes and entities.
    pub fn new() -> (world: Self)
        ensures
            world.wf(),
            world.schemas() == Seq::<Seq<ComponentId>>::empty(),
            world.slots() == Seq::<(u32, EntityLocation)>::empty(),
    {
        Self {
            entity_manager: EntityManager::new(),
            archetypes: Vec::new(),
            archetype_lookup: ArchetypeLookup::new(),
            component_ids_temp: Vec::new(),
        }
    }

    /// Some archetype has exactly the schema `ids`.
    pub open spec fn has_schema(&self, ids: Seq<ComponentId>) -> bool {
        exists|a: int| 0 <= a < self.schemas().len() && #[trigger] self.schemas()[a] == ids
    }

    /// The ids in the scratch buffer.
    pub open(crate) spec fn temp_ids(&self) -> Seq<ComponentId> {
        self.component_ids_temp@
    }

    /// The archetype whose schema is the ids in the scratch buffer; it is
    /// created, without rows, if there is none yet.
    pub(crate) fn find_or_create_archetype(&mut self) -> (a: usize)
        requires
            old(self).wf(),
            is_schema(old(self).temp_ids()),
        ensures
            final(self).wf(),
            final(self).temp_ids() == old(self).temp_ids(),
            final(self).entity_manager == old(self).entity_manager,
            a < final(self).tables().len(),
            final(self).schemas()[a as int] == old(self).temp_ids(),
            old(self).has_schema(old(self).temp_ids()) ==> {
                &&& a < old(self).tables().len()
                &&& final(self).tables() == old(self).tables()
                &&& final(self).schemas() == old(self).schemas()
            },
            !old(self).has_schema(old(self).temp_ids()) ==> {
                &&& a == old(self).tables().len()
                &&& final(self).schemas() == old(self).schemas().push(old(self).temp_ids())
                &&& final(self).tables().len() == old(self).tables().len() + 1
                &&& final(self).tables()[a as int].rows() == Seq::<usize>::empty()
                &&& forall|b: int|
                    0 <= b < old(self).tables().len() ==> #[trigger] final(self).tables()[b]
                        == old(self).tables()[b]
            },
    {
        match self.archetype_lookup.get_exact_archetype(self.component_ids_temp.as_slice()) {
            Some(a) => a,
            None => {
                let new_archetype = Archetype::with_schema(&self.component_ids_temp);
                let a = self.archetypes.len();
                self.archetypes.push(new_archetype);
                self.archetype_lookup.new_archetype(self.component_ids_temp.as_slice());
                proof {
                    let before = *old(self);
                    before.lemma_bounded();
                    assert forall|b: int| 0 <= b < self.tables().len() implies (
                    #[trigger] self.tables()[b]).wf() && self.tables()[b].schema()
                        == self.schemas()[b] by {
                        if b < a {
                            assert(self.tables()[b] == before.tables()[b]);
                        }
                    }
                    assert forall|b: int, r: int|
                        0 <= b < self.tables().len() && 0 <= r < self.tables()[b].rows().len() implies {
                        let index = #[trigger] self.tables()[b].rows()[r];
                        &&& index < self.slots().len()
                        &&& self.slots()[index as int].1 == (EntityLocation {
                            storage_index: b as usize,
                            index_within_storage: r as usize,
                        })
                    } by {
                        assert(self.tables()[b] == before.tables()[b]);
                    }
                    assert forall|index: usize| #[trigger]
                        self.occupied(index) <==> before.occupied(index) by {
                        if index < self.slots().len() {
                            let b = self.slots()[index as int].1.storage_index as int;
                            if b < a {
                                assert(self.tables()[b] == before.tables()[b]);
                            }
                        }
                    }
                    assert forall|k: int| 0 <= k < self.free_slots().len() implies {
                        let index = #[trigger] self.free_slots()[k];
                        &&& index < self.slots().len()
                        &&& !self.occupied(index)
                    } by {
                        assert(!before.occupied(before.free_slots()[k]));
                    }
                    assert(self.free_slots() == before.free_slots());
                    assert forall|k: int, l: int| 0 <= k < l < self.free_slots().len()
                        implies self.free_slots()[k]
                        != self.free_slots()[l] by {
                        assert(before.free_slots()[k] != before.free_slots()[l]);
                    }
                }
                a
            },
        }
    }

    /// Creates an entity of the components of `components`, which no
    /// two of may be of the same kind.
    pub fn spawn<B: ComponentBundleTrait<T>>(&mut self, components: B) -> (entity: Entity)
        requires
            old(self).wf(),
            distinct_ids(crate::ids_of(components.components())),
        ensures
            final(self).wf(),
            !old(self).is_alive(entity),
            final(self).is_alive(entity),
            final(self).schema_of(entity).len() == components.components().len(),
            forall|id: ComponentId|
                #![trigger final(self).schema_of(entity).contains(id)]
                #![trigger crate::ids_of(components.components()).contains(id)]
                final(self).schema_of(entity).contains(id) <==> crate::ids_of(
                    components.components(),
                ).contains(id),
            forall|k: int|
                0 <= k < components.components().len() ==> final(self).component_spec(
                    entity,
                    (#[trigger] components.components()[k]).0,
                ) == Some(components.components()[k].1),
            spawned_into(*old(self), *final(self), entity),
    {
        let ghost bundle = components.components();
        let mut pairs = components.get_components_and_ids();
        let ghost given = pairs@;
        proof {
            assert(pair_ids(given) =~= crate::ids_of(bundle));
        }
        let entity = self.spawn_inner(&mut pairs);
        proof {
            assert forall|id: ComponentId|
                self.schema_of(entity).contains(id) <==> crate::ids_of(bundle).contains(id) by {
                assert(self.schema_of(entity).contains(id) <==> pair_ids(given).contains(id));
            }
            assert forall|k: int| 0 <= k < bundle.len() implies self.component_spec(
                entity,
                (#[trigger] bundle[k]).0,
            ) == Some(bundle[k].1) by {
                assert(given[k] == (Some(bundle[k].1), bundle[k].0));
                assert(self.component_spec(entity, given[k].1) == given[k].0);
            }
        }
        entity
    }

    /// Creates an entity of the components that `components_and_ids`
    /// holds: sorts them by id, finds or creates the archetype of their ids,
    /// appends a row of them and enters the entity in the entity table.
    pub fn spawn_inner(&mut self, components_and_ids: &mut Vec<(Option<T>, ComponentId)>) -> (entity:
        Entity)
        requires
            old(self).wf(),
            distinct_ids(pair_ids(old(components_and_ids)@)),
            all_held(old(components_and_ids)@),
        ensures
            final(self).wf(),
            !old(self).is_alive(entity),
            final(self).is_alive(entity),
            final(self).schema_of(entity).len() == old(components_and_ids)@.len(),
            forall|id: ComponentId|
                #![trigger final(self).schema_of(entity).contains(id)]
                #![trigger pair_ids(old(components_and_ids)@).contains(id)]
                final(self).schema_of(entity).contains(id) <==> pair_ids(
                    old(components_and_ids)@,
                ).contains(id),
            forall|k: int|
                0 <= k < old(components_and_ids)@.len() ==> final(self).component_spec(
                    entity,
                    (#[trigger] old(components_and_ids)@[k]).1,
                ) == old(components_and_ids)@[k].0,
            spawned_into(*old(self), *final(self), entity),
    {
        let ghost given = components_and_ids@;
        sort_components(components_and_ids);
        let ghost sorted = components_and_ids@;
        self.component_ids_temp.clear();
        let mut i: usize = 0;
        while i < components_and_ids.len()
            invariant
                i <= components_and_ids@.len(),
                components_and_ids@ == sorted,
                self.component_ids_temp@ == pair_ids(sorted).subrange(0, i as int),
                self.entity_manager == old(self).entity_manager,
                self.archetypes == old(self).archetypes,
                self.archetype_lookup == old(self).archetype_lookup,
            decreases components_and_ids@.len() - i,
        {
            self.component_ids_temp.push(components_and_ids[i].1);
            assert(self.component_ids_temp@ =~= pair_ids(sorted).subrange(0, i + 1));
            i += 1;
        }
        assert(self.component_ids_temp@ =~= pair_ids(sorted));
        proof {
            assert forall|k: int| 0 <= k < sorted.len() implies (#[trigger] sorted[k]).0 is Some by {
                assert(given.contains(sorted[k]));
                let m = given.index_of(sorted[k]);
                assert(given[m].0 is Some);
            }
        }
        proof {
            old(self).lemma_wf_without_temp(self);
        }
        let archetype_index = self.find_or_create_archetype();
        let ghost mid = *self;
        proof {
            mid.lemma_bounded();
            mid.tables()[archetype_index as int].lemma_bounded();
        }
        self.archetypes[archetype_index].append_row(components_and_ids);
        let ghost appended = *self;
        let row = self.archetypes[archetype_index].len();
        let entity = self.entity_manager.new_entity(
            EntityLocation { storage_index: archetype_index, index_within_storage: row },
        );
        self.archetypes[archetype_index].push_entity_index(entity.index);
        proof {
            let a = archetype_index as int;
            assert forall|c: int| 0 <= c < mid.tables()[a].schema().len()
                implies #[trigger] self.tables()[a].column(
                c,
            ) == mid.tables()[a].column(c).push(sorted[c].0->0) by {
                assert(self.tables()[a].column(c) == appended.tables()[a].column(c));
            }
            assert forall|c: int| 0 <= c < self.tables()[a].schema().len() implies (
            #[trigger] self.tables()[a].column(c)).len() == self.tables()[a].rows().len() by {
                assert(mid.tables()[a].column(c).len() == mid.tables()[a].rows().len());
            }
            assert forall|c: int| 0 <= c < mid.tables()[a].schema().len() implies (
            #[trigger] self.tables()[a].column(c)).drop_last() == mid.tables()[a].column(c) by {
                assert(mid.tables()[a].column(c).push(sorted[c].0->0).drop_last()
                    =~= mid.tables()[a].column(c));
            }
            lemma_spawn_keeps_wf(mid, *self, archetype_index as int, entity);
            lemma_spawn_extends(*old(self), mid, *self, archetype_index as int, entity);
            let schema = self.schema_of(entity);
            assert(schema == pair_ids(sorted));
            assert forall|id: ComponentId| schema.contains(id) <==> pair_ids(given).contains(id) by {
                if schema.contains(id) {
                    let c = schema.index_of(id);
                    assert(schema[c] == id);
                    assert(given.contains(sorted[c]));
                    let m = given.index_of(sorted[c]);
                    assert(pair_ids(given)[m] == id);
                }
                if pair_ids(given).contains(id) {
                    let m = pair_ids(given).index_of(id);
                    assert(pair_ids(given)[m] == id);
                    assert(sorted.contains(given[m]));
                    let c = sorted.index_of(given[m]);
                    assert(schema[c] == id);
                }
            }
            assert forall|k: int| 0 <= k < given.len() implies self.component_spec(
                entity,
                (#[trigger] given[k]).1,
            ) == given[k].0 by {
                assert(sorted.contains(given[k]));
                let c = sorted.index_of(given[k]);
                assert(sorted[c] == given[k]);
                assert(schema[c] == given[k].1);
                lemma_schema_position(schema, c);
                assert(self.tables()[archetype_index as int].column(c)
                    == mid.tables()[archetype_index as int].column(c).push(sorted[c].0->0));
                assert(mid.tables()[archetype_index as int].column(c).len() == row);
            }
        }
        entity
    }

    /// The archetypes, by archetype index.
    pub fn archetypes(&self) -> (archetypes: &Vec<Archetype<T>>)
        ensures
            archetypes@ == self.tables(),
    {
        &self.archetypes
    }

    /// The archetypes that pass every filter of `filters`, in ascending
    /// order of their index, each with the column of each filter.
    pub fn matching_archetypes(&self, filters: &[Filter]) -> (found: Vec<(usize, Vec<Option<usize>>)>)
        requires
            self.wf(),
        ensures
            matches_view(found@) == all_matches(self.schemas(), filters@),
            forall|k: int, l: int| 0 <= k < l < found@.len() ==> found@[k].0 < found@[l].0,
            forall|k: int|
                0 <= k < found@.len() ==> {
                    let a = (#[trigger] found@[k]).0;
                    &&& a < self.tables().len()
                    &&& schema_matches(self.schemas()[a as int], filters@)
                    &&& found@[k].1@ == matched_columns(self.schemas()[a as int], filters@)
                },
    {
        self.archetype_lookup.matching_archetypes(filters)
    }

    /// Runs the query `Q` with the filters of `parameters`. The query must
    /// be one that cannot fail on this world.
    pub fn query<'a, Q: QueryTrait<'a, T>, P: QueryParametersTrait>(&'a self, parameters: &P) -> (result:
        Q::Result)
        requires
            self.wf(),
            forall|error: ECSError|
                !Q::describes(
                    Err::<Q::Result, ECSError>(error),
                    *self,
                    parameters.filters_spec(),
                ),
        ensures
            Q::describes(Ok::<Q::Result, ECSError>(result), *self, parameters.filters_spec()),
    {
        let outcome = self.try_query::<Q, P>(parameters);
        match outcome {
            Ok(result) => {
                assert(outcome == Ok::<Q::Result, ECSError>(result));
                result
            },
            Err(error) => {
                assert(outcome == Err::<Q::Result, ECSError>(error));
                assert(!Q::describes(
                    Err::<Q::Result, ECSError>(error),
                    *self,
                    parameters.filters_spec(),
                ));
                vstd::pervasive::unreached()
            },
        }
    }

    /// Runs the query `Q` with the filters of `parameters`.
    pub fn try_query<'a, Q: QueryTrait<'a, T>, P: QueryParametersTrait>(&'a self, parameters: &P) -> (outcome:
        Result<Q::Result, ECSError>)
        requires
            self.wf(),
        ensures
            Q::describes(outcome, *self, parameters.filters_spec()),
    {
        let filters = parameters.get_filters();
        Q::get_result(self, filters.as_slice())
    }

    /// Runs the query `Q` with the filters of `parameters` on a world that
    /// is held exclusively. The query must be one that cannot fail on this
    /// world.
    pub fn query_mut<'a, Q: MutQueryTrait<'a, T>, P: QueryParametersTrait>(
        &'a mut self,
        parameters: &P,
    ) -> (result: Q::Result)
        requires
            old(self).wf(),
            forall|error: ECSError|
                !Q::describes_mut(
                    Err::<Q::Result, ECSError>(error),
                    *old(self),
                    parameters.filters_spec(),
                ),
        ensures
            *final(self) == *old(self),
            Q::describes_mut(Ok::<Q::Result, ECSError>(result), *old(self), parameters.filters_spec()),
    {
        let filters = parameters.get_filters();
        let outcome = Q::get_result_mut(self, filters.as_slice());
        match outcome {
            Ok(result) => {
                assert(outcome == Ok::<Q::Result, ECSError>(result));
                result
            },
            Err(error) => {
                assert(outcome == Err::<Q::Result, ECSError>(error));
                assert(!Q::describes_mut(
                    Err::<Q::Result, ECSError>(error),
                    *old(self),
                    parameters.filters_spec(),
                ));
                vstd::pervasive::unreached()
            },
        }
    }

    /// Runs the query `Q` with the filters of `parameters` on a world that
    /// is held exclusively.
    pub fn try_query_mut<'a, Q: MutQueryTrait<'a, T>, P: QueryParametersTrait>(
        &'a mut self,
        parameters: &P,
    ) -> (outcome: Result<Q::Result, ECSError>)
        requires
            old(self).wf(),
        ensures
            *final(self) == *old(self),
            Q::describes_mut(outcome, *old(self), parameters.filters_spec()),
    {
        let filters = parameters.get_filters();
        Q::get_result_mut(self, filters.as_slice())
    }

    /// Where the components of `entity` live.
    pub fn get_location(&self, entity: Entity) -> (location: Result<EntityLocation, ECSError>)
        requires
            self.wf(),
        ensures
            location == self.location_spec(entity),
    {
        match self.entity_manager.get_entity_location(entity) {
            Ok(location) => {
                if location.storage_index < self.archetypes.len() {
                    let archetype = &self.archetypes[location.storage_index];
                    if location.index_within_storage < archetype.entity_indices.len()
                        && archetype.entity_indices[location.index_within_storage] == entity.index {
                        return Ok(location);
                    }
                }
                Err(ECSError::EntityNoLongerExists)
            },
            Err(error) => Err(error),
        }
    }

    /// The component of kind `id` of `entity`: `NoMatchingComponent` where
    /// the entity exists and has none of that kind.
    pub fn get_component(&self, entity: Entity, id: ComponentId) -> (outcome: Result<&T, ECSError>)
        requires
            self.wf(),
        ensures
            match outcome {
                Ok(component) => self.location_spec(entity) is Ok && self.component_spec(entity, id)
                    == Some(*component),
                Err(error) => match self.location_spec(entity) {
                    Ok(_) => error == ECSError::NoMatchingComponent && self.component_spec(entity, id)
                        is None,
                    Err(other) => error == other,
                },
            },
    {
        let location = match self.get_location(entity) {
            Ok(location) => location,
            Err(error) => {
                return Err(error);
            },
        };
        proof {
            self.lemma_layout();
        }
        let archetype = &self.archetypes[location.storage_index];
        match archetype.find_channel(id) {
            Some(position) => {
                assert(archetype.column(position as int).len() == archetype.rows().len());
                Ok(&archetype.channel(position)[location.index_within_storage])
            },
            None => Err(ECSError::NoMatchingComponent),
        }
    }

    /// The component of kind `id` of `entity`, to be written:
    /// `NoMatchingComponent` where the entity exists and has none of that
    /// kind. Nothing but that component changes, and the world stays
    /// well-formed whatever is written.
    pub fn get_component_mut(&mut self, entity: Entity, id: ComponentId) -> (outcome: Result<
        &mut T,
        ECSError,
    >)
        requires
            old(self).wf(),
        ensures
            match outcome {
                Ok(component) => old(self).location_spec(entity) is Ok && old(self).component_spec(
                    entity,
                    id,
                ) == Some(*component) && written(*old(self), *final(self), entity, id, *final(component)),
                Err(error) => *final(self) == *old(self) && match old(self).location_spec(entity) {
                    Ok(_) => error == ECSError::NoMatchingComponent && old(self).component_spec(
                        entity,
                        id,
                    ) is None,
                    Err(other) => error == other,
                },
            },
    {
        let location = match self.get_location(entity) {
            Ok(location) => location,
            Err(error) => {
                return Err(error);
            },
        };
        proof {
            self.lemma_layout();
        }
        let a = location.storage_index;
        let row = location.index_within_storage;
        match self.archetypes[a].find_channel(id) {
            Some(position) => {
                assert(self.archetypes@[a as int].column(position as int).len()
                    == self.archetypes@[a as int].rows().len());
                proof {
                    assert forall|after: World<T>, value: T|
                        writes(*old(self), after, entity, position as int, value) implies after.wf()
                        && #[trigger] written(*old(self), after, entity, id, value) by {
                        lemma_written_keeps_wf(*old(self), after, entity, id, position as int, value);
                    }
                }
                let component = self.archetypes[a].component_mut(position, row);
                Ok(component)
            },
            None => Err(ECSError::NoMatchingComponent),
        }
    }

    /// Removes `entity` and its components. The last row of its archetype
    /// takes the place of its row, and the slot of the entity moves on to the
    /// next generation and joins the free list. An entity of the generation
    /// `u32::MAX` cannot be despawned: its slot has no generation to move on
    /// to.
    pub fn despawn(&mut self, entity: Entity) -> (outcome: Result<(), ECSError>)
        requires
            old(self).wf(),
            old(self).is_alive(entity) ==> entity.generation < u32::MAX,
        ensures
            final(self).wf(),
            match outcome {
                Ok(()) => old(self).location_spec(entity) is Ok && despawned_from(
                    *old(self),
                    *final(self),
                    entity,
                ),
                Err(error) => {
                    &&& old(self).location_spec(entity) == Err::<EntityLocation, ECSError>(error)
                    &&& final(self).schemas() == old(self).schemas()
                    &&& final(self).tables() == old(self).tables()
                    &&& final(self).slots() == old(self).slots()
                    &&& final(self).free_slots() == old(self).free_slots()
                },
            },
    {
        let entity_location = match self.get_location(entity) {
            Ok(location) => location,
            Err(error) => {
                return Err(error);
            },
        };
        let a = entity_location.storage_index;
        let row = entity_location.index_within_storage;
        let ghost last = old(self).tables()[a as int].rows().last();
        assert(last == old(self).tables()[a as int].rows()[old(self).tables()[a as int].rows().len() - 1]);
        self.archetypes[a].remove_entity(&mut self.entity_manager, row);
        let ghost mid = *self;
        self.entity_manager.despawn_entity(entity);
        proof {
            old(self).lemma_layout();
            lemma_despawn_keeps_wf(*old(self), mid, *self, entity);
        }
        Ok(())
    }
}

/// The entity `other` exists after a change as it did before it: in the
/// same archetype, under the same generation and with the same components.
pub open spec fn kept<T>(before: World<T>, after: World<T>, other: Entity) -> bool {
    &&& after.is_alive(other)
    &&& after.slots()[other.index as int].0 == before.slots()[other.index as int].0
    &&& after.slots()[other.index as int].1.storage_index
        == before.slots()[other.index as int].1.storage_index
    &&& forall|id: ComponentId| after.component_spec(other, id) == before.component_spec(other, id)
}

/// The row of the living entity `other` once the row of `entity` has been
/// swap-removed from its archetype: the entity of the last row of that
/// archetype moves to the row that became free, every other entity stays.
pub open spec fn row_after_removal<T>(before: World<T>, entity: Entity, other: Entity) -> usize {
    let removed = before.slots()[entity.index as int].1;
    let place = before.slots()[other.index as int].1;
    if place.storage_index == removed.storage_index && place.index_within_storage
        == before.tables()[removed.storage_index as int].rows().len() - 1 {
        removed.index_within_storage
    } else {
        place.index_within_storage
    }
}

/// Every living entity but `entity` exists after a change as it did before
/// it, at the row that it has once the row of `entity` has been
/// swap-removed.
pub open spec fn others_kept<T>(before: World<T>, after: World<T>, entity: Entity) -> bool {
    forall|other: Entity| #[trigger]
        before.is_alive(other) && other != entity ==> kept(before, after, other)
            && after.slots()[other.index as int].1.index_within_storage == row_after_removal(
            before,
            entity,
            other,
        )
}

/// No slot is lost and no generation goes back.
pub open spec fn slots_grow<T>(before: World<T>, after: World<T>) -> bool {
    &&& before.slots().len() <= after.slots().len()
    &&& forall|i: int|
        0 <= i < before.slots().len() ==> before.slots()[i].0 <= (#[trigger] after.slots()[i]).0
}

/// How a world changes when `entity` is spawned: the entity takes the slot
/// that was freed last, or a new one, and a new last row in the archetype of
/// its schema, which is created at the end of the archetypes if there was
/// none of that schema. Every other row and slot stays as it was.
pub open spec fn spawned_into<T>(before: World<T>, after: World<T>, entity: Entity) -> bool {
    let location = after.slots()[entity.index as int].1;
    let a = location.storage_index as int;
    let created = !before.has_schema(after.schema_of(entity));
    &&& entity.index < after.slots().len()
    &&& a < after.tables().len()
    &&& after.tables().len() == after.schemas().len()
    &&& if before.free_slots().len() > 0 {
        &&& entity.index == before.free_slots().last()
        &&& entity.generation == before.slots()[entity.index as int].0
        &&& after.free_slots() == before.free_slots().drop_last()
        &&& after.slots() == before.slots().update(entity.index as int, (entity.generation, location))
    } else {
        &&& entity.index == before.slots().len()
        &&& entity.generation == 0
        &&& after.free_slots() == before.free_slots()
        &&& after.slots() == before.slots().push((0u32, location))
    }
    &&& if created {
        &&& a == before.tables().len()
        &&& after.schemas() == before.schemas().push(after.schema_of(entity))
        &&& after.tables().len() == before.tables().len() + 1
        &&& after.tables()[a].rows() == seq![entity.index]
        &&& location.index_within_storage == 0
    } else {
        &&& a < before.tables().len()
        &&& after.schemas() == before.schemas()
        &&& after.tables().len() == before.tables().len()
        &&& after.tables()[a].rows() == before.tables()[a].rows().push(entity.index)
        &&& location.index_within_storage == before.tables()[a].rows().len()
        &&& forall|c: int|
            0 <= c < before.schemas()[a].len() ==> #[trigger] after.tables()[a].column(c).drop_last()
                == before.tables()[a].column(c)
    }
    &&& forall|b: int|
        0 <= b < before.tables().len() && b != a ==> #[trigger] after.tables()[b] == before.tables()[b]
    &&& slots_grow(before, after)
    &&& forall|other: Entity| #[trigger]
        before.is_alive(other) ==> after.is_alive(other) && after.slots()[other.index as int]
            == before.slots()[other.index as int] && forall|id: ComponentId|
            after.component_spec(other, id) == before.component_spec(other, id)
}

/// The entity table of `after` is that of `mid` with `entity` entered at
/// the end of the archetype `a`.
pub open spec fn new_slot<T>(mid: World<T>, after: World<T>, a: int, entity: Entity) -> bool {
    let location = EntityLocation {
        storage_index: a as usize,
        index_within_storage: mid.tables()[a].rows().len() as usize,
    };
    if mid.free_slots().len() > 0 {
        &&& entity.index == mid.free_slots().last()
        &&& entity.generation == mid.slots()[entity.index as int].0
        &&& after.free_slots() == mid.free_slots().drop_last()
        &&& after.slots() == mid.slots().update(entity.index as int, (entity.generation, location))
    } else {
        &&& entity.index == mid.slots().len()
        &&& entity.generation == 0
        &&& after.free_slots() == mid.free_slots()
        &&& after.slots() == mid.slots().push((0u32, location))
    }
}

/// How a world changes when the component of kind `id` of the living
/// entity `entity` is written: that component becomes `value`, and nothing
/// else changes.
pub open spec fn written<T>(
    before: World<T>,
    after: World<T>,
    entity: Entity,
    id: ComponentId,
    value: T,
) -> bool {
    let location = before.slots()[entity.index as int].1;
    let a = location.storage_index as int;
    let row = location.index_within_storage as int;
    &&& column_in(before.schema_of(entity), id) is Some
    &&& after.schemas() == before.schemas()
    &&& after.slots() == before.slots()
    &&& after.free_slots() == before.free_slots()
    &&& after.tables().len() == before.tables().len()
    &&& forall|b: int|
        0 <= b < before.tables().len() && b != a ==> #[trigger] after.tables()[b] == before.tables()[b]
    &&& after.tables()[a].rows() == before.tables()[a].rows()
    &&& forall|c: int|
        0 <= c < before.schemas()[a].len() ==> #[trigger] after.tables()[a].column(c) == if Some(
            c as usize,
        ) == column_in(before.schema_of(entity), id) {
            before.tables()[a].column(c).update(row, value)
        } else {
            before.tables()[a].column(c)
        }
    &&& after.wf()
    &&& slots_grow(before, after)
    &&& after.is_alive(entity)
    &&& after.component_spec(entity, id) == Some(value)
    &&& forall|other: ComponentId|
        other != id ==> after.component_spec(entity, other) == before.component_spec(entity, other)
    &&& forall|other: Entity| #[trigger]
        before.is_alive(other) && other != entity ==> kept(before, after, other)
}

/// `after` is `before` but for the component at `position` of the row of
/// `entity`, which is `value`.
spec fn writes<T>(before: World<T>, after: World<T>, entity: Entity, position: int, value: T) -> bool {
    let a = before.slots()[entity.index as int].1.storage_index as int;
    let row = before.slots()[entity.index as int].1.index_within_storage as int;
    &&& after.archetype_lookup == before.archetype_lookup
    &&& after.entity_manager == before.entity_manager
    &&& after.tables().len() == before.tables().len()
    &&& forall|b: int|
        0 <= b < before.tables().len() && b != a ==> #[trigger] after.tables()[b] == before.tables()[b]
    &&& after.tables()[a].schema() == before.tables()[a].schema()
    &&& after.tables()[a].rows() == before.tables()[a].rows()
    &&& after.tables()[a].column(position) == before.tables()[a].column(position).update(row, value)
    &&& forall|c: int|
        0 <= c < before.tables()[a].schema().len() && c != position ==> #[trigger] after.tables()[a].column(
            c,
        ) == before.tables()[a].column(c)
}

/// Writing one component keeps the world well-formed and everything else as
/// it was.
proof fn lemma_written_keeps_wf<T>(
    before: World<T>,
    after: World<T>,
    entity: Entity,
    id: ComponentId,
    position: int,
    value: T,
)
    requires
        before.wf(),
        before.is_alive(entity),
        column_in(before.schema_of(entity), id) == Some(position as usize),
        0 <= position < before.schema_of(entity).len(),
        writes(before, after, entity, position, value),
    ensures
        after.wf(),
        written(before, after, entity, id, value),
{
    before.lemma_layout();
    before.lemma_bounded();
    let a = before.slots()[entity.index as int].1.storage_index as int;
    let row = before.slots()[entity.index as int].1.index_within_storage as int;
    let schema = before.schemas()[a];
    assert(before.tables()[a].schema() == schema);
    assert forall|b: int| 0 <= b < after.tables().len() implies (#[trigger] after.tables()[b]).wf()
        && after.tables()[b].schema() == after.schemas()[b] by {
        if b == a {
            assert forall|c: int| 0 <= c < after.tables()[a].schema().len() implies (
            #[trigger] after.tables()[a].column(c)).len() == after.tables()[a].rows().len() by {
                assert(before.tables()[a].column(c).len() == before.tables()[a].rows().len());
            }
        } else {
            assert(after.tables()[b] == before.tables()[b]);
        }
    }
    assert forall|b: int| 0 <= b < after.tables().len() implies (#[trigger] after.tables()[b]).rows()
        == before.tables()[b].rows() by {
        if b != a {
            assert(after.tables()[b] == before.tables()[b]);
        }
    }
    assert forall|b: int, r: int|
        0 <= b < after.tables().len() && 0 <= r < after.tables()[b].rows().len() implies {
        let index = #[trigger] after.tables()[b].rows()[r];
        &&& index < after.slots().len()
        &&& after.slots()[index as int].1 == (EntityLocation {
            storage_index: b as usize,
            index_within_storage: r as usize,
        })
    } by {
        assert(after.tables()[b].rows() == before.tables()[b].rows());
        assert(after.tables()[b].rows()[r] == before.tables()[b].rows()[r]);
    }
    assert forall|index: usize| #[trigger] after.occupied(index) <==> before.occupied(index) by {
        if index < before.slots().len() {
            let b = before.slots()[index as int].1.storage_index as int;
            if b < before.tables().len() {
                assert(after.tables()[b].rows() == before.tables()[b].rows());
            }
        }
    }
    assert forall|k: int| 0 <= k < after.free_slots().len() implies {
        let index = #[trigger] after.free_slots()[k];
        &&& index < after.slots().len()
        &&& !after.occupied(index)
    } by {
        assert(!before.occupied(before.free_slots()[k]));
    }
    assert forall|k: int, l: int| 0 <= k < l < after.free_slots().len() implies after.free_slots()[k]
        != after.free_slots()[l] by {
        assert(before.free_slots()[k] != before.free_slots()[l]);
    }
    before.tables()[a].lemma_bounded();
    assert forall|c: int| 0 <= c < schema.len() implies #[trigger] after.tables()[a].column(c) == if Some(
        c as usize,
    ) == column_in(schema, id) {
        before.tables()[a].column(c).update(row, value)
    } else {
        before.tables()[a].column(c)
    } by {}
    assert(before.tables()[a].column(position).len() == before.tables()[a].rows().len());
    assert forall|other: ComponentId| other != id implies after.component_spec(entity, other)
        == before.component_spec(entity, other) by {
        lemma_column_in(schema, other);
        lemma_column_in(schema, id);
    }
    assert forall|other: Entity| #[trigger] before.is_alive(other) && other != entity implies kept(
        before,
        after,
        other,
    ) by {
        let place = before.slots()[other.index as int].1;
        let b = place.storage_index as int;
        let r = place.index_within_storage as int;
        assert(after.occupied(other.index));
        assert(before.tables()[b].rows()[r] == other.index);
        if b == a {
            assert(r != row);
            assert forall|kind: ComponentId| after.component_spec(other, kind)
                == before.component_spec(other, kind) by {
                lemma_column_in(schema, kind);
                match column_in(schema, kind) {
                    Some(c) => {
                        assert(before.tables()[a].column(c as int).len() == before.tables()[a].rows().len());
                    },
                    None => {},
                }
            }
        } else {
            assert(after.tables()[b] == before.tables()[b]);
        }
    }
}

/// How a world changes when the living entity `entity` is despawned: its
/// row is swap-removed from its archetype, its slot moves on to the next
/// generation and joins the free list. Every other entity keeps its
/// components; the entity of the last row of the archetype moves to the row
/// that became free.
pub open spec fn despawned_from<T>(before: World<T>, after: World<T>, entity: Entity) -> bool {
    let location = before.slots()[entity.index as int].1;
    let a = location.storage_index as int;
    let row = location.index_within_storage as int;
    &&& after.location_spec(entity) == Err::<EntityLocation, ECSError>(ECSError::EntityNoLongerExists)
    &&& after.schemas() == before.schemas()
    &&& after.tables().len() == before.tables().len()
    &&& after.tables()[a].rows() == swap_removed(before.tables()[a].rows(), row)
    &&& forall|c: int|
        0 <= c < before.schemas()[a].len() ==> #[trigger] after.tables()[a].column(c) == swap_removed(
            before.tables()[a].column(c),
            row,
        )
    &&& forall|b: int|
        0 <= b < before.tables().len() && b != a ==> #[trigger] after.tables()[b] == before.tables()[b]
    &&& after.slots().len() == before.slots().len()
    &&& entity.generation < u32::MAX
    &&& after.slots()[entity.index as int] == ((entity.generation + 1) as u32, location)
    &&& after.free_slots() == before.free_slots().push(entity.index)
    &&& slots_grow(before, after)
    &&& others_kept(before, after, entity)
}

/// Entering `entity` at a new last row of the archetype `a` keeps the world
/// well-formed.
proof fn lemma_spawn_keeps_wf<T>(mid: World<T>, after: World<T>, a: int, entity: Entity)
    requires
        mid.wf(),
        0 <= a < mid.tables().len(),
        after.archetype_lookup == mid.archetype_lookup,
        after.entity_manager.wf(),
        after.tables().len() == mid.tables().len(),
        forall|b: int| 0 <= b < mid.tables().len() && b != a ==> #[trigger] after.tables()[b]
            == mid.tables()[b],
        after.tables()[a].wf(),
        after.tables()[a].schema() == mid.tables()[a].schema(),
        after.tables()[a].rows() == mid.tables()[a].rows().push(entity.index),
        new_slot(mid, after, a, entity),
    ensures
        after.wf(),
        after.is_alive(entity),
        !mid.occupied(entity.index),
        forall|index: usize| #[trigger] mid.occupied(index) ==> after.occupied(index) && index
            != entity.index,
{
    mid.lemma_bounded();
    after.lemma_bounded();
    let row = mid.tables()[a].rows().len() as int;
    let location = EntityLocation { storage_index: a as usize, index_within_storage: row as usize };
    assert(!mid.occupied(entity.index)) by {
        if mid.free_slots().len() > 0 {
            assert(mid.free_slots()[mid.free_slots().len() - 1] == entity.index);
        }
    }
    assert(after.slots()[entity.index as int].1 == location);
    assert(after.tables()[a].rows()[row] == entity.index);
    assert forall|index: usize| #[trigger] mid.occupied(index) implies after.occupied(index) && index
        != entity.index by {
        let b = mid.slots()[index as int].1.storage_index as int;
        let r = mid.slots()[index as int].1.index_within_storage as int;
        if b != a {
            assert(after.tables()[b] == mid.tables()[b]);
        } else {
            assert(after.tables()[a].rows()[r] == mid.tables()[a].rows()[r]);
        }
    }
    assert forall|b: int, r: int|
        0 <= b < after.tables().len() && 0 <= r < after.tables()[b].rows().len() implies {
        let index = #[trigger] after.tables()[b].rows()[r];
        &&& index < after.slots().len()
        &&& after.slots()[index as int].1 == (EntityLocation {
            storage_index: b as usize,
            index_within_storage: r as usize,
        })
    } by {
        let index = after.tables()[b].rows()[r];
        if b == a && r == row {
        } else {
            if b != a {
                assert(after.tables()[b] == mid.tables()[b]);
            }
            assert(index == mid.tables()[b].rows()[r]);
            assert(mid.slots()[index as int].1 == EntityLocation {
                storage_index: b as usize,
                index_within_storage: r as usize,
            });
            assert(mid.occupied(index));
        }
    }
    assert forall|index: usize| #[trigger] after.occupied(index) implies index == entity.index
        || mid.occupied(index) by {
        if index != entity.index {
            let b = after.slots()[index as int].1.storage_index as int;
            let r = after.slots()[index as int].1.index_within_storage as int;
            assert(after.slots()[index as int] == mid.slots()[index as int]);
            if b != a {
                assert(after.tables()[b] == mid.tables()[b]);
            } else {
                assert(r != row);
                assert(after.tables()[a].rows()[r] == mid.tables()[a].rows()[r]);
            }
        }
    }
    assert forall|k: int| 0 <= k < after.free_slots().len() implies {
        let index = #[trigger] after.free_slots()[k];
        &&& index < after.slots().len()
        &&& !after.occupied(index)
    } by {
        let index = after.free_slots()[k];
        assert(index == mid.free_slots()[k]);
        assert(!mid.occupied(index));
        if mid.free_slots().len() > 0 {
            assert(mid.free_slots()[k] != mid.free_slots()[mid.free_slots().len() - 1]);
        }
    }
    assert forall|k: int, l: int| 0 <= k < l < after.free_slots().len() implies after.free_slots()[k]
        != after.free_slots()[l] by {
        assert(mid.free_slots()[k] != mid.free_slots()[l]);
    }
    assert forall|b: int| 0 <= b < after.tables().len() implies (#[trigger] after.tables()[b]).wf()
        && after.tables()[b].schema() == after.schemas()[b] by {
        if b != a {
            assert(after.tables()[b] == mid.tables()[b]);
        }
    }
}

/// A spawn that first finds or creates the archetype and then enters the
/// entity changes the world as `spawned_into` says.
proof fn lemma_spawn_extends<T>(before: World<T>, mid: World<T>, after: World<T>, a: int, entity: Entity)
    requires
        before.wf(),
        mid.wf(),
        after.wf(),
        mid.entity_manager == before.entity_manager,
        0 <= a < mid.tables().len(),
        before.has_schema(mid.schemas()[a]) ==> a < before.tables().len() && mid.tables()
            == before.tables() && mid.schemas() == before.schemas(),
        !before.has_schema(mid.schemas()[a]) ==> {
            &&& a == before.tables().len()
            &&& mid.schemas() == before.schemas().push(mid.schemas()[a])
            &&& mid.tables().len() == before.tables().len() + 1
            &&& mid.tables()[a].rows() == Seq::<usize>::empty()
            &&& forall|b: int|
                0 <= b < before.tables().len() ==> #[trigger] mid.tables()[b] == before.tables()[b]
        },
        after.archetype_lookup == mid.archetype_lookup,
        after.tables().len() == mid.tables().len(),
        forall|b: int| 0 <= b < mid.tables().len() && b != a ==> #[trigger] after.tables()[b]
            == mid.tables()[b],
        after.tables()[a].schema() == mid.tables()[a].schema(),
        after.tables()[a].rows() == mid.tables()[a].rows().push(entity.index),
        forall|c: int|
            0 <= c < mid.tables()[a].schema().len() ==> (#[trigger] after.tables()[a].column(c)).drop_last()
                == mid.tables()[a].column(c),
        new_slot(mid, after, a, entity),
        after.is_alive(entity),
        !mid.occupied(entity.index),
        forall|index: usize| #[trigger] mid.occupied(index) ==> after.occupied(index) && index
            != entity.index,
    ensures
        spawned_into(before, after, entity),
        !before.is_alive(entity),
{
    before.lemma_bounded();
    mid.lemma_bounded();
    after.lemma_bounded();
    let location = after.slots()[entity.index as int].1;
    assert(location.storage_index == a);
    assert(after.schema_of(entity) == mid.schemas()[a]);
    assert(!before.occupied(entity.index)) by {
        if before.occupied(entity.index) {
            let b = before.slots()[entity.index as int].1.storage_index as int;
            assert(mid.tables()[b] == before.tables()[b]);
            assert(mid.occupied(entity.index));
        }
    }
    if before.has_schema(mid.schemas()[a]) {
    } else {
        assert(after.tables()[a].rows() =~= seq![entity.index]);
    }
    assert forall|b: int| 0 <= b < before.tables().len() && b != a implies #[trigger] after.tables()[b]
        == before.tables()[b] by {
        assert(after.tables()[b] == mid.tables()[b]);
        assert(mid.tables()[b] == before.tables()[b]);
    }
    assert forall|other: Entity| #[trigger] before.is_alive(other) implies after.is_alive(other)
        && after.slots()[other.index as int] == before.slots()[other.index as int] && forall|
        id: ComponentId,
    |
        after.component_spec(other, id) == before.component_spec(other, id) by {
        let place = before.slots()[other.index as int].1;
        let b = place.storage_index as int;
        let r = place.index_within_storage as int;
        assert(mid.tables()[b] == before.tables()[b]);
        assert(mid.occupied(other.index));
        assert(after.occupied(other.index));
        assert(other.index != entity.index);
        assert(after.slots()[other.index as int] == before.slots()[other.index as int]);
        assert(after.schemas()[b] == before.schemas()[b]);
        assert forall|id: ComponentId| after.component_spec(other, id) == before.component_spec(
            other,
            id,
        ) by {
            before.lemma_layout();
            assert(before.schemas()[b] == before.tables()[b].schema());
            lemma_column_in(before.schemas()[b], id);
            match column_in(before.schemas()[b], id) {
                Some(c) => {
                    if b == a {
                        assert(after.tables()[a].column(c as int).drop_last() == mid.tables()[a].column(
                            c as int,
                        ));
                        assert(mid.tables()[a].column(c as int).len() == mid.tables()[a].rows().len());
                        assert(after.tables()[a].column(c as int).drop_last()[r]
                            == after.tables()[a].column(c as int)[r]);
                    } else {
                        assert(after.tables()[b] == before.tables()[b]);
                    }
                },
                None => {},
            }
        }
    }
}

/// The world after the row of `entity` has been swap-removed and its slot
/// given up is well-formed, and `entity` no longer exists in it.
proof fn lemma_despawn_keeps_wf<T>(before: World<T>, mid: World<T>, after: World<T>, entity: Entity)
    requires
        before.wf(),
        before.is_alive(entity),
        entity.generation < u32::MAX,
        ({
            let location = before.slots()[entity.index as int].1;
            let a = location.storage_index as int;
            let row = location.index_within_storage as int;
            let last = before.tables()[a].rows().last();
            &&& mid.archetype_lookup == before.archetype_lookup
            &&& mid.tables().len() == before.tables().len()
            &&& forall|b: int|
                0 <= b < before.tables().len() && b != a ==> #[trigger] mid.tables()[b]
                    == before.tables()[b]
            &&& mid.tables()[a].wf()
            &&& mid.tables()[a].schema() == before.tables()[a].schema()
            &&& mid.tables()[a].rows() == swap_removed(before.tables()[a].rows(), row)
            &&& forall|c: int|
                0 <= c < before.tables()[a].schema().len() ==> #[trigger] mid.tables()[a].column(c)
                    == swap_removed(before.tables()[a].column(c), row)
            &&& mid.free_slots() == before.free_slots()
            &&& mid.slots() == before.slots().update(
                last as int,
                (
                    before.slots()[last as int].0,
                    (EntityLocation {
                        storage_index: before.slots()[last as int].1.storage_index,
                        index_within_storage: row as usize,
                    }),
                ),
            )
            &&& after.archetype_lookup == mid.archetype_lookup
            &&& after.archetypes == mid.archetypes
            &&& after.entity_manager.wf()
            &&& after.slots().len() == mid.slots().len()
            &&& forall|i: int|
                0 <= i < mid.slots().len() && i != entity.index ==> after.slots()[i] == mid.slots()[i]
            &&& after.slots()[entity.index as int].1 == mid.slots()[entity.index as int].1
            &&& after.slots()[entity.index as int].0 == (entity.generation + 1) as u32
            &&& after.free_slots() == mid.free_slots().push(entity.index)
        }),
    ensures
        after.wf(),
        despawned_from(before, after, entity),
{
    let location = before.slots()[entity.index as int].1;
    let a = location.storage_index as int;
    let row = location.index_within_storage as int;
    let old_rows = before.tables()[a].rows();
    let new_rows = after.tables()[a].rows();
    let last = old_rows.last();
    before.lemma_bounded();
    after.lemma_bounded();
    assert(old_rows[old_rows.len() - 1] == last);
    assert(before.slots()[last as int].1 == EntityLocation {
        storage_index: a as usize,
        index_within_storage: (old_rows.len() - 1) as usize,
    });
    assert(before.occupied(entity.index));
    assert(before.slots()[entity.index as int].0 == entity.generation);
    // Each row still names a slot that names the row.
    assert forall|b: int, r: int|
        0 <= b < after.tables().len() && 0 <= r < after.tables()[b].rows().len() implies {
        let index = #[trigger] after.tables()[b].rows()[r];
        &&& index < after.slots().len()
        &&& after.slots()[index as int].1 == (EntityLocation {
            storage_index: b as usize,
            index_within_storage: r as usize,
        })
    } by {
        let index = after.tables()[b].rows()[r];
        if b == a {
            if r == row {
                assert(index == last);
                assert(last != entity.index);
            } else {
                assert(index == old_rows[r]);
                assert(before.slots()[index as int].1 == EntityLocation {
                    storage_index: a as usize,
                    index_within_storage: r as usize,
                });
                assert(index != last);
                assert(index != entity.index);
            }
        } else {
            assert(after.tables()[b] == before.tables()[b]);
            assert(index == before.tables()[b].rows()[r]);
            assert(before.slots()[index as int].1 == EntityLocation {
                storage_index: b as usize,
                index_within_storage: r as usize,
            });
            assert(index != last);
            assert(index != entity.index);
        }
    }
    assert(!after.occupied(entity.index)) by {
        if row < new_rows.len() {
            assert(new_rows[row] == last);
            assert(last != entity.index) by {
                if last == entity.index {
                    assert(row == old_rows.len() - 1);
                }
            }
        }
    }
    // A slot is occupied afterwards only if it was before.
    assert forall|index: usize| #[trigger] after.occupied(index) implies before.occupied(index)
        && index != entity.index by {
        let place = after.slots()[index as int].1;
        let b = place.storage_index as int;
        let r = place.index_within_storage as int;
        assert(after.tables()[b].rows()[r] == index);
        if b == a {
            if r == row {
                assert(index == last);
            } else {
                assert(old_rows[r] == index);
                assert(index != last);
            }
        } else {
            assert(after.tables()[b] == before.tables()[b]);
            assert(before.tables()[b].rows()[r] == index);
            assert(index != last);
        }
    }
    assert forall|k: int| 0 <= k < after.free_slots().len() implies {
        let index = #[trigger] after.free_slots()[k];
        &&& index < after.slots().len()
        &&& !after.occupied(index)
    } by {
        let index = after.free_slots()[k];
        if k < before.free_slots().len() {
            assert(index == before.free_slots()[k]);
            assert(!before.occupied(index));
            assert(index != entity.index);
            assert(index != last);
        }
    }
    assert forall|k: int, l: int| 0 <= k < l < after.free_slots().len() implies after.free_slots()[k]
        != after.free_slots()[l] by {
        if l == before.free_slots().len() {
            assert(!before.occupied(before.free_slots()[k]));
        } else {
            assert(before.free_slots()[k] != before.free_slots()[l]);
        }
    }
    assert forall|b: int| 0 <= b < after.tables().len() implies (#[trigger] after.tables()[b]).wf()
        && after.tables()[b].schema() == after.schemas()[b] by {
        if b != a {
            assert(after.tables()[b] == before.tables()[b]);
        }
    }
    before.lemma_layout();
    assert forall|other: Entity| #[trigger] before.is_alive(other) && other != entity implies kept(
        before,
        after,
        other,
    ) && after.slots()[other.index as int].1.index_within_storage == row_after_removal(
        before,
        entity,
        other,
    ) by {
        let place = before.slots()[other.index as int].1;
        let b = place.storage_index as int;
        let r = place.index_within_storage as int;
        assert(before.tables()[b].rows()[r] == other.index);
        assert(other.index != entity.index);
        if b != a {
            assert(after.tables()[b] == before.tables()[b]);
            assert(other.index != last);
        } else {
            assert(before.tables()[a].schema() == before.schemas()[a]);
            if r == old_rows.len() - 1 {
                assert(other.index == last);
                assert(new_rows[row] == last);
            } else {
                assert(other.index != last);
                assert(new_rows[r] == other.index);
            }
            assert forall|id: ComponentId| after.component_spec(other, id) == before.component_spec(
                other,
                id,
            ) by {
                before.tables()[a].lemma_bounded();
                lemma_column_in(before.schemas()[a], id);
                match column_in(before.schemas()[a], id) {
                    Some(c) => {
                        assert(after.tables()[a].column(c as int) == swap_removed(
                            before.tables()[a].column(c as int),
                            row,
                        ));
                        assert(before.tables()[a].column(c as int).len() == old_rows.len());
                    },
                    None => {},
                }
            }
        }
    }
}

} // verus!
