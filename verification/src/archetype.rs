//! Archetypes: the tables that hold the components of the entities of one
//! schema, a column per component id and a row per entity.
use vstd::prelude::*;
use crate::bundle::all_held;
use crate::entity_manager::EntityManager;
use crate::matching::{column_in, is_schema, lemma_column_in, lemma_schema_position};
use crate::{AnyComponentTrait, ComponentId, EntityLocation};

verus! {

/// What `values` is after the entry at `index` has been swap-removed: the
/// last entry takes its place.
pub open spec fn swap_removed<T>(values: Seq<T>, index: int) -> Seq<T> {
    values.update(index, values.last()).drop_last()
}

/// One column of an archetype: the components of one kind, one per row.
pub trait ArchetypeComponentChannel<T>: Sized {
    /// The components of the column, by row.
    spec fn values(&self) -> Seq<T>;

    /// Moves the component at `index` to the end of `other`; the last
    /// component of this column takes its place.
    fn migrate(&mut self, other: &mut Self, index: usize)
        requires
            index < old(self).values().len(),
        ensures
            final(self).values() == swap_removed(old(self).values(), index as int),
            final(other).values() == old(other).values().push(old(self).values()[index as int]),
    ;

    /// Removes the component at `index`; the last component of the column
    /// takes its place.
    fn swap_remove(&mut self, index: usize)
        requires
            index < old(self).values().len(),
        ensures
            final(self).values() == swap_removed(old(self).values(), index as int),
    ;

    /// Takes the component that `component` holds and appends it.
    fn push(&mut self, component: &mut Option<T>)
        requires
            *old(component) is Some,
        ensures
            final(self).values() == old(self).values().push((*old(component))->0),
            *final(component) == None::<T>,
    ;
}

impl<T> ArchetypeComponentChannel<T> for Vec<T> {
    open spec fn values(&self) -> Seq<T> {
        self@
    }

    fn migrate(&mut self, other: &mut Self, index: usize) {
        let component = Vec::swap_remove(self, index);
        Vec::push(other, component);
    }

    fn swap_remove(&mut self, index: usize) {
        let _ = Vec::swap_remove(self, index);
    }

    fn push(&mut self, component: &mut Option<T>) {
        match component.take_component() {
            Some(component) => {
                Vec::push(self, component);
            },
            None => {},
        }
    }
}

/// The table of the entities that hold one set of components: a column per
/// component id, in ascending order of the ids, and a row per entity.
pub struct Archetype<T> {
    pub(crate) entity_indices: Vec<usize>,
    pub(crate) channels: Vec<(ComponentId, Vec<T>)>,
}

impl<T> Archetype<T> {
    /// The component ids of the columns, in the columns' order.
    pub open(crate) spec fn schema(&self) -> Seq<ComponentId> {
        Seq::new(self.channels@.len(), |i: int| self.channels@[i].0)
    }

    /// The components of the column at `position`, by row.
    pub open(crate) spec fn column(&self, position: int) -> Seq<T> {
        self.channels@[position].1@
    }

    /// The entity index of each row.
    pub open(crate) spec fn rows(&self) -> Seq<usize> {
        self.entity_indices@
    }

    /// The schema is sorted and every column has one component per row.
    pub open spec fn wf(&self) -> bool {
        &&& is_schema(self.schema())
        &&& forall|i: int|
            0 <= i < self.schema().len() ==> (#[trigger] self.column(i)).len() == self.rows().len()
    }

    /// Rows and columns fit in memory.
    pub proof fn lemma_bounded(&self)
        ensures
            self.rows().len() <= usize::MAX,
            self.schema().len() <= usize::MAX,
    {
        assert(self.entity_indices.len() == self.rows().len());
        assert(self.channels.len() == self.schema().len());
    }

    /// An archetype without columns and rows.
    pub fn new() -> (archetype: Self)
        ensures
            archetype.schema() == Seq::<ComponentId>::empty(),
            archetype.rows() == Seq::<usize>::empty(),
            archetype.wf(),
    {
        let archetype = Self { entity_indices: Vec::new(), channels: Vec::new() };
        assert(archetype.schema() =~= Seq::<ComponentId>::empty());
        archetype
    }

    /// Number of rows.
    pub fn len(&self) -> (n: usize)
        ensures
            n == self.rows().len(),
    {
        self.entity_indices.len()
    }

    /// Number of columns.
    pub fn channel_count(&self) -> (n: usize)
        ensures
            n == self.schema().len(),
    {
        self.channels.len()
    }

    /// An archetype of the schema `component_ids`, without rows.
    pub fn with_schema(component_ids: &Vec<ComponentId>) -> (archetype: Self)
        requires
            is_schema(component_ids@),
        ensures
            archetype.wf(),
            archetype.schema() == component_ids@,
            archetype.rows() == Seq::<usize>::empty(),
    {
        let mut archetype = Archetype::new();
        let mut i: usize = 0;
        while i < component_ids.len()
            invariant
                i <= component_ids@.len(),
                archetype.schema() == component_ids@.subrange(0, i as int),
                archetype.rows() == Seq::<usize>::empty(),
                forall|j: int| 0 <= j < i ==> (#[trigger] archetype.column(j)).len() == 0,
            decreases component_ids@.len() - i,
        {
            let ghost before = archetype;
            let absent: Option<T> = None;
            archetype.channels.push((component_ids[i], absent.new_archetype_channel()));
            proof {
                assert(before.schema().len() == i);
                assert forall|j: int| 0 <= j < i + 1 implies archetype.schema()[j]
                    == component_ids@.subrange(0, i + 1)[j] by {
                    if j < i {
                        assert(archetype.schema()[j] == before.schema()[j]);
                        assert(before.schema()[j] == component_ids@.subrange(0, i as int)[j]);
                    }
                }
                assert(archetype.schema() =~= component_ids@.subrange(0, i + 1));
                assert forall|j: int| 0 <= j < i + 1 implies (#[trigger] archetype.column(j)).len()
                    == 0 by {
                    if j < i {
                        assert(archetype.column(j) == before.column(j));
                    }
                }
            }
            i += 1;
        }
        assert(component_ids@.subrange(0, component_ids@.len() as int) =~= component_ids@);
        archetype
    }

    /// Appends one component to each column: the component that
    /// `components` holds at the column's position.
    pub fn append_row(&mut self, components: &mut Vec<(Option<T>, ComponentId)>)
        requires
            old(self).wf_schema(),
            old(components)@.len() == old(self).schema().len(),
            all_held(old(components)@),
        ensures
            final(self).schema() == old(self).schema(),
            final(self).rows() == old(self).rows(),
            final(components)@.len() == old(components)@.len(),
            forall|i: int|
                0 <= i < old(self).schema().len() ==> #[trigger] final(self).column(i)
                    == old(self).column(i).push(old(components)@[i].0->0),
    {
        let mut i: usize = 0;
        while i < self.channels.len()
            invariant
                i <= self.channels@.len(),
                self.schema() == old(self).schema(),
                self.entity_indices == old(self).entity_indices,
                components@.len() == old(components)@.len(),
                components@.len() == self.channels@.len(),
                all_held(old(components)@),
                forall|j: int| i <= j < components@.len() ==> #[trigger] components@[j]
                    == old(components)@[j],
                forall|j: int|
                    0 <= j < i ==> #[trigger] self.column(j) == old(self).column(j).push(
                        old(components)@[j].0->0,
                    ),
                forall|j: int|
                    i <= j < self.channels@.len() ==> #[trigger] self.column(j) == old(self).column(j),
            decreases self.channels@.len() - i,
        {
            let ghost before = *self;
            assert(old(components)@[i as int].0 is Some);
            assert(self.column(i as int) == old(self).column(i as int));
            ArchetypeComponentChannel::push(&mut self.channels[i].1, &mut components[i].0);
            proof {
                assert(self.schema() =~= before.schema());
                assert forall|j: int| 0 <= j < i + 1 implies #[trigger] self.column(j)
                    == old(self).column(j).push(old(components)@[j].0->0) by {
                    if j < i {
                        assert(self.column(j) == before.column(j));
                    }
                }
                assert forall|j: int| i + 1 <= j < self.channels@.len() implies #[trigger] self.column(
                    j,
                ) == old(self).column(j) by {
                    assert(self.column(j) == before.column(j));
                }
            }
            i += 1;
        }
    }

    /// The entity index of each row.
    pub fn entity_indices(&self) -> (indices: &Vec<usize>)
        ensures
            indices@ == self.rows(),
    {
        &self.entity_indices
    }

    /// The id of the column at `position`.
    pub fn channel_id(&self, position: usize) -> (id: ComponentId)
        requires
            position < self.schema().len(),
        ensures
            id == self.schema()[position as int],
    {
        self.channels[position].0
    }

    /// The column at `position`.
    pub fn channel(&self, position: usize) -> (column: &Vec<T>)
        requires
            position < self.schema().len(),
        ensures
            column@ == self.column(position as int),
    {
        &self.channels[position].1
    }

    /// Appends `entity_index` to the entity indices, for a row whose
    /// components the columns already hold.
    pub fn push_entity_index(&mut self, entity_index: usize)
        ensures
            final(self).schema() == old(self).schema(),
            final(self).rows() == old(self).rows().push(entity_index),
            forall|i: int| 0 <= i < old(self).schema().len() ==> #[trigger] final(self).column(i)
                == old(self).column(i),
    {
        self.entity_indices.push(entity_index);
    }

    /// Removes the entity index of the row `row`; the last entity index
    /// takes its place. For a row whose components the columns have given up.
    pub fn swap_remove_entity_index(&mut self, row: usize)
        requires
            row < old(self).rows().len(),
        ensures
            final(self).schema() == old(self).schema(),
            final(self).rows() == swap_removed(old(self).rows(), row as int),
            forall|i: int| 0 <= i < old(self).schema().len() ==> #[trigger] final(self).column(i)
                == old(self).column(i),
    {
        let _ = self.entity_indices.swap_remove(row);
    }

    /// The component at `row` of the column at `position`, to be written.
    pub fn component_mut(&mut self, position: usize, row: usize) -> (component: &mut T)
        requires
            position < old(self).schema().len(),
            row < old(self).column(position as int).len(),
        ensures
            *component == old(self).column(position as int)[row as int],
            final(self).schema() == old(self).schema(),
            final(self).rows() == old(self).rows(),
            final(self).column(position as int) == old(self).column(position as int).update(
                row as int,
                *final(component),
            ),
            forall|i: int|
                0 <= i < old(self).schema().len() && i != position ==> #[trigger] final(self).column(i)
                    == old(self).column(i),
    {
        &mut self.channels[position].1[row]
    }

    /// Takes the component at `row` out of the column at `position`; the
    /// last component of that column takes its place.
    pub fn take_component(&mut self, position: usize, row: usize) -> (component: T)
        requires
            position < old(self).schema().len(),
            row < old(self).column(position as int).len(),
        ensures
            component == old(self).column(position as int)[row as int],
            final(self).schema() == old(self).schema(),
            final(self).rows() == old(self).rows(),
            final(self).column(position as int) == swap_removed(
                old(self).column(position as int),
                row as int,
            ),
            forall|i: int|
                0 <= i < old(self).schema().len() && i != position ==> #[trigger] final(self).column(i)
                    == old(self).column(i),
    {
        let component = self.channels[position].1.swap_remove(row);
        assert(self.schema() =~= old(self).schema());
        component
    }

    /// Appends the component that `component` holds to the column at
    /// `position`.
    pub fn push_component(&mut self, position: usize, component: &mut Option<T>)
        requires
            position < old(self).schema().len(),
            *old(component) is Some,
        ensures
            *final(component) == None::<T>,
            final(self).schema() == old(self).schema(),
            final(self).rows() == old(self).rows(),
            final(self).column(position as int) == old(self).column(position as int).push(
                (*old(component))->0,
            ),
            forall|i: int|
                0 <= i < old(self).schema().len() && i != position ==> #[trigger] final(self).column(i)
                    == old(self).column(i),
    {
        ArchetypeComponentChannel::push(&mut self.channels[position].1, component);
        assert(self.schema() =~= old(self).schema());
    }

    /// The position of the column of `component_id`, if there is one.
    pub fn find_channel(&self, component_id: ComponentId) -> (position: Option<usize>)
        requires
            self.wf_schema(),
        ensures
            position == column_in(self.schema(), component_id),
            match position {
                Some(position) => position < self.schema().len() && self.schema()[position as int]
                    == component_id,
                None => !self.schema().contains(component_id),
            },
    {
        let mut i: usize = 0;
        while i < self.channels.len()
            invariant
                self.wf_schema(),
                i <= self.channels@.len(),
                forall|j: int| 0 <= j < i ==> self.schema()[j] != component_id,
            decreases self.channels@.len() - i,
        {
            if self.channels[i].0.id == component_id.id {
                proof {
                    assert(self.schema()[i as int] == component_id);
                    lemma_schema_position(self.schema(), i as int);
                }
                return Some(i);
            }
            i += 1;
        }
        proof {
            if self.schema().contains(component_id) {
                let j = self.schema().index_of(component_id);
                assert(self.schema()[j] == component_id);
            }
        }
        None
    }

    /// For each id of `component_ids`, the position of its column. Every id
    /// must be an id of the schema.
    pub fn get_corresponding_channels(&self, component_ids: &[ComponentId]) -> (out: Vec<usize>)
        requires
            self.wf(),
            forall|i: int|
                0 <= i < component_ids@.len() ==> self.schema().contains(#[trigger] component_ids@[i]),
        ensures
            out@.len() == component_ids@.len(),
            forall|i: int|
                0 <= i < out@.len() ==> Some(#[trigger] out@[i]) == column_in(
                    self.schema(),
                    component_ids@[i],
                ),
    {
        let mut out: Vec<usize> = Vec::new();
        let mut i: usize = 0;
        while i < component_ids.len()
            invariant
                self.wf(),
                i <= component_ids@.len(),
                out@.len() == i,
                forall|k: int|
                    0 <= k < component_ids@.len() ==> self.schema().contains(
                        #[trigger] component_ids@[k],
                    ),
                forall|k: int|
                    0 <= k < i ==> Some(#[trigger] out@[k]) == column_in(
                        self.schema(),
                        component_ids@[k],
                    ),
            decreases component_ids@.len() - i,
        {
            assert(self.schema().contains(component_ids@[i as int]));
            match self.find_channel(component_ids[i]) {
                Some(position) => {
                    out.push(position);
                },
                None => {
                    assert(false);
                },
            }
            i += 1;
        }
        out
    }

    /// Moves the components of the row `entity_index` to `other`: from each
    /// column whose id `other` has too, the component goes to the end of the
    /// column of that id in `other`, and the last component of the column
    /// takes its place here. Columns that `other` lacks stay as they are, and
    /// so do the entity indices of both archetypes.
    pub fn migrate_entity_components(&mut self, other: &mut Archetype<T>, entity_index: usize)
        requires
            old(self).wf(),
            old(other).wf(),
            entity_index < old(self).rows().len(),
        ensures
            final(self).schema() == old(self).schema(),
            final(self).rows() == old(self).rows(),
            final(other).schema() == old(other).schema(),
            final(other).rows() == old(other).rows(),
            forall|i: int|
                0 <= i < old(self).schema().len() ==> #[trigger] final(self).column(i)
                    == if old(other).schema().contains(old(self).schema()[i]) {
                    swap_removed(old(self).column(i), entity_index as int)
                } else {
                    old(self).column(i)
                },
            forall|j: int|
                0 <= j < old(other).schema().len() ==> #[trigger] final(other).column(j)
                    == match column_in(old(self).schema(), old(other).schema()[j]) {
                    Some(i) => old(other).column(j).push(old(self).column(i as int)[entity_index as int]),
                    None => old(other).column(j),
                },
    {
        let count = self.channels.len();
        let other_count = other.channels.len();
        assert(self.schema().len() == count && other.schema().len() == other_count);
        let mut i: usize = 0;
        while i < self.channels.len()
            invariant
                i <= self.channels@.len(),
                old(self).wf(),
                old(other).wf(),
                other.wf_schema(),
                old(self).schema().len() <= usize::MAX,
                old(other).schema().len() <= usize::MAX,
                entity_index < old(self).rows().len(),
                self.schema() == old(self).schema(),
                self.entity_indices == old(self).entity_indices,
                other.schema() == old(other).schema(),
                other.entity_indices == old(other).entity_indices,
                forall|k: int|
                    0 <= k < i ==> #[trigger] self.column(k) == if old(other).schema().contains(
                        old(self).schema()[k],
                    ) {
                        swap_removed(old(self).column(k), entity_index as int)
                    } else {
                        old(self).column(k)
                    },
                forall|k: int|
                    i <= k < self.channels@.len() ==> #[trigger] self.column(k) == old(self).column(k),
                forall|j: int|
                    0 <= j < old(other).schema().len() ==> #[trigger] other.column(j)
                        == match column_in(old(self).schema(), old(other).schema()[j]) {
                        Some(k) => if k < i {
                            old(other).column(j).push(old(self).column(k as int)[entity_index as int])
                        } else {
                            old(other).column(j)
                        },
                        None => old(other).column(j),
                    },
            decreases self.channels@.len() - i,
        {
            let component_id = self.channels[i].0;
            let ghost source = *self;
            let ghost target = *other;
            proof {
                assert(self.schema()[i as int] == component_id);
                lemma_schema_position(old(self).schema(), i as int);
                assert(self.column(i as int) == old(self).column(i as int));
                assert(old(self).column(i as int).len() == old(self).rows().len());
            }
            match other.find_channel(component_id) {
                Some(j) => {
                    ArchetypeComponentChannel::migrate(
                        &mut self.channels[i].1,
                        &mut other.channels[j].1,
                        entity_index,
                    );
                    proof {
                        assert(self.schema() =~= source.schema());
                        assert(other.schema() =~= target.schema());
                        assert(old(other).schema()[j as int] == component_id);
                        assert forall|k: int| 0 <= k < i + 1 implies #[trigger] self.column(k)
                            == if old(other).schema().contains(old(self).schema()[k]) {
                            swap_removed(old(self).column(k), entity_index as int)
                        } else {
                            old(self).column(k)
                        } by {
                            if k < i {
                                assert(self.column(k) == source.column(k));
                            }
                        }
                        assert forall|k: int| i + 1 <= k < self.channels@.len()
                            implies #[trigger] self.column(
                            k,
                        ) == old(self).column(k) by {
                            assert(self.column(k) == source.column(k));
                        }
                        assert forall|l: int| 0 <= l < old(other).schema().len()
                            implies #[trigger] other.column(
                            l,
                        ) == match column_in(old(self).schema(), old(other).schema()[l]) {
                            Some(k) => if k < i + 1 {
                                old(other).column(l).push(
                                    old(self).column(k as int)[entity_index as int],
                                )
                            } else {
                                old(other).column(l)
                            },
                            None => old(other).column(l),
                        } by {
                            let expected = match column_in(
                                old(self).schema(),
                                old(other).schema()[l],
                            ) {
                                Some(k) => if k < i {
                                    old(other).column(l).push(
                                        old(self).column(k as int)[entity_index as int],
                                    )
                                } else {
                                    old(other).column(l)
                                },
                                None => old(other).column(l),
                            };
                            assert(target.column(l) == expected);
                            lemma_column_in(old(self).schema(), old(other).schema()[l]);
                            if l != j {
                                assert(other.column(l) == target.column(l));
                                lemma_schema_position(old(other).schema(), l);
                                lemma_schema_position(old(other).schema(), j as int);
                                assert(old(other).schema()[l] != component_id);
                                match column_in(old(self).schema(), old(other).schema()[l]) {
                                    Some(k) => {
                                        assert(old(self).schema()[k as int] == old(other).schema()[l]);
                                        assert(k != i);
                                    },
                                    None => {},
                                }
                            } else {
                                assert(column_in(old(self).schema(), component_id) == Some(i));
                                assert(other.column(l) == target.column(l).push(
                                    source.column(i as int)[entity_index as int],
                                ));
                            }
                        }
                    }
                },
                None => {
                    proof {
                        assert forall|l: int| 0 <= l < old(other).schema().len()
                            implies #[trigger] other.column(
                            l,
                        ) == match column_in(old(self).schema(), old(other).schema()[l]) {
                            Some(k) => if k < i + 1 {
                                old(other).column(l).push(
                                    old(self).column(k as int)[entity_index as int],
                                )
                            } else {
                                old(other).column(l)
                            },
                            None => old(other).column(l),
                        } by {
                            lemma_column_in(old(self).schema(), old(other).schema()[l]);
                            assert(other.column(l) == target.column(l));
                            assert(target.column(l) == match column_in(
                                old(self).schema(),
                                old(other).schema()[l],
                            ) {
                                Some(k) => if k < i {
                                    old(other).column(l).push(
                                        old(self).column(k as int)[entity_index as int],
                                    )
                                } else {
                                    old(other).column(l)
                                },
                                None => old(other).column(l),
                            });
                            match column_in(old(self).schema(), old(other).schema()[l]) {
                                Some(k) => {
                                    assert(old(self).schema()[k as int] == old(other).schema()[l]);
                                    assert(old(other).schema().contains(old(other).schema()[l]));
                                    assert(k != i);
                                },
                                None => {},
                            }
                        }
                    }
                },
            }
            i += 1;
        }
        proof {
            assert(old(self).schema().len() == self.channels@.len());
            assert forall|j: int| 0 <= j < old(other).schema().len() implies #[trigger] other.column(j)
                == match column_in(old(self).schema(), old(other).schema()[j]) {
                Some(i) => old(other).column(j).push(old(self).column(i as int)[entity_index as int]),
                None => old(other).column(j),
            } by {
                lemma_column_in(old(self).schema(), old(other).schema()[j]);
            }
        }
    }

    /// The schema is sorted.
    pub open spec fn wf_schema(&self) -> bool {
        is_schema(self.schema())
    }

    /// Removes the row `entity_index_in_archetype` from every column and from
    /// the entity indices. The last row takes its place, and the entity
    /// manager is told the new row of the entity that moved.
    pub fn remove_entity(
        &mut self,
        entity_manager: &mut EntityManager,
        entity_index_in_archetype: usize,
    )
        requires
            old(self).wf(),
            entity_index_in_archetype < old(self).rows().len(),
            old(self).rows().last() < old(entity_manager).table().len(),
        ensures
            final(self).wf(),
            final(self).schema() == old(self).schema(),
            final(self).rows() == swap_removed(old(self).rows(), entity_index_in_archetype as int),
            forall|i: int|
                0 <= i < old(self).schema().len() ==> #[trigger] final(self).column(i) == swap_removed(
                    old(self).column(i),
                    entity_index_in_archetype as int,
                ),
            final(entity_manager).free() == old(entity_manager).free(),
            final(entity_manager).table() == old(entity_manager).table().update(
                old(self).rows().last() as int,
                (
                    old(entity_manager).table()[old(self).rows().last() as int].0,
                    (EntityLocation {
                        storage_index: old(entity_manager).table()[old(self).rows().last() as int].1.storage_index,
                        index_within_storage: entity_index_in_archetype,
                    }),
                ),
            ),
    {
        let to_be_swap_removed = self.entity_indices[self.entity_indices.len() - 1];
        entity_manager.update_entity_index_in_archetype(
            to_be_swap_removed,
            entity_index_in_archetype,
        );
        let mut i: usize = 0;
        while i < self.channels.len()
            invariant
                i <= self.channels@.len(),
                old(self).wf(),
                entity_index_in_archetype < old(self).rows().len(),
                self.entity_indices == old(self).entity_indices,
                self.schema() == old(self).schema(),
                forall|j: int|
                    0 <= j < i ==> #[trigger] self.column(j) == swap_removed(
                        old(self).column(j),
                        entity_index_in_archetype as int,
                    ),
                forall|j: int|
                    i <= j < self.channels@.len() ==> #[trigger] self.column(j) == old(self).column(j),
            decreases self.channels@.len() - i,
        {
            let ghost before = *self;
            assert(self.column(i as int) == old(self).column(i as int));
            assert(old(self).column(i as int).len() == old(self).rows().len());
            ArchetypeComponentChannel::swap_remove(
                &mut self.channels[i].1,
                entity_index_in_archetype,
            );
            proof {
                assert(self.schema() =~= before.schema());
                assert forall|j: int| 0 <= j < i + 1 implies #[trigger] self.column(j)
                    == swap_removed(old(self).column(j), entity_index_in_archetype as int) by {
                    if j < i {
                        assert(self.column(j) == before.column(j));
                    }
                }
                assert forall|j: int| i + 1 <= j < self.channels@.len() implies #[trigger] self.column(
                    j,
                ) == old(self).column(j) by {
                    assert(self.column(j) == before.column(j));
                }
            }
            i += 1;
        }
        let ghost mid = *self;
        let _ = self.entity_indices.swap_remove(entity_index_in_archetype);
        proof {
            assert(self.schema() =~= mid.schema());
            assert(mid.schema().len() == mid.channels@.len());
            assert forall|j: int| 0 <= j < old(self).schema().len() implies #[trigger] self.column(j)
                == swap_removed(old(self).column(j), entity_index_in_archetype as int) by {
                assert(self.column(j) == mid.column(j));
            }
            assert forall|j: int| 0 <= j < self.schema().len() implies (#[trigger] self.column(j)).len()
                == self.rows().len() by {
                assert(self.column(j) == mid.column(j));
                assert(old(self).column(j).len() == old(self).rows().len());
            }
        }
    }
}

} // verus!
