//! An archetype-based entity-component-system world.
//!
//! Entities with the same set of component ids share one archetype, a table
//! with one column per component and one row per entity. The world keeps an
//! index from component ids to archetypes that answers filter queries in
//! ascending archetype order.
use vstd::prelude::*;

pub mod archetype;
pub mod archetype_lookup;
pub mod bundle;
pub mod chained_iterator;
pub mod entity_manager;
pub mod laws;
pub mod matching;
pub mod migration;
pub mod queries;
pub mod query_iterator;
pub mod sparse_set;
pub mod world;

pub use crate::archetype_lookup::{Filter, FilterType};
pub use crate::chained_iterator::ChainedIterator;
pub use crate::queries::{
    All, ArchetypeInfo, MutQueryTrait, One, QueryParameterTrait, QueryParametersTrait, QueryTrait,
};
pub use crate::query_iterator::{AllBorrow, GetIteratorsTrait};
pub use crate::archetype::{Archetype, ArchetypeComponentChannel};
pub use crate::world::World;

verus! {

/// Handle naming one entity: a slot of the entity table together with the
/// generation that the slot had when the handle was issued.
#[derive(Copy, Clone, PartialEq, Eq, Structural, PartialOrd, Ord, Hash, Debug)]
pub struct Entity {
    pub index: usize,
    pub generation: u32,
}

impl Entity {
    /// The handle to the slot `index` in the generation `generation`.
    pub fn from_index_and_generation(index: usize, generation: u32) -> (entity: Self)
        ensures
            entity == (Entity { index, generation }),
    {
        Self { index, generation }
    }
}

/// Identifier of one kind of component. Identifiers are ordered by `id`.
#[derive(Copy, Clone, PartialEq, Eq, Structural, PartialOrd, Ord, Hash, Debug)]
pub struct ComponentId {
    pub id: u64,
}

impl ComponentId {
    /// The identifier of the number `id`.
    pub fn new(id: u64) -> (component_id: Self)
        ensures
            component_id == (ComponentId { id }),
    {
        Self { id }
    }
}

/// Why a world could not do what was asked of it.
#[derive(Copy, Clone, PartialEq, Eq, Structural, Debug)]
pub enum ECSError {
    /// A query for exactly one row found no archetype with a row in it.
    NoMatchingComponent,
    /// The entity's index lies beyond the entity table.
    NoMatchingEntity,
    /// The entity's slot has moved on to a later generation.
    EntityNoLongerExists,
}

/// Where an entity's components live: an archetype and a row in it.
#[derive(Copy, Clone, PartialEq, Eq, Structural, Debug)]
pub struct EntityLocation {
    pub storage_index: usize,
    pub index_within_storage: usize,
}

/// A component: a value that knows which kind of component it is.
pub trait ComponentTrait: Sized {
    /// The id of the kind of component that this value is.
    spec fn id_spec(&self) -> ComponentId;

    /// The id of the kind of component that this value is.
    fn component_id(&self) -> (id: ComponentId)
        ensures
            id == self.id_spec(),
    ;

    /// A copy of `data`, for components that can be copied.
    fn clone_vec(data: &[Self]) -> (copy: Option<Vec<Self>>)
        ensures
            match copy {
                Some(copy) => copy@.len() == data@.len() && forall|i: int|
                    0 <= i < copy@.len() ==> (#[trigger] copy@[i]).id_spec() == data@[i].id_spec(),
                None => true,
            },
    ;

    /// An empty column for components of this type.
    fn make_vec() -> (column: Vec<Self>)
        ensures
            column@.len() == 0,
    {
        Vec::new()
    }
}

/// A value tagged with the id of its kind is a component.
impl<V: Copy> ComponentTrait for (ComponentId, V) {
    open spec fn id_spec(&self) -> ComponentId {
        self.0
    }

    fn component_id(&self) -> (id: ComponentId) {
        self.0
    }

    fn clone_vec(data: &[Self]) -> (copy: Option<Vec<Self>>)
        ensures
            copy is Some,
            copy->0@ == data@,
    {
        let mut copy: Vec<Self> = Vec::new();
        let mut i: usize = 0;
        while i < data.len()
            invariant
                i <= data@.len(),
                copy@.len() == i,
                forall|j: int| 0 <= j < i ==> (#[trigger] copy@[j]) == data@[j],
            decreases data@.len() - i,
        {
            copy.push(data[i]);
            i += 1;
        }
        assert(copy@ =~= data@);
        Some(copy)
    }
}

/// A component on its way into a column: present until a column has taken it.
pub trait AnyComponentTrait<T> {
    /// The component, while it has not been taken.
    spec fn held(&self) -> Option<T>;

    /// An empty column that can take this component.
    fn new_archetype_channel(&self) -> (channel: Vec<T>)
        ensures
            channel@.len() == 0,
    ;

    /// Hands the component over, leaving nothing behind.
    fn take_component(&mut self) -> (component: Option<T>)
        ensures
            component == old(self).held(),
            final(self).held() == None::<T>,
    ;
}

impl<T> AnyComponentTrait<T> for Option<T> {
    open spec fn held(&self) -> Option<T> {
        *self
    }

    fn new_archetype_channel(&self) -> (channel: Vec<T>) {
        Vec::new()
    }

    fn take_component(&mut self) -> (component: Option<T>) {
        self.take()
    }
}

/// The ids of a sequence of components with ids.
pub open spec fn ids_of<T>(components: Seq<(ComponentId, T)>) -> Seq<ComponentId> {
    Seq::new(components.len(), |i: int| components[i].0)
}

/// A set of components that are spawned or added together.
pub trait ComponentBundleTrait<T>: Sized {
    /// The components of the bundle, each with its id.
    spec fn components(&self) -> Seq<(ComponentId, T)>;

    /// Takes the bundle apart into its components, each with its id.
    fn get_components_and_ids(self) -> (pairs: Vec<(Option<T>, ComponentId)>)
        ensures
            pairs@.len() == self.components().len(),
            forall|i: int|
                0 <= i < pairs@.len() ==> #[trigger] pairs@[i] == (
                    Some(self.components()[i].1),
                    self.components()[i].0,
                ),
    ;

    /// Appends the ids of the bundle's components to `component_ids`.
    fn append_component_ids(&self, component_ids: &mut Vec<ComponentId>)
        ensures
            final(component_ids)@ == old(component_ids)@ + ids_of(self.components()),
    ;
}

impl<T: ComponentTrait> ComponentBundleTrait<T> for T {
    open spec fn components(&self) -> Seq<(ComponentId, T)> {
        seq![(self.id_spec(), *self)]
    }

    fn get_components_and_ids(self) -> (pairs: Vec<(Option<T>, ComponentId)>) {
        let id = self.component_id();
        let mut pairs: Vec<(Option<T>, ComponentId)> = Vec::new();
        pairs.push((Some(self), id));
        pairs
    }

    fn append_component_ids(&self, component_ids: &mut Vec<ComponentId>) {
        component_ids.push(self.component_id());
        assert(component_ids@ =~= old(component_ids)@ + ids_of(self.components()));
    }
}

impl<T: ComponentTrait> ComponentBundleTrait<T> for (T, T) {
    open spec fn components(&self) -> Seq<(ComponentId, T)> {
        seq![(self.0.id_spec(), self.0), (self.1.id_spec(), self.1)]
    }

    fn get_components_and_ids(self) -> (pairs: Vec<(Option<T>, ComponentId)>) {
        let first = self.0.component_id();
        let second = self.1.component_id();
        let mut pairs: Vec<(Option<T>, ComponentId)> = Vec::new();
        pairs.push((Some(self.0), first));
        pairs.push((Some(self.1), second));
        pairs
    }

    fn append_component_ids(&self, component_ids: &mut Vec<ComponentId>) {
        component_ids.push(self.0.component_id());
        component_ids.push(self.1.component_id());
        assert(component_ids@ =~= old(component_ids)@ + ids_of(self.components()));
    }
}

impl<T> ComponentBundleTrait<T> for Vec<(ComponentId, T)> {
    open spec fn components(&self) -> Seq<(ComponentId, T)> {
        self@
    }

    fn get_components_and_ids(self) -> (pairs: Vec<(Option<T>, ComponentId)>) {
        let mut rest = self;
        let mut reversed: Vec<(Option<T>, ComponentId)> = Vec::new();
        while rest.len() > 0
            invariant
                rest@.len() <= self@.len(),
                reversed@.len() == self@.len() - rest@.len(),
                rest@ == self@.subrange(0, rest@.len() as int),
                forall|i: int|
                    0 <= i < reversed@.len() ==> #[trigger] reversed@[i] == (
                        Some(self@[self@.len() - 1 - i].1),
                        self@[self@.len() - 1 - i].0,
                    ),
            decreases rest@.len(),
        {
            match rest.pop() {
                Some((id, component)) => {
                    reversed.push((Some(component), id));
                    assert(rest@ =~= self@.subrange(0, rest@.len() as int));
                },
                None => {},
            }
        }
        let mut pairs: Vec<(Option<T>, ComponentId)> = Vec::new();
        while reversed.len() > 0
            invariant
                reversed@.len() + pairs@.len() == self@.len(),
                forall|i: int|
                    0 <= i < reversed@.len() ==> #[trigger] reversed@[i] == (
                        Some(self@[self@.len() - 1 - i].1),
                        self@[self@.len() - 1 - i].0,
                    ),
                forall|i: int|
                    0 <= i < pairs@.len() ==> #[trigger] pairs@[i] == (Some(self@[i].1), self@[i].0),
            decreases reversed@.len(),
        {
            match reversed.pop() {
                Some(pair) => {
                    pairs.push(pair);
                },
                None => {},
            }
        }
        pairs
    }

    fn append_component_ids(&self, component_ids: &mut Vec<ComponentId>) {
        let mut i: usize = 0;
        while i < self.len()
            invariant
                i <= self@.len(),
                component_ids@ == old(component_ids)@ + ids_of(self@.subrange(0, i as int)),
            decreases self@.len() - i,
        {
            component_ids.push(self[i].0);
            assert(component_ids@ =~= old(component_ids)@ + ids_of(self@.subrange(0, i + 1)));
            i += 1;
        }
        assert(self@.subrange(0, self@.len() as int) =~= self@);
    }
}

} // verus!
