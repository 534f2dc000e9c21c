//! Queries: the filters that a query is made of, and the columns that it
//! finds in each archetype that passes them.
use vstd::prelude::*;
use crate::archetype_lookup::{Filter, FilterType};
use crate::matching::{
    all_matches, filter_column, lemma_column_in, matched_columns, matches_view, schema_matches,
};
use crate::query_iterator::{row_of, row_view, AllBorrow, GetIteratorsTrait};
use crate::archetype::Archetype;
use crate::world::World;
use crate::{ComponentId, ECSError};

verus! {

/// One parameter of a query: a component id and what is asked of it.
pub trait QueryParameterTrait {
    /// The filter that this parameter stands for.
    spec fn filter_spec(&self) -> Filter;

    /// The component id that the parameter is about.
    fn get_component_id(&self) -> (id: ComponentId)
        ensures
            id == self.filter_spec().component_id,
    ;

    /// The filter that this parameter stands for.
    fn get_filter(&self) -> (filter: Filter)
        ensures
            filter == self.filter_spec(),
    ;
}

/// A component id alone asks for archetypes that hold it.
impl QueryParameterTrait for ComponentId {
    open spec fn filter_spec(&self) -> Filter {
        Filter { component_id: *self, filter_type: FilterType::With }
    }

    fn get_component_id(&self) -> (id: ComponentId) {
        *self
    }

    fn get_filter(&self) -> (filter: Filter) {
        Filter { component_id: *self, filter_type: FilterType::With }
    }
}

impl QueryParameterTrait for Filter {
    open spec fn filter_spec(&self) -> Filter {
        *self
    }

    fn get_component_id(&self) -> (id: ComponentId) {
        self.component_id
    }

    fn get_filter(&self) -> (filter: Filter) {
        *self
    }
}

/// The parameters of a query, in the order in which a row lists them.
pub trait QueryParametersTrait {
    /// The filters of the parameters, in the parameters' order.
    spec fn filters_spec(&self) -> Seq<Filter>;

    /// The filters of the parameters, in the parameters' order.
    fn get_filters(&self) -> (filters: Vec<Filter>)
        ensures
            filters@ == self.filters_spec(),
    ;
}

impl<A: QueryParameterTrait> QueryParametersTrait for A {
    open spec fn filters_spec(&self) -> Seq<Filter> {
        seq![self.filter_spec()]
    }

    fn get_filters(&self) -> (filters: Vec<Filter>) {
        let mut filters: Vec<Filter> = Vec::new();
        filters.push(self.get_filter());
        filters
    }
}

impl<A: QueryParameterTrait, B: QueryParameterTrait> QueryParametersTrait for (A, B) {
    open spec fn filters_spec(&self) -> Seq<Filter> {
        seq![self.0.filter_spec(), self.1.filter_spec()]
    }

    fn get_filters(&self) -> (filters: Vec<Filter>) {
        let mut filters: Vec<Filter> = Vec::new();
        filters.push(self.0.get_filter());
        filters.push(self.1.get_filter());
        filters
    }
}

impl<A: QueryParameterTrait> QueryParametersTrait for Vec<A> {
    open spec fn filters_spec(&self) -> Seq<Filter> {
        Seq::new(self@.len(), |i: int| self@[i].filter_spec())
    }

    fn get_filters(&self) -> (filters: Vec<Filter>) {
        let mut filters: Vec<Filter> = Vec::new();
        let mut i: usize = 0;
        while i < self.len()
            invariant
                i <= self@.len(),
                filters@.len() == i,
                forall|j: int| 0 <= j < i ==> filters@[j] == self@[j].filter_spec(),
            decreases self@.len() - i,
        {
            filters.push(self[i].get_filter());
            i += 1;
        }
        assert(filters@ =~= self.filters_spec());
        filters
    }
}

/// Which archetype a part of a query result comes from, and the entity
/// index of each of its rows.
pub struct ArchetypeInfo<'a> {
    archetype_index: usize,
    archetype_entities: &'a Vec<usize>,
}

impl<'a> ArchetypeInfo<'a> {
    /// The index of the archetype.
    pub closed spec fn index_spec(&self) -> usize {
        self.archetype_index
    }

    /// The entity index of each row of the archetype.
    pub closed spec fn entities_spec(&self) -> Seq<usize> {
        self.archetype_entities@
    }

    /// The info on the archetype `archetype_index` with the rows
    /// `archetype_entities`.
    pub fn new(archetype_index: usize, archetype_entities: &'a Vec<usize>) -> (info: Self)
        ensures
            info.index_spec() == archetype_index,
            info.entities_spec() == archetype_entities@,
    {
        Self { archetype_index, archetype_entities }
    }

    /// The index of the archetype.
    pub fn archetype_index(&self) -> (index: usize)
        ensures
            index == self.index_spec(),
    {
        self.archetype_index
    }

    /// The entity index of each row of the archetype.
    pub fn archetype_entities(&self) -> (entities: &'a Vec<usize>)
        ensures
            entities@ == self.entities_spec(),
    {
        self.archetype_entities
    }
}

/// The columns that the filters of a query report for the archetype
/// `archetype`: for each filter the components of its column, or nothing
/// where the filter reports no column.
pub open spec fn reported_columns<T>(archetype: Archetype<T>, columns: Seq<Option<usize>>) -> Seq<
    Option<Seq<T>>,
> {
    Seq::new(
        columns.len(),
        |j: int|
            match columns[j] {
                Some(position) => Some(archetype.column(position as int)),
                None => None,
            },
    )
}

/// What a vector of columns holds.
pub open spec fn columns_view<T>(columns: Seq<Option<&Vec<T>>>) -> Seq<Option<Seq<T>>> {
    Seq::new(
        columns.len(),
        |j: int|
            match columns[j] {
                Some(column) => Some(column@),
                None => None,
            },
    )
}

/// The columns of `archetype` at the positions `matching_channels`.
pub fn get_result<'a, T>(archetype: &'a Archetype<T>, matching_channels: &Vec<Option<usize>>) -> (columns:
    Vec<Option<&'a Vec<T>>>)
    requires
        forall|j: int|
            0 <= j < matching_channels@.len() ==> match #[trigger] matching_channels@[j] {
                Some(position) => position < archetype.schema().len(),
                None => true,
            },
    ensures
        columns_view(columns@) == reported_columns(*archetype, matching_channels@),
{
    let mut columns: Vec<Option<&'a Vec<T>>> = Vec::new();
    let mut j: usize = 0;
    while j < matching_channels.len()
        invariant
            j <= matching_channels@.len(),
            columns@.len() == j,
            forall|k: int|
                0 <= k < matching_channels@.len() ==> match #[trigger] matching_channels@[k] {
                    Some(position) => position < archetype.schema().len(),
                    None => true,
                },
            forall|k: int|
                0 <= k < j ==> columns_view(columns@)[k] == reported_columns(
                    *archetype,
                    matching_channels@,
                )[k],
        decreases matching_channels@.len() - j,
    {
        let ghost before = columns@;
        match matching_channels[j] {
            Some(position) => {
                columns.push(Some(archetype.channel(position)));
            },
            None => {
                columns.push(None);
            },
        }
        assert forall|k: int| 0 <= k < j + 1 implies columns_view(columns@)[k] == reported_columns(
            *archetype,
            matching_channels@,
        )[k] by {
            if k < j {
                assert(columns@[k] == before[k]);
                assert(columns_view(before)[k] == reported_columns(*archetype, matching_channels@)[k]);
            }
        }
        j += 1;
    }
    assert(columns_view(columns@) =~= reported_columns(*archetype, matching_channels@));
    columns
}

/// One part of a query result shows the archetype `found.0`: its index,
/// the entity indices of its rows, and the columns `found.1`.
pub open spec fn part_describes<T>(
    part: (ArchetypeInfo, Vec<Option<&Vec<T>>>),
    world: World<T>,
    found: (usize, Seq<Option<usize>>),
) -> bool {
    &&& part.0.index_spec() == found.0
    &&& found.0 < world.tables().len()
    &&& part.0.entities_spec() == world.tables()[found.0 as int].rows()
    &&& columns_view(part.1@) == reported_columns(world.tables()[found.0 as int], found.1)
}

/// A query result shows the archetypes of `world` that match `filters`, in
/// ascending order of their index, each with the columns that the filters
/// report for it.
pub open spec fn borrow_describes<T>(
    borrow: Seq<(ArchetypeInfo, Vec<Option<&Vec<T>>>)>,
    world: World<T>,
    filters: Seq<Filter>,
) -> bool {
    &&& borrow.len() == all_matches(world.schemas(), filters).len()
    &&& forall|k: int|
        0 <= k < borrow.len() ==> part_describes(
            #[trigger] borrow[k],
            world,
            all_matches(world.schemas(), filters)[k],
        )
}

/// Every column of the part has one component per row.
pub open spec fn part_wf<T>(part: (ArchetypeInfo, Vec<Option<&Vec<T>>>)) -> bool {
    forall|j: int|
        0 <= j < part.1@.len() ==> match #[trigger] part.1@[j] {
            Some(column) => column@.len() == part.0.entities_spec().len(),
            None => true,
        }
}

/// Every column of every part has one component per row.
pub open spec fn borrow_wf<T>(borrow: Seq<(ArchetypeInfo, Vec<Option<&Vec<T>>>)>) -> bool {
    forall|k: int| 0 <= k < borrow.len() ==> part_wf(#[trigger] borrow[k])
}

/// The parts of a query result for `filters` on `world`.
pub fn collect_borrow<'a, T>(world: &'a World<T>, filters: &[Filter]) -> (borrow: Vec<
    (ArchetypeInfo<'a>, Vec<Option<&'a Vec<T>>>),
>)
    requires
        world.wf(),
    ensures
        borrow_describes(borrow@, *world, filters@),
        borrow_wf(borrow@),
{
    let found = world.matching_archetypes(filters);
    let archetypes = world.archetypes();
    let ghost all = all_matches(world.schemas(), filters@);
    let mut borrow: Vec<(ArchetypeInfo<'a>, Vec<Option<&'a Vec<T>>>)> = Vec::new();
    let mut k: usize = 0;
    proof {
        world.lemma_layout();
    }
    while k < found.len()
        invariant
            world.wf(),
            world.tables_match_index(),
            archetypes@ == world.tables(),
            all == all_matches(world.schemas(), filters@),
            matches_view(found@) == all,
            forall|l: int|
                0 <= l < found@.len() ==> {
                    let a = (#[trigger] found@[l]).0;
                    &&& a < world.tables().len()
                    &&& schema_matches(world.schemas()[a as int], filters@)
                    &&& found@[l].1@ == matched_columns(world.schemas()[a as int], filters@)
                },
            k <= found@.len(),
            borrow@.len() == k,
            forall|l: int| 0 <= l < k ==> part_describes(#[trigger] borrow@[l], *world, all[l]),
            forall|l: int| 0 <= l < k ==> part_wf(#[trigger] borrow@[l]),
        decreases found@.len() - k,
    {
        let archetype_index = found[k].0;
        let archetype = &archetypes[archetype_index];
        proof {
            let schema = world.schemas()[archetype_index as int];
            assert(archetype.wf() && archetype.schema() == schema);
            archetype.lemma_bounded();
            assert forall|j: int| 0 <= j < found@[k as int].1@.len()
                implies match #[trigger] found@[k as int].1@[j] {
                Some(position) => position < archetype.schema().len(),
                None => true,
            } by {
                lemma_column_in(schema, filters@[j].component_id);
                assert(found@[k as int].1@[j] == filter_column(schema, filters@[j]));
            }
        }
        let columns = get_result(archetype, &found[k].1);
        let info = ArchetypeInfo::new(archetype_index, archetype.entity_indices());
        let ghost before = borrow@;
        borrow.push((info, columns));
        proof {
            assert(all[k as int] == (found@[k as int].0, found@[k as int].1@));
            assert(part_describes(borrow@[k as int], *world, all[k as int]));
            assert(part_wf(borrow@[k as int])) by {
                assert forall|j: int| 0 <= j < columns@.len() implies match #[trigger] columns@[j] {
                    Some(column) => column@.len() == info.entities_spec().len(),
                    None => true,
                } by {
                    assert(columns_view(columns@).len() == found@[k as int].1@.len());
                    assert(columns_view(columns@)[j] == reported_columns(
                        *archetype,
                        found@[k as int].1@,
                    )[j]);
                    match found@[k as int].1@[j] {
                        Some(position) => {
                            assert(position < archetype.schema().len());
                            assert(archetype.column(position as int).len() == archetype.rows().len());
                        },
                        None => {},
                    }
                }
            }
            assert forall|l: int| 0 <= l < k + 1 implies part_describes(
                #[trigger] borrow@[l],
                *world,
                all[l],
            ) by {
                if l < k {
                    assert(borrow@[l] == before[l]);
                }
            }
            assert forall|l: int| 0 <= l < k + 1 implies part_wf(#[trigger] borrow@[l]) by {
                if l < k {
                    assert(borrow@[l] == before[l]);
                }
            }
        }
        k += 1;
    }
    assert(matches_view(found@).len() == found@.len());
    borrow
}

/// A kind of query that reads a world for the lifetime `'a`.
pub trait QueryTrait<'a, T>: Sized {
    type Result;

    /// What the outcome of the query on `world` with `filters` is.
    spec fn describes(outcome: Result<Self::Result, ECSError>, world: World<T>, filters: Seq<Filter>) -> bool;

    /// Runs the query with `filters` on `world`.
    fn get_result(world: &'a World<T>, filters: &[Filter]) -> (outcome: Result<Self::Result, ECSError>)
        requires
            world.wf(),
        ensures
            Self::describes(outcome, *world, filters@),
    ;
}

/// A kind of query that holds a world exclusively for the lifetime `'a`.
pub trait MutQueryTrait<'a, T>: Sized {
    type Result;

    /// What the outcome of the query on `world` with `filters` is.
    spec fn describes_mut(
        outcome: Result<Self::Result, ECSError>,
        world: World<T>,
        filters: Seq<Filter>,
    ) -> bool;

    /// Runs the query with `filters` on `world`, which stays as it is.
    fn get_result_mut(world: &'a mut World<T>, filters: &[Filter]) -> (outcome: Result<
        Self::Result,
        ECSError,
    >)
        requires
            old(world).wf(),
        ensures
            *final(world) == *old(world),
            Self::describes_mut(outcome, *old(world), filters@),
    ;
}

/// The result of a query for every matching archetype, on a world that is
/// held exclusively while the result lives.
pub struct All<'a, T> {
    pub(crate) borrow: Vec<(ArchetypeInfo<'a>, Vec<Option<&'a Vec<T>>>)>,
}

/// The result of a query for one row: the first matching archetype that
/// has a row.
pub struct One<'a, T> {
    pub(crate) borrow: (ArchetypeInfo<'a>, Vec<Option<&'a Vec<T>>>),
}

impl<'a, T> All<'a, T> {
    /// The parts of the result, one per matching archetype.
    pub open(crate) spec fn parts(&self) -> Seq<(ArchetypeInfo<'a>, Vec<Option<&'a Vec<T>>>)> {
        self.borrow@
    }

    /// Every column of every part has one component per row.
    #[verifier::type_invariant]
    pub open(crate) spec fn complete(&self) -> bool {
        borrow_wf(self.borrow@)
    }

    /// Number of archetypes that matched.
    pub fn archetypes_len(&self) -> (n: usize)
        ensures
            n == self.parts().len(),
    {
        self.borrow.len()
    }
}

impl<'a, T> One<'a, T> {
    /// The part of the result: the archetype that the row comes from.
    pub open(crate) spec fn part(&self) -> (ArchetypeInfo<'a>, Vec<Option<&'a Vec<T>>>) {
        self.borrow
    }

    /// The part has a row, and each of its columns one component per row.
    #[verifier::type_invariant]
    pub open(crate) spec fn complete(&self) -> bool {
        part_wf(self.borrow) && self.borrow.0.entities_spec().len() > 0
    }
}

impl<'a, 'b, T: 'a> MutQueryTrait<'a, T> for All<'b, T> {
    type Result = All<'a, T>;

    open spec fn describes_mut(
        outcome: Result<All<'a, T>, ECSError>,
        world: World<T>,
        filters: Seq<Filter>,
    ) -> bool {
        match outcome {
            Ok(all) => borrow_describes(all.parts(), world, filters),
            Err(_) => false,
        }
    }

    fn get_result_mut(world: &'a mut World<T>, filters: &[Filter]) -> (outcome: Result<
        All<'a, T>,
        ECSError,
    >) {
        let shared: &'a World<T> = world;
        let borrow = collect_borrow(shared, filters);
        Ok(All { borrow })
    }
}

impl<'a, 'b, T: 'a> QueryTrait<'a, T> for All<'b, T> {
    type Result = AllBorrow<'a, T>;

    open spec fn describes(
        outcome: Result<AllBorrow<'a, T>, ECSError>,
        world: World<T>,
        filters: Seq<Filter>,
    ) -> bool {
        match outcome {
            Ok(all) => borrow_describes(all.parts(), world, filters),
            Err(_) => false,
        }
    }

    fn get_result(world: &'a World<T>, filters: &[Filter]) -> (outcome: Result<
        AllBorrow<'a, T>,
        ECSError,
    >) {
        let borrow = collect_borrow(world, filters);
        Ok(AllBorrow { borrow })
    }
}

/// What a query for one row gives on `world`: the first archetype that
/// matches `filters` and has a row, or `NoMatchingComponent` where no
/// matching archetype has one.
pub open spec fn one_describes<T>(
    outcome: Result<(ArchetypeInfo, Vec<Option<&Vec<T>>>), ECSError>,
    world: World<T>,
    filters: Seq<Filter>,
) -> bool {
    let found = all_matches(world.schemas(), filters);
    match outcome {
        Ok(part) => exists|k: int|
            {
                &&& 0 <= k < found.len()
                &&& part_describes(part, world, #[trigger] found[k])
                &&& world.tables()[found[k].0 as int].rows().len() > 0
                &&& forall|l: int|
                    0 <= l < k ==> world.tables()[(#[trigger] found[l]).0 as int].rows().len() == 0
            },
        Err(error) => error == ECSError::NoMatchingComponent && forall|k: int|
            0 <= k < found.len() ==> world.tables()[(#[trigger] found[k]).0 as int].rows().len() == 0,
    }
}

impl<'a, 'b, T: 'a> MutQueryTrait<'a, T> for One<'b, T> {
    type Result = One<'a, T>;

    open spec fn describes_mut(
        outcome: Result<One<'a, T>, ECSError>,
        world: World<T>,
        filters: Seq<Filter>,
    ) -> bool {
        match outcome {
            Ok(one) => one_describes(
                Ok::<(ArchetypeInfo, Vec<Option<&Vec<T>>>), ECSError>(one.part()),
                world,
                filters,
            ),
            Err(error) => one_describes(
                Err::<(ArchetypeInfo, Vec<Option<&Vec<T>>>), ECSError>(error),
                world,
                filters,
            ),
        }
    }

    fn get_result_mut(world: &'a mut World<T>, filters: &[Filter]) -> (outcome: Result<
        One<'a, T>,
        ECSError,
    >) {
        let shared: &'a World<T> = world;
        let mut borrow = collect_borrow(shared, filters);
        let ghost found = all_matches(shared.schemas(), filters@);
        let ghost parts = borrow@;
        let mut k: usize = 0;
        while k < borrow.len()
            invariant
                k <= borrow@.len(),
                borrow@ == parts,
                *shared == *old(world),
                found == all_matches(shared.schemas(), filters@),
                borrow_describes(parts, *shared, filters@),
                borrow_wf(parts),
                forall|l: int| 0 <= l < k ==> (#[trigger] parts[l]).0.entities_spec().len() == 0,
            decreases borrow@.len() - k,
        {
            if borrow[k].0.archetype_entities().len() > 0 {
                let part = borrow.swap_remove(k);
                proof {
                    assert(part == parts[k as int]);
                    assert(part_describes(part, *shared, found[k as int]));
                    assert forall|l: int| 0 <= l < k
                        implies shared.tables()[(#[trigger] found[l]).0 as int].rows().len()
                        == 0 by {
                        assert(part_describes(parts[l], *shared, found[l]));
                    }
                    assert(part_wf(parts[k as int]));
                    assert(shared.tables()[found[k as int].0 as int].rows().len() > 0);
                    assert(one_describes(
                        Ok::<(ArchetypeInfo, Vec<Option<&Vec<T>>>), ECSError>(part),
                        *shared,
                        filters@,
                    ));
                }
                return Ok(One { borrow: part });
            }
            k += 1;
        }
        proof {
            assert forall|l: int| 0 <= l < found.len()
                implies shared.tables()[(#[trigger] found[l]).0 as int].rows().len()
                == 0 by {
                assert(part_describes(parts[l], *shared, found[l]));
            }
        }
        Err(ECSError::NoMatchingComponent)
    }
}

impl<'a, T> One<'a, T> {
    /// The row that the query found: for each parameter the component of its
    /// column, or nothing where the parameter has no column.
    pub fn get(&self) -> (row: Vec<Option<&'a T>>)
        ensures
            row_view(row@) == row_of(self.part().1@, 0),
    {
        proof {
            use_type_invariant(self);
        }
        self.borrow.get_component(0)
    }

    /// The row that the query found, for a holder of the result itself.
    pub fn get_mut(&mut self) -> (row: Vec<Option<&'a T>>)
        ensures
            *final(self) == *old(self),
            row_view(row@) == row_of(old(self).part().1@, 0),
    {
        let row = self.get();
        row
    }
}

} // verus!
