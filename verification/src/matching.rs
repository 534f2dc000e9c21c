//! What it means for an archetype to match a list of filters, and what
//! holds of the matches.
use vstd::prelude::*;
use crate::archetype_lookup::{Filter, FilterType};
use crate::ComponentId;

verus! {

/// A schema lists its component ids in strictly ascending order.
pub open spec fn is_schema(ids: Seq<ComponentId>) -> bool {
    forall|i: int, j: int| 0 <= i < j < ids.len() ==> ids[i].id < ids[j].id
}

/// The column that `id` has in `schema`, if the schema holds it.
pub open spec fn column_in(schema: Seq<ComponentId>, id: ComponentId) -> Option<usize> {
    if schema.contains(id) {
        Some(schema.index_of(id) as usize)
    } else {
        None
    }
}

/// The column of an id is a position of the schema at which the id stands.
pub proof fn lemma_column_in(schema: Seq<ComponentId>, id: ComponentId)
    requires
        schema.len() <= usize::MAX,
    ensures
        match column_in(schema, id) {
            Some(position) => position < schema.len() && schema[position as int] == id,
            None => forall|i: int| 0 <= i < schema.len() ==> schema[i] != id,
        },
{
    if schema.contains(id) {
        let i = schema.index_of(id);
        assert(0 <= i < schema.len() && schema[i] == id);
    }
}

/// In a schema each id stands at one position only.
pub proof fn lemma_schema_position(schema: Seq<ComponentId>, i: int)
    requires
        is_schema(schema),
        0 <= i < schema.len(),
    ensures
        schema.contains(schema[i]),
        schema.index_of(schema[i]) == i,
        column_in(schema, schema[i]) == Some(i as usize),
{
    assert(schema.contains(schema[i]));
    let j = schema.index_of(schema[i]);
    assert(0 <= j < schema.len() && schema[j] == schema[i]);
    if j < i {
        assert(schema[j].id < schema[i].id);
    }
    if i < j {
        assert(schema[i].id < schema[j].id);
    }
}

/// Whether an archetype of this schema passes `filter`.
pub open spec fn filter_admits(schema: Seq<ComponentId>, filter: Filter) -> bool {
    match filter.filter_type {
        FilterType::With => schema.contains(filter.component_id),
        FilterType::Without => !schema.contains(filter.component_id),
        FilterType::Optional => true,
    }
}

/// The column that `filter` reports for an archetype of this schema.
pub open spec fn filter_column(schema: Seq<ComponentId>, filter: Filter) -> Option<usize> {
    match filter.filter_type {
        FilterType::With => column_in(schema, filter.component_id),
        FilterType::Without => None,
        FilterType::Optional => column_in(schema, filter.component_id),
    }
}

/// An archetype matches when it passes every filter.
pub open spec fn schema_matches(schema: Seq<ComponentId>, filters: Seq<Filter>) -> bool {
    forall|j: int| 0 <= j < filters.len() ==> filter_admits(schema, #[trigger] filters[j])
}

/// The columns reported for a match, one per filter and in the filters' order.
pub open spec fn matched_columns(schema: Seq<ComponentId>, filters: Seq<Filter>) -> Seq<
    Option<usize>,
> {
    Seq::new(filters.len(), |j: int| filter_column(schema, filters[j]))
}

/// The matches among the archetypes from index `lo` on, in ascending order
/// of their index, each with its reported columns.
pub open spec fn matches_from(schemas: Seq<Seq<ComponentId>>, filters: Seq<Filter>, lo: int) -> Seq<
    (usize, Seq<Option<usize>>),
>
    decreases schemas.len() - lo,
{
    if lo < 0 || lo >= schemas.len() {
        Seq::empty()
    } else if schema_matches(schemas[lo], filters) {
        seq![(lo as usize, matched_columns(schemas[lo], filters))] + matches_from(
            schemas,
            filters,
            lo + 1,
        )
    } else {
        matches_from(schemas, filters, lo + 1)
    }
}

/// All matches of `filters` among the archetypes of these schemas.
pub open spec fn all_matches(schemas: Seq<Seq<ComponentId>>, filters: Seq<Filter>) -> Seq<
    (usize, Seq<Option<usize>>),
> {
    matches_from(schemas, filters, 0)
}

/// The matches that a vector of found archetypes stands for.
pub open spec fn matches_view(found: Seq<(usize, Vec<Option<usize>>)>) -> Seq<
    (usize, Seq<Option<usize>>),
> {
    Seq::new(found.len(), |k: int| (found[k].0, found[k].1@))
}

/// The archetype `a` is among the matches from `lo` on.
pub open spec fn is_matched_from(
    schemas: Seq<Seq<ComponentId>>,
    filters: Seq<Filter>,
    lo: int,
    a: usize,
) -> bool {
    exists|k: int|
        0 <= k < matches_from(schemas, filters, lo).len() && (#[trigger] matches_from(
            schemas,
            filters,
            lo,
        )[k]).0 == a
}

/// Where no archetype in `lo .. hi` matches, the matches from `lo` on are
/// those from `hi` on.
pub proof fn lemma_matches_skip(
    schemas: Seq<Seq<ComponentId>>,
    filters: Seq<Filter>,
    lo: int,
    hi: int,
)
    requires
        0 <= lo <= hi <= schemas.len(),
        forall|a: int| lo <= a < hi ==> !schema_matches(#[trigger] schemas[a], filters),
    ensures
        matches_from(schemas, filters, lo) == matches_from(schemas, filters, hi),
    decreases hi - lo,
{
    if lo < hi {
        assert(!schema_matches(schemas[lo], filters));
        lemma_matches_skip(schemas, filters, lo + 1, hi);
    }
}

/// The matches from `lo` on are at most as many as the archetypes from `lo`
/// on, lie at `lo` or above, and ascend strictly.
pub proof fn lemma_matches_bounded(schemas: Seq<Seq<ComponentId>>, filters: Seq<Filter>, lo: int)
    requires
        0 <= lo,
        schemas.len() <= usize::MAX,
    ensures
        matches_from(schemas, filters, lo).len() <= if lo <= schemas.len() {
            schemas.len() - lo
        } else {
            0
        },
        forall|k: int|
            0 <= k < matches_from(schemas, filters, lo).len() ==> lo <= (#[trigger] matches_from(
                schemas,
                filters,
                lo,
            )[k]).0 < schemas.len(),
        forall|k: int, l: int|
            0 <= k < l < matches_from(schemas, filters, lo).len() ==> matches_from(
                schemas,
                filters,
                lo,
            )[k].0 < matches_from(schemas, filters, lo)[l].0,
    decreases schemas.len() - lo,
{
    if lo < schemas.len() {
        lemma_matches_bounded(schemas, filters, lo + 1);
        let rest = matches_from(schemas, filters, lo + 1);
        let here = matches_from(schemas, filters, lo);
        if schema_matches(schemas[lo], filters) {
            assert forall|k: int| 0 <= k < here.len() implies lo <= (#[trigger] here[k]).0
                < schemas.len() by {
                if k > 0 {
                    assert(here[k] == rest[k - 1]);
                }
            }
            assert forall|k: int, l: int| 0 <= k < l < here.len() implies here[k].0 < here[l].0 by {
                assert(here[l] == rest[l - 1]);
                if k > 0 {
                    assert(here[k] == rest[k - 1]);
                }
            }
        }
    }
}

/// The matches from `lo` on are exactly the archetypes from `lo` on that
/// pass every filter, each with the columns that the filters report for it.
pub proof fn lemma_matches_members(schemas: Seq<Seq<ComponentId>>, filters: Seq<Filter>, lo: int)
    requires
        0 <= lo,
        schemas.len() <= usize::MAX,
    ensures
        forall|a: usize| #[trigger]
            is_matched_from(schemas, filters, lo, a) <==> (lo <= a < schemas.len() && schema_matches(
                schemas[a as int],
                filters,
            )),
        forall|k: int|
            0 <= k < matches_from(schemas, filters, lo).len() ==> {
                let found = #[trigger] matches_from(schemas, filters, lo)[k];
                found.0 < schemas.len() && found.1 == matched_columns(schemas[found.0 as int], filters)
            },
    decreases schemas.len() - lo,
{
    let here = matches_from(schemas, filters, lo);
    if lo < schemas.len() {
        lemma_matches_members(schemas, filters, lo + 1);
        let rest = matches_from(schemas, filters, lo + 1);
        let hit = schema_matches(schemas[lo], filters);
        assert forall|a: usize| #[trigger]
            is_matched_from(schemas, filters, lo, a) <==> (lo <= a < schemas.len() && schema_matches(
                schemas[a as int],
                filters,
            )) by {
            if is_matched_from(schemas, filters, lo, a) {
                let k = choose|k: int| 0 <= k < here.len() && (#[trigger] here[k]).0 == a;
                if hit && k > 0 {
                    assert(rest[k - 1].0 == a);
                    assert(is_matched_from(schemas, filters, lo + 1, a));
                } else if !hit {
                    assert(rest[k].0 == a);
                    assert(is_matched_from(schemas, filters, lo + 1, a));
                }
            }
            if lo <= a < schemas.len() && schema_matches(schemas[a as int], filters) {
                if a == lo {
                    assert(here[0].0 == a);
                } else {
                    assert(is_matched_from(schemas, filters, lo + 1, a));
                    let k = choose|k: int| 0 <= k < rest.len() && (#[trigger] rest[k]).0 == a;
                    if hit {
                        assert(here[k + 1].0 == a);
                    } else {
                        assert(here[k].0 == a);
                    }
                }
            }
        }
        assert forall|k: int| 0 <= k < here.len() implies {
            let found = #[trigger] here[k];
            found.0 < schemas.len() && found.1 == matched_columns(schemas[found.0 as int], filters)
        } by {
            if hit && k > 0 {
                assert(here[k] == rest[k - 1]);
            } else if !hit {
                assert(here[k] == rest[k]);
            }
        }
    }
}

/// The matches of any filters ascend strictly by archetype index.
pub proof fn lemma_matches_ascend(schemas: Seq<Seq<ComponentId>>, filters: Seq<Filter>)
    requires
        schemas.len() <= usize::MAX,
    ensures
        forall|k: int, l: int|
            0 <= k < l < all_matches(schemas, filters).len() ==> all_matches(schemas, filters)[k].0
                < all_matches(schemas, filters)[l].0,
{
    lemma_matches_bounded(schemas, filters, 0);
}

/// The archetypes whose schema holds `id`.
pub open spec fn archetypes_containing(schemas: Seq<Seq<ComponentId>>, id: ComponentId) -> Set<
    usize,
> {
    Set::new(|a: usize| a < schemas.len() && schemas[a as int].contains(id))
}

/// The indices of the archetypes that match `filters`.
pub open spec fn matched_indices(schemas: Seq<Seq<ComponentId>>, filters: Seq<Filter>) -> Set<
    usize,
> {
    Set::new(|a: usize| is_matched_from(schemas, filters, 0, a))
}

/// Where every filter is a `With`, the matched archetypes are those that
/// lie in the set of holders of each filter's component id.
pub proof fn lemma_with_filters_intersect(schemas: Seq<Seq<ComponentId>>, filters: Seq<Filter>)
    requires
        schemas.len() <= usize::MAX,
        forall|j: int| 0 <= j < filters.len() ==> (#[trigger] filters[j]).filter_type == FilterType::With,
    ensures
        forall|a: usize|
            #[trigger] matched_indices(schemas, filters).contains(a) <==> (a < schemas.len()
                && forall|j: int|
                0 <= j < filters.len() ==> archetypes_containing(
                    schemas,
                    (#[trigger] filters[j]).component_id,
                ).contains(a)),
{
    lemma_matches_members(schemas, filters, 0);
    assert forall|a: usize|
        #[trigger] matched_indices(schemas, filters).contains(a) <==> (a < schemas.len()
            && forall|j: int|
            0 <= j < filters.len() ==> archetypes_containing(
                schemas,
                (#[trigger] filters[j]).component_id,
            ).contains(a)) by {
        assert(matched_indices(schemas, filters).contains(a) <==> is_matched_from(
            schemas,
            filters,
            0,
            a,
        ));
        if a < schemas.len() {
            if schema_matches(schemas[a as int], filters) {
                assert forall|j: int| 0 <= j < filters.len() implies archetypes_containing(
                    schemas,
                    (#[trigger] filters[j]).component_id,
                ).contains(a) by {
                    assert(filter_admits(schemas[a as int], filters[j]));
                }
            }
            if forall|j: int|
                0 <= j < filters.len() ==> archetypes_containing(
                    schemas,
                    (#[trigger] filters[j]).component_id,
                ).contains(a) {
                assert forall|j: int| 0 <= j < filters.len() implies filter_admits(
                    schemas[a as int],
                    #[trigger] filters[j],
                ) by {
                    assert(archetypes_containing(schemas, filters[j].component_id).contains(a));
                }
            }
        }
    }
}

} // verus!
