use rust_ecs::archetype_lookup::{copy_ids, hash_ids, same_ids, ArchetypeLookup};
use rust_ecs::{ComponentId, Filter, FilterType};

const A: ComponentId = ComponentId { id: 1 };
const B: ComponentId = ComponentId { id: 2 };
const C: ComponentId = ComponentId { id: 3 };
const D: ComponentId = ComponentId { id: 4 };

fn with(component_id: ComponentId) -> Filter {
    Filter { component_id, filter_type: FilterType::With }
}

fn without(component_id: ComponentId) -> Filter {
    Filter { component_id, filter_type: FilterType::Without }
}

fn optional(component_id: ComponentId) -> Filter {
    Filter { component_id, filter_type: FilterType::Optional }
}

/// Archetypes 0: {A,B}, 1: {A}, 2: {A,B,C}, 3: {B,C}, 4: {}.
fn lookup() -> ArchetypeLookup {
    let mut lookup = ArchetypeLookup::new();
    lookup.new_archetype(&[A, B]);
    lookup.new_archetype(&[A]);
    lookup.new_archetype(&[A, B, C]);
    lookup.new_archetype(&[B, C]);
    lookup.new_archetype(&[]);
    lookup
}

#[test]
fn exact_lookup_finds_each_schema_at_its_index() {
    let lookup = lookup();
    assert_eq!(lookup.archetype_count(), 5);
    assert_eq!(lookup.get_exact_archetype(&[A, B]), Some(0));
    assert_eq!(lookup.get_exact_archetype(&[A]), Some(1));
    assert_eq!(lookup.get_exact_archetype(&[A, B, C]), Some(2));
    assert_eq!(lookup.get_exact_archetype(&[B, C]), Some(3));
    assert_eq!(lookup.get_exact_archetype(&[]), Some(4));
}

#[test]
fn exact_lookup_misses_other_schemas() {
    let lookup = lookup();
    assert_eq!(lookup.get_exact_archetype(&[B]), None);
    assert_eq!(lookup.get_exact_archetype(&[B, A]), None);
    assert_eq!(lookup.get_exact_archetype(&[A, C]), None);
    assert_eq!(lookup.get_exact_archetype(&[D]), None);
    assert_eq!(ArchetypeLookup::new().get_exact_archetype(&[]), None);
}

#[test]
fn with_filter_reports_the_column() {
    let lookup = lookup();
    assert_eq!(
        lookup.matching_archetypes(&[with(B)]),
        vec![(0, vec![Some(1)]), (2, vec![Some(1)]), (3, vec![Some(0)])]
    );
    assert_eq!(
        lookup.matching_archetypes(&[with(C)]),
        vec![(2, vec![Some(2)]), (3, vec![Some(1)])]
    );
}

#[test]
fn without_filter_reports_no_column() {
    let lookup = lookup();
    assert_eq!(
        lookup.matching_archetypes(&[without(B)]),
        vec![(1, vec![None]), (4, vec![None])]
    );
}

#[test]
fn optional_filter_matches_every_archetype() {
    let lookup = lookup();
    assert_eq!(
        lookup.matching_archetypes(&[optional(C)]),
        vec![
            (0, vec![None]),
            (1, vec![None]),
            (2, vec![Some(2)]),
            (3, vec![Some(1)]),
            (4, vec![None]),
        ]
    );
}

#[test]
fn columns_align_with_the_filters_as_given() {
    let lookup = lookup();
    // C is the most selective filter and is tried first; the columns still
    // come in the order of the filters.
    assert_eq!(
        lookup.matching_archetypes(&[with(A), optional(D), with(C), without(D), with(B)]),
        vec![(2, vec![Some(0), None, Some(2), None, Some(1)])]
    );
    assert_eq!(
        lookup.matching_archetypes(&[optional(A), with(B), without(A)]),
        vec![(3, vec![None, Some(0), None])]
    );
}

#[test]
fn with_filter_on_an_unseen_id_matches_nothing() {
    let lookup = lookup();
    assert_eq!(lookup.matching_archetypes(&[with(D)]), vec![]);
    assert_eq!(lookup.matching_archetypes(&[with(A), with(D)]), vec![]);
    assert_eq!(lookup.matching_archetypes(&[optional(A), with(D)]), vec![]);
}

#[test]
fn without_filter_on_an_unseen_id_matches_everything() {
    let lookup = lookup();
    let found = lookup.matching_archetypes(&[without(D)]);
    let indices: Vec<usize> = found.iter().map(|m| m.0).collect();
    assert_eq!(indices, vec![0, 1, 2, 3, 4]);
}

#[test]
fn empty_filter_list_yields_all_archetypes() {
    let lookup = lookup();
    assert_eq!(
        lookup.matching_archetypes(&[]),
        vec![(0, vec![]), (1, vec![]), (2, vec![]), (3, vec![]), (4, vec![])]
    );
    assert_eq!(ArchetypeLookup::new().matching_archetypes(&[]), vec![]);
}

#[test]
fn with_and_without_on_the_same_id_match_nothing() {
    let lookup = lookup();
    assert_eq!(lookup.matching_archetypes(&[with(A), without(A)]), vec![]);
    assert_eq!(lookup.matching_archetypes(&[without(A), with(A)]), vec![]);
}

#[test]
fn matches_ascend_strictly() {
    let lookup = lookup();
    let lists = [
        vec![with(A)],
        vec![with(B)],
        vec![without(C)],
        vec![optional(A), optional(B)],
        vec![with(B), without(A)],
        vec![],
    ];
    for filters in lists.iter() {
        let found = lookup.matching_archetypes(filters);
        for pair in found.windows(2) {
            assert!(pair[0].0 < pair[1].0);
        }
    }
}

#[test]
fn with_filters_intersect_the_holders() {
    let lookup = lookup();
    let holders_a: Vec<usize> = lookup.matching_archetypes(&[with(A)]).iter().map(|m| m.0).collect();
    let holders_b: Vec<usize> = lookup.matching_archetypes(&[with(B)]).iter().map(|m| m.0).collect();
    let both: Vec<usize> =
        lookup.matching_archetypes(&[with(A), with(B)]).iter().map(|m| m.0).collect();
    assert_eq!(holders_a, vec![0, 1, 2]);
    assert_eq!(holders_b, vec![0, 2, 3]);
    let expected: Vec<usize> =
        holders_a.iter().copied().filter(|a| holders_b.contains(a)).collect();
    assert_eq!(both, expected);
    assert_eq!(both, vec![0, 2]);
}

#[test]
fn iterator_yields_one_match_at_a_time() {
    let lookup = lookup();
    let filters = [with(B), optional(A)];
    let mut iter = lookup.matching_archetype_iter(&filters);
    assert_eq!(iter.next(), Some((0, vec![Some(1), Some(0)])));
    assert_eq!(iter.next(), Some((2, vec![Some(1), Some(0)])));
    assert_eq!(iter.next(), Some((3, vec![Some(0), None])));
    assert_eq!(iter.next(), None);
    assert_eq!(iter.next(), None);
}

#[test]
fn iterator_without_a_leading_with_advances() {
    let lookup = lookup();
    let filters = [without(C)];
    let mut iter = lookup.matching_archetype_iter(&filters);
    assert_eq!(iter.next(), Some((0, vec![None])));
    assert_eq!(iter.next(), Some((1, vec![None])));
    assert_eq!(iter.next(), Some((4, vec![None])));
    assert_eq!(iter.next(), None);
}

#[test]
fn id_lists_are_compared_and_copied() {
    assert!(same_ids(&vec![A, B], &[A, B]));
    assert!(!same_ids(&vec![A, B], &[B, A]));
    assert!(!same_ids(&vec![A], &[A, B]));
    assert!(same_ids(&vec![], &[]));
    assert_eq!(copy_ids(&[C, A]), vec![C, A]);
}

#[test]
fn schema_hash_folds_the_ids_in_order() {
    assert_eq!(hash_ids(&[]), 0xcbf2_9ce4_8422_2325);
    assert_eq!(hash_ids(&[A]), 0xaf63_bc4c_8601_b62c);
    assert_eq!(hash_ids(&[A, B]), 0x082f_2407_b4e8_902a);
    assert_ne!(hash_ids(&[A, B]), hash_ids(&[B, A]));
}

#[test]
fn schemas_of_one_hash_are_told_apart() {
    // Whatever the hashes are, each schema is found at its own index.
    let mut lookup = ArchetypeLookup::new();
    let mut schemas: Vec<Vec<ComponentId>> = Vec::new();
    for first in 0..6u64 {
        for second in (first + 1)..7u64 {
            schemas.push(vec![ComponentId { id: first }, ComponentId { id: second }]);
        }
    }
    for schema in schemas.iter() {
        assert_eq!(lookup.get_exact_archetype(schema), None);
        lookup.new_archetype(schema);
    }
    for (index, schema) in schemas.iter().enumerate() {
        assert_eq!(lookup.get_exact_archetype(schema), Some(index));
    }
    assert_eq!(lookup.archetype_count(), schemas.len());
}
