use rust_ecs::queries::get_result;
use rust_ecs::archetype::Archetype;
use rust_ecs::{
    All, ArchetypeInfo, ComponentId, Filter, FilterType, GetIteratorsTrait, QueryParameterTrait,
    QueryParametersTrait, World,
};

type Value = (ComponentId, usize);

const A: ComponentId = ComponentId { id: 1 };
const B: ComponentId = ComponentId { id: 2 };

fn with(component_id: ComponentId) -> Filter {
    Filter { component_id, filter_type: FilterType::With }
}

/// Archetypes 0: {A} with 1, 2; 1: {A, B} with (3, 30); 2: {B} with 40.
fn world() -> World<Value> {
    let mut world: World<Value> = World::new();
    world.spawn((A, 1));
    world.spawn((A, 2));
    world.spawn(((A, 3), (B, 30)));
    world.spawn((B, 40));
    world
}

fn drain(mut chain: rust_ecs::ChainedIterator<Value>) -> Vec<usize> {
    let mut values = Vec::new();
    while let Some(component) = chain.next() {
        values.push(component.1);
    }
    values
}

#[test]
fn a_component_id_asks_for_its_component() {
    assert_eq!(A.get_filter(), with(A));
    assert_eq!(QueryParameterTrait::get_component_id(&A), A);
    let without = Filter { component_id: B, filter_type: FilterType::Without };
    assert_eq!(without.get_filter(), without);
    assert_eq!(without.get_component_id(), B);
}

#[test]
fn parameters_give_their_filters_in_order() {
    assert_eq!(A.get_filters(), vec![with(A)]);
    assert_eq!((B, A).get_filters(), vec![with(B), with(A)]);
    let optional = Filter { component_id: A, filter_type: FilterType::Optional };
    assert_eq!((optional, B).get_filters(), vec![optional, with(B)]);
    assert_eq!(vec![B, A, B].get_filters(), vec![with(B), with(A), with(B)]);
    assert_eq!(Vec::<ComponentId>::new().get_filters(), vec![]);
}

#[test]
fn columns_of_one_parameter_are_chained() {
    let world = world();
    let query = world.query::<All<Value>, _>(&vec![
        Filter { component_id: A, filter_type: FilterType::Optional },
        Filter { component_id: B, filter_type: FilterType::Optional },
    ]);
    assert_eq!(query.archetypes_len(), 3);
    assert_eq!(drain(query.column_iter(0)), vec![1, 2, 3]);
    assert_eq!(drain(query.column_iter(1)), vec![30, 40]);
    assert_eq!(drain(query.column_iter(2)), Vec::<usize>::new());
}

#[test]
fn rows_of_an_exclusive_query_match_those_of_a_read_query() {
    let mut world = world();
    let read: Vec<Vec<Option<Value>>> = world
        .query::<All<Value>, _>(&A)
        .iter()
        .iter()
        .map(|row| row.iter().map(|entry| entry.copied()).collect())
        .collect();
    let mut exclusive = world.query_mut::<All<Value>, _>(&A);
    let held: Vec<Vec<Option<Value>>> = exclusive
        .iter_mut()
        .iter()
        .map(|row| row.iter().map(|entry| entry.copied()).collect())
        .collect();
    assert_eq!(read, held);
    assert_eq!(held, vec![vec![Some((A, 1))], vec![Some((A, 2))], vec![Some((A, 3))]]);
    assert_eq!(drain(exclusive.column_iter(0)), vec![1, 2, 3]);
}

#[test]
fn rows_of_one_archetype_are_read_by_index() {
    let first: Vec<usize> = vec![1, 2, 3];
    let second: Vec<usize> = vec![10, 20, 30];
    let entities: Vec<usize> = vec![7, 8, 9];
    let mut part = (ArchetypeInfo::new(4, &entities), vec![Some(&second), None, Some(&first)]);
    assert_eq!(part.0.archetype_index(), 4);
    assert_eq!(part.0.archetype_entities(), &entities);
    assert_eq!(part.get_component(1), vec![Some(&20), None, Some(&2)]);
    assert_eq!(part.get_component_mut(2), vec![Some(&30), None, Some(&3)]);
    assert_eq!(
        part.get_iterator(),
        vec![
            vec![Some(&10), None, Some(&1)],
            vec![Some(&20), None, Some(&2)],
            vec![Some(&30), None, Some(&3)],
        ]
    );
    assert_eq!(part.get_iterator_mut(), part.get_iterator());
}

#[test]
fn reported_columns_are_taken_from_the_archetype() {
    let mut archetype: Archetype<usize> = Archetype::with_schema(&vec![A, B]);
    archetype.append_row(&mut vec![(Some(1), A), (Some(10), B)]);
    archetype.push_entity_index(0);
    let columns = get_result(&archetype, &vec![Some(1), None, Some(0)]);
    assert_eq!(columns, vec![Some(&vec![10]), None, Some(&vec![1])]);
}

#[test]
fn an_archetype_without_rows_yields_no_rows() {
    let mut world: World<Value> = World::new();
    let only = world.spawn((A, 1));
    world.despawn(only).unwrap();
    let query = world.query::<All<Value>, _>(&A);
    assert_eq!(query.archetypes_len(), 1);
    assert!(query.iter().is_empty());
    assert_eq!(drain(query.column_iter(0)), Vec::<usize>::new());
}
