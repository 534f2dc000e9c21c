use rust_ecs::{All, ComponentId, ECSError, Entity, Filter, FilterType, One, World};

type Value = (ComponentId, usize);

const A: ComponentId = ComponentId { id: 1 };
const B: ComponentId = ComponentId { id: 2 };
const C: ComponentId = ComponentId { id: 3 };

fn numbers(rows: &Vec<Vec<Option<&Value>>>) -> Vec<Vec<Option<usize>>> {
    rows.iter()
        .map(|row| row.iter().map(|entry| entry.map(|component| component.1)).collect())
        .collect()
}

#[test]
fn spawn_despawn_round_trip_reuses_the_index() {
    let mut world: World<Value> = World::new();
    let first = world.spawn((A, 10));
    assert_eq!(first, Entity::from_index_and_generation(0, 0));
    world.despawn(first).unwrap();
    assert_eq!(world.get_location(first), Err(ECSError::EntityNoLongerExists));
    let second = world.spawn((A, 11));
    assert_eq!(second.index, 0);
    assert_eq!(second.generation, 1);
}

#[test]
fn single_column_read_yields_spawn_order() {
    let mut world: World<Value> = World::new();
    world.spawn((A, 1));
    world.spawn((A, 2));
    world.spawn((A, 3));
    let query = world.query::<All<Value>, _>(&A);
    let rows = query.iter();
    assert_eq!(numbers(&rows), vec![vec![Some(1)], vec![Some(2)], vec![Some(3)]]);
}

#[test]
fn multi_column_query_on_an_exclusive_world_yields_one_row() {
    let mut world: World<Value> = World::new();
    world.spawn(((A, 3), (B, 5)));
    let query = world.query_mut::<All<Value>, _>(&(A, B));
    assert_eq!(query.archetypes_len(), 1);
    let rows = query.iter();
    assert_eq!(numbers(&rows), vec![vec![Some(3), Some(5)]]);
}

#[test]
fn filter_iteration_follows_archetype_creation_order() {
    let mut world: World<Value> = World::new();
    let e1 = world.spawn(((A, 1), (B, 1)));
    let e2 = world.spawn((A, 2));
    let e3 = world.spawn(vec![(C, (C, 3)), (A, (A, 3)), (B, (B, 3))]);
    let found = world.matching_archetypes(&[Filter { component_id: A, filter_type: FilterType::With }]);
    let indices: Vec<usize> = found.iter().map(|m| m.0).collect();
    assert_eq!(indices, vec![0, 1, 2]);
    assert_eq!(world.get_location(e1).unwrap().storage_index, 0);
    assert_eq!(world.get_location(e2).unwrap().storage_index, 1);
    assert_eq!(world.get_location(e3).unwrap().storage_index, 2);
    let columns: Vec<Vec<Option<usize>>> = found.iter().map(|m| m.1.clone()).collect();
    assert_eq!(columns, vec![vec![Some(0)], vec![Some(0)], vec![Some(0)]]);
    let query = world.query::<All<Value>, _>(&A);
    assert_eq!(numbers(&query.iter()), vec![vec![Some(1)], vec![Some(2)], vec![Some(3)]]);
}

#[test]
fn swap_remove_keeps_rows_and_locations_consistent() {
    let mut world: World<Value> = World::new();
    let e1 = world.spawn((A, 1));
    let e2 = world.spawn((A, 2));
    let e3 = world.spawn((A, 3));
    world.despawn(e2).unwrap();
    {
        let query = world.query::<All<Value>, _>(&A);
        assert_eq!(numbers(&query.iter()), vec![vec![Some(1)], vec![Some(3)]]);
    }
    assert_eq!(world.get_location(e3).unwrap().index_within_storage, 1);
    assert_eq!(world.get_location(e1).unwrap().index_within_storage, 0);
    assert_eq!(world.get_location(e2), Err(ECSError::EntityNoLongerExists));
}

#[test]
fn stale_generation_is_rejected_everywhere() {
    let mut world: World<Value> = World::new();
    let e = world.spawn((A, 1));
    world.despawn(e).unwrap();
    assert_eq!(world.get_location(e), Err(ECSError::EntityNoLongerExists));
    assert_eq!(world.despawn(e), Err(ECSError::EntityNoLongerExists));
    assert_eq!(world.add_components(e, (B, 2)), Err(ECSError::EntityNoLongerExists));
    assert_eq!(world.remove_components(e, &[A]), Err(ECSError::EntityNoLongerExists));
    let again = world.spawn((A, 5));
    assert_eq!(again.index, e.index);
    assert_eq!(world.get_location(e), Err(ECSError::EntityNoLongerExists));
    assert_eq!(world.despawn(e), Err(ECSError::EntityNoLongerExists));
    assert_eq!(world.add_components(e, (B, 2)), Err(ECSError::EntityNoLongerExists));
    assert_eq!(world.remove_components(e, &[A]), Err(ECSError::EntityNoLongerExists));
    assert!(world.get_location(again).is_ok());
}

#[test]
fn entity_beyond_the_table_has_no_match() {
    let mut world: World<Value> = World::new();
    let unknown = Entity::from_index_and_generation(4, 0);
    assert_eq!(world.get_location(unknown), Err(ECSError::NoMatchingEntity));
    assert_eq!(world.despawn(unknown), Err(ECSError::NoMatchingEntity));
    assert_eq!(world.add_components(unknown, (A, 1)), Err(ECSError::NoMatchingEntity));
    assert_eq!(world.remove_components(unknown, &[A]), Err(ECSError::NoMatchingEntity));
}

#[test]
fn forged_handle_to_a_free_slot_is_rejected() {
    let mut world: World<Value> = World::new();
    let e = world.spawn((A, 1));
    world.despawn(e).unwrap();
    let forged = Entity::from_index_and_generation(e.index, e.generation + 1);
    assert_eq!(world.get_location(forged), Err(ECSError::EntityNoLongerExists));
    assert_eq!(world.despawn(forged), Err(ECSError::EntityNoLongerExists));
    let next = world.spawn((A, 2));
    assert_eq!(next, forged);
    assert!(world.get_location(next).is_ok());
}

#[test]
fn entity_stays_found_until_it_is_despawned() {
    let mut world: World<Value> = World::new();
    let kept = world.spawn((A, 1));
    let other = world.spawn((A, 2));
    let third = world.spawn(((A, 3), (B, 4)));
    assert!(world.get_location(kept).is_ok());
    world.despawn(other).unwrap();
    assert!(world.get_location(kept).is_ok());
    world.add_components(third, (C, 9)).unwrap();
    assert!(world.get_location(kept).is_ok());
    world.remove_components(third, &[B]).unwrap();
    assert!(world.get_location(kept).is_ok());
    world.despawn(kept).unwrap();
    assert_eq!(world.get_location(kept), Err(ECSError::EntityNoLongerExists));
    world.spawn((B, 1));
    world.spawn((B, 2));
    assert_eq!(world.get_location(kept), Err(ECSError::EntityNoLongerExists));
}

#[test]
fn columns_and_entity_indices_keep_equal_lengths() {
    let mut world: World<Value> = World::new();
    let mut entities = Vec::new();
    for value in 0..6 {
        entities.push(world.spawn((A, value)));
        entities.push(world.spawn(((A, value), (B, value))));
    }
    world.despawn(entities[3]).unwrap();
    world.despawn(entities[0]).unwrap();
    world.despawn(entities[11]).unwrap();
    for archetype in world.archetypes().iter() {
        for position in 0..archetype.channel_count() {
            assert_eq!(archetype.channel(position).len(), archetype.len());
        }
        assert_eq!(archetype.entity_indices().len(), archetype.len());
    }
    assert_eq!(world.archetypes()[0].len(), 5);
    assert_eq!(world.archetypes()[1].len(), 4);
}

#[test]
fn later_spawn_into_the_same_archetype_comes_later() {
    let mut world: World<Value> = World::new();
    let e1 = world.spawn((A, 7));
    let e2 = world.spawn((A, 8));
    let first = world.get_location(e1).unwrap();
    let second = world.get_location(e2).unwrap();
    assert_eq!(first.storage_index, second.storage_index);
    assert!(first.index_within_storage < second.index_within_storage);
    let query = world.query::<All<Value>, _>(&A);
    assert_eq!(numbers(&query.iter()), vec![vec![Some(7)], vec![Some(8)]]);
}

#[test]
fn one_finds_the_first_matching_archetype_with_a_row() {
    let mut world: World<Value> = World::new();
    let gone = world.spawn((A, 1));
    world.spawn(((A, 2), (B, 3)));
    world.despawn(gone).unwrap();
    let mut one = world.query_mut::<One<Value>, _>(&A);
    let row = one.get();
    assert_eq!(row.len(), 1);
    assert_eq!(row[0].unwrap().1, 2);
    assert_eq!(one.get_mut(), row);
}

#[test]
fn one_without_a_row_reports_no_matching_component() {
    let mut world: World<Value> = World::new();
    assert!(matches!(
        world.try_query_mut::<One<Value>, _>(&A),
        Err(ECSError::NoMatchingComponent)
    ));
    let e = world.spawn((A, 1));
    world.despawn(e).unwrap();
    assert!(matches!(
        world.try_query_mut::<One<Value>, _>(&A),
        Err(ECSError::NoMatchingComponent)
    ));
    world.spawn((B, 1));
    assert!(matches!(
        world.try_query_mut::<One<Value>, _>(&A),
        Err(ECSError::NoMatchingComponent)
    ));
}

#[test]
fn optional_and_without_parameters_report_absent_columns() {
    let mut world: World<Value> = World::new();
    world.spawn(((A, 1), (B, 10)));
    world.spawn((A, 2));
    let parameters = vec![
        Filter { component_id: A, filter_type: FilterType::With },
        Filter { component_id: B, filter_type: FilterType::Optional },
        Filter { component_id: C, filter_type: FilterType::Without },
    ];
    let query = world.try_query::<All<Value>, _>(&parameters).unwrap();
    assert_eq!(query.archetypes_len(), 2);
    assert_eq!(
        numbers(&query.iter()),
        vec![vec![Some(1), Some(10), None], vec![Some(2), None, None]]
    );
}

#[test]
fn components_are_read_and_written_in_place() {
    let mut world: World<Value> = World::new();
    let first = world.spawn(((A, 1), (B, 10)));
    let second = world.spawn(((A, 2), (B, 20)));
    assert_eq!(world.get_component(first, B), Ok(&(B, 10)));
    *world.get_component_mut(first, B).unwrap() = (B, 11);
    world.get_component_mut(second, A).unwrap().1 += 5;
    assert_eq!(world.get_component(first, A), Ok(&(A, 1)));
    assert_eq!(world.get_component(first, B), Ok(&(B, 11)));
    assert_eq!(world.get_component(second, A), Ok(&(A, 7)));
    assert_eq!(world.get_component(second, B), Ok(&(B, 20)));
    let query = world.query::<All<Value>, _>(&(A, B));
    assert_eq!(numbers(&query.iter()), vec![vec![Some(1), Some(11)], vec![Some(7), Some(20)]]);
}

#[test]
fn component_access_tells_its_errors_apart() {
    let mut world: World<Value> = World::new();
    let entity = world.spawn((A, 1));
    assert_eq!(world.get_component(entity, B), Err(ECSError::NoMatchingComponent));
    assert_eq!(world.get_component_mut(entity, B), Err(ECSError::NoMatchingComponent));
    let unknown = Entity::from_index_and_generation(9, 0);
    assert_eq!(world.get_component(unknown, A), Err(ECSError::NoMatchingEntity));
    assert_eq!(world.get_component_mut(unknown, A), Err(ECSError::NoMatchingEntity));
    world.despawn(entity).unwrap();
    assert_eq!(world.get_component(entity, A), Err(ECSError::EntityNoLongerExists));
    assert_eq!(world.get_component_mut(entity, A), Err(ECSError::EntityNoLongerExists));
}
