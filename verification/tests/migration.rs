use rust_ecs::migration::{contains_id, merged_ids, remaining_ids};
use rust_ecs::archetype::Archetype;
use rust_ecs::{All, ComponentId, ECSError, Filter, FilterType, World};

type Value = (ComponentId, usize);

const A: ComponentId = ComponentId { id: 1 };
const B: ComponentId = ComponentId { id: 2 };
const C: ComponentId = ComponentId { id: 3 };
const D: ComponentId = ComponentId { id: 4 };

fn schema_of(world: &World<Value>, entity: rust_ecs::Entity) -> Vec<ComponentId> {
    let location = world.get_location(entity).unwrap();
    let archetype = &world.archetypes()[location.storage_index];
    (0..archetype.channel_count()).map(|position| archetype.channel_id(position)).collect()
}

fn components_of(world: &World<Value>, entity: rust_ecs::Entity) -> Vec<Value> {
    let location = world.get_location(entity).unwrap();
    let archetype = &world.archetypes()[location.storage_index];
    (0..archetype.channel_count())
        .map(|position| archetype.channel(position)[location.index_within_storage])
        .collect()
}

#[test]
fn ids_merge_in_ascending_order() {
    let archetype: Archetype<usize> = Archetype::with_schema(&vec![A, C]);
    let mut out = vec![D, D, D];
    merged_ids(&archetype, &vec![(Some(0), B), (Some(0), D)], &mut out);
    assert_eq!(out, vec![A, B, C, D]);
    merged_ids(&archetype, &vec![], &mut out);
    assert_eq!(out, vec![A, C]);
    let empty: Archetype<usize> = Archetype::new();
    merged_ids(&empty, &vec![(Some(0), B)], &mut out);
    assert_eq!(out, vec![B]);
}

#[test]
fn ids_that_remain_keep_their_order() {
    let archetype: Archetype<usize> = Archetype::with_schema(&vec![A, B, C, D]);
    let mut out = vec![A];
    remaining_ids(&archetype, &[C, A], &mut out);
    assert_eq!(out, vec![B, D]);
    remaining_ids(&archetype, &[], &mut out);
    assert_eq!(out, vec![A, B, C, D]);
    remaining_ids(&archetype, &[D, C, B, A], &mut out);
    assert_eq!(out, Vec::<ComponentId>::new());
    assert!(contains_id(&[A, C], C));
    assert!(!contains_id(&[A, C], B));
    assert!(!contains_id(&[], B));
}

#[test]
fn added_components_join_the_entity() {
    let mut world: World<Value> = World::new();
    let entity = world.spawn((B, 20));
    world.add_components(entity, ((C, 30), (A, 10))).unwrap();
    assert_eq!(schema_of(&world, entity), vec![A, B, C]);
    assert_eq!(components_of(&world, entity), vec![(A, 10), (B, 20), (C, 30)]);
    assert_eq!(world.get_location(entity).unwrap().storage_index, 1);
    assert_eq!(world.archetypes()[0].len(), 0);
}

#[test]
fn adding_moves_the_last_row_into_the_gap() {
    let mut world: World<Value> = World::new();
    let e1 = world.spawn((A, 1));
    let e2 = world.spawn((A, 2));
    let e3 = world.spawn((A, 3));
    let other = world.spawn(((A, 4), (B, 40)));
    world.add_components(e1, (B, 10)).unwrap();
    assert_eq!(world.get_location(e3).unwrap().index_within_storage, 0);
    assert_eq!(world.get_location(e2).unwrap().index_within_storage, 1);
    assert_eq!(world.get_location(other).unwrap().index_within_storage, 0);
    let moved = world.get_location(e1).unwrap();
    assert_eq!(moved.storage_index, world.get_location(other).unwrap().storage_index);
    assert_eq!(moved.index_within_storage, 1);
    assert_eq!(components_of(&world, e1), vec![(A, 1), (B, 10)]);
    assert_eq!(components_of(&world, e2), vec![(A, 2)]);
    assert_eq!(components_of(&world, e3), vec![(A, 3)]);
    assert_eq!(components_of(&world, other), vec![(A, 4), (B, 40)]);
}

#[test]
fn removed_components_come_back_in_the_order_asked() {
    let mut world: World<Value> = World::new();
    let entity = world.spawn(vec![(A, (A, 1)), (B, (B, 2)), (C, (C, 3)), (D, (D, 4))]);
    let removed = world.remove_components(entity, &[D, B]).unwrap();
    assert_eq!(removed, vec![(D, 4), (B, 2)]);
    assert_eq!(schema_of(&world, entity), vec![A, C]);
    assert_eq!(components_of(&world, entity), vec![(A, 1), (C, 3)]);
}

#[test]
fn removing_every_component_leaves_an_entity_without_any() {
    let mut world: World<Value> = World::new();
    let entity = world.spawn((A, 1));
    assert_eq!(world.remove_components(entity, &[A]).unwrap(), vec![(A, 1)]);
    assert_eq!(schema_of(&world, entity), Vec::<ComponentId>::new());
    assert!(world.get_location(entity).is_ok());
    let all = world.matching_archetypes(&[]);
    assert_eq!(all.len(), 2);
    world.add_components(entity, (A, 5)).unwrap();
    assert_eq!(components_of(&world, entity), vec![(A, 5)]);
    assert_eq!(world.get_location(entity).unwrap().storage_index, 0);
}

#[test]
fn adding_then_removing_restores_the_schema() {
    let mut world: World<Value> = World::new();
    let entity = world.spawn(((A, 1), (C, 3)));
    let before = schema_of(&world, entity);
    world.add_components(entity, ((D, 4), (B, 2))).unwrap();
    assert_eq!(schema_of(&world, entity), vec![A, B, C, D]);
    world.remove_components(entity, &[B, D]).unwrap();
    assert_eq!(schema_of(&world, entity), before);
    assert_eq!(components_of(&world, entity), vec![(A, 1), (C, 3)]);
}

#[test]
fn empty_bundle_and_empty_id_list_change_nothing() {
    let mut world: World<Value> = World::new();
    let entity = world.spawn((A, 1));
    let location = world.get_location(entity).unwrap();
    world.add_components(entity, Vec::<(ComponentId, Value)>::new()).unwrap();
    assert_eq!(world.remove_components(entity, &[]).unwrap(), vec![]);
    assert_eq!(world.get_location(entity), Ok(location));
    assert_eq!(world.archetypes().len(), 1);
}

#[test]
fn moved_entity_is_found_by_queries_of_its_new_schema() {
    let mut world: World<Value> = World::new();
    let entity = world.spawn((A, 1));
    world.spawn((A, 2));
    world.add_components(entity, (B, 10)).unwrap();
    let filters = vec![
        Filter { component_id: A, filter_type: FilterType::With },
        Filter { component_id: B, filter_type: FilterType::With },
    ];
    let query = world.query::<All<Value>, _>(&filters);
    let rows = query.iter();
    assert_eq!(rows.len(), 1);
    assert_eq!(rows[0][0], Some(&(A, 1)));
    assert_eq!(rows[0][1], Some(&(B, 10)));
}

#[test]
fn errors_leave_the_world_as_it_was() {
    let mut world: World<Value> = World::new();
    let entity = world.spawn((A, 1));
    let stale = rust_ecs::Entity::from_index_and_generation(entity.index, 3);
    assert_eq!(world.add_components(stale, (B, 2)), Err(ECSError::EntityNoLongerExists));
    assert_eq!(world.remove_components(stale, &[A]), Err(ECSError::EntityNoLongerExists));
    assert_eq!(schema_of(&world, entity), vec![A]);
    assert_eq!(world.archetypes().len(), 1);
}
