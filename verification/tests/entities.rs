use rust_ecs::entity_manager::EntityManager;
use rust_ecs::{ECSError, Entity, EntityLocation};

fn at(storage_index: usize, index_within_storage: usize) -> EntityLocation {
    EntityLocation { storage_index, index_within_storage }
}

#[test]
fn new_slots_start_at_generation_zero() {
    let mut manager = EntityManager::new();
    assert_eq!(manager.slot_count(), 0);
    assert_eq!(manager.new_entity(at(0, 0)), Entity::from_index_and_generation(0, 0));
    assert_eq!(manager.new_entity(at(0, 1)), Entity::from_index_and_generation(1, 0));
    assert_eq!(manager.slot_count(), 2);
}

#[test]
fn location_lookup_tells_the_three_outcomes() {
    let mut manager = EntityManager::new();
    let entity = manager.new_entity(at(3, 4));
    assert_eq!(manager.get_entity_location(entity), Ok(at(3, 4)));
    assert_eq!(
        manager.get_entity_location(Entity::from_index_and_generation(0, 1)),
        Err(ECSError::EntityNoLongerExists)
    );
    assert_eq!(
        manager.get_entity_location(Entity::from_index_and_generation(1, 0)),
        Err(ECSError::NoMatchingEntity)
    );
}

#[test]
fn despawn_moves_the_slot_on_and_frees_it() {
    let mut manager = EntityManager::new();
    let first = manager.new_entity(at(0, 0));
    let second = manager.new_entity(at(0, 1));
    manager.despawn_entity(first);
    assert_eq!(manager.get_entity_location(first), Err(ECSError::EntityNoLongerExists));
    assert_eq!(manager.get_entity_location(second), Ok(at(0, 1)));
    let reused = manager.new_entity(at(5, 6));
    assert_eq!(reused, Entity::from_index_and_generation(0, 1));
    assert_eq!(manager.get_entity_location(reused), Ok(at(5, 6)));
    assert_eq!(manager.slot_count(), 2);
}

#[test]
fn despawn_of_a_stale_handle_changes_nothing() {
    let mut manager = EntityManager::new();
    let first = manager.new_entity(at(0, 0));
    manager.despawn_entity(first);
    manager.despawn_entity(first);
    manager.despawn_entity(Entity::from_index_and_generation(9, 0));
    let reused = manager.new_entity(at(1, 1));
    assert_eq!(reused, Entity::from_index_and_generation(0, 1));
    let fresh = manager.new_entity(at(1, 2));
    assert_eq!(fresh, Entity::from_index_and_generation(1, 0));
}

#[test]
fn the_slot_freed_last_is_issued_first() {
    let mut manager = EntityManager::new();
    let a = manager.new_entity(at(0, 0));
    let b = manager.new_entity(at(0, 1));
    let c = manager.new_entity(at(0, 2));
    manager.despawn_entity(a);
    manager.despawn_entity(c);
    manager.despawn_entity(b);
    assert_eq!(manager.new_entity(at(0, 0)).index, 1);
    assert_eq!(manager.new_entity(at(0, 0)).index, 2);
    assert_eq!(manager.new_entity(at(0, 0)).index, 0);
    assert_eq!(manager.new_entity(at(0, 0)).index, 3);
}

#[test]
fn row_update_keeps_generation_and_archetype() {
    let mut manager = EntityManager::new();
    let entity = manager.new_entity(at(2, 7));
    manager.update_entity_index_in_archetype(entity.index, 3);
    assert_eq!(manager.get_entity_location(entity), Ok(at(2, 3)));
    manager.set_entity_location(entity.index, at(4, 0));
    assert_eq!(manager.get_entity_location(entity), Ok(at(4, 0)));
}

#[test]
fn generation_increments_by_one_per_despawn() {
    let mut manager = EntityManager::new();
    let mut entity = manager.new_entity(at(0, 0));
    for generation in 0..5u32 {
        assert_eq!(entity, Entity::from_index_and_generation(0, generation));
        manager.despawn_entity(entity);
        entity = manager.new_entity(at(0, 0));
    }
    assert_eq!(entity.generation, 5);
}
