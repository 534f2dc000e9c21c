use rust_ecs::entity_manager::EntityManager;
use rust_ecs::archetype::Archetype;
use rust_ecs::bundle::sort_components;
use rust_ecs::{
    AnyComponentTrait, ArchetypeComponentChannel, ComponentBundleTrait, ComponentId, ComponentTrait,
    EntityLocation,
};

const A: ComponentId = ComponentId { id: 1 };
const B: ComponentId = ComponentId { id: 2 };
const C: ComponentId = ComponentId { id: 3 };

fn archetype(ids: &[ComponentId], rows: &[&[usize]]) -> Archetype<usize> {
    let mut archetype = Archetype::with_schema(&ids.to_vec());
    for (entity_index, row) in rows.iter().enumerate() {
        let mut components: Vec<(Option<usize>, ComponentId)> =
            row.iter().zip(ids.iter()).map(|(value, id)| (Some(*value), *id)).collect();
        archetype.append_row(&mut components);
        archetype.push_entity_index(entity_index);
    }
    archetype
}

fn columns(archetype: &Archetype<usize>) -> Vec<Vec<usize>> {
    (0..archetype.channel_count()).map(|position| archetype.channel(position).clone()).collect()
}

#[test]
fn corresponding_channels_are_the_column_positions() {
    let archetype = archetype(&[A, B, C], &[]);
    assert_eq!(archetype.get_corresponding_channels(&[C, A, B, A]), vec![2, 0, 1, 0]);
    assert_eq!(archetype.get_corresponding_channels(&[]), Vec::<usize>::new());
    assert_eq!(archetype.find_channel(B), Some(1));
    assert_eq!(archetype.find_channel(ComponentId { id: 9 }), None);
    assert_eq!(archetype.channel_id(2), C);
}

#[test]
fn appended_rows_fill_every_column() {
    let archetype = archetype(&[A, B], &[&[1, 10], &[2, 20], &[3, 30]]);
    assert_eq!(archetype.len(), 3);
    assert_eq!(columns(&archetype), vec![vec![1, 2, 3], vec![10, 20, 30]]);
    assert_eq!(archetype.entity_indices(), &vec![0, 1, 2]);
}

#[test]
fn removed_row_is_replaced_by_the_last_row() {
    let mut manager = EntityManager::new();
    for row in 0..3 {
        manager.new_entity(EntityLocation { storage_index: 0, index_within_storage: row });
    }
    let mut archetype = archetype(&[A, B], &[&[1, 10], &[2, 20], &[3, 30]]);
    archetype.remove_entity(&mut manager, 0);
    assert_eq!(columns(&archetype), vec![vec![3, 2], vec![30, 20]]);
    assert_eq!(archetype.entity_indices(), &vec![2, 1]);
    let moved = rust_ecs::Entity::from_index_and_generation(2, 0);
    assert_eq!(
        manager.get_entity_location(moved),
        Ok(EntityLocation { storage_index: 0, index_within_storage: 0 })
    );
}

#[test]
fn migration_moves_the_shared_columns_only() {
    let mut source = archetype(&[A, B, C], &[&[1, 10, 100], &[2, 20, 200]]);
    let mut target = archetype(&[A, C], &[&[7, 700]]);
    source.migrate_entity_components(&mut target, 0);
    assert_eq!(columns(&source), vec![vec![2], vec![10, 20], vec![200]]);
    assert_eq!(columns(&target), vec![vec![7, 1], vec![700, 100]]);
    assert_eq!(source.entity_indices(), &vec![0, 1]);
    assert_eq!(target.entity_indices(), &vec![0]);
}

#[test]
fn migration_leaves_columns_of_other_ids_alone() {
    let mut source = archetype(&[A], &[&[1], &[2]]);
    let mut target = archetype(&[A, B], &[&[5, 50]]);
    source.migrate_entity_components(&mut target, 1);
    assert_eq!(columns(&source), vec![vec![1]]);
    assert_eq!(columns(&target), vec![vec![5, 2], vec![50]]);
}

#[test]
fn single_components_are_taken_and_pushed() {
    let mut archetype = archetype(&[A, B], &[&[1, 10], &[2, 20], &[3, 30]]);
    assert_eq!(archetype.take_component(1, 0), 10);
    assert_eq!(columns(&archetype), vec![vec![1, 2, 3], vec![30, 20]]);
    let mut component = Some(40);
    archetype.push_component(1, &mut component);
    assert_eq!(component, None);
    assert_eq!(columns(&archetype), vec![vec![1, 2, 3], vec![30, 20, 40]]);
    archetype.swap_remove_entity_index(0);
    assert_eq!(archetype.entity_indices(), &vec![2, 1]);
}

#[test]
fn channels_swap_remove_push_and_migrate() {
    let mut channel: Vec<usize> = vec![1, 2, 3, 4];
    ArchetypeComponentChannel::swap_remove(&mut channel, 1);
    assert_eq!(channel, vec![1, 4, 3]);
    let mut component = Some(9);
    ArchetypeComponentChannel::push(&mut channel, &mut component);
    assert_eq!(component, None);
    assert_eq!(channel, vec![1, 4, 3, 9]);
    let mut other: Vec<usize> = vec![0];
    ArchetypeComponentChannel::migrate(&mut channel, &mut other, 0);
    assert_eq!(channel, vec![9, 4, 3]);
    assert_eq!(other, vec![0, 1]);
}

#[test]
fn components_are_sorted_by_id() {
    let mut pairs = vec![(Some("c"), C), (Some("a"), A), (Some("b"), B)];
    sort_components(&mut pairs);
    assert_eq!(pairs, vec![(Some("a"), A), (Some("b"), B), (Some("c"), C)]);
    let mut sorted = vec![(Some(1), A), (Some(2), C)];
    sort_components(&mut sorted);
    assert_eq!(sorted, vec![(Some(1), A), (Some(2), C)]);
    let mut empty: Vec<(Option<usize>, ComponentId)> = vec![];
    sort_components(&mut empty);
    assert!(empty.is_empty());
}

#[test]
fn tagged_values_are_components() {
    let component = (B, 5usize);
    assert_eq!(component.component_id(), B);
    let copy = <(ComponentId, usize) as ComponentTrait>::clone_vec(&[(A, 1), (B, 2)]);
    assert_eq!(copy, Some(vec![(A, 1), (B, 2)]));
    assert!(<(ComponentId, usize) as ComponentTrait>::make_vec().is_empty());
}

#[test]
fn bundles_come_apart_in_their_order() {
    assert_eq!((A, 1usize).get_components_and_ids(), vec![(Some((A, 1)), A)]);
    assert_eq!(
        ((B, 2usize), (A, 1usize)).get_components_and_ids(),
        vec![(Some((B, 2)), B), (Some((A, 1)), A)]
    );
    assert_eq!(
        vec![(C, "c"), (A, "a"), (B, "b")].get_components_and_ids(),
        vec![(Some("c"), C), (Some("a"), A), (Some("b"), B)]
    );
    let mut ids = vec![C];
    ((B, 2usize), (A, 1usize)).append_component_ids(&mut ids);
    assert_eq!(ids, vec![C, B, A]);
    (A, 1usize).append_component_ids(&mut ids);
    assert_eq!(ids, vec![C, B, A, A]);
    vec![(C, 0usize), (B, 0usize)].append_component_ids(&mut ids);
    assert_eq!(ids, vec![C, B, A, A, C, B]);
}

#[test]
fn held_component_is_taken_once() {
    let mut held = Some(3usize);
    assert!(held.new_archetype_channel().is_empty());
    assert_eq!(held.take_component(), Some(3));
    assert_eq!(held.take_component(), None);
}

#[test]
fn a_component_is_written_in_place() {
    let mut archetype = archetype(&[A, B], &[&[1, 10], &[2, 20]]);
    *archetype.component_mut(1, 0) = 15;
    assert_eq!(columns(&archetype), vec![vec![1, 2], vec![15, 20]]);
}
