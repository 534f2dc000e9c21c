use rust_ecs::sparse_set::SparseSet;

#[test]
fn empty_set_holds_nothing() {
    let set: SparseSet<usize> = SparseSet::new();
    assert_eq!(set.len(), 0);
    assert_eq!(set.get(0), None);
    assert_eq!(set.get(17), None);
    assert!(set.ordered_keys_and_values().is_empty());
}

#[test]
fn inserted_values_are_found() {
    let mut set: SparseSet<usize> = SparseSet::new();
    set.insert(0, 10);
    set.insert(3, 13);
    set.insert(7, 17);
    assert_eq!(set.len(), 3);
    assert_eq!(set.get(0), Some(&10));
    assert_eq!(set.get(3), Some(&13));
    assert_eq!(set.get(7), Some(&17));
    assert_eq!(set.get(1), None);
    assert_eq!(set.get(8), None);
}

#[test]
fn insert_overwrites_the_value_of_a_present_key() {
    let mut set: SparseSet<usize> = SparseSet::new();
    set.insert(2, 1);
    set.insert(2, 5);
    assert_eq!(set.len(), 1);
    assert_eq!(set.get(2), Some(&5));
    assert_eq!(set.ordered_keys_and_values(), vec![(2, &5)]);
}

#[test]
fn keys_come_out_in_ascending_order() {
    let mut set: SparseSet<usize> = SparseSet::new();
    set.insert(5, 50);
    set.insert(1, 10);
    set.insert(9, 90);
    set.insert(3, 30);
    set.insert(0, 0);
    assert_eq!(
        set.ordered_keys_and_values(),
        vec![(0, &0), (1, &10), (3, &30), (5, &50), (9, &90)]
    );
    assert_eq!(set.ordered_keys_and_values(), set.ordered_keys_and_values());
    for (position, (key, value)) in set.ordered_keys_and_values().iter().enumerate() {
        assert_eq!(set.key_at(position), *key);
        assert_eq!(set.value_at(position), *value);
        assert_eq!(set.get(*key), Some(*value));
    }
}

#[test]
fn lookup_works_after_an_insertion_in_the_middle() {
    let mut set: SparseSet<usize> = SparseSet::new();
    set.insert(4, 40);
    set.insert(8, 80);
    set.insert(6, 60);
    set.insert(2, 20);
    assert_eq!(set.get(4), Some(&40));
    assert_eq!(set.get(8), Some(&80));
    assert_eq!(set.get(6), Some(&60));
    assert_eq!(set.get(2), Some(&20));
    assert_eq!(set.get(5), None);
    assert_eq!(set.len(), 4);
}
