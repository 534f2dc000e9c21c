use rust_ecs::ChainedIterator;

fn drain(mut chain: ChainedIterator<usize>) -> Vec<usize> {
    let mut items = Vec::new();
    while let Some(item) = chain.next() {
        items.push(*item);
    }
    assert_eq!(chain.next(), None);
    items
}

#[test]
fn chain_yields_one_sequence_after_the_other() {
    let first = vec![1, 2];
    let second = vec![3];
    let third = vec![4, 5, 6];
    let chain = ChainedIterator::new(vec![&first, &second, &third]);
    assert_eq!(drain(chain), vec![1, 2, 3, 4, 5, 6]);
}

#[test]
fn chain_passes_over_empty_sequences() {
    let empty: Vec<usize> = vec![];
    let some = vec![7, 8];
    let chain = ChainedIterator::new(vec![&empty, &some, &empty, &empty, &some, &empty]);
    assert_eq!(drain(chain), vec![7, 8, 7, 8]);
}

#[test]
fn chain_of_nothing_is_empty() {
    let empty: Vec<usize> = vec![];
    assert_eq!(drain(ChainedIterator::new(vec![])), Vec::<usize>::new());
    assert_eq!(drain(ChainedIterator::new(vec![&empty])), Vec::<usize>::new());
}
