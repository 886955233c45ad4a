use sortition_sum_tree::{SortitionError, SortitionSumTree, SortitionSumTrees};

fn two_identifiers() -> SortitionSumTrees {
    let mut trees = SortitionSumTrees::new();
    trees.create_tree(1, 2).unwrap();
    trees.set(1, 10, 100).unwrap();
    trees.set(1, 20, 200).unwrap();
    trees
}

fn node_count(trees: &SortitionSumTrees, key: u128) -> usize {
    let (start, leaves, more) = trees.query_leaves(key, 0, usize::MAX).unwrap();
    assert!(!more);
    start + leaves.len()
}

#[test]
fn two_identifiers_stakes_and_draws() {
    let trees = two_identifiers();
    assert_eq!(trees.stake_of(1, 100), Ok(10));
    assert_eq!(trees.stake_of(1, 200), Ok(20));
    assert_eq!(trees.draw(1, 5), Ok(100));
    assert_eq!(trees.draw(1, 15), Ok(200));
}

#[test]
fn removal_then_draw() {
    let mut trees = two_identifiers();
    trees.set(1, 0, 100).unwrap();
    assert_eq!(trees.stake_of(1, 100), Ok(0));
    assert_eq!(trees.total_stake(1), Ok(20));
    assert_eq!(trees.draw(1, 0), Ok(200));
}

#[test]
fn draw_on_empty_tree_fails() {
    let mut trees = SortitionSumTrees::new();
    trees.create_tree(1, 2).unwrap();
    assert_eq!(trees.draw(1, 0), Err(SortitionError::EmptyTree));
    assert_eq!(trees.draw(1, 12345), Err(SortitionError::EmptyTree));
}

#[test]
fn draw_after_everything_removed_fails() {
    let mut trees = two_identifiers();
    trees.set(1, 0, 100).unwrap();
    trees.set(1, 0, 200).unwrap();
    assert_eq!(trees.total_stake(1), Ok(0));
    assert_eq!(trees.draw(1, 7), Err(SortitionError::EmptyTree));
}

#[test]
fn set_then_stake_round_trip() {
    let mut trees = SortitionSumTrees::new();
    trees.create_tree(9, 3).unwrap();
    trees.set(9, 42, 7).unwrap();
    assert_eq!(trees.stake_of(9, 7), Ok(42));
    trees.set(9, 5, 7).unwrap();
    assert_eq!(trees.stake_of(9, 7), Ok(5));
    trees.set(9, 5, 7).unwrap();
    assert_eq!(trees.stake_of(9, 7), Ok(5));
    assert_eq!(trees.total_stake(9), Ok(5));
    assert_eq!(trees.stake_of(9, 8), Ok(0));
}

#[test]
fn removal_frees_slot_for_next_insert() {
    let mut trees = two_identifiers();
    let before = node_count(&trees, 1);
    assert_eq!(before, 3);
    trees.set(1, 0, 100).unwrap();
    assert_eq!(trees.stake_of(1, 100), Ok(0));
    assert_eq!(node_count(&trees, 1), before);
    trees.set(1, 30, 300).unwrap();
    assert_eq!(node_count(&trees, 1), before);
    assert_eq!(trees.stake_of(1, 300), Ok(30));
    assert_eq!(trees.total_stake(1), Ok(50));
}

#[test]
fn removing_an_absent_identifier_changes_nothing() {
    let mut trees = two_identifiers();
    trees.set(1, 0, 999).unwrap();
    assert_eq!(trees.total_stake(1), Ok(30));
    assert_eq!(node_count(&trees, 1), 3);
}

#[test]
fn third_identifier_splits_a_leaf() {
    let mut trees = two_identifiers();
    trees.set(1, 5, 300).unwrap();
    // node 1 becomes an inner node: its identifier moves to node 4
    assert_eq!(node_count(&trees, 1), 5);
    assert_eq!(trees.stake_of(1, 100), Ok(10));
    assert_eq!(trees.stake_of(1, 200), Ok(20));
    assert_eq!(trees.stake_of(1, 300), Ok(5));
    assert_eq!(trees.total_stake(1), Ok(35));
    let (start, leaves, more) = trees.query_leaves(1, 0, 10).unwrap();
    assert_eq!(start, 2);
    assert_eq!(leaves, vec![20, 5, 10]);
    assert!(!more);
    // intervals: node 3 holds [0, 5), node 4 holds [5, 15), node 2 holds [15, 35)
    assert_eq!(trees.draw(1, 0), Ok(300));
    assert_eq!(trees.draw(1, 4), Ok(300));
    assert_eq!(trees.draw(1, 5), Ok(100));
    assert_eq!(trees.draw(1, 14), Ok(100));
    assert_eq!(trees.draw(1, 15), Ok(200));
    assert_eq!(trees.draw(1, 34), Ok(200));
    assert_eq!(trees.draw(1, 35), Ok(300));
}

#[test]
fn root_holds_sum_of_stakes() {
    let mut trees = SortitionSumTrees::new();
    trees.create_tree(3, 2).unwrap();
    let ids: [u128; 6] = [11, 22, 33, 44, 55, 66];
    for (n, id) in ids.iter().enumerate() {
        trees.set(3, (n as u128 + 1) * 10, *id).unwrap();
    }
    trees.set(3, 0, 33).unwrap();
    trees.set(3, 7, 22).unwrap();
    trees.set(3, 100, 44).unwrap();
    trees.set(3, 1, 77).unwrap();
    let mut sum: u128 = 0;
    for id in [11u128, 22, 33, 44, 55, 66, 77] {
        sum += trees.stake_of(3, id).unwrap();
    }
    assert_eq!(sum, 10 + 7 + 100 + 50 + 60 + 1);
    assert_eq!(trees.total_stake(3), Ok(sum));
}

#[test]
fn every_draw_hits_a_positive_stake_in_proportion() {
    let mut trees = SortitionSumTrees::new();
    trees.create_tree(4, 3).unwrap();
    let stakes: [(u128, u128); 5] = [(1, 3), (2, 1), (3, 4), (4, 2), (5, 6)];
    for (id, w) in stakes.iter() {
        trees.set(4, *w, *id).unwrap();
    }
    trees.set(4, 0, 2).unwrap();
    let total = trees.total_stake(4).unwrap();
    assert_eq!(total, 15);
    let mut counts = [0u128; 6];
    for n in 0..total * 4 {
        let id = trees.draw(4, n).unwrap();
        assert!(trees.stake_of(4, id).unwrap() > 0);
        counts[id as usize] += 1;
    }
    assert_eq!(counts, [0, 12, 0, 16, 8, 24]);
    let big = trees.draw(4, u128::MAX).unwrap();
    assert!(trees.stake_of(4, big).unwrap() > 0);
}

#[test]
fn pages_cover_all_leaves_once() {
    let mut trees = SortitionSumTrees::new();
    trees.create_tree(5, 2).unwrap();
    for id in 1..=7u128 {
        trees.set(5, id, id).unwrap();
    }
    let (start, all, more) = trees.query_leaves(5, 0, 100).unwrap();
    assert!(!more);
    assert_eq!(start + all.len(), node_count(&trees, 5));
    let mut seen: Vec<u128> = Vec::new();
    let mut cursor = 0usize;
    loop {
        let (s, page, more) = trees.query_leaves(5, cursor, 3).unwrap();
        assert_eq!(s, start);
        cursor += page.len();
        seen.extend(page);
        if !more {
            break;
        }
    }
    assert_eq!(seen, all);
    let mut sorted = all.clone();
    sorted.retain(|w| *w != 0);
    sorted.sort();
    assert_eq!(sorted, vec![1, 2, 3, 4, 5, 6, 7]);
}

#[test]
fn page_past_the_end_is_empty() {
    let trees = two_identifiers();
    assert_eq!(trees.query_leaves(1, 2, 5), Ok((1, vec![], false)));
    assert_eq!(trees.query_leaves(1, usize::MAX, usize::MAX), Ok((1, vec![], false)));
    assert_eq!(trees.query_leaves(1, 0, 1), Ok((1, vec![10], true)));
    assert_eq!(trees.query_leaves(1, 1, 1), Ok((1, vec![20], false)));
}

#[test]
fn empty_tree_pages_the_root() {
    let mut trees = SortitionSumTrees::new();
    trees.create_tree(6, 4).unwrap();
    assert_eq!(trees.query_leaves(6, 0, 10), Ok((0, vec![0], false)));
    assert_eq!(trees.query_leaves(6, 0, 0), Ok((0, vec![], true)));
}

#[test]
fn unknown_key_is_not_found() {
    let mut trees = SortitionSumTrees::new();
    assert_eq!(trees.set(1, 5, 1), Err(SortitionError::NotFound));
    assert_eq!(trees.stake_of(1, 1), Err(SortitionError::NotFound));
    assert_eq!(trees.draw(1, 1), Err(SortitionError::NotFound));
    assert_eq!(trees.query_leaves(1, 0, 1), Err(SortitionError::NotFound));
    assert_eq!(trees.total_stake(1), Err(SortitionError::NotFound));
    assert_eq!(trees.update_parents(1, 0, true, 0), Err(SortitionError::NotFound));
}

#[test]
fn creating_an_existing_key_is_refused() {
    let mut trees = two_identifiers();
    assert_eq!(trees.create_tree(1, 3), Err(SortitionError::AlreadyExists));
    assert_eq!(trees.stake_of(1, 100), Ok(10));
    assert_eq!(trees.create_tree(2, 3), Ok(()));
    assert_eq!(trees.stake_of(2, 100), Ok(0));
}

#[test]
fn trees_are_independent() {
    let mut trees = two_identifiers();
    trees.create_tree(2, 5).unwrap();
    trees.set(2, 8, 100).unwrap();
    assert_eq!(trees.stake_of(1, 100), Ok(10));
    assert_eq!(trees.stake_of(2, 100), Ok(8));
    assert_eq!(trees.draw(2, 1000), Ok(100));
}

#[test]
fn single_tree_operations() {
    let mut tree = SortitionSumTree::new(2);
    assert_eq!(tree.draw(3), None);
    tree.set(4, 1);
    tree.set(6, 2);
    tree.set(2, 3);
    assert_eq!(tree.total_stake(), 12);
    assert_eq!(tree.stake_of(2), 6);
    assert_eq!(tree.draw(0), Some(3));
    assert_eq!(tree.draw(2), Some(1));
    assert_eq!(tree.draw(6), Some(2));
    assert_eq!(tree.query_leaves(0, 10), (2, vec![6, 2, 4], false));
}

#[test]
fn update_parents_with_zero_change_keeps_tree() {
    let mut trees = two_identifiers();
    assert_eq!(trees.update_parents(1, 2, true, 0), Ok(()));
    assert_eq!(trees.total_stake(1), Ok(30));
    assert_eq!(trees.draw(1, 12), Ok(200));
}

#[test]
fn setting_the_current_stake_changes_nothing() {
    let mut trees = two_identifiers();
    trees.set(1, 5, 300).unwrap();
    let before = trees.query_leaves(1, 0, 100).unwrap();
    trees.set(1, 20, 200).unwrap();
    trees.set(1, 0, 400).unwrap();
    assert_eq!(trees.query_leaves(1, 0, 100).unwrap(), before);
    assert_eq!(trees.total_stake(1), Ok(35));
    assert_eq!(node_count(&trees, 1), 5);
}

#[test]
fn array_grows_by_two_only_at_a_first_child() {
    let mut trees = SortitionSumTrees::new();
    trees.create_tree(8, 3).unwrap();
    let mut lens: Vec<usize> = Vec::new();
    for id in 1..=6u128 {
        trees.set(8, id, id).unwrap();
        lens.push(node_count(&trees, 8));
    }
    // with k = 3, indices 4 and 7 are the first children of nodes 1 and 2
    assert_eq!(lens, vec![2, 3, 4, 6, 7, 9]);
    assert_eq!(trees.total_stake(8), Ok(21));
}
