use goverify::dom::{dominators, strictly_dominates};

#[test]
fn diamond_joins_at_entry() {
    // 0 -> {1,2} -> 3: 1 and 2 do not dominate 3.
    let dag: Vec<Vec<u32>> = vec![vec![1, 2], vec![3], vec![3], vec![]];
    let idom = dominators(&dag);
    assert_eq!(idom, vec![Some(0), Some(0), Some(0), Some(0)]);
    assert!(strictly_dominates(&idom, 0, 3));
    assert!(!strictly_dominates(&idom, 1, 3));
    assert!(!strictly_dominates(&idom, 2, 3));
    assert!(!strictly_dominates(&idom, 3, 3), "strict: never self");
}

#[test]
fn chain_dominates_transitively() {
    // 0 -> 1 -> 2: both 0 and 1 strictly dominate 2.
    let dag: Vec<Vec<u32>> = vec![vec![1], vec![2], vec![]];
    let idom = dominators(&dag);
    assert_eq!(idom, vec![Some(0), Some(0), Some(1)]);
    assert!(strictly_dominates(&idom, 0, 2));
    assert!(strictly_dominates(&idom, 1, 2));
}

#[test]
fn unreachable_block_has_no_idom() {
    // 0 -> 1; 2 floats.
    let dag: Vec<Vec<u32>> = vec![vec![1], vec![], vec![1]];
    let idom = dominators(&dag);
    assert_eq!(idom[2], None);
    assert!(!strictly_dominates(&idom, 2, 1), "unreachable dominates nothing");
}

#[test]
fn no_blocks_have_no_dominators() {
    let dag: Vec<Vec<u32>> = vec![];
    assert!(dominators(&dag).is_empty());
}

#[test]
fn nested_diamonds_join_at_their_own_heads() {
    // 0 -> 1 -> {2,3} -> 4 -> 5
    let dag: Vec<Vec<u32>> = vec![vec![1], vec![2, 3], vec![4], vec![4], vec![5], vec![]];
    let idom = dominators(&dag);
    assert_eq!(idom, vec![Some(0), Some(0), Some(1), Some(1), Some(1), Some(4)]);
    assert!(strictly_dominates(&idom, 1, 5));
    assert!(!strictly_dominates(&idom, 2, 5));
}
