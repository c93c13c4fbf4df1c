use data_structures_and_algorithms::binary_search_tree::BinarySearchTree;
use data_structures_and_algorithms::traversal::{
    InorderTraversal, LevelOrderTraversal, PostorderTraversal, PreorderTraversal,
    ReverseOrderTraversal,
};
use data_structures_and_algorithms::tree::Tree;

fn build(values: &[i64]) -> BinarySearchTree {
    let mut tree = BinarySearchTree::new();
    for v in values {
        tree.insert(*v);
    }
    tree
}

fn drain_inorder(mut t: InorderTraversal) -> Vec<i64> {
    let mut out = Vec::new();
    while let Some(v) = t.next() {
        out.push(v);
    }
    out
}

fn drain_reverse(mut t: ReverseOrderTraversal) -> Vec<i64> {
    let mut out = Vec::new();
    while let Some(v) = t.next() {
        out.push(v);
    }
    out
}

fn drain_preorder(mut t: PreorderTraversal) -> Vec<i64> {
    let mut out = Vec::new();
    while let Some(v) = t.next() {
        out.push(v);
    }
    out
}

fn drain_postorder(mut t: PostorderTraversal) -> Vec<i64> {
    let mut out = Vec::new();
    while let Some(v) = t.next() {
        out.push(v);
    }
    out
}

fn drain_level(mut t: LevelOrderTraversal) -> Vec<i64> {
    let mut out = Vec::new();
    while let Some(v) = t.next() {
        out.push(v);
    }
    out
}

#[test]
fn sorted_export_after_inserts() {
    let tree = build(&[7, 1, 0, 4, 5, 3]);
    assert_eq!(tree.sorted_vec(), vec![0, 1, 3, 4, 5, 7]);
    assert_eq!(tree.len(), 6);
}

#[test]
fn from_iter_and_extend_match_repeated_insert() {
    let tree = BinarySearchTree::from_iter(vec![7, 1, 0, 4, 5, 3]);
    assert_eq!(tree.sorted_vec(), vec![0, 1, 3, 4, 5, 7]);
    let mut other = BinarySearchTree::new();
    other.extend(vec![7, 1, 0]);
    other.extend(vec![4, 5, 3, 3]);
    assert_eq!(other.sorted_vec(), vec![0, 1, 3, 3, 4, 5, 7]);
    assert_eq!(other.len(), 7);
}

#[test]
fn sorted_export_is_non_decreasing_with_duplicates() {
    let tree = build(&[5, 2, 8, 2, 5, 5, -3, 9, 8]);
    let v = tree.sorted_vec();
    for w in v.windows(2) {
        assert!(w[0] <= w[1]);
    }
    assert_eq!(tree.len(), v.len());
    assert_eq!(v, vec![-3, 2, 2, 5, 5, 5, 8, 8, 9]);
}

#[test]
fn duplicates_allowed() {
    let mut tree = BinarySearchTree::new();
    assert!(!tree.insert(5));
    assert!(tree.insert(5));
    assert_eq!(tree.len(), 2);
    assert!(tree.contains(&5));
    assert_eq!(tree.sorted_vec(), vec![5, 5]);
}

#[test]
fn duplicates_rejected() {
    let mut tree = BinarySearchTree::new();
    assert!(!tree.insert_without_dup(5));
    assert!(tree.insert_without_dup(5));
    assert_eq!(tree.len(), 1);
    assert_eq!(tree.sorted_vec(), vec![5]);
}

#[test]
fn remove_node_with_two_children() {
    let mut tree = build(&[5, 3, 8, 1, 4, 7, 9]);
    assert!(tree.remove(&5));
    assert_eq!(tree.sorted_vec(), vec![1, 3, 4, 7, 8, 9]);
    assert_eq!(tree.min(), Some(1));
    assert_eq!(tree.max(), Some(9));
    assert_eq!(tree.len(), 6);
    assert_eq!(tree.root(), Some(7));
}

#[test]
fn remove_absent_value_changes_nothing() {
    let mut tree = build(&[5, 3, 8, 1, 4, 7, 9]);
    let before = tree.sorted_vec();
    assert!(!tree.remove(&100));
    assert_eq!(tree.len(), 7);
    assert_eq!(tree.sorted_vec(), before);
}

#[test]
fn remove_leaf_and_one_child_nodes() {
    let mut tree = build(&[5, 3, 8, 1, 7]);
    assert!(tree.remove(&1));
    assert_eq!(tree.sorted_vec(), vec![3, 5, 7, 8]);
    assert!(tree.remove(&8));
    assert_eq!(tree.sorted_vec(), vec![3, 5, 7]);
    assert!(tree.remove(&5));
    assert_eq!(tree.sorted_vec(), vec![3, 7]);
    assert_eq!(tree.len(), 2);
}

#[test]
fn remove_one_of_equal_elements() {
    let mut tree = build(&[4, 4, 2, 4]);
    assert!(tree.remove(&4));
    assert_eq!(tree.sorted_vec(), vec![2, 4, 4]);
    assert_eq!(tree.len(), 3);
}

#[test]
fn extract_min_removes_least() {
    let mut tree = build(&[3, 1, 2]);
    assert_eq!(tree.extract_min(), Some(1));
    assert_eq!(tree.sorted_vec(), vec![2, 3]);
    assert_eq!(tree.len(), 2);
}

#[test]
fn extract_max_removes_greatest() {
    let mut tree = build(&[3, 1, 2]);
    assert_eq!(tree.extract_max(), Some(3));
    assert_eq!(tree.sorted_vec(), vec![1, 2]);
    assert_eq!(tree.len(), 2);
}

#[test]
fn extract_on_empty_tree() {
    let mut tree = BinarySearchTree::new();
    assert_eq!(tree.extract_min(), None);
    assert_eq!(tree.extract_max(), None);
    assert_eq!(tree.len(), 0);
    assert!(tree.is_empty());
    assert_eq!(tree.min(), None);
    assert_eq!(tree.max(), None);
    assert_eq!(tree.root(), None);
}

#[test]
fn successor_and_predecessor_at_boundaries() {
    let tree = build(&[1, 3, 5, 7]);
    assert_eq!(tree.successor(&5), Some(7));
    assert_eq!(tree.successor(&7), None);
    assert_eq!(tree.predecessor(&1), None);
    assert_eq!(tree.predecessor(&4), Some(3));
    assert_eq!(tree.successor(&4), Some(5));
    assert_eq!(tree.predecessor(&100), Some(7));
}

#[test]
fn traversal_orders() {
    let tree = build(&[5, 3, 8, 1, 4, 7, 9]);
    assert_eq!(drain_inorder(tree.inorder()), vec![1, 3, 4, 5, 7, 8, 9]);
    assert_eq!(drain_reverse(tree.reverse_order()), vec![9, 8, 7, 5, 4, 3, 1]);
    assert_eq!(drain_preorder(tree.preorder()), vec![5, 3, 1, 4, 8, 7, 9]);
    assert_eq!(drain_postorder(tree.postorder()), vec![1, 4, 3, 7, 9, 8, 5]);
    assert_eq!(drain_level(tree.level_order()), vec![5, 3, 8, 1, 4, 7, 9]);
}

#[test]
fn traversals_visit_every_element_once() {
    let tree = build(&[6, 2, 9, 2, 6, 1, 12, 6, 0, 7]);
    let sorted = tree.sorted_vec();
    assert_eq!(drain_inorder(tree.inorder()), sorted);
    let mut reversed = sorted.clone();
    reversed.reverse();
    assert_eq!(drain_reverse(tree.reverse_order()), reversed);
    let mut pre = drain_preorder(tree.preorder());
    pre.sort();
    assert_eq!(pre, sorted);
    let mut post = drain_postorder(tree.postorder());
    post.sort();
    assert_eq!(post, sorted);
    let mut level = drain_level(tree.level_order());
    level.sort();
    assert_eq!(level, sorted);
}

#[test]
fn postorder_with_equal_right_child() {
    let tree = build(&[5, 5, 5]);
    assert_eq!(drain_postorder(tree.postorder()), vec![5, 5, 5]);
    let tree = build(&[2, 1, 2, 3]);
    assert_eq!(drain_postorder(tree.postorder()), vec![1, 3, 2, 2]);
}

#[test]
fn traversals_of_empty_tree() {
    let tree = BinarySearchTree::new();
    assert_eq!(drain_inorder(tree.inorder()), Vec::<i64>::new());
    assert_eq!(drain_reverse(tree.reverse_order()), Vec::<i64>::new());
    assert_eq!(drain_preorder(tree.preorder()), Vec::<i64>::new());
    assert_eq!(drain_postorder(tree.postorder()), Vec::<i64>::new());
    assert_eq!(drain_level(tree.level_order()), Vec::<i64>::new());
}

#[test]
fn equality_ignores_shape() {
    let a = build(&[2, 1, 3]);
    let b = build(&[1, 2, 3]);
    let c = build(&[1, 2, 4]);
    assert!(a == b);
    assert!(a != c);
    assert!(build(&[1, 1]) != build(&[1]));
}

#[test]
fn clear_empties_the_tree() {
    let mut tree = build(&[4, 2, 6]);
    tree.clear();
    assert!(tree.is_empty());
    assert_eq!(tree.sorted_vec(), Vec::<i64>::new());
    tree.insert(1);
    assert_eq!(tree.len(), 1);
}

#[test]
fn into_sorted_vec_consumes() {
    let tree = build(&[7, 1, 0, 4, 5, 3]);
    assert_eq!(tree.into_sorted_vec(), vec![0, 1, 3, 4, 5, 7]);
}

#[test]
fn extreme_values() {
    let tree = build(&[i64::MAX, i64::MIN, 0]);
    assert_eq!(tree.min(), Some(i64::MIN));
    assert_eq!(tree.max(), Some(i64::MAX));
    assert_eq!(tree.successor(&i64::MAX), None);
    assert_eq!(tree.predecessor(&i64::MIN), None);
    assert_eq!(tree.successor(&i64::MIN), Some(0));
}

#[test]
fn subtree_handle_operations() {
    let mut t = Tree(None);
    assert!(!t.insert(4, true));
    assert!(!t.insert(2, false));
    assert!(t.insert(4, true));
    assert!(t.insert(2, false));
    assert!(t.contains(&2));
    assert!(!t.contains(&3));
    assert_eq!(t.min(), Some(2));
    assert_eq!(t.max(), Some(4));
    assert_eq!(t.successor(&2), Some(4));
    assert_eq!(t.predecessor(&2), None);
    assert_eq!(t.sorted_vec(), vec![2, 4, 4]);
    assert!(t.remove(&4));
    assert_eq!(t.extract_max(), Some(4));
    assert_eq!(t.extract_min(), Some(2));
    assert_eq!(t.extract_min(), None);
    assert_eq!(t.into_sorted_vec(), Vec::<i64>::new());
}

#[test]
fn clone_keeps_content() {
    let tree = build(&[5, 3, 8, 3, 1]);
    let copy = tree.clone();
    assert!(copy == tree);
    assert_eq!(copy.sorted_vec(), vec![1, 3, 3, 5, 8]);
    assert_eq!(copy.len(), 5);
}

#[test]
fn postorder_with_duplicates_routed_right() {
    let tree = build(&[5, 5, 5, 6]);
    assert_eq!(drain_postorder(tree.postorder()), vec![6, 5, 5, 5]);
    assert_eq!(drain_preorder(tree.preorder()), vec![5, 5, 5, 6]);
    assert_eq!(drain_level(tree.level_order()), vec![5, 5, 5, 6]);
}

#[test]
fn root_after_two_children_removal() {
    let mut tree = BinarySearchTree::from_iter(vec![5, 3, 8, 1, 4, 7, 9]);
    assert_eq!(tree.root(), Some(5));
    assert!(tree.remove(&5));
    assert_eq!(tree.root(), Some(7));
    assert_eq!(drain_preorder(tree.preorder()), vec![7, 3, 1, 4, 8, 9]);
    assert_eq!(drain_level(tree.level_order()), vec![7, 3, 8, 1, 4, 9]);
}
