use rbt::Tree;

fn values(refs: Vec<&i32>) -> Vec<i32> {
    let mut out: Vec<i32> = Vec::new();
    for r in refs {
        out.push(*r);
    }
    out
}

fn sample() -> Tree<i32> {
    let mut tree: Tree<i32> = Tree::with_capacity(100);
    for v in [40, 10, 20, 30, 50, 45, 11, 55, 60, 65, 70, 66] {
        tree.insert(v);
    }
    tree
}

#[test]
fn inserts_come_out_in_ascending_order() {
    let tree = sample();
    assert_eq!(
        values(tree.in_order()),
        vec![10, 11, 20, 30, 40, 45, 50, 55, 60, 65, 66, 70]
    );
}

#[test]
fn removed_value_can_be_inserted_again() {
    let mut tree = sample();
    tree.remove(50);
    assert!(!tree.contains(50));
    tree.insert(50);
    assert!(tree.contains(50));
    assert_eq!(
        values(tree.in_order()),
        vec![10, 11, 20, 30, 40, 45, 50, 55, 60, 65, 66, 70]
    );
}

#[test]
fn removing_the_lowest_value() {
    let mut tree = sample();
    tree.remove(10);
    assert!(!tree.contains(10));
    assert_eq!(
        values(tree.in_order()),
        vec![11, 20, 30, 40, 45, 50, 55, 60, 65, 66, 70]
    );
}

#[test]
fn empty_tree_holds_nothing() {
    let tree: Tree<i32> = Tree::new();
    assert!(!tree.contains(0));
    assert!(!tree.contains(40));
    assert!(!tree.contains(-7));
    assert!(tree.in_order().is_empty());
    assert!(tree.pre_order().is_empty());
    assert!(tree.post_order().is_empty());
}

#[test]
fn scripted_run_of_inserts_and_removals() {
    let mut tree = sample();
    tree.remove(50);
    tree.insert(50);
    tree.remove(10);
    tree.remove(65);
    tree.remove(66);
    assert_eq!(
        values(tree.in_order()),
        vec![11, 20, 30, 40, 45, 50, 55, 60, 70]
    );
    assert!(!tree.contains(10));
    assert!(!tree.contains(15));
    assert!(tree.contains(45));
    assert!(tree.contains(50));
}

#[test]
fn one_value_is_the_whole_of_each_traversal() {
    let mut tree: Tree<i32> = Tree::new();
    tree.insert(7);
    assert_eq!(values(tree.in_order()), vec![7]);
    assert_eq!(values(tree.pre_order()), vec![7]);
    assert_eq!(values(tree.post_order()), vec![7]);
    tree.remove(7);
    assert!(tree.in_order().is_empty());
    assert!(!tree.contains(7));
}

#[test]
fn three_ascending_values_are_rebalanced() {
    let mut tree: Tree<i32> = Tree::new();
    tree.insert(1);
    tree.insert(2);
    tree.insert(3);
    assert_eq!(values(tree.in_order()), vec![1, 2, 3]);
    assert_eq!(values(tree.pre_order()), vec![2, 1, 3]);
    assert_eq!(values(tree.post_order()), vec![1, 3, 2]);
}

#[test]
fn three_descending_values_are_rebalanced() {
    let mut tree: Tree<i32> = Tree::new();
    tree.insert(3);
    tree.insert(2);
    tree.insert(1);
    assert_eq!(values(tree.pre_order()), vec![2, 1, 3]);
}

#[test]
fn inner_grandchild_rises_by_a_double_rotation() {
    let mut left_right: Tree<i32> = Tree::new();
    left_right.insert(3);
    left_right.insert(1);
    left_right.insert(2);
    assert_eq!(values(left_right.pre_order()), vec![2, 1, 3]);
    let mut right_left: Tree<i32> = Tree::new();
    right_left.insert(1);
    right_left.insert(3);
    right_left.insert(2);
    assert_eq!(values(right_left.pre_order()), vec![2, 1, 3]);
}

#[test]
fn red_uncle_is_recoloured_without_rotation() {
    let mut tree: Tree<i32> = Tree::new();
    for v in [20, 10, 30, 5] {
        tree.insert(v);
    }
    assert_eq!(values(tree.pre_order()), vec![20, 10, 5, 30]);
    assert_eq!(values(tree.post_order()), vec![5, 10, 30, 20]);
}

#[test]
fn sample_tree_has_the_expected_shape() {
    let tree = sample();
    assert_eq!(
        values(tree.pre_order()),
        vec![40, 20, 10, 11, 30, 50, 45, 60, 55, 66, 65, 70]
    );
    assert_eq!(
        values(tree.post_order()),
        vec![11, 10, 30, 20, 45, 55, 65, 70, 66, 60, 50, 40]
    );
}

#[test]
fn inserting_a_value_twice_changes_nothing() {
    let mut tree = sample();
    let before_in = values(tree.in_order());
    let before_pre = values(tree.pre_order());
    let before_post = values(tree.post_order());
    tree.insert(45);
    tree.insert(40);
    assert_eq!(values(tree.in_order()), before_in);
    assert_eq!(values(tree.pre_order()), before_pre);
    assert_eq!(values(tree.post_order()), before_post);
}

#[test]
fn removing_an_absent_value_changes_nothing() {
    let mut tree = sample();
    let before_in = values(tree.in_order());
    let before_pre = values(tree.pre_order());
    let before_post = values(tree.post_order());
    tree.remove(15);
    tree.remove(-1);
    tree.remove(1000);
    assert_eq!(values(tree.in_order()), before_in);
    assert_eq!(values(tree.pre_order()), before_pre);
    assert_eq!(values(tree.post_order()), before_post);
    let mut empty: Tree<i32> = Tree::new();
    empty.remove(3);
    assert!(empty.in_order().is_empty());
}

#[test]
fn removing_a_node_with_two_children() {
    let mut tree = sample();
    tree.remove(40);
    assert!(!tree.contains(40));
    assert_eq!(
        values(tree.in_order()),
        vec![10, 11, 20, 30, 45, 50, 55, 60, 65, 66, 70]
    );
    tree.remove(55);
    assert_eq!(
        values(tree.in_order()),
        vec![10, 11, 20, 30, 45, 50, 60, 65, 66, 70]
    );
}

#[test]
fn removing_every_value_empties_the_tree() {
    let mut tree = sample();
    for v in [40, 10, 20, 30, 50, 45, 11, 55, 60, 65, 70, 66] {
        assert!(tree.contains(v));
        tree.remove(v);
        assert!(!tree.contains(v));
    }
    assert!(tree.in_order().is_empty());
    assert!(tree.pre_order().is_empty());
    assert!(tree.post_order().is_empty());
    tree.insert(5);
    assert_eq!(values(tree.in_order()), vec![5]);
}

#[test]
fn freed_slots_are_used_again() {
    let mut tree: Tree<i32> = Tree::new();
    for v in 0..20 {
        tree.insert(v);
    }
    for v in 0..10 {
        tree.remove(v * 2);
    }
    for v in 100..110 {
        tree.insert(v);
    }
    let mut expected: Vec<i32> = Vec::new();
    for v in 0..10 {
        expected.push(v * 2 + 1);
    }
    for v in 100..110 {
        expected.push(v);
    }
    assert_eq!(values(tree.in_order()), expected);
    for v in 0..10 {
        assert!(!tree.contains(v * 2));
        assert!(tree.contains(v * 2 + 1));
    }
}

#[test]
fn traversals_hold_the_same_values() {
    let mut tree = sample();
    tree.remove(20);
    tree.remove(66);
    let in_order = values(tree.in_order());
    let mut pre = values(tree.pre_order());
    let mut post = values(tree.post_order());
    pre.sort();
    post.sort();
    assert_eq!(pre, in_order);
    assert_eq!(post, in_order);
}

#[test]
fn other_ordered_types_can_be_stored() {
    let mut words: Tree<u64> = Tree::new();
    for v in [9u64, 3, 7, 1, 8] {
        words.insert(v);
    }
    let mut out: Vec<u64> = Vec::new();
    for r in words.in_order() {
        out.push(*r);
    }
    assert_eq!(out, vec![1, 3, 7, 8, 9]);
}

fn built(from: &[i32]) -> Tree<i32> {
    let mut tree: Tree<i32> = Tree::new();
    for v in from {
        tree.insert(*v);
    }
    tree
}

#[test]
fn a_red_node_without_children_is_cut_off() {
    let mut tree = built(&[20, 10, 30]);
    tree.remove(10);
    assert_eq!(values(tree.pre_order()), vec![20, 30]);
    assert_eq!(values(tree.post_order()), vec![30, 20]);
}

#[test]
fn an_only_child_takes_the_place_of_its_parent() {
    let mut tree = built(&[20, 10, 30, 5]);
    tree.remove(10);
    assert_eq!(values(tree.pre_order()), vec![20, 5, 30]);
    let mut other = built(&[20, 10, 30, 35]);
    other.remove(30);
    assert_eq!(values(other.pre_order()), vec![20, 10, 35]);
}

#[test]
fn a_black_sibling_with_a_red_outer_child_is_raised() {
    let mut tree = built(&[20, 10, 30, 5]);
    tree.remove(30);
    assert_eq!(values(tree.pre_order()), vec![10, 5, 20]);
    let mut other = built(&[20, 10, 30, 35]);
    other.remove(10);
    assert_eq!(values(other.pre_order()), vec![30, 20, 35]);
}

#[test]
fn a_red_inner_child_of_a_black_sibling_is_raised_twice() {
    let mut tree = built(&[20, 10, 30, 15]);
    tree.remove(30);
    assert_eq!(values(tree.pre_order()), vec![15, 10, 20]);
    let mut other = built(&[20, 10, 30, 25]);
    other.remove(10);
    assert_eq!(values(other.pre_order()), vec![25, 20, 30]);
}

#[test]
fn a_node_with_two_children_changes_places_with_its_successor() {
    let mut tree = built(&[20, 10, 30]);
    tree.remove(20);
    assert_eq!(values(tree.pre_order()), vec![30, 10]);
    assert_eq!(values(tree.in_order()), vec![10, 30]);
}

#[test]
fn a_red_sibling_is_raised_before_the_loss_is_made_up() {
    let mut tree = sample();
    tree.remove(40);
    assert_eq!(
        values(tree.pre_order()),
        vec![45, 20, 10, 11, 30, 60, 50, 55, 66, 65, 70]
    );
    assert_eq!(
        values(tree.post_order()),
        vec![11, 10, 30, 20, 55, 50, 65, 70, 66, 60, 45]
    );
}

#[test]
fn a_loss_under_black_nodes_moves_up_to_the_top() {
    let mut tree = built(&[20, 10, 30, 5]);
    tree.remove(5);
    assert_eq!(values(tree.pre_order()), vec![20, 10, 30]);
    tree.remove(10);
    assert_eq!(values(tree.pre_order()), vec![20, 30]);
    tree.remove(30);
    assert_eq!(values(tree.pre_order()), vec![20]);
    tree.remove(20);
    assert!(tree.pre_order().is_empty());
}
