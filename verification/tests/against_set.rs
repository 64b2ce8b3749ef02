use rbt::Tree;
use std::collections::BTreeSet;

fn collect(refs: Vec<&i32>) -> Vec<i32> {
    let mut out: Vec<i32> = Vec::new();
    for r in refs {
        out.push(*r);
    }
    out
}

fn next(state: &mut u64) -> u64 {
    *state = state.wrapping_mul(6364136223846793005).wrapping_add(1442695040888963407);
    *state >> 33
}

// The height of a tree as far as its pre-order and in-order traversals show it.
fn height(pre: &[i32], ino: &[i32]) -> usize {
    if pre.is_empty() {
        return 0;
    }
    let top = pre[0];
    let at = ino.iter().position(|v| *v == top).unwrap();
    let below_left = height(&pre[1..1 + at], &ino[..at]);
    let below_right = height(&pre[1 + at..], &ino[at + 1..]);
    1 + below_left.max(below_right)
}

fn check(tree: &Tree<i32>, model: &BTreeSet<i32>) {
    let ino = collect(tree.in_order());
    let expected: Vec<i32> = model.iter().copied().collect();
    assert_eq!(ino, expected);
    let pre = collect(tree.pre_order());
    let mut sorted_pre = pre.clone();
    sorted_pre.sort();
    assert_eq!(sorted_pre, expected);
    let mut sorted_post = collect(tree.post_order());
    sorted_post.sort();
    assert_eq!(sorted_post, expected);
    let n = expected.len();
    let mut bound = 0usize;
    while (1usize << bound) < n + 1 {
        bound += 1;
    }
    assert!(height(&pre, &ino) <= 2 * bound);
}

#[test]
fn random_operations_agree_with_a_set() {
    let mut state = 12345u64;
    let mut tree: Tree<i32> = Tree::new();
    let mut model: BTreeSet<i32> = BTreeSet::new();
    for step in 0..4000 {
        let v = (next(&mut state) % 200) as i32;
        if next(&mut state) % 3 == 0 {
            tree.remove(v);
            model.remove(&v);
        } else {
            tree.insert(v);
            model.insert(v);
        }
        assert_eq!(tree.contains(v), model.contains(&v));
        if step % 50 == 0 {
            check(&tree, &model);
        }
    }
    check(&tree, &model);
}

#[test]
fn growing_and_shrinking_keeps_the_height_logarithmic() {
    let mut tree: Tree<i32> = Tree::with_capacity(16);
    let mut model: BTreeSet<i32> = BTreeSet::new();
    for v in 0..1024 {
        tree.insert(v);
        model.insert(v);
    }
    check(&tree, &model);
    for v in 0..1000 {
        tree.remove(v);
        model.remove(&v);
        if v % 100 == 0 {
            check(&tree, &model);
        }
    }
    check(&tree, &model);
    for v in (0..500).rev() {
        tree.insert(v);
        model.insert(v);
    }
    check(&tree, &model);
}

#[test]
fn removal_reaches_every_way_of_making_up_a_lost_black_node() {
    for seed in 1..60u64 {
        let mut state = seed;
        let mut tree: Tree<i32> = Tree::new();
        let mut model: BTreeSet<i32> = BTreeSet::new();
        for _ in 0..40 {
            let v = (next(&mut state) % 64) as i32;
            tree.insert(v);
            model.insert(v);
        }
        check(&tree, &model);
        while let Some(v) = model.iter().next().copied() {
            let pick = (next(&mut state) % 64) as i32;
            let target = if model.contains(&pick) { pick } else { v };
            tree.remove(target);
            model.remove(&target);
            check(&tree, &model);
        }
    }
}
