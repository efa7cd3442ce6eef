use genome_tree::errors::PhyloError;
use genome_tree::narrowing::{NarrowAction, RESAMPLE_LIMIT};
use genome_tree::structs::{Genome, PhyloTree, TreeNode, TreeVertex};

fn genome(dir: &str) -> Genome {
    Genome { path: Vec::new(), dir: dir.to_string(), kmers: Vec::new(), closest_distance: 0 }
}

/// Root branch: bucket 1 holds B, bucket 2 holds C and A.
fn split_tree() -> PhyloTree {
    let mut tree = PhyloTree::new();
    tree.push(genome("a"), &Vec::new()).unwrap();
    tree.push(genome("b"), &vec![(2, vec![0, 0])]).unwrap();
    tree.push(genome("c"), &vec![(1, vec![0, 0])]).unwrap();
    tree
}

fn child(node: &TreeNode, i: usize) -> &TreeNode {
    match &node.vertex {
        TreeVertex::Split(c) => &c[i],
        TreeVertex::Floor(_) => panic!("expected a branch"),
    }
}

#[test]
fn sample_of_a_bucket_takes_distinct_genomes() {
    let tree = split_tree();
    let pair = child(&tree.root, 1);
    let s = pair.find(8);
    assert_eq!(s.len(), 2);
    assert_ne!(s[0].dir, s[1].dir);
    assert_eq!(pair.find(1).len(), 1);
    assert!(pair.find(0).is_empty());
}

#[test]
fn sample_of_the_tree_covers_every_genome_when_heads_allow() {
    let tree = split_tree();
    for _ in 0..20 {
        let s = tree.root.find(8);
        assert_eq!(s.len(), 3);
        let mut dirs: Vec<&str> = s.iter().map(|g| g.dir.as_str()).collect();
        dirs.sort();
        assert_eq!(dirs, vec!["a", "b", "c"]);
        let two = tree.root.find(2);
        assert_eq!(two.len(), 2);
        assert_ne!(two[0].dir, two[1].dir);
    }
}

#[test]
fn sample_of_an_empty_tree_is_empty() {
    let tree = PhyloTree::new();
    assert!(tree.root.find(8).is_empty());
}

#[test]
fn narrowing_descends_towards_the_best_candidate() {
    let tree = split_tree();
    let a = match &child(&tree.root, 1).vertex {
        TreeVertex::Floor(v) => &v[1],
        TreeVertex::Split(_) => panic!("expected a bucket"),
    };
    let b = match &child(&tree.root, 0).vertex {
        TreeVertex::Floor(v) => &v[0],
        TreeVertex::Split(_) => panic!("expected a bucket"),
    };
    assert_eq!(a.dir, "a");
    let mut checked = vec![0u8];
    let next = tree.narrow_step(&vec![0], &mut checked, &vec![b, a], &vec![1, 5]).unwrap();
    assert_eq!(next, Some(vec![0, 2]));
    assert_eq!(checked, vec![0, 2]);
    let again = tree.narrow_step(&vec![0, 2], &mut checked, &vec![a], &vec![5]).unwrap();
    assert_eq!(again, None);
    assert_eq!(checked, vec![0, 2]);
}

#[test]
fn narrowing_follows_the_first_best_score() {
    let tree = split_tree();
    let a = match &child(&tree.root, 1).vertex {
        TreeVertex::Floor(v) => &v[1],
        TreeVertex::Split(_) => panic!("expected a bucket"),
    };
    let b = match &child(&tree.root, 0).vertex {
        TreeVertex::Floor(v) => &v[0],
        TreeVertex::Split(_) => panic!("expected a bucket"),
    };
    let mut checked = vec![0u8];
    let next = tree.narrow_step(&vec![0], &mut checked, &vec![b, a], &vec![4, 4]).unwrap();
    assert_eq!(next, Some(vec![0, 1]));
}

#[test]
fn narrowing_without_candidates_stops() {
    let tree = split_tree();
    let mut checked = vec![0u8];
    assert_eq!(tree.narrow_step(&vec![0], &mut checked, &Vec::new(), &Vec::new()).unwrap(), None);
    assert_eq!(checked, vec![0]);
}

#[test]
fn narrowing_starts_at_the_root() {
    let tree = split_tree();
    let state = tree.narrow_begin();
    assert_eq!(state.current, vec![0]);
    assert_eq!(state.checked, vec![0]);
    assert_eq!(state.resamples, 0);
}

#[test]
fn small_nodes_are_compared_at_once() {
    let tree = split_tree();
    let state = tree.narrow_begin();
    assert_eq!(tree.narrow_after_sample(&state), NarrowAction::Compare);
}

#[test]
fn scored_sample_moves_the_search_down() {
    let tree = split_tree();
    let a = match &child(&tree.root, 1).vertex {
        TreeVertex::Floor(v) => &v[1],
        TreeVertex::Split(_) => panic!("expected a bucket"),
    };
    let mut state = tree.narrow_begin();
    let action = tree.narrow_after_scores(&mut state, &vec![a], &vec![3]).unwrap();
    assert_eq!(action, NarrowAction::Sample);
    assert_eq!(state.current, vec![0, 2]);
    assert_eq!(state.checked, vec![0, 2]);
    let action = tree.narrow_after_scores(&mut state, &vec![a], &vec![3]).unwrap();
    assert_eq!(action, NarrowAction::Compare);
    assert_eq!(state.current, vec![0, 2]);
}

#[test]
fn a_branch_is_sampled_again_until_the_limit() {
    let tree = split_tree();
    let mut state = tree.narrow_begin();
    for k in 1..RESAMPLE_LIMIT {
        let action = tree.narrow_after_scores(&mut state, &Vec::new(), &Vec::new()).unwrap();
        assert_eq!(action, NarrowAction::Sample);
        assert_eq!(state.resamples, k);
        assert_eq!(state.current, vec![0]);
    }
    let r = tree.narrow_after_scores(&mut state, &Vec::new(), &Vec::new());
    assert!(matches!(r, Err(PhyloError::SearchStalled)));
}
