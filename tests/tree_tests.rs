use genome_tree::algorithms::{get_full_path, get_mut_node_and_increment, retrieve_genome};
use genome_tree::errors::PhyloError;
use genome_tree::structs::{choose_case, Genome, PhyloTree, TreeNode, TreeVertex};

fn genome(dir: &str) -> Genome {
    Genome { path: Vec::new(), dir: dir.to_string(), kmers: Vec::new(), closest_distance: 0 }
}

fn bucket(node: &TreeNode) -> &Vec<Genome> {
    match &node.vertex {
        TreeVertex::Floor(v) => v,
        TreeVertex::Split(_) => panic!("expected a bucket"),
    }
}

fn children(node: &TreeNode) -> &Vec<TreeNode> {
    match &node.vertex {
        TreeVertex::Split(c) => c,
        TreeVertex::Floor(_) => panic!("expected a branch"),
    }
}

/// A root bucket holding A and B, at distance 2 from each other.
fn tree_of_two() -> PhyloTree {
    let mut tree = PhyloTree::new();
    tree.push(genome("a"), &Vec::new()).unwrap();
    tree.push(genome("b"), &vec![(2, vec![0, 0])]).unwrap();
    tree
}

#[test]
fn new_tree_is_an_empty_root_bucket() {
    let tree = PhyloTree::new();
    assert_eq!(tree.root.id, 0);
    assert_eq!(tree.root.count, 0);
    assert_eq!(tree.next_index, 1);
    assert!(bucket(&tree.root).is_empty());
}

#[test]
fn first_genome_fills_the_root_bucket() {
    let mut tree = PhyloTree::new();
    assert!(tree.push(genome("a"), &Vec::new()).is_ok());
    assert_eq!(tree.root.count, 1);
    let v = bucket(&tree.root);
    assert_eq!(v.len(), 1);
    assert_eq!(v[0].path, vec![0, 0]);
    assert_eq!(v[0].dir, "a");
    assert_eq!(v[0].closest_distance, usize::MAX);
    assert_eq!(tree.next_index, 1);
}

#[test]
fn second_genome_joins_a_lone_match() {
    // The match is alone in its bucket, so it is not paired off.
    let tree = tree_of_two();
    assert_eq!(tree.next_index, 1);
    assert_eq!(tree.root.count, 2);
    let v = bucket(&tree.root);
    assert_eq!(v.len(), 2);
    assert_eq!(v[0].dir, "a");
    assert_eq!(v[0].closest_distance, 2);
    assert_eq!(v[1].dir, "b");
    assert_eq!(v[1].path, vec![0, 1]);
    assert_eq!(v[1].closest_distance, 2);
}

#[test]
fn close_genome_is_paired_off_with_its_match() {
    let mut tree = tree_of_two();
    tree.push(genome("c"), &vec![(1, vec![0, 0]), (5, vec![0, 1])]).unwrap();
    assert_eq!(tree.next_index, 3);
    assert_eq!(tree.root.count, 3);
    let c = children(&tree.root);
    assert_eq!(c.len(), 2);
    assert_eq!((c[0].id, c[0].count), (1, 1));
    assert_eq!((c[1].id, c[1].count), (2, 2));
    let rest = bucket(&c[0]);
    assert_eq!(rest[0].dir, "b");
    assert_eq!(rest[0].path, vec![0, 1, 0]);
    let pair = bucket(&c[1]);
    assert_eq!(pair[0].dir, "c");
    assert_eq!(pair[0].path, vec![0, 2, 0]);
    assert_eq!(pair[0].closest_distance, 1);
    assert_eq!(pair[1].dir, "a");
    assert_eq!(pair[1].path, vec![0, 2, 1]);
    assert_eq!(pair[1].closest_distance, 1);
}

#[test]
fn distant_genome_opens_a_new_bucket() {
    let mut tree = tree_of_two();
    tree.push(genome("c"), &vec![(10, vec![0, 0])]).unwrap();
    assert_eq!(tree.next_index, 3);
    assert_eq!(tree.root.count, 3);
    let c = children(&tree.root);
    assert_eq!((c[0].id, c[0].count), (1, 2));
    assert_eq!((c[1].id, c[1].count), (2, 1));
    let old = bucket(&c[0]);
    assert_eq!(old[0].path, vec![0, 1, 0]);
    assert_eq!(old[1].path, vec![0, 1, 1]);
    assert_eq!(old[0].closest_distance, 2);
    let new = bucket(&c[1]);
    assert_eq!(new[0].dir, "c");
    assert_eq!(new[0].path, vec![0, 2, 0]);
    assert_eq!(new[0].closest_distance, 10);
}

#[test]
fn comparable_genome_joins_the_bucket_of_its_match() {
    let mut tree = tree_of_two();
    tree.push(genome("c"), &vec![(2, vec![0, 0])]).unwrap();
    assert_eq!(tree.next_index, 1);
    assert_eq!(tree.root.count, 3);
    let v = bucket(&tree.root);
    assert_eq!(v.len(), 3);
    assert_eq!(v[2].dir, "c");
    assert_eq!(v[2].path, vec![0, 2]);
    assert_eq!(v[0].closest_distance, 2);
}

#[test]
fn first_smallest_distance_picks_the_match() {
    let mut tree = tree_of_two();
    tree.push(genome("c"), &vec![(4, vec![0, 1]), (1, vec![0, 0]), (1, vec![0, 1])]).unwrap();
    let pair = bucket(&children(&tree.root)[1]);
    assert_eq!(pair[1].dir, "a");
}

#[test]
fn insertion_without_candidates_fails() {
    let mut tree = tree_of_two();
    let r = tree.push(genome("c"), &Vec::new());
    assert!(matches!(r, Err(PhyloError::GenomeInsertError)));
    assert_eq!(tree.root.count, 2);
    assert_eq!(bucket(&tree.root).len(), 2);
}

#[test]
fn insertion_beside_a_missing_genome_fails() {
    let mut tree = tree_of_two();
    let r = tree.push(genome("c"), &vec![(1, vec![0, 7])]);
    assert!(matches!(r, Err(PhyloError::SearchGenomeError)));
    let r = tree.push(genome("c"), &vec![(1, vec![3, 0])]);
    assert!(matches!(r, Err(PhyloError::SearchGenomeError)));
    assert_eq!(tree.root.count, 2);
    assert_eq!(tree.next_index, 1);
}

#[test]
fn full_id_space_is_reported() {
    let mut tree = tree_of_two();
    tree.next_index = 254;
    let r = tree.push(genome("c"), &vec![(10, vec![0, 0])]);
    assert!(matches!(r, Err(PhyloError::CapacityExceeded)));
    assert_eq!(bucket(&tree.root).len(), 2);
}

#[test]
fn insertion_cases_follow_the_distance_ratio() {
    assert_eq!(choose_case(2, usize::MAX, 2), 1);
    assert_eq!(choose_case(2, usize::MAX, 1), 3);
    assert_eq!(choose_case(85, 100, 3), 1);
    assert_eq!(choose_case(86, 100, 3), 3);
    assert_eq!(choose_case(116, 100, 3), 3);
    assert_eq!(choose_case(117, 100, 3), 2);
    assert_eq!(choose_case(0, 0, 3), 3);
    assert_eq!(choose_case(5, 0, 3), 2);
}

#[test]
fn genomes_are_found_by_their_paths() {
    let mut tree = tree_of_two();
    tree.push(genome("c"), &vec![(1, vec![0, 0])]).unwrap();
    tree.push(genome("d"), &vec![(1, vec![0, 2, 0])]).unwrap();
    let mut all: Vec<Genome> = Vec::new();
    for node in children(&tree.root) {
        for g in bucket(node) {
            all.push(g.clone());
        }
    }
    assert_eq!(all.len(), 4);
    for g in &all {
        let found = retrieve_genome(&tree.root, &g.path).unwrap();
        assert_eq!(found.dir, g.dir);
        assert_eq!(found.path, g.path);
    }
}

#[test]
fn retrieving_by_a_bad_path_fails() {
    let tree = tree_of_two();
    assert!(matches!(retrieve_genome(&tree.root, &vec![0]), Err(PhyloError::SearchGenomeError)));
    assert!(matches!(retrieve_genome(&tree.root, &vec![1, 0]), Err(PhyloError::SearchGenomeError)));
    assert!(matches!(retrieve_genome(&tree.root, &vec![0, 2]), Err(PhyloError::SearchGenomeError)));
}

#[test]
fn full_path_lists_the_nodes_down_to_the_bucket() {
    let mut tree = tree_of_two();
    tree.push(genome("c"), &vec![(1, vec![0, 0])]).unwrap();
    let nodes = get_full_path(&tree.root, &vec![0, 2, 1]).unwrap();
    let ids: Vec<u8> = nodes.iter().map(|n| n.id).collect();
    assert_eq!(ids, vec![0, 2]);
    assert!(matches!(get_full_path(&tree.root, &vec![0, 1]), Err(PhyloError::SearchNodeError)));
    assert!(matches!(get_full_path(&tree.root, &vec![0, 5, 0]), Err(PhyloError::SearchNodeError)));
    let small = tree_of_two();
    let root_only = get_full_path(&small.root, &vec![0, 1]).unwrap();
    assert_eq!(root_only.len(), 1);
}

#[test]
fn walking_to_a_bucket_leaves_root_and_bucket_counts_alone() {
    let mut tree = tree_of_two();
    tree.push(genome("c"), &vec![(1, vec![0, 0])]).unwrap();
    {
        let b = get_mut_node_and_increment(&mut tree.root, &vec![0, 2, 0]).unwrap();
        assert_eq!(b.id, 2);
        assert_eq!(b.count, 2);
    }
    assert_eq!(tree.root.count, 3);
    assert_eq!(children(&tree.root)[1].count, 2);
    let r = get_mut_node_and_increment(&mut tree.root, &vec![0, 9, 0]);
    assert!(matches!(r, Err(PhyloError::SearchNodeError)));
    assert_eq!(tree.root.count, 3);
}

#[test]
fn splitting_a_bucket_keeps_its_genomes_in_a_child() {
    let mut tree = tree_of_two();
    tree.root.split(7);
    assert_eq!(tree.root.count, 2);
    let c = children(&tree.root);
    assert_eq!(c.len(), 1);
    assert_eq!(c[0].id, 7);
    assert_eq!(c[0].count, 2);
    assert_eq!(bucket(&c[0]).len(), 2);
    tree.root.split(9);
    assert_eq!(children(&tree.root).len(), 1);
}

#[test]
fn nodes_are_pushed_onto_branches_only() {
    let mut v = TreeVertex::new_split();
    v.push_node(TreeNode::new_with_floor(3, 0));
    match &v {
        TreeVertex::Split(c) => assert_eq!(c[0].id, 3),
        TreeVertex::Floor(_) => panic!("expected a branch"),
    }
    let mut f = TreeNode::new_with_floor(4, 5);
    assert_eq!(f.count, 5);
    f.vertex.push_node(TreeNode::new_with_floor(6, 0));
    assert!(bucket(&f).is_empty());
}

#[test]
fn cloned_nodes_copy_the_whole_subtree() {
    let mut tree = tree_of_two();
    tree.push(genome("c"), &vec![(1, vec![0, 0])]).unwrap();
    let copy = tree.root.clone();
    assert_eq!(copy.id, tree.root.id);
    assert_eq!(copy.count, tree.root.count);
    let c = children(&copy);
    assert_eq!((c[0].id, c[1].id), (1, 2));
    assert_eq!(bucket(&c[1])[1].dir, "a");
    assert_eq!(bucket(&c[1])[1].path, vec![0, 2, 1]);
    let v = tree.root.vertex.clone();
    assert!(matches!(v, TreeVertex::Split(ref k) if k.len() == 2));
}
