use genome_tree::algorithms::{get_mut_node_and_increment, node_ref, retrieve_genome};
use genome_tree::narrowing::{NarrowAction, NARROW_HEADS};
use genome_tree::structs::{Genome, PhyloTree, TreeNode, TreeVertex};

fn genome(n: usize) -> Genome {
    Genome { path: Vec::new(), dir: n.to_string(), kmers: Vec::new(), closest_distance: 0 }
}

/// A made-up distance between genomes named by numbers: close numbers are
/// close genomes.
fn distance(a: &str, b: &str) -> usize {
    let a: usize = a.parse().unwrap();
    let b: usize = b.parse().unwrap();
    (a % 7).abs_diff(b % 7) * 3 + a.abs_diff(b) % 5 + 1
}

/// Insert `n` genomes, each compared with a sample of the tree.
fn grown_tree(n: usize) -> PhyloTree {
    let mut tree = PhyloTree::new();
    for i in 0..n {
        let g = genome(i);
        let distances: Vec<(usize, Vec<u8>)> =
            tree.root.find(8).iter().map(|c| (distance(&g.dir, &c.dir), c.path.clone())).collect();
        tree.push(g, &distances).unwrap();
    }
    tree
}

/// Check counts, ids and paths below `node`, collecting ids and genomes.
fn check(node: &TreeNode, prefix: &mut Vec<u8>, ids: &mut Vec<u8>, genomes: &mut Vec<(Vec<u8>, String)>) -> u32 {
    ids.push(node.id);
    prefix.push(node.id);
    let total = match &node.vertex {
        TreeVertex::Floor(v) => {
            for (slot, g) in v.iter().enumerate() {
                let mut expected = prefix.clone();
                expected.push(slot as u8);
                assert_eq!(g.path, expected);
                genomes.push((g.path.clone(), g.dir.clone()));
            }
            v.len() as u32
        }
        TreeVertex::Split(c) => {
            assert!(c.len() >= 2);
            let mut sum = 0;
            for child in c {
                let n = check(child, prefix, ids, genomes);
                assert!(n >= 1);
                sum += n;
            }
            sum
        }
    };
    prefix.pop();
    assert_eq!(node.count, total);
    total
}

#[test]
fn many_insertions_keep_the_tree_consistent() {
    let tree = grown_tree(60);
    let mut ids = Vec::new();
    let mut genomes = Vec::new();
    let total = check(&tree.root, &mut Vec::new(), &mut ids, &mut genomes);
    assert_eq!(total, 60);
    assert_eq!(genomes.len(), 60);
    let mut sorted = ids.clone();
    sorted.sort();
    sorted.dedup();
    assert_eq!(sorted.len(), ids.len());
    assert!(ids.iter().all(|id| *id < tree.next_index));
    for (path, dir) in &genomes {
        let g = retrieve_genome(&tree.root, path).unwrap();
        assert_eq!(&g.dir, dir);
    }
}

#[test]
fn node_ids_are_issued_in_increasing_pairs() {
    let mut tree = PhyloTree::new();
    let mut last = tree.next_index;
    for i in 0..40 {
        let g = genome(i);
        let distances: Vec<(usize, Vec<u8>)> =
            tree.root.find(8).iter().map(|c| (distance(&g.dir, &c.dir), c.path.clone())).collect();
        tree.push(g, &distances).unwrap();
        assert!(tree.next_index == last || tree.next_index == last + 2);
        last = tree.next_index;
    }
}

#[test]
fn narrowing_steps_reach_smaller_nodes() {
    let tree = grown_tree(60);
    for _ in 0..10 {
        let mut state = tree.narrow_begin();
        loop {
            let node = node_ref(&tree.root, &state.current, state.current.len()).unwrap();
            let candidates = node.find(NARROW_HEADS);
            if tree.narrow_after_sample(&state) == NarrowAction::Compare {
                assert!(node.count <= NARROW_HEADS);
                break;
            }
            let scores: Vec<u32> = candidates.iter().map(|c| c.dir.len() as u32).collect();
            let before = state.current.clone();
            match tree.narrow_after_scores(&mut state, &candidates, &scores).unwrap() {
                NarrowAction::Compare => break,
                _ => {
                    if state.current != before {
                        let smaller = node_ref(&tree.root, &state.current, state.current.len()).unwrap();
                        assert!(smaller.count < node.count);
                        assert_eq!(&state.current[..before.len()], &before[..]);
                    }
                }
            }
        }
    }
}

#[test]
fn walking_deep_raises_only_the_inner_nodes() {
    let mut tree = grown_tree(60);
    let mut ids = Vec::new();
    let mut genomes = Vec::new();
    check(&tree.root, &mut Vec::new(), &mut ids, &mut genomes);
    let (path, _) = genomes.iter().find(|(p, _)| p.len() >= 4).expect("a genome two levels down").clone();
    let root_before = tree.root.count;
    let inner: Vec<u32> =
        (2..path.len() - 1).map(|k| node_ref(&tree.root, &path, k).unwrap().count).collect();
    let bucket_before = node_ref(&tree.root, &path, path.len() - 1).unwrap().count;
    {
        let b = get_mut_node_and_increment(&mut tree.root, &path).unwrap();
        assert_eq!(b.count, bucket_before);
    }
    assert_eq!(tree.root.count, root_before);
    for (j, k) in (2..path.len() - 1).enumerate() {
        assert_eq!(node_ref(&tree.root, &path, k).unwrap().count, inner[j] + 1);
    }
    assert_eq!(node_ref(&tree.root, &path, path.len() - 1).unwrap().count, bucket_before);
}
