use genome_tree::algorithms::{
    kmer_offsets, kmer_similarity, levenshtein, random_weighted, vec_to_dict,
};
use genome_tree::levenshtein::levenshtein_distance;
use genome_tree::structs::Genome;

#[test]
fn edit_distance_of_classic_pairs() {
    assert_eq!(levenshtein_distance("kitten", "sitting"), 3);
    assert_eq!(levenshtein_distance("flaw", "lawn"), 2);
    assert_eq!(levenshtein_distance("", "abc"), 3);
    assert_eq!(levenshtein_distance("abc", ""), 3);
    assert_eq!(levenshtein_distance("", ""), 0);
    assert_eq!(levenshtein_distance("ACGT", "ACGT"), 0);
}

#[test]
fn edit_distance_counts_the_last_column() {
    assert_eq!(levenshtein_distance("ab", "c"), 2);
    assert_eq!(levenshtein_distance("c", "ab"), 2);
    assert_eq!(levenshtein("GATTACA", "GCATGCU"), 4);
}

#[test]
fn edit_distance_is_symmetric() {
    let pairs = [("ACGTTGCA", "AGTTCA"), ("a", "xa"), ("TTTT", "T")];
    for (a, b) in pairs {
        assert_eq!(levenshtein(a, b), levenshtein(b, a));
        assert_eq!(levenshtein(a, b), levenshtein_distance(a, b));
    }
}

#[test]
fn weighted_draw_rejects_unpaired_weights() {
    assert!(random_weighted(vec![1, 2], vec![1], 1, true).is_empty());
    assert!(random_weighted(vec![1], vec![1, 2], 1, false).is_empty());
}

#[test]
fn limited_draw_rejects_more_rounds_than_weight() {
    assert!(random_weighted(vec![1, 2], vec![1, 2], 4, false).is_empty());
    assert_eq!(random_weighted(vec![1, 2], vec![1, 2], 3, false).len(), 3);
}

#[test]
fn limited_draw_never_exceeds_a_weight() {
    for _ in 0..20 {
        let mut r = random_weighted(vec![0, 1, 2], vec![1, 2, 3], 6, false);
        r.sort();
        assert_eq!(r, vec![0, 1, 1, 2, 2, 2]);
        let r = random_weighted(vec![0, 1, 2], vec![1, 0, 2], 2, false);
        assert_eq!(r.len(), 2);
        assert!(!r.contains(&1));
        let ones = r.iter().filter(|x| **x == 0).count();
        assert!(ones <= 1);
    }
}

#[test]
fn limitless_draw_gives_every_round() {
    let r = random_weighted(vec![5, 6], vec![1, 0], 10, true);
    assert_eq!(r, vec![5; 10]);
    assert_eq!(random_weighted(vec![5, 6], vec![2, 3], 100, true).len(), 100);
    assert!(random_weighted(vec![5, 6], vec![0, 0], 3, true).is_empty());
    assert!(random_weighted(vec![5, 6], vec![0, 0], 0, true).is_empty());
}

#[test]
fn occurrences_are_counted_per_value() {
    let d = vec_to_dict(vec![3, 1, 3, 2, 3, 2]);
    assert_eq!(d.len(), 3);
    assert_eq!(d[&1], 1);
    assert_eq!(d[&2], 2);
    assert_eq!(d[&3], 3);
    assert!(vec_to_dict(Vec::new()).is_empty());
}

#[test]
fn kmers_found_in_content_are_counted() {
    let host = Genome {
        path: Vec::new(),
        dir: String::new(),
        kmers: vec!["ACG".to_string(), "TTT".to_string(), "GGA".to_string(), "ACG".to_string()],
        closest_distance: 0,
    };
    assert_eq!(kmer_similarity(&host, "ACGGA"), 3);
    assert_eq!(kmer_similarity(&host, "CCCC"), 0);
    assert_eq!(kmer_similarity(&host, "TTTTACG"), 3);
}

#[test]
fn kmer_offsets_leave_room_for_a_whole_kmer() {
    for _ in 0..20 {
        let v = kmer_offsets(10, 4, 50).unwrap();
        assert_eq!(v.len(), 50);
        assert!(v.iter().all(|o| o + 4 <= 10));
        assert!(v.windows(2).all(|w| w[0] <= w[1]));
    }
    assert_eq!(kmer_offsets(4, 4, 3).unwrap(), vec![0, 0, 0]);
    assert!(kmer_offsets(10, 4, 0).unwrap().is_empty());
}

#[test]
fn kmer_offsets_reject_a_short_sequence() {
    assert!(kmer_offsets(3, 4, 5).is_none());
    assert!(kmer_offsets(0, 1, 0).is_none());
}
