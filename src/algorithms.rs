//! Path navigation in the index, weighted random draws, and k-mer helpers.
use vstd::multiset::Multiset;
use vstd::prelude::*;
use vstd::string::StringSliceAdditionalSpecFns;
use std::collections::HashMap;
use crate::errors::PhyloError;
use crate::invariants::{lemma_node_at_child, lemma_node_at_none_extends, lemma_sum_counts_ge};
use crate::levenshtein::{edit_distance, levenshtein_distance};
use crate::random::random_index;
use crate::structs::{
    bumped, bumped_below_root, child_pos, first_with_id, genome_at, is_bucket_path, node_at, wf_node, Genome,
    TreeNode, TreeVertex,
};

verus! {

/// Edit distance between the byte sequences of two strings.
pub fn levenshtein(first: &str, second: &str) -> (r: usize)
    ensures
        r == edit_distance(first.spec_bytes(), second.spec_bytes()),
{
    levenshtein_distance(first, second)
}

/// `pat` occurs as a contiguous part of `text`.
pub open spec fn occurs_in(pat: Seq<char>, text: Seq<char>) -> bool {
    exists|i: int| 0 <= i <= text.len() - pat.len() && #[trigger] text.subrange(i, i + pat.len()) == pat
}

/// Relies on `str::contains` with a `&str` pattern: true exactly when the
/// pattern occurs as a contiguous part of the text.
#[verifier::external_body]
fn text_contains(text: &str, pat: &str) -> (r: bool)
    ensures
        r == occurs_in(pat@, text@),
{
    text.contains(pat)
}

/// Relies on `slice::sort`: the slice is put in ascending order.
#[verifier::external_body]
fn sort_offsets(v: &mut Vec<usize>)
    ensures
        final(v)@.to_multiset() == old(v)@.to_multiset(),
        forall|i: int, j: int| 0 <= i < j < final(v)@.len() ==> final(v)@[i] <= final(v)@[j],
{
    v.sort();
}

/// How many of `kmers` occur in `text`.
pub open spec fn kmer_hits(kmers: Seq<String>, text: Seq<char>) -> nat
    decreases kmers.len(),
{
    if kmers.len() == 0 {
        0
    } else {
        kmer_hits(kmers.drop_last(), text) + if occurs_in(kmers.last()@, text) {
            1nat
        } else {
            0nat
        }
    }
}

/// Approximate similarity: how many of the k-mers of `host` occur in the
/// sequence `content` of another genome.
pub fn kmer_similarity(host: &Genome, content: &str) -> (r: u32)
    requires
        host.kmers@.len() <= u32::MAX,
    ensures
        r == kmer_hits(host.kmers@, content@),
{
    let mut ret: u32 = 0;
    let mut i: usize = 0;
    while i < host.kmers.len()
        invariant
            i <= host.kmers@.len() <= u32::MAX,
            ret == kmer_hits(host.kmers@.subrange(0, i as int), content@),
            ret <= i,
        decreases host.kmers@.len() - i,
    {
        assert(host.kmers@.subrange(0, i as int + 1).drop_last() =~= host.kmers@.subrange(0, i as int));
        if text_contains(content, host.kmers[i].as_str()) {
            ret = ret + 1;
        }
        i = i + 1;
    }
    assert(host.kmers@.subrange(0, i as int) =~= host.kmers@);
    ret
}

/// The sorted offsets at which `num` k-mers of length `k` are read from a
/// sequence of `size` bytes, each drawn at random among the offsets where a
/// whole k-mer fits. `None` when the sequence is shorter than `k`.
pub fn kmer_offsets(size: usize, k: u32, num: u32) -> (r: Option<Vec<usize>>)
    ensures
        r is None <==> size < k,
        r matches Some(v) ==> {
            &&& v@.len() == num
            &&& forall|i: int| 0 <= i < v@.len() ==> #[trigger] v@[i] + k <= size
            &&& forall|i: int, j: int| 0 <= i < j < v@.len() ==> v@[i] <= v@[j]
        },
{
    if size < k as usize {
        return None;
    }
    let span = size - k as usize;
    // Offsets `0..=span` all leave room for a whole k-mer; only an empty
    // k-mer over the largest size leaves the last one out.
    let bound = if span < usize::MAX {
        span + 1
    } else {
        span
    };
    let mut loc: Vec<usize> = Vec::new();
    let mut t: u32 = 0;
    while t < num
        invariant
            t <= num,
            loc@.len() == t,
            span == size - k,
            bound > 0,
            bound <= span + 1,
            forall|i: int| 0 <= i < loc@.len() ==> #[trigger] loc@[i] <= span,
        decreases num - t,
    {
        loc.push(random_index(bound));
        t = t + 1;
    }
    let ghost before = loc@;
    sort_offsets(&mut loc);
    proof {
        before.to_multiset_ensures();
        loc@.to_multiset_ensures();
        assert forall|i: int| 0 <= i < loc@.len() implies #[trigger] loc@[i] + k <= size by {
            assert(loc@.contains(loc@[i]));
            assert(loc@.to_multiset().count(loc@[i]) > 0);
            assert(before.to_multiset().count(loc@[i]) > 0);
            assert(before.contains(loc@[i]));
            let j = choose|j: int| 0 <= j < before.len() && before[j] == loc@[i];
            assert(before[j] <= span);
        }
    }
    Some(loc)
}

/// Each element repeated as many times as its weight, in order.
pub open spec fn weighted_pool(elems: Seq<u32>, weights: Seq<u32>) -> Seq<u32>
    decreases elems.len(),
{
    if elems.len() == 0 || weights.len() == 0 {
        Seq::empty()
    } else {
        weighted_pool(elems.drop_last(), weights.drop_last()) + Seq::new(
            weights.last() as nat,
            |_j: int| elems.last(),
        )
    }
}

/// A weighted draw of `rounds` elements can be made: elements and weights
/// pair up, and the pool is not empty when drawing with replacement, or
/// holds at least `rounds` elements when drawing without.
pub open spec fn weighted_draw_possible(
    elems: Seq<u32>,
    weights: Seq<u32>,
    rounds: u32,
    limitless: bool,
) -> bool {
    &&& elems.len() == weights.len()
    &&& if limitless {
        rounds == 0 || weighted_pool(elems, weights).len() > 0
    } else {
        rounds <= weighted_pool(elems, weights).len()
    }
}

/// Draw `rounds` elements at random, each element weighted by its weight.
/// With `limitless` every draw is made from the whole pool; without it a
/// drawn unit of weight is used up, so that no element is drawn more often
/// than its weight. Gives nothing when the draw cannot be made.
pub fn random_weighted(elems: Vec<u32>, probabilities: Vec<u32>, rounds: u32, limitless: bool) -> (r:
    Vec<u32>)
    ensures
        r@.len() == if weighted_draw_possible(elems@, probabilities@, rounds, limitless) {
            rounds as int
        } else {
            0
        },
        forall|k: int|
            0 <= k < r@.len() ==> weighted_pool(elems@, probabilities@).contains(#[trigger] r@[k]),
        !limitless ==> r@.to_multiset().subset_of(
            weighted_pool(elems@, probabilities@).to_multiset(),
        ),
{
    broadcast use vstd::seq_lib::group_to_multiset_ensures;

    if elems.len() != probabilities.len() {
        return Vec::new();
    }
    let ghost pool = weighted_pool(elems@, probabilities@);
    let mut amounts: Vec<u32> = Vec::new();
    let mut i: usize = 0;
    while i < elems.len()
        invariant
            i <= elems@.len(),
            elems@.len() == probabilities@.len(),
            amounts@ == weighted_pool(elems@.subrange(0, i as int), probabilities@.subrange(0, i as int)),
        decreases elems@.len() - i,
    {
        let ghost before = amounts@;
        let mut j: u32 = 0;
        while j < probabilities[i]
            invariant
                i < elems@.len(),
                elems@.len() == probabilities@.len(),
                j <= probabilities@[i as int],
                amounts@ == before + Seq::new(j as nat, |_k: int| elems@[i as int]),
            decreases probabilities@[i as int] - j,
        {
            amounts.push(elems[i]);
            j = j + 1;
            assert(amounts@ =~= before + Seq::new(j as nat, |_k: int| elems@[i as int]));
        }
        assert(elems@.subrange(0, i as int + 1).drop_last() =~= elems@.subrange(0, i as int));
        assert(probabilities@.subrange(0, i as int + 1).drop_last() =~= probabilities@.subrange(0, i as int));
        i = i + 1;
    }
    assert(elems@.subrange(0, i as int) =~= elems@);
    assert(probabilities@.subrange(0, i as int) =~= probabilities@);
    if (limitless && rounds > 0 && amounts.len() == 0) || (!limitless && rounds as usize
        > amounts.len()) {
        return Vec::new();
    }
    let mut ret: Vec<u32> = Vec::new();
    let mut t: u32 = 0;
    while t < rounds
        invariant
            t <= rounds,
            ret@.len() == t,
            limitless ==> amounts@ == pool && (t < rounds ==> pool.len() > 0),
            !limitless ==> {
                &&& amounts@.len() + ret@.len() == pool.len()
                &&& rounds <= pool.len()
                &&& ret@.to_multiset().add(amounts@.to_multiset()) == pool.to_multiset()
            },
            forall|k: int| 0 <= k < ret@.len() ==> pool.contains(#[trigger] ret@[k]),
        decreases rounds - t,
    {
        let gen = random_index(amounts.len());
        if limitless {
            ret.push(amounts[gen]);
        } else {
            let ghost a = amounts@;
            let ghost rr = ret@;
            let x = amounts.remove(gen);
            assert(a[gen as int] == x);
            assert(a.contains(x));
            ret.push(x);
            proof {
                broadcast use vstd::multiset::group_multiset_axioms;

                a.to_multiset_ensures();
                pool.to_multiset_ensures();
                vstd::seq_lib::to_multiset_build(rr, x);
                vstd::seq_lib::to_multiset_remove(a, gen as int);
                assert(a.to_multiset().count(x) > 0);
                assert(ret@.to_multiset().add(amounts@.to_multiset()) =~= pool.to_multiset());
                assert(pool.to_multiset().count(x) > 0);
                assert forall|k: int| 0 <= k < ret@.len() implies pool.contains(#[trigger] ret@[k]) by {
                    if k < rr.len() {
                        assert(rr[k] == ret@[k]);
                    }
                }
            }
        }
        t = t + 1;
    }
    proof {
        broadcast use vstd::multiset::group_multiset_axioms;

        if !limitless {
            assert(ret@.to_multiset().subset_of(pool.to_multiset()));
        }
    }
    ret
}

/// A run of `n` copies of `y` holds `n` of `y` and nothing else.
pub proof fn lemma_run_count(n: nat, y: u32, x: u32)
    ensures
        Seq::new(n, |_j: int| y).to_multiset().count(x) == if x == y {
            n
        } else {
            0
        },
    decreases n,
{
    broadcast use vstd::multiset::group_multiset_axioms;

    let s = Seq::new(n, |_j: int| y);
    if n == 0 {
        s.to_multiset_ensures();
        vstd::multiset::lemma_multiset_empty_len(s.to_multiset());
    } else {
        let t = Seq::new((n - 1) as nat, |_j: int| y);
        assert(s =~= t.push(y));
        vstd::seq_lib::to_multiset_build(t, y);
        lemma_run_count((n - 1) as nat, y, x);
    }
}

/// Every element of a weighted pool is one of the weighted elements.
pub proof fn lemma_pool_member(elems: Seq<u32>, weights: Seq<u32>, x: u32)
    requires
        weighted_pool(elems, weights).contains(x),
    ensures
        elems.contains(x),
    decreases elems.len(),
{
    if elems.len() > 0 && weights.len() > 0 {
        let front = weighted_pool(elems.drop_last(), weights.drop_last());
        let back = Seq::new(weights.last() as nat, |_j: int| elems.last());
        let j = choose|j: int| 0 <= j < front.len() + back.len() && (front + back)[j] == x;
        if j < front.len() {
            assert(front[j] == x);
            lemma_pool_member(elems.drop_last(), weights.drop_last(), x);
            let i = choose|i: int| 0 <= i < elems.drop_last().len() && elems.drop_last()[i] == x;
            assert(elems[i] == x);
        } else {
            assert(elems[elems.len() - 1] == x);
        }
    }
}

/// In the pool of distinct elements, each element occurs as often as its
/// weight.
pub proof fn lemma_pool_count(elems: Seq<u32>, weights: Seq<u32>, i: int)
    requires
        elems.no_duplicates(),
        elems.len() == weights.len(),
        0 <= i < elems.len(),
    ensures
        weighted_pool(elems, weights).to_multiset().count(elems[i]) == weights[i],
    decreases elems.len(),
{
    broadcast use vstd::multiset::group_multiset_axioms;

    let e2 = elems.drop_last();
    let w2 = weights.drop_last();
    let last = elems.len() - 1;
    let run = Seq::new(weights.last() as nat, |_j: int| elems.last());
    vstd::seq_lib::lemma_multiset_commutative(weighted_pool(e2, w2), run);
    lemma_run_count(weights.last() as nat, elems.last(), elems[i]);
    if i < last {
        assert forall|a: int, b: int| 0 <= a < e2.len() && 0 <= b < e2.len() && a != b implies e2[a]
            != e2[b] by {
            assert(e2[a] == elems[a] && e2[b] == elems[b]);
        }
        lemma_pool_count(e2, w2, i);
        assert(e2[i] == elems[i]);
        assert(w2[i] == weights[i]);
        assert(elems[i] != elems[last]);
    } else {
        assert(!weighted_pool(e2, w2).contains(elems[i])) by {
            if weighted_pool(e2, w2).contains(elems[i]) {
                lemma_pool_member(e2, w2, elems[i]);
                let k = choose|k: int| 0 <= k < e2.len() && e2[k] == elems[i];
                assert(elems[k] == elems[i]);
            }
        }
        weighted_pool(e2, w2).to_multiset_ensures();
    }
}

/// A draw without replacement from distinct elements never picks an element
/// more often than its weight.
pub proof fn lemma_draw_within_weights(elems: Seq<u32>, weights: Seq<u32>, r: Seq<u32>, i: int)
    requires
        elems.no_duplicates(),
        elems.len() == weights.len(),
        0 <= i < elems.len(),
        r.to_multiset().subset_of(weighted_pool(elems, weights).to_multiset()),
    ensures
        r.to_multiset().count(elems[i]) <= weights[i],
{
    lemma_pool_count(elems, weights, i);
}

/// Count how often each value occurs.
pub fn vec_to_dict(elems: Vec<u32>) -> (r: HashMap<u32, u32>)
    requires
        elems@.len() <= u32::MAX,
    ensures
        forall|k: u32| #[trigger] r@.contains_key(k) <==> elems@.to_multiset().count(k) > 0,
        forall|k: u32| r@.contains_key(k) ==> r@[k] == elems@.to_multiset().count(k),
{
    broadcast use vstd::seq_lib::group_to_multiset_ensures;
    broadcast use vstd::std_specs::hash::group_hash_axioms;
    broadcast use vstd::multiset::group_multiset_axioms;

    let mut ret: HashMap<u32, u32> = HashMap::new();
    let mut i: usize = 0;
    assert(elems@.subrange(0, 0).to_multiset() =~= Multiset::empty());
    while i < elems.len()
        invariant
            i <= elems@.len() <= u32::MAX,
            forall|k: u32| #[trigger]
                ret@.contains_key(k) <==> elems@.subrange(0, i as int).to_multiset().count(k) > 0,
            forall|k: u32|
                ret@.contains_key(k) ==> ret@[k] == elems@.subrange(0, i as int).to_multiset().count(k)
                    && ret@[k] <= i,
        decreases elems@.len() - i,
    {
        let e = elems[i];
        let ghost pre = elems@.subrange(0, i as int);
        assert(elems@.subrange(0, i as int + 1) =~= pre.push(e));
        proof {
            vstd::seq_lib::to_multiset_build(pre, e);
        }
        match ret.get(&e) {
            Some(c) => {
                assert(ret@.contains_key(e) && ret@[e] == *c);
                let c2 = *c + 1;
                ret.insert(e, c2);
            },
            None => {
                assert(!ret@.contains_key(e));
                ret.insert(e, 1);
            },
        }
        i = i + 1;
    }
    assert(elems@.subrange(0, i as int) =~= elems@);
    ret
}

/// Position of the first child with the given id.
pub fn find_child(c: &Vec<TreeNode>, id: u8) -> (r: Option<usize>)
    ensures
        match r {
            Some(i) => child_pos(c@, id) == Some(i as int),
            None => child_pos(c@, id) is None,
        },
{
    let mut i: usize = 0;
    while i < c.len()
        invariant
            i <= c@.len(),
            forall|j: int| 0 <= j < i ==> c@[j].id != id,
        decreases c@.len() - i,
    {
        if c[i].id == id {
            assert(first_with_id(c@, id, i as int));
            assert forall|k: int| first_with_id(c@, id, k) implies k == i as int by {
                if k < i {
                } else if k > i {
                    assert(c@[i as int].id == id);
                }
            }
            return Some(i);
        }
        i = i + 1;
    }
    assert(!(exists|k: int| first_with_id(c@, id, k)));
    None
}

/// The node reached from `root` by the first `len` ids of `path`.
pub fn node_ref<'a>(root: &'a TreeNode, path: &Vec<u8>, len: usize) -> (r: Option<&'a TreeNode>)
    requires
        len <= path@.len(),
    ensures
        match r {
            Some(n) => node_at(*root, path@.subrange(0, len as int)) == Some(*n),
            None => node_at(*root, path@.subrange(0, len as int)) is None,
        },
{
    if len == 0 {
        return None;
    }
    assert(path@.subrange(0, 1) =~= seq![path@[0]]);
    if path[0] != root.id {
        proof {
            lemma_node_at_none_extends(*root, path@, 1, len as int);
        }
        return None;
    }
    let mut cur: &TreeNode = root;
    let mut k: usize = 1;
    assert(path@.subrange(0, 1) =~= seq![path@[0]]);
    while k < len
        invariant
            1 <= k <= len <= path@.len(),
            node_at(*root, path@.subrange(0, k as int)) == Some(*cur),
        decreases len - k,
    {
        assert(path@.subrange(0, k as int + 1).drop_last() =~= path@.subrange(0, k as int));
        match &cur.vertex {
            TreeVertex::Split(c) => {
                match find_child(c, path[k]) {
                    Some(i) => {
                        cur = &c[i];
                    },
                    None => {
                        proof {
                            lemma_node_at_none_extends(*root, path@, k as int + 1, len as int);
                        }
                        return None;
                    },
                }
            },
            TreeVertex::Floor(_) => {
                proof {
                    lemma_node_at_none_extends(*root, path@, k as int + 1, len as int);
                }
                return None;
            },
        }
        k = k + 1;
    }
    Some(cur)
}

/// Retrieve the genome that a genome path addresses.
pub fn retrieve_genome<'a>(root: &'a TreeNode, path: &Vec<u8>) -> (r: Result<&'a Genome, PhyloError>)
    ensures
        match r {
            Ok(g) => genome_at(*root, path@) == Some(*g),
            Err(e) => genome_at(*root, path@) is None && e is SearchGenomeError,
        },
{
    if path.len() < 2 {
        return Err(PhyloError::SearchGenomeError);
    }
    let last = path.len() - 1;
    assert(path@.subrange(0, last as int) =~= path@.drop_last());
    match node_ref(root, path, last) {
        Some(node) => match &node.vertex {
            TreeVertex::Floor(v) => {
                let slot = path[last] as usize;
                if slot < v.len() {
                    Ok(&v[slot])
                } else {
                    Err(PhyloError::SearchGenomeError)
                }
            },
            TreeVertex::Split(_) => Err(PhyloError::SearchGenomeError),
        },
        None => Err(PhyloError::SearchGenomeError),
    }
}

/// The chain of nodes from the root down to the bucket that a genome path
/// names; the final slot of the path is not followed.
pub fn get_full_path<'a>(root: &'a TreeNode, path: &Vec<u8>) -> (r: Result<Vec<&'a TreeNode>, PhyloError>)
    ensures
        match r {
            Ok(nodes) => {
                &&& path@.len() >= 2
                &&& is_bucket_path(*root, path@.drop_last())
                &&& nodes@.len() == path@.len() - 1
                &&& forall|k: int|
                    0 <= k < nodes@.len() ==> node_at(*root, path@.subrange(0, k + 1)) == Some(
                        *nodes@[k],
                    )
            },
            Err(e) => {
                &&& !(path@.len() >= 2 && is_bucket_path(*root, path@.drop_last()))
                &&& e is SearchNodeError
            },
        },
{
    if path.len() < 2 {
        return Err(PhyloError::SearchNodeError);
    }
    let last = path.len() - 1;
    assert(path@.subrange(0, 1) =~= seq![path@[0]]);
    assert(path@.subrange(0, last as int) =~= path@.drop_last());
    if path[0] != root.id {
        proof {
            lemma_node_at_none_extends(*root, path@, 1, last as int);
        }
        return Err(PhyloError::SearchNodeError);
    }
    let mut ret: Vec<&TreeNode> = Vec::new();
    ret.push(root);
    let mut cur: &TreeNode = root;
    let mut k: usize = 1;
    assert(path@.subrange(0, 1) =~= seq![path@[0]]);
    assert(path@.subrange(0, last as int) =~= path@.drop_last());
    while k < last
        invariant
            1 <= k <= last,
            last == path@.len() - 1,
            ret@.len() == k,
            node_at(*root, path@.subrange(0, k as int)) == Some(*cur),
            forall|j: int|
                0 <= j < ret@.len() ==> node_at(*root, path@.subrange(0, j + 1)) == Some(
                    *ret@[j],
                ),
        decreases last - k,
    {
        assert(path@.subrange(0, k as int + 1).drop_last() =~= path@.subrange(0, k as int));
        match &cur.vertex {
            TreeVertex::Split(c) => {
                match find_child(c, path[k]) {
                    Some(i) => {
                        cur = &c[i];
                        ret.push(cur);
                    },
                    None => {
                        proof {
                            lemma_node_at_none_extends(*root, path@, k as int + 1, last as int);
                        }
                        return Err(PhyloError::SearchNodeError);
                    },
                }
            },
            TreeVertex::Floor(_) => {
                proof {
                    lemma_node_at_none_extends(*root, path@, k as int + 1, last as int);
                }
                return Err(PhyloError::SearchNodeError);
            },
        }
        k = k + 1;
    }
    match &cur.vertex {
        TreeVertex::Floor(_) => Ok(ret),
        TreeVertex::Split(_) => Err(PhyloError::SearchNodeError),
    }
}

/// Walk the node path `path@.subrange(depth, path.len() - 1)`, which leads
/// from `node` to a bucket, raise the count of every node above the bucket,
/// and hand out the bucket.
fn descend<'a>(
    node: &'a mut TreeNode,
    path: &Vec<u8>,
    depth: usize,
    Ghost(prefix): Ghost<Seq<u8>>,
    Ghost(bound): Ghost<int>,
) -> (r: &'a mut TreeNode)
    requires
        depth + 1 < path@.len(),
        is_bucket_path(*old(node), path@.subrange(depth as int, path@.len() - 1)),
        wf_node(*old(node), prefix, bound),
        old(node).count < u32::MAX,
    ensures
        node_at(*old(node), path@.subrange(depth as int, path@.len() - 1)) == Some(*r),
        r.vertex is Floor,
        bumped(*old(node), *final(node), path@.subrange(depth as int, path@.len() - 1), *final(r)),
    decreases path@.len() - depth,
{
    let ghost q = path@.subrange(depth as int, path@.len() - 1);
    let ghost o = *node;
    let len = path.len();
    assert(depth + 1 < len);
    if depth + 1 == len - 1 {
        assert(q =~= seq![path@[depth as int]]);
        return node;
    }
    assert(q[0] == o.id) by {
        if q[0] != o.id {
            assert(q.subrange(0, 1) =~= seq![q[0]]);
            assert(q.subrange(0, q.len() as int) =~= q);
            lemma_node_at_none_extends(o, q, 1, q.len() as int);
        }
    }
    proof {
        lemma_node_at_child(o, q);
    }
    let ghost qn = path@.subrange(depth as int + 1, path@.len() - 1);
    assert(q.drop_first() =~= qn);
    let next = path[depth + 1];
    match &mut node.vertex {
        TreeVertex::Split(c) => {
            let i = find_child(c, next).unwrap();
            proof {
                lemma_sum_counts_ge(c@, i as int);
            }
            let child = &mut c[i];
            let b = descend(child, path, depth + 1, Ghost(prefix.push(o.id)), Ghost(bound));
            node.count = node.count + 1;
            b
        },
        TreeVertex::Floor(_) => vstd::pervasive::unreached(),
    }
}

/// Raise the count of every node strictly between the root and the bucket
/// that a genome path names, leaving the root's own count and the bucket's
/// alone, and hand out that bucket so that the genome's neighbourhood can be
/// changed. The caller counts the new genome at the root.
pub fn get_mut_node_and_increment<'a>(root: &'a mut TreeNode, path: &Vec<u8>) -> (r: Result<
    &'a mut TreeNode,
    PhyloError,
>)
    requires
        wf_node(*old(root), Seq::empty(), 256),
        old(root).count < u32::MAX,
    ensures
        match r {
            Ok(b) => {
                &&& path@.len() >= 2
                &&& node_at(*old(root), path@.drop_last()) == Some(*b)
                &&& b.vertex is Floor
                &&& bumped_below_root(*old(root), *final(root), path@.drop_last(), *final(b))
            },
            Err(e) => {
                &&& !(path@.len() >= 2 && is_bucket_path(*old(root), path@.drop_last()))
                &&& *final(root) == *old(root)
                &&& e is SearchNodeError
            },
        },
{
    if path.len() < 2 {
        return Err(PhyloError::SearchNodeError);
    }
    let last = path.len() - 1;
    assert(path@.subrange(0, last as int) =~= path@.drop_last());
    let ok = match node_ref(root, path, last) {
        Some(n) => match &n.vertex {
            TreeVertex::Floor(_) => true,
            TreeVertex::Split(_) => false,
        },
        None => false,
    };
    if !ok {
        return Err(PhyloError::SearchNodeError);
    }
    if last == 1 {
        return Ok(root);
    }
    let ghost q = path@.drop_last();
    let ghost o = *root;
    assert(q[0] == o.id) by {
        if q[0] != o.id {
            assert(q.subrange(0, 1) =~= seq![q[0]]);
            assert(q.subrange(0, q.len() as int) =~= q);
            lemma_node_at_none_extends(o, q, 1, q.len() as int);
        }
    }
    proof {
        lemma_node_at_child(o, q);
    }
    assert(q.drop_first() =~= path@.subrange(1, path@.len() - 1));
    let next = path[1];
    match &mut root.vertex {
        TreeVertex::Split(c) => {
            let i = find_child(c, next).unwrap();
            proof {
                lemma_sum_counts_ge(c@, i as int);
            }
            let ghost pre = Seq::<u8>::empty().push(o.id);
            let child = &mut c[i];
            Ok(descend(child, path, 1, Ghost(pre), Ghost(256)))
        },
        TreeVertex::Floor(_) => vstd::pervasive::unreached(),
    }
}

} // verus!
