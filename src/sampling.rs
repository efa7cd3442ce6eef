//! Sampling candidate genomes from a subtree, weighted by subtree size.
use vstd::multiset::Multiset;
use vstd::prelude::*;
use crate::algorithms::{lemma_pool_member, lemma_run_count, random_weighted, vec_to_dict, weighted_pool};
use crate::invariants::{lemma_genome_path_from, lemma_node_at_first};
use crate::random::choose_genomes;
use crate::structs::{in_subtree, sum_counts, wf_node, Genome, TreeNode, TreeVertex};

verus! {

/// How many elements of `m` lie below `n`.
pub open spec fn count_below(m: Multiset<u32>, n: nat) -> nat
    decreases n,
{
    if n == 0 {
        0
    } else {
        count_below(m, (n - 1) as nat) + m.count((n - 1) as u32)
    }
}

/// Adding one element raises the count below `n` by one if it lies below `n`.
pub proof fn lemma_count_below_insert(m: Multiset<u32>, x: u32, n: nat)
    requires
        n <= u32::MAX + 1,
    ensures
        count_below(m.insert(x), n) == count_below(m, n) + if (x as nat) < n {
            1nat
        } else {
            0nat
        },
    decreases n,
{
    broadcast use vstd::multiset::group_multiset_axioms;

    if n > 0 {
        lemma_count_below_insert(m, x, (n - 1) as nat);
    }
}

/// When all elements of `s` lie below `n`, the counts below `n` add up to
/// the length of `s`.
pub proof fn lemma_count_below_all(s: Seq<u32>, n: nat)
    requires
        n <= u32::MAX + 1,
        forall|k: int| 0 <= k < s.len() ==> (#[trigger] s[k] as nat) < n,
    ensures
        count_below(s.to_multiset(), n) == s.len(),
    decreases s.len(),
{
    broadcast use vstd::multiset::group_multiset_axioms;

    if s.len() == 0 {
        s.to_multiset_ensures();
        vstd::multiset::lemma_multiset_empty_len(s.to_multiset());
        lemma_count_below_empty(n);
    } else {
        let t = s.drop_last();
        assert(s =~= t.push(s.last()));
        vstd::seq_lib::to_multiset_build(t, s.last());
        assert forall|k: int| 0 <= k < t.len() implies (#[trigger] t[k] as nat) < n by {
            assert(t[k] == s[k]);
        }
        lemma_count_below_all(t, n);
        lemma_count_below_insert(t.to_multiset(), s.last(), n);
    }
}

/// Nothing lies below `n` in the empty multiset.
pub proof fn lemma_count_below_empty(n: nat)
    ensures
        count_below(Multiset::empty(), n) == 0,
    decreases n,
{
    broadcast use vstd::multiset::group_multiset_axioms;

    if n > 0 {
        lemma_count_below_empty((n - 1) as nat);
    }
}

/// In the pool of the positions `0..n`, weighted by the counts of the nodes
/// `c`, each position occurs as often as its node counts, and the pool is as
/// long as the counts add up to.
pub proof fn lemma_position_pool(idx: Seq<u32>, wts: Seq<u32>, c: Seq<TreeNode>, x: u32)
    requires
        idx.len() == wts.len() == c.len(),
        forall|k: int| 0 <= k < idx.len() ==> #[trigger] idx[k] == k,
        forall|k: int| 0 <= k < wts.len() ==> #[trigger] wts[k] == c[k].count,
    ensures
        weighted_pool(idx, wts).len() == sum_counts(c),
        weighted_pool(idx, wts).to_multiset().count(x) == if (x as int) < idx.len() {
            wts[x as int] as nat
        } else {
            0
        },
    decreases idx.len(),
{
    broadcast use vstd::multiset::group_multiset_axioms;

    let pool = weighted_pool(idx, wts);
    if idx.len() == 0 {
        pool.to_multiset_ensures();
        vstd::multiset::lemma_multiset_empty_len(pool.to_multiset());
    } else {
        let i2 = idx.drop_last();
        let w2 = wts.drop_last();
        let c2 = c.drop_last();
        assert forall|k: int| 0 <= k < i2.len() implies #[trigger] i2[k] == k by {
            assert(i2[k] == idx[k]);
        }
        assert forall|k: int| 0 <= k < w2.len() implies #[trigger] w2[k] == c2[k].count by {
            assert(w2[k] == wts[k]);
        }
        lemma_position_pool(i2, w2, c2, x);
        let run = Seq::new(wts.last() as nat, |_j: int| idx.last());
        vstd::seq_lib::lemma_multiset_commutative(weighted_pool(i2, w2), run);
        lemma_run_count(wts.last() as nat, idx.last(), x);
        if (x as int) < i2.len() {
            assert(w2[x as int] == wts[x as int]);
        }
    }
}

/// Nodes that each count at least one genome count at least as many
/// genomes as there are nodes.
pub proof fn lemma_sum_counts_at_least_len(c: Seq<TreeNode>)
    requires
        forall|i: int| 0 <= i < c.len() ==> (#[trigger] c[i]).count >= 1,
    ensures
        sum_counts(c) >= c.len(),
    decreases c.len(),
{
    if c.len() > 0 {
        let t = c.drop_last();
        assert forall|i: int| 0 <= i < t.len() implies (#[trigger] t[i]).count >= 1 by {
            assert(t[i] == c[i]);
        }
        lemma_sum_counts_at_least_len(t);
    }
}

/// No genome occurs twice.
pub open spec fn distinct_genomes(r: Seq<&Genome>) -> bool {
    forall|a: int, b: int| 0 <= a < b < r.len() ==> *r[a] != *r[b]
}

/// Below a well-formed node, every genome's path names that node right
/// after the node's ancestors.
pub proof fn lemma_path_names_node(n: TreeNode, prefix: Seq<u8>, bound: int, g: Genome)
    requires
        wf_node(n, prefix, bound),
        in_subtree(n, g),
    ensures
        g.path@.len() > prefix.len(),
        g.path@[prefix.len() as int] == n.id,
{
    lemma_genome_path_from(n, prefix, bound, g);
    let p = g.path@;
    let rel = p.subrange(prefix.len() as int, p.len() as int);
    lemma_node_at_first(n, rel.drop_last());
    assert(rel.drop_last()[0] == p[prefix.len() as int]);
}

/// A genome below a child of a branch is below the branch.
pub proof fn lemma_in_child(n: TreeNode, i: int, g: Genome)
    requires
        n.vertex is Split,
        0 <= i < n.vertex->Split_0@.len(),
        in_subtree(n.vertex->Split_0@[i], g),
    ensures
        in_subtree(n, g),
{
    match n.vertex {
        TreeVertex::Split(c) => {
            assert(in_subtree(c@[i], g));
        },
        TreeVertex::Floor(_) => {},
    }
}

impl TreeNode {
    /// Sample up to `number_heads` genomes of this subtree: the heads are
    /// shared out among the children of a branch at random, each child
    /// weighted by its count and receiving no more heads than it holds
    /// genomes, and a bucket hands out as many distinct genomes, drawn
    /// uniformly, as the heads that reach it.
    pub fn find<'s>(&'s self, number_heads: u32) -> (r: Vec<&'s Genome>)
        ensures
            r@.len() <= number_heads,
            forall|k: int| 0 <= k < r@.len() ==> in_subtree(*self, *#[trigger] r@[k]),
            (exists|p: Seq<u8>, b: int| wf_node(*self, p, b)) ==> r@.len() == if self.count
                < number_heads {
                self.count
            } else {
                number_heads
            },
            (exists|p: Seq<u8>, b: int| wf_node(*self, p, b)) ==> distinct_genomes(r@),
        decreases self,
    {
        let ghost wf = exists|p: Seq<u8>, b: int| wf_node(*self, p, b);
        let ghost wp = choose|p: Seq<u8>, b: int| wf_node(*self, p, b);
        let heads = if self.count < number_heads {
            self.count
        } else {
            number_heads
        };
        match &self.vertex {
            TreeVertex::Split(nodes) => {
                let n = nodes.len();
                proof {
                    if wf {
                        lemma_sum_counts_at_least_len(nodes@);
                    }
                }
                // Child positions are drawn as `u32`; a wider branch cannot be
                // well formed, as its counts would not fit its own count.
                if n > u32::MAX as usize {
                    return Vec::new();
                }
                let mut weights: Vec<u32> = Vec::new();
                let mut indices: Vec<u32> = Vec::new();
                let mut i: usize = 0;
                while i < n
                    invariant
                        i <= n <= u32::MAX,
                        n == nodes@.len(),
                        indices@.len() == i,
                        weights@.len() == i,
                        forall|k: int| 0 <= k < i ==> #[trigger] indices@[k] == k,
                        forall|k: int| 0 <= k < i ==> #[trigger] weights@[k] == nodes@[k].count,
                    decreases n - i,
                {
                    weights.push(nodes[i].count);
                    indices.push(i as u32);
                    i = i + 1;
                }
                let ghost idx = indices@;
                let ghost wts = weights@;
                let picks = random_weighted(indices, weights, heads, false);
                let ghost ps = picks@;
                proof {
                    assert forall|k: int| 0 <= k < ps.len() implies (#[trigger] ps[k] as nat) < n by {
                        lemma_pool_member(idx, wts, ps[k]);
                        let j = choose|j: int| 0 <= j < idx.len() && idx[j] == ps[k];
                    }
                    lemma_count_below_all(ps, n as nat);
                    if wf {
                        lemma_position_pool(idx, wts, nodes@, 0);
                        assert(ps.len() == heads);
                    }
                }
                let branches = vec_to_dict(picks);
                let mut ret: Vec<&'s Genome> = Vec::new();
                let ghost mut owner: Seq<int> = Seq::empty();
                let mut i: usize = 0;
                while i < n
                    invariant
                        i <= n <= u32::MAX,
                        n == nodes@.len(),
                        self.vertex == TreeVertex::Split(*nodes),
                        forall|k: u32| #[trigger]
                            branches@.contains_key(k) <==> ps.to_multiset().count(k) > 0,
                        forall|k: u32|
                            branches@.contains_key(k) ==> branches@[k] == ps.to_multiset().count(k),
                        ret@.len() <= count_below(ps.to_multiset(), i as nat),
                        wf ==> ret@.len() == count_below(ps.to_multiset(), i as nat),
                        wf ==> distinct_genomes(ret@),
                        wf ==> owner.len() == ret@.len(),
                        wf ==> forall|k: int|
                            0 <= k < ret@.len() ==> 0 <= #[trigger] owner[k] < i && (*ret@[k]).path@.len()
                                > wp.0.len() + 1 && (*ret@[k]).path@[wp.0.len() as int + 1]
                                == nodes@[owner[k]].id,
                        wf ==> wf_node(*self, wp.0, wp.1),
                        ps.len() <= heads,
                        wf ==> ps.len() == heads,
                        forall|k: int| 0 <= k < ps.len() ==> (#[trigger] ps[k] as nat) < n,
                        ps.to_multiset().subset_of(weighted_pool(idx, wts).to_multiset()),
                        idx.len() == n,
                        wts.len() == n,
                        forall|k: int| 0 <= k < n ==> #[trigger] idx[k] == k,
                        forall|k: int| 0 <= k < n ==> #[trigger] wts[k] == nodes@[k].count,
                        forall|k: int| 0 <= k < ret@.len() ==> in_subtree(*self, *#[trigger] ret@[k]),
                    decreases n - i,
                {
                    let ghost pool_ms = weighted_pool(idx, wts).to_multiset();
                    proof {
                        if wf {
                            lemma_position_pool(idx, wts, nodes@, i as u32);
                            assert(ps.to_multiset().count(i as u32) <= pool_ms.count(i as u32));
                            assert(wf_node(nodes@[i as int], wp.0.push(self.id), wp.1));
                        }
                    }
                    match branches.get(&(i as u32)) {
                        Some(h) => {
                            proof {
                                let c = self.vertex->Split_0;
                                assert(c == *nodes);
                                assert(decreases_to!(self => self.vertex));
                                assert(decreases_to!(self.vertex => c));
                                assert(decreases_to!(c => c@));
                                assert(decreases_to!(c@ => c@[i as int]));
                            }
                            let sub = nodes[i].find(*h);
                            let mut j: usize = 0;
                            let ghost base = ret@.len();
                            proof {
                                if wf {
                                    assert forall|k: int| 0 <= k < sub@.len() implies (*#[trigger] sub@[k]).path@.len()
                                        > wp.0.len() + 1 && (*sub@[k]).path@[wp.0.len() as int + 1] == nodes@[i as int].id by {
                                        lemma_path_names_node(nodes@[i as int], wp.0.push(self.id), wp.1, *sub@[k]);
                                    }
                                }
                            }
                            while j < sub.len()
                                invariant
                                    i < n,
                                    n == nodes@.len(),
                                    self.vertex == TreeVertex::Split(*nodes),
                                    j <= sub@.len(),
                                    ret@.len() == base + j,
                                    wf ==> wf_node(*self, wp.0, wp.1),
                                    wf ==> distinct_genomes(ret@),
                                    wf ==> distinct_genomes(sub@),
                                    wf ==> owner.len() == ret@.len(),
                                    wf ==> forall|k: int|
                                        0 <= k < ret@.len() ==> 0 <= #[trigger] owner[k] <= i && (*ret@[k]).path@.len()
                                            > wp.0.len() + 1 && (*ret@[k]).path@[wp.0.len() as int + 1]
                                            == nodes@[owner[k]].id,
                                    wf ==> forall|k: int| 0 <= k < base ==> #[trigger] owner[k] < i,
                                    wf ==> forall|k: int| 0 <= k < j ==> *ret@[base + k] == *#[trigger] sub@[k],
                                    wf ==> forall|k: int|
                                        0 <= k < sub@.len() ==> (*#[trigger] sub@[k]).path@.len()
                                            > wp.0.len() + 1 && (*sub@[k]).path@[wp.0.len() as int + 1]
                                            == nodes@[i as int].id,
                                    forall|k: int|
                                        0 <= k < sub@.len() ==> in_subtree(
                                            nodes@[i as int],
                                            *#[trigger] sub@[k],
                                        ),
                                    forall|k: int|
                                        0 <= k < ret@.len() ==> in_subtree(*self, *#[trigger] ret@[k]),
                                decreases sub@.len() - j,
                            {
                                let g = sub[j];
                                assert(in_subtree(nodes@[i as int], *g));
                                proof {
                                    lemma_in_child(*self, i as int, *g);
                                    if wf {
                                        assert forall|k: int| 0 <= k < ret@.len() implies *ret@[k] != *g by {
                                            if k < base {
                                                assert(owner[k] < i);
                                                assert(nodes@[owner[k]].id != nodes@[i as int].id);
                                            } else {
                                                assert(*ret@[base + (k - base)] == *sub@[k - base]);
                                            }
                                        }
                                    }
                                }
                                ret.push(g);
                                proof {
                                    owner = owner.push(i as int);
                                }
                                j = j + 1;
                            }
                        },
                        None => {},
                    }
                    i = i + 1;
                }
                ret
            },
            TreeVertex::Floor(v) => {
                let r = choose_genomes(v, heads as usize);
                proof {
                    let m = r@.map_values(|g: &Genome| *g);
                    m.to_multiset_ensures();
                    v@.to_multiset_ensures();
                    assert forall|k: int| 0 <= k < r@.len() implies in_subtree(*self, *#[trigger] r@[k]) by {
                        assert(m[k] == *r@[k]);
                        assert(m.contains(m[k]));
                        assert(v@.to_multiset().count(m[k]) > 0);
                        assert(v@.contains(m[k]));
                    }
                    if wf {
                        assert(v@.no_duplicates()) by {
                            assert forall|a: int, b: int| 0 <= a < v@.len() && 0 <= b < v@.len() && a != b implies v@[a] != v@[b] by {
                                assert(v@[a].path@.last() == a as u8);
                                assert(v@[b].path@.last() == b as u8);
                            }
                        }
                        v@.lemma_multiset_has_no_duplicates();
                        assert forall|x: Genome| m.to_multiset().contains(x) implies m.to_multiset().count(x) == 1 by {
                            assert(m.to_multiset().count(x) <= v@.to_multiset().count(x));
                            assert(v@.to_multiset().contains(x));
                        }
                        m.lemma_multiset_has_no_duplicates_conv();
                        assert forall|a: int, b: int| 0 <= a < b < r@.len() implies *r@[a] != *r@[b] by {
                            assert(m[a] == *r@[a]);
                            assert(m[b] == *r@[b]);
                        }
                    }
                }
                r
            },
        }
    }
}

} // verus!
