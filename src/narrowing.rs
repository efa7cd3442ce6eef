//! One round of the search that narrows the candidates for an insertion.
use vstd::prelude::*;
use crate::algorithms::{get_full_path, node_ref};
use crate::errors::PhyloError;
use crate::invariants::{lemma_sum_counts_ge, lemma_wf_node_at};
use crate::structs::{
    child_pos, first_with_id, is_bucket_path, node_at, sum_counts, wf_node, wf_tree, Genome,
    PhyloTree, TreeNode, TreeVertex,
};

verus! {

/// Two different nodes of a sequence together count no more than the sum.
pub proof fn lemma_sum_counts_two(c: Seq<TreeNode>, i: int, j: int)
    requires
        0 <= i < c.len(),
        0 <= j < c.len(),
        i != j,
    ensures
        sum_counts(c) >= c[i].count + c[j].count,
    decreases c.len(),
{
    let t = c.drop_last();
    if i == c.len() - 1 {
        lemma_sum_counts_ge(t, j);
        assert(t[j] == c[j]);
    } else if j == c.len() - 1 {
        lemma_sum_counts_ge(t, i);
        assert(t[i] == c[i]);
    } else {
        lemma_sum_counts_two(t, i, j);
        assert(t[i] == c[i]);
        assert(t[j] == c[j]);
    }
}

/// In a well-formed tree a child counts fewer genomes than its branch.
pub proof fn lemma_child_count_lt(n: TreeNode, prefix: Seq<u8>, bound: int, i: int)
    requires
        wf_node(n, prefix, bound),
        n.vertex is Split,
        0 <= i < n.vertex->Split_0@.len(),
    ensures
        n.vertex->Split_0@[i].count < n.count,
{
    let c = n.vertex->Split_0@;
    let j = if i == 0 {
        1int
    } else {
        0int
    };
    lemma_sum_counts_two(c, i, j);
}

/// Count of the node that the first `k + 1` ids of `p` lead to.
pub open spec fn chain_count(root: TreeNode, p: Seq<u8>, k: int) -> int {
    node_at(root, p.subrange(0, k + 1))->0.count as int
}

/// Going one node deeper along a path strictly lowers the count.
pub proof fn lemma_chain_step(t: PhyloTree, p: Seq<u8>, k: int)
    requires
        wf_tree(t),
        0 <= k,
        k + 2 <= p.len(),
        node_at(t.root, p.subrange(0, k + 2)) is Some,
    ensures
        node_at(t.root, p.subrange(0, k + 1)) is Some,
        chain_count(t.root, p, k + 1) < chain_count(t.root, p, k),
{
    let q = p.subrange(0, k + 2);
    assert(q.drop_last() =~= p.subrange(0, k + 1));
    let parent = node_at(t.root, p.subrange(0, k + 1))->0;
    lemma_wf_node_at(t.root, Seq::empty(), t.next_index as int, p.subrange(0, k + 1));
    match parent.vertex {
        TreeVertex::Split(c) => {
            let i = child_pos(c@, q.last())->0;
            assert(first_with_id(c@, q.last(), i));
            lemma_child_count_lt(
                parent,
                Seq::<u8>::empty() + p.subrange(0, k + 1).drop_last(),
                t.next_index as int,
                i,
            );
        },
        TreeVertex::Floor(_) => {},
    }
}

/// Counts strictly fall along a path: deeper nodes count fewer genomes.
pub proof fn lemma_chain_decreasing(t: PhyloTree, p: Seq<u8>, j: int, k: int)
    requires
        wf_tree(t),
        0 <= j < k,
        k + 1 <= p.len(),
        node_at(t.root, p.subrange(0, k + 1)) is Some,
    ensures
        node_at(t.root, p.subrange(0, j + 1)) is Some,
        chain_count(t.root, p, k) < chain_count(t.root, p, j),
    decreases k - j,
{
    lemma_chain_step(t, p, k - 1);
    if j < k - 1 {
        lemma_chain_decreasing(t, p, j, k - 1);
    }
}

/// `i` is the first position of a largest score.
pub open spec fn first_max(scores: Seq<u32>, i: int) -> bool {
    &&& 0 <= i < scores.len()
    &&& forall|j: int| 0 <= j < scores.len() ==> #[trigger] scores[j] <= scores[i]
    &&& forall|j: int| 0 <= j < i ==> #[trigger] scores[j] < scores[i]
}

/// The narrowing stops at position `k` of the chain of nodes along the
/// genome path `p`: that node was not visited yet, and it is not the case
/// that both it and the next node of the chain still count at least
/// `threshold` genomes.
pub open spec fn stops_at(root: TreeNode, p: Seq<u8>, checked: Seq<u8>, threshold: int, k: int) -> bool {
    &&& 0 <= k < p.len() - 1
    &&& !checked.contains(p[k])
    &&& !(chain_count(root, p, k) >= threshold && k + 1 < p.len() - 1 && chain_count(root, p, k + 1)
        >= threshold)
}

/// `k` is the first position of the chain where the narrowing stops.
pub open spec fn first_stop(root: TreeNode, p: Seq<u8>, checked: Seq<u8>, threshold: int, k: int) -> bool {
    &&& stops_at(root, p, checked, threshold, k)
    &&& forall|j: int| 0 <= j < k ==> !#[trigger] stops_at(root, p, checked, threshold, j)
}

/// Genomes sampled in each round of the narrowing search; a node that counts
/// no more genomes than this is compared exhaustively.
pub const NARROW_HEADS: u32 = 8;

/// Rounds in a row in which the search may sample the same branch again
/// before it gives up.
pub const RESAMPLE_LIMIT: u32 = 8;

/// Where the narrowing search stands: the node path of the node it samples,
/// the ids of the nodes it has visited, and how many rounds in a row it has
/// sampled the same node again.
pub struct NarrowState {
    pub current: Vec<u8>,
    pub checked: Vec<u8>,
    pub resamples: u32,
}

/// What the caller does next in the narrowing search.
#[derive(Debug, Clone, Copy, PartialEq, Eq, Structural)]
pub enum NarrowAction {
    /// Score the sample just taken against the new genome.
    Score,
    /// Take a new sample at the node the state names.
    Sample,
    /// Stop, and compare the new genome exactly with the last sample.
    Compare,
}

/// What is left of the narrowing search: the count of the node it samples,
/// weighted by the rounds it may spend on one node, plus the rounds still
/// allowed there. Every round that samples again lowers it, so the search
/// ends after at most the root's count plus one, times `RESAMPLE_LIMIT`,
/// rounds.
pub open spec fn narrow_measure(root: TreeNode, state: NarrowState) -> int {
    node_at(root, state.current@)->0.count * RESAMPLE_LIMIT + (RESAMPLE_LIMIT - state.resamples)
}

/// The outcome of one narrowing round: `None` when the best candidate's path
/// is not a bucket path below `current`, `Some(None)` when no node is chosen,
/// and `Some(Some(next))` with the node path of the chosen node.
pub open spec fn narrow_outcome(
    root: TreeNode,
    current: Seq<u8>,
    checked: Seq<u8>,
    candidates: Seq<&Genome>,
    scores: Seq<u32>,
) -> Option<Option<Seq<u8>>> {
    if candidates.len() == 0 {
        Some(None)
    } else {
        let i = choose|i: int| first_max(scores, i);
        let p = candidates[i].path@;
        let threshold = node_at(root, current)->0.count / 8;
        let valid = p.len() >= 2 && node_at(root, p.drop_last()) is Some && node_at(
            root,
            p.drop_last(),
        )->0.vertex is Floor && current.len() <= p.len() - 1 && p.subrange(0, current.len() as int)
            == current;
        if !valid {
            None
        } else if exists|k: int| first_stop(root, p, checked, threshold as int, k) {
            let k = choose|k: int| first_stop(root, p, checked, threshold as int, k);
            Some(Some(p.subrange(0, k + 1)))
        } else {
            Some(None)
        }
    }
}

/// Position of the first largest score of a non-empty list.
fn first_max_index(scores: &Vec<u32>) -> (r: usize)
    requires
        scores@.len() > 0,
    ensures
        first_max(scores@, r as int),
{
    let mut best: usize = 0;
    let mut i: usize = 1;
    while i < scores.len()
        invariant
            1 <= i <= scores@.len(),
            best < i,
            forall|j: int| 0 <= j < i ==> #[trigger] scores@[j] <= scores@[best as int],
            forall|j: int| 0 <= j < best ==> #[trigger] scores@[j] < scores@[best as int],
        decreases scores@.len() - i,
    {
        if scores[i] > scores[best] {
            best = i;
        }
        i = i + 1;
    }
    best
}

/// A copy of the first `len` ids of a path.
fn prefix_path(q: &Vec<u8>, len: usize) -> (r: Vec<u8>)
    requires
        len <= q@.len(),
    ensures
        r@ == q@.subrange(0, len as int),
{
    let mut r: Vec<u8> = Vec::new();
    let mut i: usize = 0;
    while i < len
        invariant
            i <= len <= q@.len(),
            r@ == q@.subrange(0, i as int),
        decreases len - i,
    {
        r.push(q[i]);
        i = i + 1;
        assert(r@ =~= q@.subrange(0, i as int));
    }
    r
}

/// Whether `v` holds `x`.
fn holds(v: &Vec<u8>, x: u8) -> (r: bool)
    ensures
        r == v@.contains(x),
{
    let mut i: usize = 0;
    while i < v.len()
        invariant
            i <= v@.len(),
            forall|j: int| 0 <= j < i ==> v@[j] != x,
        decreases v@.len() - i,
    {
        if v[i] == x {
            assert(v@[i as int] == x);
            return true;
        }
        i = i + 1;
    }
    false
}

/// Whether `a` is a prefix of `b`.
fn is_prefix(a: &Vec<u8>, b: &Vec<u8>) -> (r: bool)
    ensures
        r == (a@.len() <= b@.len() && b@.subrange(0, a@.len() as int) == a@),
{
    if a.len() > b.len() {
        return false;
    }
    let mut i: usize = 0;
    while i < a.len()
        invariant
            a@.len() <= b@.len(),
            i <= a@.len(),
            forall|j: int| 0 <= j < i ==> a@[j] == b@[j],
        decreases a@.len() - i,
    {
        if a[i] != b[i] {
            assert(b@.subrange(0, a@.len() as int)[i as int] != a@[i as int]);
            return false;
        }
        i = i + 1;
    }
    assert(b@.subrange(0, a@.len() as int) =~= a@);
    true
}

impl PhyloTree {
    /// The narrowing search starts at the root, which counts as visited.
    pub fn narrow_begin(&self) -> (s: NarrowState)
        ensures
            s.current@ == seq![self.root.id],
            s.checked@ == seq![self.root.id],
            s.resamples == 0,
    {
        let mut current: Vec<u8> = Vec::new();
        current.push(self.root.id);
        let mut checked: Vec<u8> = Vec::new();
        checked.push(self.root.id);
        assert(current@ =~= seq![self.root.id]);
        assert(checked@ =~= seq![self.root.id]);
        NarrowState { current, checked, resamples: 0 }
    }

    /// What follows a sample taken at `state.current`: a node that counts
    /// no more genomes than a sample holds is compared exhaustively;
    /// otherwise the sample is scored.
    pub fn narrow_after_sample(&self, state: &NarrowState) -> (r: NarrowAction)
        requires
            node_at(self.root, state.current@) is Some,
        ensures
            r == if node_at(self.root, state.current@)->0.count <= NARROW_HEADS {
                NarrowAction::Compare
            } else {
                NarrowAction::Score
            },
    {
        assert(state.current@.subrange(0, state.current@.len() as int) =~= state.current@);
        let count = match node_ref(&self.root, &state.current, state.current.len()) {
            Some(n) => n.count,
            None => vstd::pervasive::unreached(),
        };
        if count <= NARROW_HEADS {
            NarrowAction::Compare
        } else {
            NarrowAction::Score
        }
    }

    /// What follows the scores of a sample: move to the node that the round
    /// chooses and sample there; when no node is chosen at a bucket, compare
    /// with this sample, as nothing lies below a bucket; at a branch, sample
    /// it again, and fail once that has happened `RESAMPLE_LIMIT` times in a
    /// row. A move always reaches a node that counts fewer genomes.
    pub fn narrow_after_scores(
        &self,
        state: &mut NarrowState,
        candidates: &Vec<&Genome>,
        scores: &Vec<u32>,
    ) -> (r: Result<NarrowAction, PhyloError>)
        requires
            wf_tree(*self),
            node_at(self.root, old(state).current@) is Some,
            old(state).checked@.contains(old(state).current@.last()),
            old(state).resamples < RESAMPLE_LIMIT,
            scores@.len() == candidates@.len(),
        ensures
            match narrow_outcome(self.root, old(state).current@, old(state).checked@, candidates@, scores@) {
                None => {
                    &&& (r matches Err(e) && e is SearchNodeError)
                    &&& final(state).current@ == old(state).current@
                    &&& final(state).checked@ == old(state).checked@
                    &&& final(state).resamples == old(state).resamples
                },
                Some(Some(next)) => {
                    &&& r == Ok::<NarrowAction, PhyloError>(NarrowAction::Sample)
                    &&& final(state).current@ == next
                    &&& final(state).checked@ == old(state).checked@.push(next.last())
                    &&& final(state).resamples == 0
                },
                Some(None) => {
                    &&& final(state).current@ == old(state).current@
                    &&& final(state).checked@ == old(state).checked@
                    &&& if node_at(self.root, old(state).current@)->0.vertex is Floor {
                        &&& r == Ok::<NarrowAction, PhyloError>(NarrowAction::Compare)
                        &&& final(state).resamples == old(state).resamples
                    } else if old(state).resamples + 1 >= RESAMPLE_LIMIT {
                        &&& (r matches Err(e) && e is SearchStalled)
                        &&& final(state).resamples == old(state).resamples
                    } else {
                        &&& r == Ok::<NarrowAction, PhyloError>(NarrowAction::Sample)
                        &&& final(state).resamples == old(state).resamples + 1
                    }
                },
            },
            r is Ok ==> {
                &&& node_at(self.root, final(state).current@) is Some
                &&& final(state).checked@.contains(final(state).current@.last())
                &&& final(state).current@ != old(state).current@ ==> node_at(
                    self.root,
                    final(state).current@,
                )->0.count < node_at(self.root, old(state).current@)->0.count
                &&& final(state).resamples < RESAMPLE_LIMIT
            },
            r == Ok::<NarrowAction, PhyloError>(NarrowAction::Sample) ==> 0 <= narrow_measure(
                self.root,
                *final(state),
            ) < narrow_measure(self.root, *old(state)),
    {
        let ghost oc = state.current@;
        let ghost ok = state.checked@;
        match self.narrow_step(&state.current, &mut state.checked, candidates, scores) {
            Err(e) => Err(e),
            Ok(Some(next)) => {
                assert(next@.subrange(0, next@.len() - 1 + 1) =~= next@);
                assert(next@.len() >= 1);
                state.current = next;
                state.resamples = 0;
                assert(state.checked@.last() == state.current@.last());
                Ok(NarrowAction::Sample)
            },
            Ok(None) => {
                assert(oc.subrange(0, oc.len() as int) =~= oc);
                let at_bucket = match node_ref(&self.root, &state.current, state.current.len()) {
                    Some(n) => match &n.vertex {
                        TreeVertex::Floor(_) => true,
                        TreeVertex::Split(_) => false,
                    },
                    None => vstd::pervasive::unreached(),
                };
                if at_bucket {
                    Ok(NarrowAction::Compare)
                } else if state.resamples >= RESAMPLE_LIMIT - 1 {
                    Err(PhyloError::SearchStalled)
                } else {
                    state.resamples = state.resamples + 1;
                    Ok(NarrowAction::Sample)
                }
            },
        }
    }

    /// One round of the narrowing search. `current` is the node path of the
    /// node that was sampled, `candidates` the genomes sampled below it and
    /// `scores` their approximate similarity to the new genome. The first
    /// best-scoring candidate is followed from the root; the first node on
    /// its way that was not visited yet and that is not still broad (it and
    /// the next node both counting at least an eighth of `current`'s count)
    /// becomes the next node to sample, and is marked visited. `None` ends
    /// the search; a next node always counts fewer genomes than `current`.
    pub fn narrow_step(
        &self,
        current: &Vec<u8>,
        checked: &mut Vec<u8>,
        candidates: &Vec<&Genome>,
        scores: &Vec<u32>,
    ) -> (r: Result<Option<Vec<u8>>, PhyloError>)
        requires
            wf_tree(*self),
            node_at(self.root, current@) is Some,
            old(checked)@.contains(current@.last()),
            scores@.len() == candidates@.len(),
        ensures
            candidates@.len() == 0 ==> (r matches Ok(None)) && final(checked)@ == old(checked)@,
            candidates@.len() > 0 ==> {
                let i = choose|i: int| first_max(scores@, i);
                let p = candidates@[i].path@;
                let threshold = node_at(self.root, current@)->0.count / 8;
                let valid = p.len() >= 2 && node_at(self.root, p.drop_last()) is Some
                    && node_at(self.root, p.drop_last())->0.vertex is Floor && current@.len()
                    <= p.len() - 1 && p.subrange(0, current@.len() as int) == current@;
                &&& !valid ==> (r matches Err(e) && e is SearchNodeError) && final(checked)@
                    == old(checked)@
                &&& valid && (exists|k: int| first_stop(self.root, p, old(checked)@, threshold as int, k))
                    ==> {
                    let k = choose|k: int| first_stop(self.root, p, old(checked)@, threshold as int, k);
                    &&& (r matches Ok(Some(next)) && next@ == p.subrange(0, k + 1))
                    &&& final(checked)@ == old(checked)@.push(p[k])
                }
                &&& valid && !(exists|k: int| first_stop(self.root, p, old(checked)@, threshold as int, k))
                    ==> (r matches Ok(None)) && final(checked)@ == old(checked)@
            },
            r matches Ok(Some(next)) ==> {
                &&& node_at(self.root, next@) is Some
                &&& current@.len() < next@.len()
                &&& next@.subrange(0, current@.len() as int) == current@
                &&& node_at(self.root, next@)->0.count < node_at(self.root, current@)->0.count
            },
    {
        if candidates.len() == 0 {
            return Ok(None);
        }
        let bi = first_max_index(scores);
        let ghost pi = choose|i: int| first_max(scores@, i);
        assert(pi == bi as int) by {
            if pi < bi {
                assert(scores@[pi] < scores@[bi as int]);
            } else if pi > bi {
                assert(scores@[bi as int] < scores@[pi]);
            }
        }
        let best_path = &candidates[bi].path;
        let ghost p = best_path@;
        assert(current@.subrange(0, current@.len() as int) =~= current@);
        let cur_count = match node_ref(&self.root, current, current.len()) {
            Some(n) => n.count,
            None => vstd::pervasive::unreached(),
        };
        let chain = match get_full_path(&self.root, best_path) {
            Ok(c) => c,
            Err(e) => return Err(e),
        };
        if !(current.len() <= best_path.len() - 1) || !is_prefix(current, best_path) {
            return Err(PhyloError::SearchNodeError);
        }
        let threshold = cur_count / 8;
        let ci = current.len() - 1;
        let len = chain.len();
        assert(p.subrange(0, len as int) =~= p.drop_last());
        assert(p.subrange(0, ci as int + 1) =~= current@);
        let mut i: usize = 0;
        while i < len
            invariant
                wf_tree(*self),
                len == chain@.len() == p.len() - 1,
                ci < len,
                i <= len,
                p == candidates@[bi as int].path@,
                best_path@ == p,
                p.len() >= 2,
                is_bucket_path(self.root, p.drop_last()),
                bi < candidates@.len(),
                pi == bi as int,
                pi == (choose|i: int| first_max(scores@, i)),
                current@.len() == ci + 1,
                p.subrange(0, ci as int + 1) == current@,
                threshold == cur_count / 8,
                cur_count == chain_count(self.root, p, ci as int),
                *checked == *old(checked),
                old(checked)@.contains(p[ci as int]),
                forall|k: int|
                    0 <= k < len ==> node_at(self.root, p.subrange(0, k + 1)) == Some(
                        *#[trigger] chain@[k],
                    ),
                forall|j: int| 0 <= j < i ==> !#[trigger] stops_at(self.root, p, old(checked)@, threshold as int, j),
            decreases len - i,
        {
            let node = chain[i];
            assert(node.id == p[i as int]) by {
                lemma_wf_node_at(self.root, Seq::empty(), self.next_index as int, p.subrange(0, i as int + 1));
            }
            let visited = holds(checked, node.id);
            let broad = node.count >= threshold && i + 1 < len && chain[i + 1].count >= threshold;
            if !visited && !broad {
                assert(stops_at(self.root, p, old(checked)@, threshold as int, i as int));
                assert(first_stop(self.root, p, old(checked)@, threshold as int, i as int));
                let ghost kk = choose|k: int| first_stop(self.root, p, old(checked)@, threshold as int, k);
                assert(kk == i as int) by {
                    if kk < i {
                    } else if kk > i {
                        assert(!stops_at(self.root, p, old(checked)@, threshold as int, i as int));
                    }
                }
                proof {
                    assert(node_at(self.root, p.subrange(0, ci as int + 1)) == Some(*chain@[ci as int]));
                    assert(node_at(self.root, p.subrange(0, i as int + 1)) == Some(*chain@[i as int]));
                    if (i as int) < ci as int {
                        if (i as int) + 1 < ci as int {
                            lemma_chain_decreasing(*self, p, i as int + 1, ci as int);
                        }
                        lemma_chain_decreasing(*self, p, i as int, ci as int);
                        assert(false);
                    }
                    if i == ci {
                        assert(false);
                    }
                    lemma_chain_decreasing(*self, p, ci as int, i as int);
                }
                let next = prefix_path(best_path, i + 1);
                assert(next@.subrange(0, current@.len() as int) =~= p.subrange(0, ci as int + 1));
                checked.push(node.id);
                assert(node_at(self.root, current@)->0.count == cur_count);
                assert(threshold as int == node_at(self.root, current@)->0.count / 8);
                assert(checked@ == old(checked)@.push(p[i as int]));
                assert(first_stop(self.root, p, old(checked)@, threshold as int, i as int));
                return Ok(Some(next));
            }
            assert(!stops_at(self.root, p, old(checked)@, threshold as int, i as int));
            i = i + 1;
        }
        Ok(None)
    }
}

} // verus!
