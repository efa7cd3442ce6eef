//! Reshaping the bucket of the closest match when a genome is inserted.
use vstd::prelude::*;
use crate::invariants::lemma_wf_mono;
use crate::structs::{
    edited_bucket, has_id, moved, sum_counts, wf_node, BUCKET_CAPACITY, Genome, TreeNode,
    TreeVertex,
};

verus! {

/// The sum of the counts of two nodes.
pub proof fn lemma_sum_counts_pair(s: Seq<TreeNode>)
    requires
        s.len() == 2,
    ensures
        sum_counts(s) == s[0].count + s[1].count,
{
    let t = s.drop_last();
    assert(t.drop_last() =~= Seq::<TreeNode>::empty());
    assert(t.last() == s[0]);
    assert(sum_counts(t) == sum_counts(t.drop_last()) + t.last().count);
}

/// A copy of a path.
pub fn copy_path(q: &Vec<u8>) -> (r: Vec<u8>)
    ensures
        r@ == q@,
{
    let mut r: Vec<u8> = Vec::new();
    let mut i: usize = 0;
    while i < q.len()
        invariant
            i <= q@.len(),
            r@ == q@.subrange(0, i as int),
        decreases q@.len() - i,
    {
        r.push(q[i]);
        i = i + 1;
    }
    assert(r@ =~= q@);
    r
}

/// A node path followed by two more ids.
fn path_with(q: &Vec<u8>, a: u8, b: u8) -> (r: Vec<u8>)
    ensures
        r@ == q@.push(a).push(b),
{
    let mut r = copy_path(q);
    r.push(a);
    r.push(b);
    r
}

/// Move every genome of `v` to the bucket with id `id` below the node path
/// `q`, in the slot that it already has.
fn move_all(v: &mut Vec<Genome>, q: &Vec<u8>, id: u8)
    requires
        old(v)@.len() <= BUCKET_CAPACITY,
    ensures
        final(v)@.len() == old(v)@.len(),
        forall|i: int|
            0 <= i < old(v)@.len() ==> moved(
                old(v)@[i],
                #[trigger] final(v)@[i],
                q@.push(id).push(i as u8),
            ),
{
    let ghost start = v@;
    let mut i: usize = 0;
    while i < v.len()
        invariant
            i <= v@.len(),
            v@.len() == start.len(),
            forall|j: int| 0 <= j < i ==> moved(start[j], #[trigger] v@[j], q@.push(id).push(j as u8)),
            forall|j: int| i <= j < v@.len() ==> v@[j] == start[j],
        decreases v@.len() - i,
    {
        let p = path_with(q, id, i as u8);
        let gi = &mut v[i];
        gi.path = p;
        i = i + 1;
    }
}

/// Put the new genome `g` at the end of the bucket `b`, at node path `q`,
/// and lower the closest distance of the genome in `slot` to `best` if that
/// is smaller.
pub fn join_bucket(
    b: &mut TreeNode,
    q: &Vec<u8>,
    g: Genome,
    best: usize,
    slot: usize,
    Ghost(prefix): Ghost<Seq<u8>>,
    Ghost(bound): Ghost<int>,
)
    requires
        wf_node(*old(b), prefix, bound),
        q@ == prefix.push(old(b).id),
        old(b).vertex matches TreeVertex::Floor(v) && slot < v@.len() && v@.len()
            < BUCKET_CAPACITY,
    ensures
        edited_bucket(*old(b), *final(b), q@, g, best, slot as int, 0, 3),
        wf_node(*final(b), prefix, bound),
        forall|x: u8| #[trigger] has_id(*final(b), x) ==> x == old(b).id,
{
    let mut g = g;
    match &mut b.vertex {
        TreeVertex::Floor(v) => {
            let len = v.len();
            let c = &mut v[slot];
            if best < c.closest_distance {
                c.closest_distance = best;
            }
            let mut p = copy_path(q);
            p.push(len as u8);
            g.path = p;
            g.closest_distance = best;
            v.push(g);
        },
        TreeVertex::Split(_) => vstd::pervasive::unreached(),
    }
    b.count = b.count + 1;
}

/// Split the bucket `b`, at node path `q`, into a bucket `n` with its other
/// genomes and a bucket `n + 1` with the new genome `g` and the genome from
/// `slot`, which were found at distance `best` from each other.
pub fn pair_off(
    b: &mut TreeNode,
    q: &Vec<u8>,
    g: Genome,
    best: usize,
    slot: usize,
    n: u8,
    Ghost(prefix): Ghost<Seq<u8>>,
    Ghost(bound): Ghost<int>,
)
    requires
        wf_node(*old(b), prefix, bound),
        q@ == prefix.push(old(b).id),
        bound <= n,
        n <= 253,
        old(b).vertex matches TreeVertex::Floor(v) && slot < v@.len() && 2 <= v@.len(),
    ensures
        edited_bucket(*old(b), *final(b), q@, g, best, slot as int, n as int, 1),
        wf_node(*final(b), prefix, n + 2),
        forall|x: u8| #[trigger] has_id(*final(b), x) ==> x == old(b).id || x == n || x == n + 1,
{
    let ghost ob = *b;
    let ghost ov = match ob.vertex {
        TreeVertex::Floor(v) => v@,
        TreeVertex::Split(_) => Seq::empty(),
    };
    let mut g = g;
    let mut old_vertex = TreeVertex::new_split();
    std::mem::swap(&mut b.vertex, &mut old_vertex);
    let mut v = match old_vertex {
        TreeVertex::Floor(v) => v,
        TreeVertex::Split(_) => vstd::pervasive::unreached(),
    };
    let len = v.len();
    let mut c = v.remove(slot);
    let ghost rest = v@;
    move_all(&mut v, q, n);
    c.path = path_with(q, n + 1, 1);
    c.closest_distance = best;
    g.path = path_with(q, n + 1, 0);
    g.closest_distance = best;
    let mut w1: Vec<Genome> = Vec::new();
    w1.push(g);
    w1.push(c);
    let c0 = TreeNode { id: n, vertex: TreeVertex::Floor(v), count: (len - 1) as u32 };
    let c1 = TreeNode { id: n + 1, vertex: TreeVertex::Floor(w1), count: 2 };
    let ghost g0 = c0;
    let ghost g1 = c1;
    assert(wf_node(g0, q@, n + 2));
    assert(wf_node(g1, q@, n + 2));
    let mut k = TreeVertex::new_split();
    k.push_node(c0);
    k.push_node(c1);
    b.vertex = k;
    b.count = b.count + 1;
    proof {
        lemma_wf_mono(ob, prefix, bound, n + 2);
        let nb = *b;
        match nb.vertex {
            TreeVertex::Split(kc) => {
                lemma_sum_counts_pair(kc@);
                assert(kc@[0] == g0);
                assert(kc@[1] == g1);
                assert forall|x: u8| #[trigger] has_id(nb, x) implies x == ob.id || x == n || x
                    == n + 1 by {
                    if nb.id != x {
                        let j = choose|j: int| 0 <= j < kc@.len() && has_id(#[trigger] kc@[j], x);
                        assert(j == 0 || j == 1);
                    }
                }
            },
            TreeVertex::Floor(_) => {},
        }
    }
}

/// Split the bucket `b`, at node path `q`, into a bucket `n` with all its
/// genomes and a bucket `n + 1` with the new genome `g` alone, which was
/// found at distance `best` from its closest match.
pub fn open_beside(
    b: &mut TreeNode,
    q: &Vec<u8>,
    g: Genome,
    best: usize,
    slot: usize,
    n: u8,
    Ghost(prefix): Ghost<Seq<u8>>,
    Ghost(bound): Ghost<int>,
)
    requires
        wf_node(*old(b), prefix, bound),
        q@ == prefix.push(old(b).id),
        bound <= n,
        n <= 253,
        old(b).vertex matches TreeVertex::Floor(v) && slot < v@.len(),
    ensures
        edited_bucket(*old(b), *final(b), q@, g, best, slot as int, n as int, 2),
        wf_node(*final(b), prefix, n + 2),
        forall|x: u8| #[trigger] has_id(*final(b), x) ==> x == old(b).id || x == n || x == n + 1,
{
    let ghost ob = *b;
    let mut g = g;
    let mut old_vertex = TreeVertex::new_split();
    std::mem::swap(&mut b.vertex, &mut old_vertex);
    let mut v = match old_vertex {
        TreeVertex::Floor(v) => v,
        TreeVertex::Split(_) => vstd::pervasive::unreached(),
    };
    let len = v.len();
    move_all(&mut v, q, n);
    g.path = path_with(q, n + 1, 0);
    g.closest_distance = best;
    let mut w1: Vec<Genome> = Vec::new();
    w1.push(g);
    let c0 = TreeNode { id: n, vertex: TreeVertex::Floor(v), count: len as u32 };
    let c1 = TreeNode { id: n + 1, vertex: TreeVertex::Floor(w1), count: 1 };
    let ghost g0 = c0;
    let ghost g1 = c1;
    assert(wf_node(g0, q@, n + 2));
    assert(wf_node(g1, q@, n + 2));
    let mut k = TreeVertex::new_split();
    k.push_node(c0);
    k.push_node(c1);
    b.vertex = k;
    b.count = b.count + 1;
    proof {
        lemma_wf_mono(ob, prefix, bound, n + 2);
        let nb = *b;
        match nb.vertex {
            TreeVertex::Split(kc) => {
                lemma_sum_counts_pair(kc@);
                assert(kc@[0] == g0);
                assert(kc@[1] == g1);
                assert forall|x: u8| #[trigger] has_id(nb, x) implies x == ob.id || x == n || x
                    == n + 1 by {
                    if nb.id != x {
                        let j = choose|j: int| 0 <= j < kc@.len() && has_id(#[trigger] kc@[j], x);
                        assert(j == 0 || j == 1);
                    }
                }
            },
            TreeVertex::Floor(_) => {},
        }
    }
}

} // verus!
