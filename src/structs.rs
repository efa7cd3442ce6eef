//! The index, its nodes and genome records, and insertion into it.
use vstd::prelude::*;
use crate::algorithms::{get_mut_node_and_increment, node_ref, retrieve_genome};
use crate::errors::PhyloError;
use crate::insertion::{copy_path, join_bucket, open_beside, pair_off};
use crate::invariants::{lemma_bumped_wf, lemma_has_id_below, lemma_wf_mono, lemma_wf_node_at};

verus! {

/// One genome record of the index.
#[derive(Debug, Clone)]
pub struct Genome {
    /// Ids of the nodes from the root down to the bucket holding this genome,
    /// followed by its slot in that bucket.
    pub path: Vec<u8>,
    /// Where the genome's sequence is stored.
    pub dir: String,
    /// Substrings sampled from the sequence, used for approximate scoring.
    pub kmers: Vec<String>,
    /// Smallest exact distance recorded between this genome and another one.
    pub closest_distance: usize,
}

/// A node of the index: either a branch of child nodes or a bucket of genomes.
#[derive(Debug)]
pub enum TreeVertex {
    Split(Vec<TreeNode>),
    Floor(Vec<Genome>),
}

/// A node of the index with its id and the number of genomes below it.
#[derive(Debug)]
pub struct TreeNode {
    pub id: u8,
    pub vertex: TreeVertex,
    pub count: u32,
}

/// The index: its root node and the next node id to hand out.
#[derive(Debug)]
pub struct PhyloTree {
    pub root: TreeNode,
    pub next_index: u8,
}

/// Largest number of genomes one bucket can hold: slots are single bytes.
pub const BUCKET_CAPACITY: usize = 256;

/// Sum of the counts of a sequence of nodes.
pub open spec fn sum_counts(c: Seq<TreeNode>) -> int
    decreases c.len(),
{
    if c.len() == 0 {
        0
    } else {
        sum_counts(c.drop_last()) + c.last().count
    }
}

/// `i` is the first position in `c` of a node with id `id`.
pub open spec fn first_with_id(c: Seq<TreeNode>, id: u8, i: int) -> bool {
    &&& 0 <= i < c.len()
    &&& c[i].id == id
    &&& forall|j: int| 0 <= j < i ==> c[j].id != id
}

/// Position of the first node with id `id` in `c`, if there is one.
pub open spec fn child_pos(c: Seq<TreeNode>, id: u8) -> Option<int> {
    if exists|i: int| first_with_id(c, id, i) {
        Some(choose|i: int| first_with_id(c, id, i))
    } else {
        None
    }
}

/// The node reached from `n` by the node path `q`, whose first id names `n`
/// and each next id a child of the node before.
pub open spec fn node_at(n: TreeNode, q: Seq<u8>) -> Option<TreeNode>
    decreases q.len(),
{
    if q.len() == 0 {
        None
    } else if q.len() == 1 {
        if q[0] == n.id {
            Some(n)
        } else {
            None
        }
    } else {
        match node_at(n, q.drop_last()) {
            Some(p) => match p.vertex {
                TreeVertex::Split(c) => match child_pos(c@, q.last()) {
                    Some(i) => Some(c@[i]),
                    None => None,
                },
                TreeVertex::Floor(_) => None,
            },
            None => None,
        }
    }
}

/// The node path `q` leads from `n` to a bucket.
pub open spec fn is_bucket_path(n: TreeNode, q: Seq<u8>) -> bool {
    match node_at(n, q) {
        Some(b) => b.vertex is Floor,
        None => false,
    }
}

/// The genome addressed by a genome path: a node path to a bucket, then a slot.
pub open spec fn genome_at(n: TreeNode, p: Seq<u8>) -> Option<Genome> {
    if p.len() < 2 {
        None
    } else {
        match node_at(n, p.drop_last()) {
            Some(b) => match b.vertex {
                TreeVertex::Floor(v) => if (p.last() as int) < v@.len() {
                    Some(v@[p.last() as int])
                } else {
                    None
                },
                TreeVertex::Split(_) => None,
            },
            None => None,
        }
    }
}

/// `g` is a genome somewhere below `n`.
pub open spec fn in_subtree(n: TreeNode, g: Genome) -> bool
    decreases n,
{
    match n.vertex {
        TreeVertex::Floor(v) => v@.contains(g),
        TreeVertex::Split(c) => exists|i: int| 0 <= i < c@.len() && in_subtree(#[trigger] c@[i], g),
    }
}

/// Some node of the subtree `n` has the id `x`.
pub open spec fn has_id(n: TreeNode, x: u8) -> bool
    decreases n,
{
    n.id == x || match n.vertex {
        TreeVertex::Floor(_) => false,
        TreeVertex::Split(c) => exists|i: int| 0 <= i < c@.len() && has_id(#[trigger] c@[i], x),
    }
}

/// Well-formedness of the subtree `n`, whose ancestors have the ids `prefix`:
/// counts add up, every branch has at least two non-empty children with
/// distinct ids, no id occurs twice in the subtree, node ids stay below
/// `bound`, buckets fit single-byte slots,
/// and every genome's path names its own place.
pub open spec fn wf_node(n: TreeNode, prefix: Seq<u8>, bound: int) -> bool
    decreases n,
{
    &&& (n.id as int) < bound
    &&& match n.vertex {
        TreeVertex::Floor(v) => {
            &&& n.count == v@.len()
            &&& v@.len() <= BUCKET_CAPACITY
            &&& forall|s: int|
                0 <= s < v@.len() ==> (#[trigger] v@[s]).path@ == prefix.push(n.id).push(s as u8)
        },
        TreeVertex::Split(c) => {
            &&& n.count == sum_counts(c@)
            &&& c@.len() >= 2
            &&& forall|i: int| 0 <= i < c@.len() ==> (#[trigger] c@[i]).count >= 1
            &&& forall|i: int, j: int| 0 <= i < j < c@.len() ==> c@[i].id != c@[j].id
            &&& forall|i: int| 0 <= i < c@.len() ==> !has_id(#[trigger] c@[i], n.id)
            &&& forall|i: int, j: int, x: u8|
                0 <= i < j < c@.len() ==> !(#[trigger] has_id(c@[i], x) && #[trigger] has_id(
                    c@[j],
                    x,
                ))
            &&& forall|i: int| 0 <= i < c@.len() ==> wf_node(#[trigger] c@[i], prefix.push(n.id), bound)
        },
    }
}

/// `n` is `o` with the count of every node that the node path `q` passes
/// above its end raised by one, and the node at the end of `q` replaced by
/// `leaf`.
pub open spec fn bumped(o: TreeNode, n: TreeNode, q: Seq<u8>, leaf: TreeNode) -> bool
    decreases q.len(),
{
    if q.len() <= 1 {
        n == leaf
    } else {
        &&& n.id == o.id
        &&& n.count == o.count + 1
        &&& match o.vertex {
            TreeVertex::Split(oc) => match n.vertex {
                TreeVertex::Split(nc) => match child_pos(oc@, q[1]) {
                    Some(i) => {
                        &&& nc@.len() == oc@.len()
                        &&& nc@ == oc@.update(i, nc@[i])
                        &&& bumped(oc@[i], nc@[i], q.drop_first(), leaf)
                    },
                    None => false,
                },
                TreeVertex::Floor(_) => false,
            },
            TreeVertex::Floor(_) => false,
        }
    }
}

/// `n` is `o` with the count of every node strictly between `o` and the end
/// of the node path `q` raised by one, `o`'s own count kept, and the node at
/// the end of `q` replaced by `leaf`.
pub open spec fn bumped_below_root(o: TreeNode, n: TreeNode, q: Seq<u8>, leaf: TreeNode) -> bool {
    if q.len() <= 1 {
        n == leaf
    } else {
        &&& n.id == o.id
        &&& n.count == o.count
        &&& match o.vertex {
            TreeVertex::Split(oc) => match n.vertex {
                TreeVertex::Split(nc) => match child_pos(oc@, q[1]) {
                    Some(i) => {
                        &&& nc@.len() == oc@.len()
                        &&& nc@ == oc@.update(i, nc@[i])
                        &&& bumped(oc@[i], nc@[i], q.drop_first(), leaf)
                    },
                    None => false,
                },
                TreeVertex::Floor(_) => false,
            },
            TreeVertex::Floor(_) => false,
        }
    }
}

/// `b` is `a` moved to the genome path `p`, all else kept.
pub open spec fn moved(a: Genome, b: Genome, p: Seq<u8>) -> bool {
    &&& b.dir == a.dir
    &&& b.kmers == a.kmers
    &&& b.closest_distance == a.closest_distance
    &&& b.path@ == p
}

/// `b` is `a` placed at the genome path `p` with `d` as its closest distance.
pub open spec fn placed(a: Genome, b: Genome, p: Seq<u8>, d: usize) -> bool {
    &&& b.dir == a.dir
    &&& b.kmers == a.kmers
    &&& b.closest_distance == d
    &&& b.path@ == p
}

/// Which reshaping an insertion performs, from the distance `best` of the new
/// genome to its closest match, that match's own closest distance `closest`,
/// and the size of the match's bucket. The ratio `best / closest` is compared
/// exactly: at most 0.85 pairs the two genomes off in a new bucket (1), at
/// least 1.17 opens a new bucket beside the match's (2), anything between,
/// or a ratio of 0 / 0, joins the match's bucket (3). A match that is alone
/// in its bucket is never paired off.
pub open spec fn insert_case(best: int, closest: int, bucket_len: int) -> int {
    if closest == 0 {
        if best == 0 {
            3
        } else {
            2
        }
    } else if 100 * best <= 85 * closest {
        if bucket_len == 1 {
            3
        } else {
            1
        }
    } else if 100 * best >= 117 * closest {
        2
    } else {
        3
    }
}

/// `leaf` is the bucket `b`, found at node path `q`, after the new genome `g`
/// was inserted beside the genome in `slot` at distance `best`, following
/// `case`; `n` is the first node id still free.
pub open spec fn edited_bucket(
    b: TreeNode,
    leaf: TreeNode,
    q: Seq<u8>,
    g: Genome,
    best: usize,
    slot: int,
    n: int,
    case: int,
) -> bool {
    match b.vertex {
        TreeVertex::Floor(v) => {
            let c = v@[slot];
            &&& leaf.id == b.id
            &&& leaf.count == b.count + 1
            &&& if case == 3 {
                match leaf.vertex {
                    TreeVertex::Floor(w) => {
                        &&& w@.len() == v@.len() + 1
                        &&& forall|s: int| 0 <= s < v@.len() && s != slot ==> w@[s] == v@[s]
                        &&& placed(
                            c,
                            w@[slot],
                            c.path@,
                            if (best as int) < (c.closest_distance as int) {
                                best
                            } else {
                                c.closest_distance
                            },
                        )
                        &&& placed(g, w@[v@.len() as int], q.push(v@.len() as u8), best)
                    },
                    TreeVertex::Split(_) => false,
                }
            } else {
                match leaf.vertex {
                    TreeVertex::Split(k) => {
                        &&& k@.len() == 2
                        &&& k@[0].id == n
                        &&& k@[1].id == n + 1
                        &&& match (k@[0].vertex, k@[1].vertex) {
                            (TreeVertex::Floor(w0), TreeVertex::Floor(w1)) => if case == 1 {
                                let rest = v@.remove(slot);
                                &&& k@[0].count == rest.len()
                                &&& w0@.len() == rest.len()
                                &&& forall|i: int|
                                    0 <= i < rest.len() ==> moved(
                                        rest[i],
                                        #[trigger] w0@[i],
                                        q.push(n as u8).push(i as u8),
                                    )
                                &&& k@[1].count == 2
                                &&& w1@.len() == 2
                                &&& placed(g, w1@[0], q.push((n + 1) as u8).push(0), best)
                                &&& placed(c, w1@[1], q.push((n + 1) as u8).push(1), best)
                            } else {
                                &&& k@[0].count == v@.len()
                                &&& w0@.len() == v@.len()
                                &&& forall|i: int|
                                    0 <= i < v@.len() ==> moved(
                                        v@[i],
                                        #[trigger] w0@[i],
                                        q.push(n as u8).push(i as u8),
                                    )
                                &&& k@[1].count == 1
                                &&& w1@.len() == 1
                                &&& placed(g, w1@[0], q.push((n + 1) as u8).push(0), best)
                            },
                            _ => false,
                        }
                    },
                    TreeVertex::Floor(_) => false,
                }
            }
        },
        TreeVertex::Split(_) => false,
    }
}

/// `i` is the first position of a smallest distance in `d`.
pub open spec fn first_min(d: Seq<(usize, Vec<u8>)>, i: int) -> bool {
    &&& 0 <= i < d.len()
    &&& forall|j: int| 0 <= j < d.len() ==> d[i].0 <= #[trigger] d[j].0
    &&& forall|j: int| 0 <= j < i ==> #[trigger] d[j].0 > d[i].0
}

/// The first entry of `d` with the smallest distance.
pub open spec fn best_index(d: Seq<(usize, Vec<u8>)>) -> int {
    choose|i: int| first_min(d, i)
}

/// The root is a bucket without genomes.
pub open spec fn is_empty_root(n: TreeNode) -> bool {
    n.vertex matches TreeVertex::Floor(v) && v@.len() == 0
}

/// Number of genomes in the bucket that holds the genome at path `p`.
pub open spec fn bucket_len(n: TreeNode, p: Seq<u8>) -> int {
    match node_at(n, p.drop_last()) {
        Some(b) => match b.vertex {
            TreeVertex::Floor(v) => v@.len() as int,
            TreeVertex::Split(_) => 0,
        },
        None => 0,
    }
}

/// The ids, the genome count and the target bucket leave room for the
/// reshaping `case`.
pub open spec fn insertion_fits(t: PhyloTree, case: int, blen: int) -> bool {
    &&& t.root.count < u32::MAX
    &&& case == 3 ==> blen < BUCKET_CAPACITY
    &&& case != 3 ==> t.next_index <= 253
}

/// `n` is `o` after the genome `g` was inserted beside the genome at path
/// `p`, at distance `best`, by the reshaping `case`: every node above the
/// bucket counts one more genome, and the bucket is edited as `case` says.
pub open spec fn inserted(o: PhyloTree, n: PhyloTree, g: Genome, best: usize, p: Seq<u8>, case: int) -> bool {
    let q = p.drop_last();
    &&& n.next_index == if case == 3 {
        o.next_index as int
    } else {
        o.next_index + 2
    }
    &&& exists|leaf: TreeNode|
        bumped(o.root, n.root, q, leaf) && edited_bucket(
            node_at(o.root, q)->0,
            leaf,
            q,
            g,
            best,
            p.last() as int,
            o.next_index as int,
            case,
        )
}

/// Well-formedness of the whole index.
pub open spec fn wf_tree(t: PhyloTree) -> bool {
    &&& t.root.id == 0
    &&& t.next_index >= 1
    &&& wf_node(t.root, Seq::empty(), t.next_index as int)
}

impl TreeNode {
    /// A bucket node with no genomes.
    pub fn new_with_floor(id: u8, count: u32) -> (r: TreeNode)
        ensures
            r.id == id,
            r.count == count,
            r.vertex matches TreeVertex::Floor(v) && v@.len() == 0,
    {
        TreeNode { id: id, vertex: TreeVertex::Floor(Vec::new()), count: count }
    }
}

impl TreeNode {
    /// Turn a bucket into a branch whose single child, with id `id`, holds
    /// the bucket's genomes; a branch is left as it is.
    pub fn split(&mut self, id: u8)
        ensures
            final(self).id == old(self).id,
            final(self).count == old(self).count,
            match old(self).vertex {
                TreeVertex::Floor(_) => match final(self).vertex {
                    TreeVertex::Split(c) => {
                        &&& c@.len() == 1
                        &&& c@[0].id == id
                        &&& c@[0].count == old(self).count
                        &&& c@[0].vertex == old(self).vertex
                    },
                    TreeVertex::Floor(_) => false,
                },
                TreeVertex::Split(_) => *final(self) == *old(self),
            },
    {
        if let TreeVertex::Floor(_) = &self.vertex {
            let count = self.count;
            let mut cur_floor = TreeVertex::new_split();
            std::mem::swap(&mut self.vertex, &mut cur_floor);
            let mut floor_node = TreeNode::new_with_floor(id, count);
            floor_node.vertex = cur_floor;
            self.vertex.push_node(floor_node);
        }
    }
}

/// A copy of a node and everything below it.
fn clone_node(n: &TreeNode) -> (r: TreeNode)
    ensures
        r.id == n.id,
        r.count == n.count,
    decreases n,
{
    proof {
        assert(decreases_to!(n => n.vertex));
    }
    TreeNode { id: n.id, vertex: clone_vertex(&n.vertex), count: n.count }
}

/// A copy of a branch or bucket and everything below it.
fn clone_vertex(v: &TreeVertex) -> (r: TreeVertex)
    decreases v,
{
    match v {
        TreeVertex::Split(c) => {
            let mut out: Vec<TreeNode> = Vec::new();
            let mut i: usize = 0;
            while i < c.len()
                invariant
                    i <= c@.len(),
                    *v == TreeVertex::Split(*c),
                decreases c@.len() - i,
            {
                proof {
                    let cv = v->Split_0;
                    assert(decreases_to!(*v => cv));
                    assert(decreases_to!(cv => cv@));
                    assert(decreases_to!(cv@ => cv@[i as int]));
                }
                out.push(clone_node(&c[i]));
                i = i + 1;
            }
            TreeVertex::Split(out)
        },
        TreeVertex::Floor(g) => TreeVertex::Floor(g.clone()),
    }
}

impl Clone for TreeNode {
    fn clone(&self) -> (r: Self)
        ensures
            r.id == self.id,
            r.count == self.count,
    {
        clone_node(self)
    }
}

impl Clone for TreeVertex {
    fn clone(&self) -> (r: Self) {
        clone_vertex(self)
    }
}

impl TreeVertex {
    /// Append a child to a branch; a bucket is left as it is.
    pub fn push_node(&mut self, node: TreeNode)
        ensures
            match *old(self) {
                TreeVertex::Split(c) => match *final(self) {
                    TreeVertex::Split(d) => d@ == c@.push(node),
                    TreeVertex::Floor(_) => false,
                },
                TreeVertex::Floor(_) => *final(self) == *old(self),
            },
    {
        if let TreeVertex::Split(v) = self {
            v.push(node);
        }
    }

    /// A branch with no children.
    pub fn new_split() -> (r: TreeVertex)
        ensures
            r matches TreeVertex::Split(c) && c@.len() == 0,
    {
        TreeVertex::Split(Vec::new())
    }
}

/// Which reshaping an insertion performs; see `insert_case`.
pub fn choose_case(best: usize, closest: usize, bucket_len: usize) -> (k: u8)
    ensures
        k as int == insert_case(best as int, closest as int, bucket_len as int),
{
    let b = best as u128;
    let c = closest as u128;
    if c == 0 {
        if b == 0 {
            3
        } else {
            2
        }
    } else if 100 * b <= 85 * c {
        if bucket_len == 1 {
            3
        } else {
            1
        }
    } else if 100 * b >= 117 * c {
        2
    } else {
        3
    }
}

/// Position of the first smallest distance of a non-empty list.
fn first_min_index(d: &Vec<(usize, Vec<u8>)>) -> (r: usize)
    requires
        d@.len() > 0,
    ensures
        first_min(d@, r as int),
        r as int == best_index(d@),
{
    let mut best: usize = 0;
    let mut i: usize = 1;
    while i < d.len()
        invariant
            1 <= i <= d@.len(),
            best < i,
            forall|j: int| 0 <= j < i ==> d@[best as int].0 <= #[trigger] d@[j].0,
            forall|j: int| 0 <= j < best ==> #[trigger] d@[j].0 > d@[best as int].0,
        decreases d@.len() - i,
    {
        if d[i].0 < d[best].0 {
            best = i;
        }
        i = i + 1;
    }
    assert(first_min(d@, best as int));
    assert forall|k: int| first_min(d@, k) implies k == best as int by {
        if k < best {
            assert(d@[k].0 > d@[best as int].0);
        } else if k > best {
            assert(d@[best as int].0 > d@[k].0);
        }
    }
    best
}

impl PhyloTree {
    /// An empty index: an empty root bucket with id 0.
    pub fn new() -> (r: PhyloTree)
        ensures
            wf_tree(r),
            r.root.id == 0,
            r.root.count == 0,
            r.next_index == 1,
            r.root.vertex matches TreeVertex::Floor(v) && v@.len() == 0,
    {
        PhyloTree { root: TreeNode::new_with_floor(0, 0), next_index: 1 }
    }

    /// Insert `genome`, given the exact distances from it to the candidates
    /// that the search found, each with the candidate's path. The first
    /// candidate at the smallest distance is the closest match; the ratio of
    /// that distance to the match's own closest distance decides whether the
    /// two are paired off in a new bucket, the genome opens a new bucket
    /// beside the match's, or it joins the match's bucket. The first genome
    /// of an empty index goes into the root bucket whatever the distances.
    /// On failure the index is left as it was.
    pub fn push(&mut self, genome: Genome, distances: &Vec<(usize, Vec<u8>)>) -> (r: Result<
        (),
        PhyloError,
    >)
        requires
            wf_tree(*old(self)),
        ensures
            wf_tree(*final(self)),
            final(self).next_index >= old(self).next_index,
            forall|x: u8| #[trigger] has_id(final(self).root, x) ==> has_id(old(self).root, x) || (
            old(self).next_index <= x < final(self).next_index),
            r is Err ==> *final(self) == *old(self),
            is_empty_root(old(self).root) ==> {
                &&& r is Ok
                &&& final(self).next_index == old(self).next_index
                &&& final(self).root.id == old(self).root.id
                &&& final(self).root.count == 1
                &&& final(self).root.vertex matches TreeVertex::Floor(v) && v@.len() == 1
                    && placed(genome, v@[0], seq![old(self).root.id, 0u8], usize::MAX)
            },
            !is_empty_root(old(self).root) && distances@.len() == 0 ==> (r matches Err(e)
                && e is GenomeInsertError),
            !is_empty_root(old(self).root) && distances@.len() > 0 ==> {
                let i = best_index(distances@);
                let best = distances@[i].0;
                let p = distances@[i].1@;
                match genome_at(old(self).root, p) {
                    None => (r matches Err(e) && e is SearchGenomeError),
                    Some(c) => {
                        let blen = bucket_len(old(self).root, p);
                        let k = insert_case(best as int, c.closest_distance as int, blen);
                        if insertion_fits(*old(self), k, blen) {
                            r is Ok && inserted(*old(self), *final(self), genome, best, p, k)
                        } else {
                            (r matches Err(e) && e is CapacityExceeded)
                        }
                    },
                }
            },
    {
        let mut genome = genome;
        let empty = match &self.root.vertex {
            TreeVertex::Floor(v) => v.len() == 0,
            TreeVertex::Split(_) => false,
        };
        if empty {
            let mut path: Vec<u8> = Vec::new();
            path.push(self.root.id);
            path.push(0);
            genome.path = path;
            genome.closest_distance = usize::MAX;
            match &mut self.root.vertex {
                TreeVertex::Floor(v) => v.push(genome),
                TreeVertex::Split(_) => vstd::pervasive::unreached(),
            }
            self.root.count = 1;
            proof {
                let nr = self.root;
                match nr.vertex {
                    TreeVertex::Floor(v) => {
                        assert(v@[0].path@ == Seq::<u8>::empty().push(nr.id).push(0u8));
                        assert(v@[0].path@ =~= seq![nr.id, 0u8]);
                    },
                    TreeVertex::Split(_) => {},
                }
            }
            return Ok(());
        }
        if distances.len() == 0 {
            return Err(PhyloError::GenomeInsertError);
        }
        let bi = first_min_index(distances);
        let best = distances[bi].0;
        let best_path = &distances[bi].1;
        let closest_distance = match retrieve_genome(&self.root, best_path) {
            Ok(c) => c.closest_distance,
            Err(e) => return Err(e),
        };
        let last = best_path.len() - 1;
        let slot = best_path[last] as usize;
        assert(best_path@.subrange(0, last as int) =~= best_path@.drop_last());
        let blen = match node_ref(&self.root, best_path, last) {
            Some(b) => match &b.vertex {
                TreeVertex::Floor(v) => v.len(),
                TreeVertex::Split(_) => 0,
            },
            None => 0,
        };
        let case = choose_case(best, closest_distance, blen);
        if self.root.count == u32::MAX || (case == 3 && blen >= BUCKET_CAPACITY) || (case != 3
            && self.next_index > 253) {
            return Err(PhyloError::CapacityExceeded);
        }
        let mut q: Vec<u8> = copy_path(best_path);
        q.pop();
        assert(q@ =~= best_path@.drop_last());
        let ghost o = *self;
        let ghost qs = q@;
        let ghost bound = self.next_index as int;
        let n = self.next_index;
        proof {
            lemma_wf_mono(o.root, Seq::empty(), bound, 256);
            lemma_wf_node_at(o.root, Seq::empty(), bound, qs);
            assert(Seq::<u8>::empty() + qs.drop_last() =~= qs.drop_last());
            assert(qs =~= qs.drop_last().push(qs.last()));
        }
        let ghost nb = if case == 3 {
            n as int
        } else {
            n + 2
        };
        let ghost leaf: TreeNode;
        match get_mut_node_and_increment(&mut self.root, best_path) {
            Ok(b) => {
                if case == 3 {
                    join_bucket(b, &q, genome, best, slot, Ghost(qs.drop_last()), Ghost(bound));
                } else if case == 1 {
                    pair_off(b, &q, genome, best, slot, n, Ghost(qs.drop_last()), Ghost(bound));
                } else {
                    open_beside(b, &q, genome, best, slot, n, Ghost(qs.drop_last()), Ghost(bound));
                }
                proof {
                    leaf = *b;
                }
            },
            Err(_) => vstd::pervasive::unreached(),
        }
        // The walk above left the root's own count alone; when the bucket
        // lies below the root, the root counts the new genome here.
        if best_path.len() > 2 {
            self.root.count = self.root.count + 1;
        }
        if case != 3 {
            self.next_index = n + 2;
        }
        proof {
            assert(bumped(o.root, self.root, qs, leaf));
            assert forall|x: u8| #[trigger] has_id(leaf, x) implies has_id(node_at(o.root, qs)->0, x)
                || bound <= x by {
                if !(bound <= x) {
                    assert(x == node_at(o.root, qs)->0.id);
                }
            }
            lemma_bumped_wf(o.root, self.root, qs, leaf, Seq::empty(), bound, nb);
            assert forall|x: u8| #[trigger] has_id(self.root, x) implies has_id(o.root, x) || (
            o.next_index <= x < self.next_index) by {
                if has_id(self.root, x) {
                    lemma_has_id_below(self.root, Seq::empty(), nb, x);
                }
            }
        }
        Ok(())
    }
}

} // verus!
