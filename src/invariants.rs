//! Facts about well-formed trees: counts add up, ids are unique and
//! issued before use, and every genome is found by its own path.
use vstd::prelude::*;
use crate::structs::{
    edited_bucket, inserted, moved, placed,
    bumped, child_pos, first_with_id, genome_at, has_id, in_subtree, node_at, sum_counts, wf_node,
    wf_tree, Genome, PhyloTree, TreeNode, TreeVertex,
};

verus! {

/// A sum of counts is never negative.
pub proof fn lemma_sum_counts_nonneg(c: Seq<TreeNode>)
    ensures
        sum_counts(c) >= 0,
    decreases c.len(),
{
    if c.len() > 0 {
        lemma_sum_counts_nonneg(c.drop_last());
    }
}

/// Each node's count is at least the count of each of its children.
pub proof fn lemma_sum_counts_ge(c: Seq<TreeNode>, i: int)
    requires
        0 <= i < c.len(),
    ensures
        sum_counts(c) >= c[i].count,
    decreases c.len(),
{
    lemma_sum_counts_nonneg(c.drop_last());
    if i < c.len() - 1 {
        lemma_sum_counts_ge(c.drop_last(), i);
        assert(c.drop_last()[i] == c[i]);
    }
}

/// Replacing one node of a sequence changes the sum by the change of its count.
pub proof fn lemma_sum_counts_update(c: Seq<TreeNode>, i: int, x: TreeNode)
    requires
        0 <= i < c.len(),
    ensures
        sum_counts(c.update(i, x)) == sum_counts(c) - c[i].count + x.count,
    decreases c.len(),
{
    let u = c.update(i, x);
    if i < c.len() - 1 {
        lemma_sum_counts_update(c.drop_last(), i, x);
        assert(u.drop_last() =~= c.drop_last().update(i, x));
    } else {
        assert(u.drop_last() =~= c.drop_last());
    }
}

/// A path that starts at a branch continues in the first child with the next id.
pub proof fn lemma_node_at_child(n: TreeNode, q: Seq<u8>)
    requires
        q.len() >= 2,
        q[0] == n.id,
    ensures
        node_at(n, q) == match n.vertex {
            TreeVertex::Split(c) => match child_pos(c@, q[1]) {
                Some(i) => node_at(c@[i], q.drop_first()),
                None => None,
            },
            TreeVertex::Floor(_) => None::<TreeNode>,
        },
    decreases q.len(),
{
    if q.len() == 2 {
        assert(q.drop_last() =~= seq![q[0]]);
        assert(q.drop_first() =~= seq![q[1]]);
        match n.vertex {
            TreeVertex::Split(c) => {
                match child_pos(c@, q[1]) {
                    Some(i) => {
                        assert(first_with_id(c@, q[1], i));
                    },
                    None => {},
                }
            },
            TreeVertex::Floor(_) => {},
        }
    } else {
        lemma_node_at_child(n, q.drop_last());
        assert(q.drop_last().drop_first() =~= q.drop_first().drop_last());
    }
}

/// Once a prefix of a path leads nowhere, so do all longer prefixes.
pub proof fn lemma_node_at_none_extends(n: TreeNode, p: Seq<u8>, k: int, len: int)
    requires
        1 <= k <= len <= p.len(),
        node_at(n, p.subrange(0, k)) is None,
    ensures
        node_at(n, p.subrange(0, len)) is None,
    decreases len - k,
{
    if k < len {
        assert(p.subrange(0, k + 1).drop_last() =~= p.subrange(0, k));
        lemma_node_at_none_extends(n, p, k + 1, len);
    }
}

/// Below a well-formed node, every genome's path starts with the ids of
/// the node's ancestors, and the rest of it leads from the node to the
/// genome itself.
pub proof fn lemma_genome_path_from(n: TreeNode, prefix: Seq<u8>, bound: int, g: Genome)
    requires
        wf_node(n, prefix, bound),
        in_subtree(n, g),
    ensures
        g.path@.len() >= prefix.len() + 2,
        g.path@.subrange(0, prefix.len() as int) == prefix,
        genome_at(n, g.path@.subrange(prefix.len() as int, g.path@.len() as int)) == Some(g),
    decreases n,
{
    let p = g.path@;
    let rel = p.subrange(prefix.len() as int, p.len() as int);
    match n.vertex {
        TreeVertex::Floor(v) => {
            let s = choose|s: int| 0 <= s < v@.len() && v@[s] == g;
            assert(v@[s].path@ == prefix.push(n.id).push(s as u8));
            assert(p.subrange(0, prefix.len() as int) =~= prefix);
            assert(rel =~= seq![n.id, s as u8]);
            assert(rel.drop_last() =~= seq![n.id]);
        },
        TreeVertex::Split(c) => {
            let i = choose|i: int| 0 <= i < c@.len() && in_subtree(#[trigger] c@[i], g);
            let pre = prefix.push(n.id);
            lemma_genome_path_from(c@[i], pre, bound, g);
            let r2 = p.subrange(pre.len() as int, p.len() as int);
            assert(p.subrange(0, prefix.len() as int) =~= pre.subrange(0, prefix.len() as int));
            assert(pre.subrange(0, prefix.len() as int) =~= prefix);
            assert(p[prefix.len() as int] == n.id) by {
                assert(p.subrange(0, pre.len() as int)[prefix.len() as int] == pre[prefix.len() as int]);
            }
            assert(rel =~= seq![n.id] + r2);
            let q = rel.drop_last();
            assert(q =~= seq![n.id] + r2.drop_last());
            assert(q.drop_first() =~= r2.drop_last());
            lemma_node_at_first(c@[i], r2.drop_last());
            assert(first_with_id(c@, c@[i].id, i));
            assert forall|k: int| first_with_id(c@, c@[i].id, k) implies k == i by {
                if k < i {
                } else if k > i {
                    assert(c@[i].id != c@[k].id);
                }
            }
            lemma_node_at_child(n, q);
        },
    }
}

/// Every genome of a well-formed index is found again by its own path.
pub proof fn lemma_genome_found_by_path(t: PhyloTree, g: Genome)
    requires
        wf_tree(t),
        in_subtree(t.root, g),
    ensures
        genome_at(t.root, g.path@) == Some(g),
{
    lemma_genome_path_from(t.root, Seq::empty(), t.next_index as int, g);
    assert(g.path@.subrange(0, g.path@.len() as int) =~= g.path@);
}

/// Raising the bound on node ids keeps a subtree well formed.
pub proof fn lemma_wf_mono(n: TreeNode, prefix: Seq<u8>, b1: int, b2: int)
    requires
        wf_node(n, prefix, b1),
        b1 <= b2,
    ensures
        wf_node(n, prefix, b2),
    decreases n,
{
    match n.vertex {
        TreeVertex::Split(c) => {
            assert forall|i: int| 0 <= i < c@.len() implies wf_node(
                #[trigger] c@[i],
                prefix.push(n.id),
                b2,
            ) by {
                lemma_wf_mono(c@[i], prefix.push(n.id), b1, b2);
            }
        },
        TreeVertex::Floor(_) => {},
    }
}

/// A node path that leads somewhere starts with the id of where it starts.
pub proof fn lemma_node_at_first(n: TreeNode, q: Seq<u8>)
    requires
        node_at(n, q) is Some,
    ensures
        q.len() >= 1,
        q[0] == n.id,
{
    if q.len() >= 1 && q[0] != n.id {
        assert(q.subrange(0, 1) =~= seq![q[0]]);
        assert(q.subrange(0, q.len() as int) =~= q);
        lemma_node_at_none_extends(n, q, 1, q.len() as int);
    }
}

/// The node at the end of a node path is well formed, with the ids before
/// it as its ancestors, and carries the path's last id.
pub proof fn lemma_wf_node_at(n: TreeNode, prefix: Seq<u8>, bound: int, q: Seq<u8>)
    requires
        wf_node(n, prefix, bound),
        node_at(n, q) is Some,
    ensures
        q.len() >= 1,
        wf_node(node_at(n, q)->0, prefix + q.drop_last(), bound),
        node_at(n, q)->0.id == q.last(),
    decreases q.len(),
{
    lemma_node_at_first(n, q);
    if q.len() == 1 {
        assert(prefix + q.drop_last() =~= prefix);
    } else {
        lemma_node_at_child(n, q);
        match n.vertex {
            TreeVertex::Split(c) => {
                let i = child_pos(c@, q[1])->0;
                assert(first_with_id(c@, q[1], i));
                lemma_wf_node_at(c@[i], prefix.push(n.id), bound, q.drop_first());
                assert(prefix.push(n.id) + q.drop_first().drop_last() =~= prefix + q.drop_last());
            },
            TreeVertex::Floor(_) => {},
        }
    }
}

/// Every id in a well-formed subtree lies below its bound.
pub proof fn lemma_has_id_below(n: TreeNode, prefix: Seq<u8>, bound: int, x: u8)
    requires
        wf_node(n, prefix, bound),
        has_id(n, x),
    ensures
        (x as int) < bound,
    decreases n,
{
    if n.id != x {
        match n.vertex {
            TreeVertex::Split(c) => {
                let i = choose|i: int| 0 <= i < c@.len() && has_id(#[trigger] c@[i], x);
                lemma_has_id_below(c@[i], prefix.push(n.id), bound, x);
            },
            TreeVertex::Floor(_) => {},
        }
    }
}

/// The node at the end of a node path carries an id of the subtree.
pub proof fn lemma_node_has_id(n: TreeNode, q: Seq<u8>)
    requires
        node_at(n, q) is Some,
    ensures
        has_id(n, node_at(n, q)->0.id),
    decreases q.len(),
{
    lemma_node_at_first(n, q);
    if q.len() > 1 {
        lemma_node_at_child(n, q);
        match n.vertex {
            TreeVertex::Split(c) => {
                let i = child_pos(c@, q[1])->0;
                assert(first_with_id(c@, q[1], i));
                lemma_node_has_id(c@[i], q.drop_first());
            },
            TreeVertex::Floor(_) => {},
        }
    }
}

/// In a well-formed subtree two node paths that reach nodes with the same id
/// are the same path.
pub proof fn lemma_node_ids_unique_from(
    n: TreeNode,
    prefix: Seq<u8>,
    bound: int,
    q1: Seq<u8>,
    q2: Seq<u8>,
)
    requires
        wf_node(n, prefix, bound),
        node_at(n, q1) is Some,
        node_at(n, q2) is Some,
        node_at(n, q1)->0.id == node_at(n, q2)->0.id,
    ensures
        q1 == q2,
    decreases q1.len() + q2.len(),
{
    lemma_node_at_first(n, q1);
    lemma_node_at_first(n, q2);
    if q1.len() == 1 && q2.len() == 1 {
        assert(q1 =~= q2);
    } else if q1.len() == 1 || q2.len() == 1 {
        let q = if q1.len() == 1 {
            q2
        } else {
            q1
        };
        lemma_node_at_child(n, q);
        match n.vertex {
            TreeVertex::Split(c) => {
                let i = child_pos(c@, q[1])->0;
                assert(first_with_id(c@, q[1], i));
                lemma_node_has_id(c@[i], q.drop_first());
            },
            TreeVertex::Floor(_) => {},
        }
    } else {
        lemma_node_at_child(n, q1);
        lemma_node_at_child(n, q2);
        match n.vertex {
            TreeVertex::Split(c) => {
                let i1 = child_pos(c@, q1[1])->0;
                let i2 = child_pos(c@, q2[1])->0;
                assert(first_with_id(c@, q1[1], i1));
                assert(first_with_id(c@, q2[1], i2));
                lemma_node_has_id(c@[i1], q1.drop_first());
                lemma_node_has_id(c@[i2], q2.drop_first());
                let x = node_at(n, q1)->0.id;
                if i1 < i2 {
                    assert(!(has_id(c@[i1], x) && has_id(c@[i2], x)));
                } else if i2 < i1 {
                    assert(!(has_id(c@[i2], x) && has_id(c@[i1], x)));
                } else {
                    lemma_node_ids_unique_from(
                        c@[i1],
                        prefix.push(n.id),
                        bound,
                        q1.drop_first(),
                        q2.drop_first(),
                    );
                    assert(q1 =~= seq![q1[0]] + q1.drop_first());
                    assert(q2 =~= seq![q2[0]] + q2.drop_first());
                }
            },
            TreeVertex::Floor(_) => {},
        }
    }
}

/// Node ids are never shared: in a well-formed index two node paths that
/// reach nodes with the same id are the same path, so the nodes are one.
pub proof fn lemma_node_ids_unique(t: PhyloTree, q1: Seq<u8>, q2: Seq<u8>)
    requires
        wf_tree(t),
        node_at(t.root, q1) is Some,
        node_at(t.root, q2) is Some,
        node_at(t.root, q1)->0.id == node_at(t.root, q2)->0.id,
    ensures
        q1 == q2,
{
    lemma_node_ids_unique_from(t.root, Seq::empty(), t.next_index as int, q1, q2);
}

/// Counts add up: in a well-formed index every node reached by a node path
/// counts the genomes of its bucket, or the counts of its children.
pub proof fn lemma_counts_add_up(t: PhyloTree, q: Seq<u8>)
    requires
        wf_tree(t),
        node_at(t.root, q) is Some,
    ensures
        match node_at(t.root, q)->0.vertex {
            TreeVertex::Floor(v) => node_at(t.root, q)->0.count == v@.len(),
            TreeVertex::Split(c) => node_at(t.root, q)->0.count == sum_counts(c@),
        },
{
    lemma_wf_node_at(t.root, Seq::empty(), t.next_index as int, q);
}

/// Node ids are issued before use: every id in a well-formed index lies
/// below the next id to be handed out.
pub proof fn lemma_ids_issued(t: PhyloTree, x: u8)
    requires
        wf_tree(t),
        has_id(t.root, x),
    ensures
        x < t.next_index,
{
    lemma_has_id_below(t.root, Seq::empty(), t.next_index as int, x);
}

/// Raising the counts along a node path and putting a well-formed bucket with
/// one more genome at its end keeps the tree well formed.
pub proof fn lemma_bumped_wf(
    o: TreeNode,
    n: TreeNode,
    q: Seq<u8>,
    leaf: TreeNode,
    prefix: Seq<u8>,
    b1: int,
    b2: int,
)
    requires
        wf_node(o, prefix, b1),
        b1 <= b2,
        node_at(o, q) is Some,
        bumped(o, n, q, leaf),
        leaf.id == node_at(o, q)->0.id,
        leaf.count == node_at(o, q)->0.count + 1,
        wf_node(leaf, prefix + q.drop_last(), b2),
        forall|x: u8| #[trigger] has_id(leaf, x) ==> has_id(node_at(o, q)->0, x) || b1 <= x,
    ensures
        wf_node(n, prefix, b2),
        n.id == o.id,
        n.count == o.count + 1,
        forall|x: u8| #[trigger] has_id(n, x) ==> has_id(o, x) || b1 <= x,
    decreases q.len(),
{
    lemma_node_at_first(o, q);
    if q.len() == 1 {
        assert(prefix + q.drop_last() =~= prefix);
    } else {
        lemma_node_at_child(o, q);
        match o.vertex {
            TreeVertex::Split(oc) => {
                match n.vertex {
                    TreeVertex::Split(nc) => {
                        let i = child_pos(oc@, q[1])->0;
                        assert(first_with_id(oc@, q[1], i));
                        assert(prefix.push(o.id) + q.drop_first().drop_last() =~= prefix
                            + q.drop_last());
                        lemma_bumped_wf(
                            oc@[i],
                            nc@[i],
                            q.drop_first(),
                            leaf,
                            prefix.push(o.id),
                            b1,
                            b2,
                        );
                        lemma_sum_counts_update(oc@, i, nc@[i]);
                        assert forall|j: int| 0 <= j < nc@.len() implies wf_node(
                            #[trigger] nc@[j],
                            prefix.push(n.id),
                            b2,
                        ) by {
                            if j != i {
                                lemma_wf_mono(oc@[j], prefix.push(o.id), b1, b2);
                            }
                        }
                        assert forall|j: int| 0 <= j < nc@.len() implies (#[trigger] nc@[j]).count
                            >= 1 by {
                            if j != i {
                                assert(nc@[j] == oc@[j]);
                            }
                        }
                        assert forall|j: int, k: int|
                            0 <= j < k < nc@.len() implies nc@[j].id != nc@[k].id by {
                            assert(oc@[j].id != oc@[k].id);
                        }
                        assert forall|x: u8| #[trigger] has_id(n, x) implies has_id(o, x) || b1
                            <= x by {
                            if n.id != x {
                                let j = choose|j: int| 0 <= j < nc@.len() && has_id(#[trigger] nc@[j], x);
                                if j != i {
                                    assert(nc@[j] == oc@[j]);
                                    assert(has_id(oc@[j], x));
                                } else if !(b1 <= x) {
                                    assert(has_id(oc@[i], x));
                                }
                            }
                        }
                        assert forall|j: int| 0 <= j < nc@.len() implies !has_id(#[trigger] nc@[j], n.id) by {
                            if j != i {
                                assert(nc@[j] == oc@[j]);
                            } else if has_id(nc@[i], n.id) {
                                if !has_id(oc@[i], n.id) {
                                    assert(b1 <= o.id);
                                }
                            }
                        }
                        assert forall|j: int, k: int, x: u8|
                            0 <= j < k < nc@.len() implies !(#[trigger] has_id(nc@[j], x)
                            && #[trigger] has_id(nc@[k], x)) by {
                            if has_id(nc@[j], x) && has_id(nc@[k], x) {
                                if j != i && k != i {
                                    assert(nc@[j] == oc@[j]);
                                    assert(nc@[k] == oc@[k]);
                                    assert(!(has_id(oc@[j], x) && has_id(oc@[k], x)));
                                } else if j == i {
                                    assert(nc@[k] == oc@[k]);
                                    lemma_has_id_below(oc@[k], prefix.push(o.id), b1, x);
                                    assert(!(has_id(oc@[j], x) && has_id(oc@[k], x)));
                                } else {
                                    assert(nc@[j] == oc@[j]);
                                    lemma_has_id_below(oc@[j], prefix.push(o.id), b1, x);
                                    assert(!(has_id(oc@[j], x) && has_id(oc@[k], x)));
                                }
                            }
                        }
                    },
                    TreeVertex::Floor(_) => {},
                }
            },
            TreeVertex::Floor(_) => {},
        }
    }
}

/// After the counts along a node path were raised and the node at its end
/// replaced, that node path leads to the replacement.
pub proof fn lemma_bumped_node_at(o: TreeNode, n: TreeNode, q: Seq<u8>, leaf: TreeNode)
    requires
        node_at(o, q) is Some,
        bumped(o, n, q, leaf),
        leaf.id == node_at(o, q)->0.id,
    ensures
        node_at(n, q) == Some(leaf),
    decreases q.len(),
{
    lemma_node_at_first(o, q);
    if q.len() == 1 {
        assert(node_at(o, q)->0 == o);
    } else {
        lemma_node_at_child(o, q);
        match o.vertex {
            TreeVertex::Split(oc) => {
                match n.vertex {
                    TreeVertex::Split(nc) => {
                        let i = child_pos(oc@, q[1])->0;
                        assert(first_with_id(oc@, q[1], i));
                        lemma_bumped_node_at(oc@[i], nc@[i], q.drop_first(), leaf);
                        lemma_node_at_first(oc@[i], q.drop_first());
                        lemma_node_at_first(nc@[i], q.drop_first());
                        assert(nc@[i].id == oc@[i].id);
                        assert forall|j: int| 0 <= j < nc@.len() implies #[trigger] nc@[j].id
                            == oc@[j].id by {
                            if j != i {
                                assert(nc@[j] == oc@[j]);
                            }
                        }
                        assert(first_with_id(nc@, q[1], i));
                        assert forall|k: int| first_with_id(nc@, q[1], k) implies k == i by {
                            if k < i {
                                assert(nc@[k].id == oc@[k].id);
                            } else if k > i {
                                assert(nc@[i].id == q[1]);
                            }
                        }
                        lemma_node_at_child(n, q);
                    },
                    TreeVertex::Floor(_) => {},
                }
            },
            TreeVertex::Floor(_) => {},
        }
    }
}

/// After an insertion, the node path of the closest match's bucket leads to
/// that bucket as the insertion's case edited it.
pub proof fn lemma_inserted_bucket(
    o: PhyloTree,
    n: PhyloTree,
    g: Genome,
    best: usize,
    p: Seq<u8>,
    case: int,
)
    requires
        wf_tree(o),
        genome_at(o.root, p) is Some,
        inserted(o, n, g, best, p, case),
    ensures
        exists|leaf: TreeNode|
            node_at(n.root, p.drop_last()) == Some(leaf) && edited_bucket(
                node_at(o.root, p.drop_last())->0,
                leaf,
                p.drop_last(),
                g,
                best,
                p.last() as int,
                o.next_index as int,
                case,
            ),
{
    let q = p.drop_last();
    let leaf = choose|leaf: TreeNode|
        bumped(o.root, n.root, q, leaf) && edited_bucket(
            node_at(o.root, q)->0,
            leaf,
            q,
            g,
            best,
            p.last() as int,
            o.next_index as int,
            case,
        );
    lemma_bumped_node_at(o.root, n.root, q, leaf);
}

/// An insertion that opens a new bucket beside the closest match (case 2)
/// turns the match's bucket into a branch, with the same id and one more
/// genome, of two buckets: the first has the next free id and holds the old
/// genomes in their order, each moved below it with its closest distance
/// kept, the match's included; the second has the id after it and holds
/// the new genome alone, at its first slot, with the distance found as its
/// closest distance. Two ids are used up.
pub proof fn lemma_insert_beside(o: PhyloTree, n: PhyloTree, g: Genome, best: usize, p: Seq<u8>)
    requires
        wf_tree(o),
        genome_at(o.root, p) is Some,
        inserted(o, n, g, best, p, 2),
    ensures
        n.next_index == o.next_index + 2,
        node_at(n.root, p.drop_last()) is Some,
        ({
            let q = p.drop_last();
            let b = node_at(o.root, q)->0;
            let v = b.vertex->Floor_0@;
            let nb = node_at(n.root, q)->0;
            let k = nb.vertex->Split_0@;
            &&& nb.id == b.id
            &&& nb.count == b.count + 1
            &&& nb.vertex is Split
            &&& k.len() == 2
            &&& k[0].id == o.next_index
            &&& k[0].count == v.len()
            &&& k[0].vertex is Floor
            &&& k[0].vertex->Floor_0@.len() == v.len()
            &&& forall|i: int|
                0 <= i < v.len() ==> moved(
                    v[i],
                    #[trigger] k[0].vertex->Floor_0@[i],
                    q.push(o.next_index).push(i as u8),
                )
            &&& k[0].vertex->Floor_0@[p.last() as int].closest_distance == v[p.last()
                as int].closest_distance
            &&& k[1].id == o.next_index + 1
            &&& k[1].count == 1
            &&& k[1].vertex is Floor
            &&& k[1].vertex->Floor_0@.len() == 1
            &&& placed(g, k[1].vertex->Floor_0@[0], q.push((o.next_index + 1) as u8).push(0), best)
        }),
{
    lemma_inserted_bucket(o, n, g, best, p, 2);
    let q = p.drop_last();
    assert(node_at(o.root, q)->0.vertex is Floor);
}

/// An insertion that joins the closest match's bucket (case 3) keeps the
/// bucket a bucket with one more genome: the genomes before stay as they
/// were, but for the match, whose closest distance becomes the smaller of
/// its own and the distance found; the new genome comes last, in the next
/// slot, with the distance found as its closest distance. No id is used up.
pub proof fn lemma_insert_into(o: PhyloTree, n: PhyloTree, g: Genome, best: usize, p: Seq<u8>)
    requires
        wf_tree(o),
        genome_at(o.root, p) is Some,
        inserted(o, n, g, best, p, 3),
    ensures
        n.next_index == o.next_index,
        node_at(n.root, p.drop_last()) is Some,
        ({
            let q = p.drop_last();
            let b = node_at(o.root, q)->0;
            let v = b.vertex->Floor_0@;
            let s = p.last() as int;
            let nb = node_at(n.root, q)->0;
            let w = nb.vertex->Floor_0@;
            &&& nb.id == b.id
            &&& nb.count == b.count + 1
            &&& nb.vertex is Floor
            &&& w.len() == v.len() + 1
            &&& forall|t: int| 0 <= t < v.len() && t != s ==> w[t] == v[t]
            &&& placed(
                v[s],
                w[s],
                v[s].path@,
                if (best as int) < (v[s].closest_distance as int) {
                    best
                } else {
                    v[s].closest_distance
                },
            )
            &&& placed(g, w[v.len() as int], q.push(v.len() as u8), best)
        }),
{
    lemma_inserted_bucket(o, n, g, best, p, 3);
    let q = p.drop_last();
    assert(node_at(o.root, q)->0.vertex is Floor);
}

} // verus!
