//! General properties of the tree structure, stated and proved once.

use vstd::prelude::*;

use crate::edge::{value_eq, value_le, EdgeView};
use crate::heights::dist_val;
use crate::node::NodeView;
use crate::paths::{
    all_some, dist_edges, diverge_at, lemma_diverge_at_basics, lemma_sum_num_concat, max_scale,
    path_from_root, sum_num_at,
};
use crate::tree::{leaf_ids, node_ok, tree_wf};
use crate::NodeId;

verus! {

/// Law: in a well-formed tree, every node with a parent sits exactly one
/// step deeper than its parent, and a parentless node sits at depth zero.
pub proof fn lemma_depth_invariant(ns: Seq<NodeView>, i: int)
    requires
        tree_wf(ns),
        0 <= i < ns.len(),
    ensures
        match ns[i].parent {
            Some(p) => ns[i].depth == ns[p as int].depth + 1,
            None => ns[i].depth == 0,
        },
{
    assert(node_ok(ns, i));
}

/// Every branch length present on one side of a concatenation is present on
/// the whole, and the other way round.
proof fn lemma_all_some_concat(x: Seq<Option<EdgeView>>, y: Seq<Option<EdgeView>>)
    ensures
        all_some(x + y) == (all_some(x) && all_some(y)),
{
    if all_some(x) && all_some(y) {
        assert forall|k: int| 0 <= k < (x + y).len() implies (#[trigger] (x + y)[k]) is Some by {
            if k < x.len() {
                assert((x + y)[k] == x[k]);
            } else {
                assert((x + y)[k] == y[k - x.len()]);
            }
        }
    }
    if all_some(x + y) {
        assert forall|k: int| 0 <= k < x.len() implies (#[trigger] x[k]) is Some by {
            assert((x + y)[k] == x[k]);
        }
        assert forall|k: int| 0 <= k < y.len() implies (#[trigger] y[k]) is Some by {
            assert((x + y)[k + x.len()] == y[k]);
        }
    }
}

/// Law: the distance reading between two nodes does not depend on the order
/// in which they are given. The branches crossed are the same ones, so the
/// branch count, the presence of a full length sum, and the exact value all
/// agree.
pub proof fn lemma_distance_symmetric(ns: Seq<NodeView>, a: int, b: int)
    ensures
        dist_edges(ns, a, b).len() == dist_edges(ns, b, a).len(),
        all_some(dist_edges(ns, a, b)) == all_some(dist_edges(ns, b, a)),
        max_scale(dist_edges(ns, a, b)) == max_scale(dist_edges(ns, b, a)),
        sum_num_at(dist_edges(ns, a, b), max_scale(dist_edges(ns, a, b))) == sum_num_at(
            dist_edges(ns, b, a),
            max_scale(dist_edges(ns, b, a)),
        ),
        dist_val(ns, a, b) == dist_val(ns, b, a),
{
    reveal(dist_val);
    let pa = path_from_root(ns, a);
    let pb = path_from_root(ns, b);
    lemma_diverge_at_basics(pa, pb);
    let d = diverge_at(pa, pb);
    let ea = pa.skip(d).map_values(|id: NodeId| ns[id as int].parent_edge);
    let eb = pb.skip(d).map_values(|id: NodeId| ns[id as int].parent_edge);
    assert(dist_edges(ns, a, b) == ea + eb);
    assert(dist_edges(ns, b, a) == eb + ea);
    let s = max_scale(ea + eb);
    lemma_sum_num_concat(ea, eb, s);
    lemma_sum_num_concat(eb, ea, s);
    lemma_all_some_concat(ea, eb);
    lemma_all_some_concat(eb, ea);
}

/// Law: the height specification determines one result. Two canonical
/// results that both satisfy it — reached by some tip, and at least every
/// tip's distance — are one and the same edge, so repeated calls on an
/// unchanged tree agree exactly.
pub proof fn lemma_height_deterministic(ns: Seq<NodeView>, rt: int, h1: EdgeView, h2: EdgeView)
    requires
        h1.canonical(),
        h2.canonical(),
        ({
            let ls = leaf_ids(ns, ns.len() as int);
            &&& (exists|k: int|
                0 <= k < ls.len() && value_eq(
                    h1.num(),
                    h1.scale(),
                    dist_val(ns, rt, #[trigger] ls[k] as int).0,
                    dist_val(ns, rt, ls[k] as int).1,
                ))
            &&& (forall|k: int|
                0 <= k < ls.len() ==> value_le(
                    dist_val(ns, rt, #[trigger] ls[k] as int).0,
                    dist_val(ns, rt, ls[k] as int).1,
                    h1.num(),
                    h1.scale(),
                ))
            &&& (exists|k: int|
                0 <= k < ls.len() && value_eq(
                    h2.num(),
                    h2.scale(),
                    dist_val(ns, rt, #[trigger] ls[k] as int).0,
                    dist_val(ns, rt, ls[k] as int).1,
                ))
            &&& (forall|k: int|
                0 <= k < ls.len() ==> value_le(
                    dist_val(ns, rt, #[trigger] ls[k] as int).0,
                    dist_val(ns, rt, ls[k] as int).1,
                    h2.num(),
                    h2.scale(),
                ))
        }),
    ensures
        value_eq(h1.num(), h1.scale(), h2.num(), h2.scale()),
        h1 == h2,
{
    let ls = leaf_ids(ns, ns.len() as int);
    let k1 = choose|k: int|
        0 <= k < ls.len() && value_eq(
            h1.num(),
            h1.scale(),
            dist_val(ns, rt, #[trigger] ls[k] as int).0,
            dist_val(ns, rt, ls[k] as int).1,
        );
    let k2 = choose|k: int|
        0 <= k < ls.len() && value_eq(
            h2.num(),
            h2.scale(),
            dist_val(ns, rt, #[trigger] ls[k] as int).0,
            dist_val(ns, rt, ls[k] as int).1,
        );
    // h1 equals some tip value, which h2 dominates; and the other way round.
    crate::heights::lemma_value_le_trans(
        h1.num(),
        h1.scale(),
        dist_val(ns, rt, ls[k1] as int).0,
        dist_val(ns, rt, ls[k1] as int).1,
        h2.num(),
        h2.scale(),
    );
    crate::heights::lemma_value_le_trans(
        h2.num(),
        h2.scale(),
        dist_val(ns, rt, ls[k2] as int).0,
        dist_val(ns, rt, ls[k2] as int).1,
        h1.num(),
        h1.scale(),
    );
    crate::edge::lemma_canonical_value_unique(h1, h2);
}

} // verus!
