//! Height and diameter: the longest root-to-tip and tip-to-tip distances.

use itertools::Itertools;
use vstd::prelude::*;

use crate::edge::{pow10, value_eq, value_le, Edge};
use crate::node::NodeView;
use crate::paths::{all_some, dist_edges, max_scale, sum_num_at};
use crate::tree::{is_leaf, leaf_ids, node_ok, root_of, Tree};
use crate::NodeId;

verus! {

/// The distance value between two nodes, as a scaled natural number: the
/// exact branch-length sum when every branch on the walk has one, else the
/// number of branches; zero between a node and itself.
///
/// Kept opaque so that quantified statements over many node pairs do not
/// unfold the underlying path computations.
#[verifier::opaque]
pub open spec fn dist_val(ns: Seq<NodeView>, a: int, b: int) -> (nat, nat) {
    if a == b {
        (0, 0)
    } else {
        let es = dist_edges(ns, a, b);
        if all_some(es) {
            (sum_num_at(es, max_scale(es)), max_scale(es))
        } else {
            (es.len(), 0)
        }
    }
}

/// Ordering of scaled values is transitive.
pub proof fn lemma_value_le_trans(n1: nat, s1: nat, n2: nat, s2: nat, n3: nat, s3: nat)
    requires
        value_le(n1, s1, n2, s2),
        value_le(n2, s2, n3, s3),
    ensures
        value_le(n1, s1, n3, s3),
{
    crate::edge::lemma_pow10_pos(s1);
    crate::edge::lemma_pow10_pos(s2);
    crate::edge::lemma_pow10_pos(s3);
    assert((n1 * pow10(s2)) * pow10(s3) <= (n2 * pow10(s1)) * pow10(s3)) by (nonlinear_arith)
        requires
            n1 * pow10(s2) <= n2 * pow10(s1),
    ;
    assert((n2 * pow10(s3)) * pow10(s1) <= (n3 * pow10(s2)) * pow10(s1)) by (nonlinear_arith)
        requires
            n2 * pow10(s3) <= n3 * pow10(s2),
    ;
    assert((n2 * pow10(s1)) * pow10(s3) == (n2 * pow10(s3)) * pow10(s1)) by (nonlinear_arith);
    assert((n1 * pow10(s3)) * pow10(s2) == (n1 * pow10(s2)) * pow10(s3)) by (nonlinear_arith);
    assert((n3 * pow10(s1)) * pow10(s2) == (n3 * pow10(s2)) * pow10(s1)) by (nonlinear_arith);
    assert(n1 * pow10(s3) <= n3 * pow10(s1)) by (nonlinear_arith)
        requires
            (n1 * pow10(s3)) * pow10(s2) <= (n3 * pow10(s1)) * pow10(s2),
            pow10(s2) >= 1,
    ;
}

/// Every entry of `leaf_ids` is a tip below `n`, listed in strictly
/// increasing order, and every tip below `n` is listed.
pub proof fn lemma_leaf_ids_props(ns: Seq<NodeView>, n: int)
    requires
        0 <= n <= ns.len(),
        n <= usize::MAX as int,
    ensures
        ({
            let ls = leaf_ids(ns, n);
            &&& forall|k: int| 0 <= k < ls.len() ==> is_leaf(ns, #[trigger] ls[k] as int) && ls[k] < n
            &&& forall|k1: int, k2: int| 0 <= k1 < k2 < ls.len() ==> ls[k1] < ls[k2]
            &&& forall|j: int| 0 <= j < n && is_leaf(ns, j) ==> leaf_ids(ns, n).contains(j as NodeId)
        }),
    decreases n,
{
    if n > 0 {
        lemma_leaf_ids_props(ns, n - 1);
        let prev = leaf_ids(ns, n - 1);
        let ls = leaf_ids(ns, n);
        if is_leaf(ns, n - 1) {
            assert(ls == prev.push((n - 1) as NodeId));
            assert forall|k: int| 0 <= k < ls.len() implies is_leaf(ns, #[trigger] ls[k] as int)
                && ls[k] < n by {
                if k < prev.len() {
                    assert(ls[k] == prev[k]);
                } else {
                    assert(ls[k] == (n - 1) as NodeId);
                }
            }
            assert forall|k1: int, k2: int| 0 <= k1 < k2 < ls.len() implies ls[k1] < ls[k2] by {
                if k2 == ls.len() - 1 {
                    assert(prev[k1] < n - 1);
                }
            }
        } else {
            assert(ls == prev);
        }
        assert forall|j: int| 0 <= j < n && is_leaf(ns, j) implies ls.contains(j as NodeId) by {
            if j < n - 1 {
                assert(prev.contains(j as NodeId));
                let w = choose|w: int| 0 <= w < prev.len() && prev[w] == j as NodeId;
                assert(ls[w] == j as NodeId);
            } else {
                assert(ls.last() == j as NodeId);
            }
        }
    }
}

/// Under any node there is a tip.
pub proof fn lemma_tip_exists(ns: Seq<NodeView>, i: int)
    requires
        crate::tree::tree_wf(ns),
        0 <= i < ns.len(),
    ensures
        exists|j: int| i <= j < ns.len() && is_leaf(ns, j),
    decreases ns.len() - i,
{
    assert(node_ok(ns, i));
    if ns[i].children.len() == 0 {
        assert(is_leaf(ns, i));
    } else {
        let c = ns[i].children[0] as int;
        lemma_tip_exists(ns, c);
    }
}

/// The pair of entries at positions `i` and `j`. Serves as the trigger for
/// stating that every two-element combination is listed.
pub open spec fn pair_of(v: Seq<NodeId>, i: int, j: int) -> (NodeId, NodeId) {
    (v[i], v[j])
}

/// Relies on `itertools::Itertools::combinations`: over a vector's elements
/// it yields exactly the two-element combinations, each pair of positions
/// once, in the source's order within each pair.
#[verifier::external_body]
fn leaf_pairs(v: &Vec<NodeId>) -> (r: Vec<(NodeId, NodeId)>)
    ensures
        forall|i: int, j: int|
            #![trigger pair_of(v@, i, j)]
            0 <= i < j < v@.len() ==> exists|k: int|
                0 <= k < r@.len() && r@[k] == pair_of(v@, i, j),
        forall|k: int|
            #![trigger r@[k]]
            0 <= k < r@.len() ==> exists|i: int, j: int|
                0 <= i < j < v@.len() && r@[k] == (v@[i], v@[j]),
{
    v.iter().cloned().combinations(2).map(|p| (p[0], p[1])).collect()
}

impl Tree {
    /// The distance between two nodes as one exact number: the
    /// branch-length sum when every branch has one, else the branch count.
    fn distance_value(&self, a: &NodeId, b: &NodeId) -> (r: Edge)
        requires
            self.well_formed(),
            *a < self@.len(),
            *b < self@.len(),
        ensures
            r@.canonical(),
            value_eq(
                r@.num(),
                r@.scale(),
                dist_val(self@, *a as int, *b as int).0,
                dist_val(self@, *a as int, *b as int).1,
            ),
    {
        proof {
            reveal(dist_val);
        }
        let (sum, count) = self.get_distance(a, b);
        match sum {
            Some(d) => d,
            None => {
                let r = Edge::from_count(count);
                proof {
                    crate::edge::lemma_pow10_pos(0);
                }
                r
            },
        }
    }

    /// The height of the tree: the greatest distance from the root to a tip
    /// (branch-length sum where all lengths exist on the path, else branch
    /// count). Nothing exactly when the tree has no root.
    pub fn height(&self) -> (r: Option<Edge>)
        requires
            self.well_formed(),
        ensures
            r is Some <==> root_of(self@) is Some,
            match root_of(self@) {
                Some(rt) => {
                    let ls = leaf_ids(self@, self@.len() as int);
                    r matches Some(h) && h@.canonical() && (exists|k: int|
                        0 <= k < ls.len() && value_eq(
                            h@.num(),
                            h@.scale(),
                            dist_val(self@, rt, #[trigger] ls[k] as int).0,
                            dist_val(self@, rt, ls[k] as int).1,
                        )) && (forall|k: int|
                        0 <= k < ls.len() ==> value_le(
                            dist_val(self@, rt, #[trigger] ls[k] as int).0,
                            dist_val(self@, rt, ls[k] as int).1,
                            h@.num(),
                            h@.scale(),
                        ))
                },
                None => r is None,
            },
    {
        proof {
            crate::tree::lemma_first_root_in_range(self@, 0);
        }
        let n = self.nodes.len();
        let rt = match self.get_root() {
            Ok(rt) => rt,
            Err(_) => {
                return None;
            },
        };
        proof {
            assert(self@.len() == n);
            assert(root_of(self@) == Some(rt as int));
            lemma_leaf_ids_props(self@, n as int);
            lemma_tip_exists(self@, rt as int);
        }
        let leaves = self.get_leaves();
        let ghost ls = leaf_ids(self@, self@.len() as int);
        proof {
            let j = choose|j: int| rt <= j < self@.len() && is_leaf(self@, j);
            assert(ls.contains(j as NodeId));
            assert(leaves@.len() > 0);
        }
        let first = leaves[0];
        let mut best = self.distance_value(&rt, &first);
        let ghost mut wit: int = 0;
        let mut k: usize = 1;
        while k < leaves.len()
            invariant
                1 <= k <= ls.len(),
                self.well_formed(),
                rt < self@.len(),
                leaves@ == ls,
                forall|w: int| 0 <= w < ls.len() ==> is_leaf(self@, #[trigger] ls[w] as int),
                best@.canonical(),
                0 <= wit < k,
                value_eq(
                    best@.num(),
                    best@.scale(),
                    dist_val(self@, rt as int, ls[wit] as int).0,
                    dist_val(self@, rt as int, ls[wit] as int).1,
                ),
                forall|w: int|
                    0 <= w < k ==> value_le(
                        dist_val(self@, rt as int, #[trigger] ls[w] as int).0,
                        dist_val(self@, rt as int, ls[w] as int).1,
                        best@.num(),
                        best@.scale(),
                    ),
            decreases ls.len() - k,
        {
            let leaf = leaves[k];
            proof {
                assert(is_leaf(self@, ls[k as int] as int));
            }
            let v = self.distance_value(&rt, &leaf);
            if best.le_value(&v) {
                proof {
                    // Everything so far is at most the old best, which is at
                    // most the new value.
                    assert forall|w: int| 0 <= w < k + 1 implies value_le(
                        dist_val(self@, rt as int, #[trigger] ls[w] as int).0,
                        dist_val(self@, rt as int, ls[w] as int).1,
                        v@.num(),
                        v@.scale(),
                    ) by {
                        if w < k {
                            lemma_value_le_trans(
                                dist_val(self@, rt as int, ls[w] as int).0,
                                dist_val(self@, rt as int, ls[w] as int).1,
                                best@.num(),
                                best@.scale(),
                                v@.num(),
                                v@.scale(),
                            );
                        }
                    }
                    wit = k as int;
                }
                best = v;
            } else {
                // The new value is below the best; its leaf stays dominated.
                proof {
                    lemma_value_le_trans(
                        dist_val(self@, rt as int, ls[k as int] as int).0,
                        dist_val(self@, rt as int, ls[k as int] as int).1,
                        v@.num(),
                        v@.scale(),
                        best@.num(),
                        best@.scale(),
                    );
                }
            }
            k += 1;
        }
        Some(best)
    }

    /// The greatest distance value over a nonempty list of node pairs.
    fn max_pair_distance(&self, pairs: &Vec<(NodeId, NodeId)>) -> (r: Edge)
        requires
            self.well_formed(),
            pairs@.len() >= 1,
            forall|k: int| 0 <= k < pairs@.len() ==> pair_ok(self@, #[trigger] pairs@[k]),
        ensures
            r@.canonical(),
            exists|k: int|
                0 <= k < pairs@.len() && value_eq(
                    r@.num(),
                    r@.scale(),
                    dist_val(self@, (#[trigger] pairs@[k]).0 as int, pairs@[k].1 as int).0,
                    dist_val(self@, pairs@[k].0 as int, pairs@[k].1 as int).1,
                ),
            forall|k: int|
                0 <= k < pairs@.len() ==> value_le(
                    dist_val(self@, (#[trigger] pairs@[k]).0 as int, pairs@[k].1 as int).0,
                    dist_val(self@, pairs@[k].0 as int, pairs@[k].1 as int).1,
                    r@.num(),
                    r@.scale(),
                ),
    {
        let first = pairs[0];
        let mut best = self.distance_value(&first.0, &first.1);
        let ghost mut wit: int = 0;
        let mut k: usize = 1;
        while k < pairs.len()
            invariant
                1 <= k <= pairs@.len(),
                self.well_formed(),
                forall|k2: int| 0 <= k2 < pairs@.len() ==> pair_ok(self@, #[trigger] pairs@[k2]),
                best@.canonical(),
                0 <= wit < k,
                value_eq(
                    best@.num(),
                    best@.scale(),
                    dist_val(self@, pairs@[wit].0 as int, pairs@[wit].1 as int).0,
                    dist_val(self@, pairs@[wit].0 as int, pairs@[wit].1 as int).1,
                ),
                forall|k2: int|
                    0 <= k2 < k ==> value_le(
                        dist_val(self@, (#[trigger] pairs@[k2]).0 as int, pairs@[k2].1 as int).0,
                        dist_val(self@, pairs@[k2].0 as int, pairs@[k2].1 as int).1,
                        best@.num(),
                        best@.scale(),
                    ),
            decreases pairs@.len() - k,
        {
            let pair = pairs[k];
            let v = self.distance_value(&pair.0, &pair.1);
            if best.le_value(&v) {
                proof {
                    assert forall|k2: int| 0 <= k2 < k + 1 implies value_le(
                        dist_val(self@, (#[trigger] pairs@[k2]).0 as int, pairs@[k2].1 as int).0,
                        dist_val(self@, pairs@[k2].0 as int, pairs@[k2].1 as int).1,
                        v@.num(),
                        v@.scale(),
                    ) by {
                        if k2 < k {
                            lemma_value_le_trans(
                                dist_val(self@, pairs@[k2].0 as int, pairs@[k2].1 as int).0,
                                dist_val(self@, pairs@[k2].0 as int, pairs@[k2].1 as int).1,
                                best@.num(),
                                best@.scale(),
                                v@.num(),
                                v@.scale(),
                            );
                        }
                    }
                    wit = k as int;
                }
                best = v;
            } else {
                proof {
                    lemma_value_le_trans(
                        dist_val(self@, pairs@[k as int].0 as int, pairs@[k as int].1 as int).0,
                        dist_val(self@, pairs@[k as int].0 as int, pairs@[k as int].1 as int).1,
                        v@.num(),
                        v@.scale(),
                        best@.num(),
                        best@.scale(),
                    );
                }
            }
            k += 1;
        }
        best
    }

    /// The diameter of the tree: the greatest tip-to-tip distance
    /// (branch-length sum where all lengths exist on the walk, else branch
    /// count). Nothing exactly when the tree has fewer than two tips.
    #[verifier::rlimit(100)]
    pub fn diameter(&self) -> (r: Option<Edge>)
        requires
            self.well_formed(),
        ensures
            ({
                let ls = leaf_ids(self@, self@.len() as int);
                &&& (r is Some <==> ls.len() >= 2)
                &&& match r {
                    Some(d) => d@.canonical() && (exists|i: int, j: int|
                        #![trigger ls[i], ls[j]]
                        0 <= i < j < ls.len() && value_eq(
                            d@.num(),
                            d@.scale(),
                            dist_val(self@, ls[i] as int, ls[j] as int).0,
                            dist_val(self@, ls[i] as int, ls[j] as int).1,
                        )) && (forall|i: int, j: int|
                        #![trigger ls[i], ls[j]]
                        0 <= i < j < ls.len() ==> value_le(
                            dist_val(self@, ls[i] as int, ls[j] as int).0,
                            dist_val(self@, ls[i] as int, ls[j] as int).1,
                            d@.num(),
                            d@.scale(),
                        )),
                    None => true,
                }
            }),
    {
        let n = self.nodes.len();
        proof {
            lemma_leaf_ids_props(self@, n as int);
        }
        let leaves = self.get_leaves();
        let ghost ls = leaf_ids(self@, self@.len() as int);
        let pairs = leaf_pairs(&leaves);
        if pairs.len() == 0 {
            proof {
                if ls.len() >= 2 {
                    assert(0 <= 0 < 1 < leaves@.len());
                    assert(pair_of(leaves@, 0, 1) == (leaves@[0], leaves@[1]));
                    assert(exists|k: int|
                        0 <= k < pairs@.len() && pairs@[k] == pair_of(leaves@, 0, 1));
                }
            }
            return None;
        }
        proof {
            // Every listed pair consists of two tips.
            assert forall|k: int| 0 <= k < pairs@.len() implies pair_ok(
                self@,
                #[trigger] pairs@[k],
            ) by {
                let p = pairs@[k];
                assert(exists|i: int, j: int|
                    0 <= i < j < leaves@.len() && pairs@[k] == (leaves@[i], leaves@[j]));
                let (i1, j1) = choose|i: int, j: int|
                    0 <= i < j < leaves@.len() && pairs@[k] == (leaves@[i], leaves@[j]);
                assert(is_leaf(self@, ls[i1] as int));
                assert(is_leaf(self@, ls[j1] as int));
            }
        }
        let best = self.max_pair_distance(&pairs);
        proof {
            lemma_pair_max_to_tip_max(self@, ls, pairs@, best@.num(), best@.scale());
        }
        Some(best)
    }
}

/// A maximum taken over a listing of all tip pairs is a maximum over the tip
/// positions themselves.
proof fn lemma_pair_max_to_tip_max(
    ns: Seq<NodeView>,
    ls: Seq<NodeId>,
    ps: Seq<(NodeId, NodeId)>,
    bn: nat,
    bs: nat,
)
    requires
        forall|k: int|
            0 <= k < ps.len() ==> exists|i: int, j: int|
                0 <= i < j < ls.len() && #[trigger] ps[k] == (ls[i], ls[j]),
        forall|i: int, j: int|
            #![trigger pair_of(ls, i, j)]
            0 <= i < j < ls.len() ==> exists|k: int| 0 <= k < ps.len() && ps[k] == pair_of(
                ls,
                i,
                j,
            ),
        exists|k: int|
            0 <= k < ps.len() && value_eq(
                bn,
                bs,
                dist_val(ns, (#[trigger] ps[k]).0 as int, ps[k].1 as int).0,
                dist_val(ns, ps[k].0 as int, ps[k].1 as int).1,
            ),
        forall|k: int|
            0 <= k < ps.len() ==> value_le(
                dist_val(ns, (#[trigger] ps[k]).0 as int, ps[k].1 as int).0,
                dist_val(ns, ps[k].0 as int, ps[k].1 as int).1,
                bn,
                bs,
            ),
    ensures
        exists|i: int, j: int|
            #![trigger ls[i], ls[j]]
            0 <= i < j < ls.len() && value_eq(
                bn,
                bs,
                dist_val(ns, ls[i] as int, ls[j] as int).0,
                dist_val(ns, ls[i] as int, ls[j] as int).1,
            ),
        forall|i: int, j: int|
            #![trigger ls[i], ls[j]]
            0 <= i < j < ls.len() ==> value_le(
                dist_val(ns, ls[i] as int, ls[j] as int).0,
                dist_val(ns, ls[i] as int, ls[j] as int).1,
                bn,
                bs,
            ),
{
    let kw = choose|k: int|
        0 <= k < ps.len() && value_eq(
            bn,
            bs,
            dist_val(ns, (#[trigger] ps[k]).0 as int, ps[k].1 as int).0,
            dist_val(ns, ps[k].0 as int, ps[k].1 as int).1,
        );
    let (iw, jw) = choose|i: int, j: int|
        0 <= i < j < ls.len() && ps[kw] == (ls[i], ls[j]);
    assert(0 <= iw < jw < ls.len() && value_eq(
        bn,
        bs,
        dist_val(ns, ls[iw] as int, ls[jw] as int).0,
        dist_val(ns, ls[iw] as int, ls[jw] as int).1,
    ));
    assert forall|i: int, j: int|
        #![trigger ls[i], ls[j]]
        0 <= i < j < ls.len() implies value_le(
        dist_val(ns, ls[i] as int, ls[j] as int).0,
        dist_val(ns, ls[i] as int, ls[j] as int).1,
        bn,
        bs,
    ) by {
        assert(pair_of(ls, i, j) == (ls[i], ls[j]));
        let k2 = choose|k2: int| 0 <= k2 < ps.len() && ps[k2] == pair_of(ls, i, j);
        assert(value_le(
            dist_val(ns, ps[k2].0 as int, ps[k2].1 as int).0,
            dist_val(ns, ps[k2].0 as int, ps[k2].1 as int).1,
            bn,
            bs,
        ));
    }
}

/// Both components of the pair are nodes of the arena.
pub open spec fn pair_ok(ns: Seq<NodeView>, p: (NodeId, NodeId)) -> bool {
    &&& p.0 < ns.len()
    &&& p.1 < ns.len()
}

} // verus!
