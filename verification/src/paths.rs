//! Paths, common ancestors, and distances between nodes.

use vstd::prelude::*;

use crate::edge::{digits_plus, digits_shift, digits_val, pow10, value_eq, Edge, EdgeView};
use crate::node::NodeView;
use crate::tree::{node_ok, tree_wf, Tree};
use crate::NodeId;

verus! {

/// The indices on the way from the root down to node `i`, the root first and
/// `i` last.
pub open spec fn path_from_root(ns: Seq<NodeView>, i: int) -> Seq<NodeId>
    decreases i,
{
    if 0 <= i < ns.len() {
        match ns[i].parent {
            Some(p) => if p < i {
                path_from_root(ns, p as int).push(i as NodeId)
            } else {
                seq![i as NodeId]
            },
            None => seq![i as NodeId],
        }
    } else {
        Seq::empty()
    }
}

/// What a root-to-node path looks like in a well-formed tree: it starts at a
/// parentless node, ends at `i`, climbs strictly, and the entry at position
/// `k` lies at depth `k`.
pub proof fn lemma_path_from_root_basics(ns: Seq<NodeView>, i: int)
    requires
        tree_wf(ns),
        0 <= i < ns.len(),
    ensures
        ({
            let p = path_from_root(ns, i);
            &&& p.len() == ns[i].depth + 1
            &&& p.last() == i as NodeId
            &&& forall|k: int|
                0 <= k < p.len() ==> (#[trigger] p[k]) < ns.len()
                    && ns[p[k] as int].depth == k
            &&& forall|k1: int, k2: int| 0 <= k1 < k2 < p.len() ==> p[k1] < p[k2]
            &&& ns[p[0] as int].parent is None
            &&& forall|k: int| 1 <= k < p.len() ==> ns[(#[trigger] p[k]) as int].parent == Some(p[k - 1])
        }),
    decreases i,
{
    assert(node_ok(ns, i));
    let p = path_from_root(ns, i);
    match ns[i].parent {
        Some(q) => {
            lemma_path_from_root_basics(ns, q as int);
            let pq = path_from_root(ns, q as int);
            assert(p == pq.push(i as NodeId));
            assert(forall|k: int| 0 <= k < pq.len() ==> p[k] == pq[k]);
            assert forall|k1: int, k2: int| 0 <= k1 < k2 < p.len() implies p[k1] < p[k2] by {
                if k2 == p.len() - 1 {
                    if k1 < pq.len() - 1 {
                        assert(pq[k1] < pq[pq.len() - 1]);
                    }
                    assert(pq.last() == q as NodeId);
                    assert(q < i);
                }
            }
        },
        None => {
            assert(p == seq![i as NodeId]);
        },
    }
}

/// Every prefix of a root-to-node path is itself the root path of the node
/// where the prefix ends.
pub proof fn lemma_path_from_root_prefix(ns: Seq<NodeView>, i: int, k: int)
    requires
        tree_wf(ns),
        0 <= i < ns.len(),
        0 <= k < path_from_root(ns, i).len(),
    ensures
        path_from_root(ns, path_from_root(ns, i)[k] as int) == path_from_root(ns, i).take(k + 1),
    decreases i,
{
    assert(node_ok(ns, i));
    let p = path_from_root(ns, i);
    lemma_path_from_root_basics(ns, i);
    if k == p.len() - 1 {
        assert(p.take(k + 1) =~= p);
    } else {
        match ns[i].parent {
            Some(q) => {
                let pq = path_from_root(ns, q as int);
                assert(p == pq.push(i as NodeId));
                lemma_path_from_root_prefix(ns, q as int, k);
                assert(p.take(k + 1) =~= pq.take(k + 1));
            },
            None => {
                assert(false);
            },
        }
    }
}

/// The position at which two paths part: the first index where they differ,
/// or the length of the shorter when one is a prefix of the other.
pub open spec fn diverge_at(pa: Seq<NodeId>, pb: Seq<NodeId>) -> int
    decreases pa.len(),
{
    if pa.len() == 0 || pb.len() == 0 {
        0
    } else if pa[0] != pb[0] {
        0
    } else {
        1 + diverge_at(pa.skip(1), pb.skip(1))
    }
}

pub proof fn lemma_diverge_at_basics(pa: Seq<NodeId>, pb: Seq<NodeId>)
    ensures
        ({
            let d = diverge_at(pa, pb);
            &&& 0 <= d <= pa.len()
            &&& d <= pb.len()
            &&& forall|k: int| 0 <= k < d ==> pa[k] == pb[k]
            &&& (d < pa.len() && d < pb.len()) ==> pa[d] != pb[d]
            &&& diverge_at(pb, pa) == d
        }),
    decreases pa.len(),
{
    if pa.len() == 0 || pb.len() == 0 || pa[0] != pb[0] {
    } else {
        lemma_diverge_at_basics(pa.skip(1), pb.skip(1));
        let d0 = diverge_at(pa.skip(1), pb.skip(1));
        let d = diverge_at(pa, pb);
        assert(d == 1 + d0);
        assert forall|k: int| 0 <= k < d implies pa[k] == pb[k] by {
            if k > 0 {
                assert(pa.skip(1)[k - 1] == pb.skip(1)[k - 1]);
                assert(pa.skip(1)[k - 1] == pa[k]);
                assert(pb.skip(1)[k - 1] == pb[k]);
            }
        }
        if d < pa.len() && d < pb.len() {
            assert(pa.skip(1)[d0] == pa[d]);
            assert(pb.skip(1)[d0] == pb[d]);
        }
        assert(diverge_at(pb, pa) == 1 + diverge_at(pb.skip(1), pa.skip(1)));
    }
}

/// The divergence point computed from the outside in: agreement below `d`,
/// disagreement or exhaustion at `d`.
pub proof fn lemma_diverge_at_from_props(pa: Seq<NodeId>, pb: Seq<NodeId>, d: int)
    requires
        0 <= d <= pa.len(),
        d <= pb.len(),
        forall|k: int| 0 <= k < d ==> pa[k] == pb[k],
        d < pa.len() && d < pb.len() ==> pa[d] != pb[d],
        d == pa.len() || d == pb.len() || pa[d] != pb[d],
    ensures
        diverge_at(pa, pb) == d,
    decreases d,
{
    if d == 0 {
    } else {
        lemma_diverge_at_from_props(pa.skip(1), pb.skip(1), d - 1);
    }
}

/// After the point where their root paths part, the two paths share no node.
pub proof fn lemma_path_suffixes_disjoint(ns: Seq<NodeView>, a: int, b: int)
    requires
        tree_wf(ns),
        0 <= a < ns.len(),
        0 <= b < ns.len(),
    ensures
        ({
            let pa = path_from_root(ns, a);
            let pb = path_from_root(ns, b);
            let d = diverge_at(pa, pb);
            forall|k1: int, k2: int|
                d <= k1 < pa.len() && d <= k2 < pb.len() ==> pa[k1] != pb[k2]
        }),
{
    let pa = path_from_root(ns, a);
    let pb = path_from_root(ns, b);
    let d = diverge_at(pa, pb);
    lemma_path_from_root_basics(ns, a);
    lemma_path_from_root_basics(ns, b);
    lemma_diverge_at_basics(pa, pb);
    assert forall|k1: int, k2: int|
        d <= k1 < pa.len() && d <= k2 < pb.len() implies pa[k1] != pb[k2] by {
        if pa[k1] == pb[k2] {
            // A shared node has one root path, so the prefixes agree and the
            // positions coincide, contradicting divergence at d.
            assert(ns[pa[k1] as int].depth == k1);
            assert(ns[pb[k2] as int].depth == k2);
            assert(k1 == k2);
            lemma_path_from_root_prefix(ns, a, k1);
            lemma_path_from_root_prefix(ns, b, k2);
            assert(pa.take(k1 + 1) == pb.take(k1 + 1));
            assert(d < pa.len() && d < pb.len());
            assert(pa.take(k1 + 1)[d] == pa[d]);
            assert(pb.take(k1 + 1)[d] == pb[d]);
            assert(false);
        }
    }
}

/// The scale of an optional branch length (zero when absent).
pub open spec fn opt_scale(e: Option<EdgeView>) -> nat {
    match e {
        Some(ev) => ev.scale(),
        None => 0,
    }
}

/// The greatest scale among a run of optional branch lengths.
pub open spec fn max_scale(es: Seq<Option<EdgeView>>) -> nat
    decreases es.len(),
{
    if es.len() == 0 {
        0
    } else {
        let rest = max_scale(es.drop_last());
        let s = opt_scale(es.last());
        if s > rest {
            s
        } else {
            rest
        }
    }
}

/// The sum of the branch lengths, each scaled up to the common scale `scale`;
/// absent lengths contribute nothing.
pub open spec fn sum_num_at(es: Seq<Option<EdgeView>>, scale: nat) -> nat
    decreases es.len(),
{
    if es.len() == 0 {
        0
    } else {
        sum_num_at(es.drop_last(), scale) + (match es.last() {
            Some(e) => if e.scale() <= scale {
                e.num() * pow10((scale - e.scale()) as nat)
            } else {
                0
            },
            None => 0,
        })
    }
}

/// Every branch length in the run is present.
pub open spec fn all_some(es: Seq<Option<EdgeView>>) -> bool {
    forall|k: int| 0 <= k < es.len() ==> (#[trigger] es[k]) is Some
}

/// The branch lengths crossed on the walk between `a` and `b`: the upward
/// lengths of every node strictly after the point where the two root paths
/// part, on both sides.
pub open spec fn dist_edges(ns: Seq<NodeView>, a: int, b: int) -> Seq<Option<EdgeView>> {
    let pa = path_from_root(ns, a);
    let pb = path_from_root(ns, b);
    let d = diverge_at(pa, pb);
    pa.skip(d).map_values(|id: NodeId| ns[id as int].parent_edge) + pb.skip(d).map_values(
        |id: NodeId| ns[id as int].parent_edge,
    )
}

/// Raising the common scale multiplies the sum by the matching power of ten.
pub proof fn lemma_sum_num_rescale(es: Seq<Option<EdgeView>>, s1: nat, s2: nat)
    requires
        max_scale(es) <= s1 <= s2,
    ensures
        sum_num_at(es, s2) == sum_num_at(es, s1) * pow10((s2 - s1) as nat),
    decreases es.len(),
{
    let k = (s2 - s1) as nat;
    if es.len() == 0 {
        assert(0 * pow10(k) == 0) by (nonlinear_arith);
    } else {
        let rest = es.drop_last();
        assert(max_scale(es) >= max_scale(rest));
        assert(max_scale(es) >= opt_scale(es.last()));
        lemma_sum_num_rescale(rest, s1, s2);
        match es.last() {
            Some(e) => {
                crate::edge::lemma_pow10_adds((s1 - e.scale()) as nat, k);
                let n = e.num();
                let p1 = pow10((s1 - e.scale()) as nat);
                let r1 = sum_num_at(rest, s1);
                assert((r1 + n * p1) * pow10(k) == r1 * pow10(k) + n * (p1 * pow10(k)))
                    by (nonlinear_arith);
            },
            None => {
                assert((sum_num_at(rest, s1) + 0) * pow10(k) == sum_num_at(rest, s1) * pow10(k));
            },
        }
    }
}

/// Splitting a run splits its maximum scale and, at a common scale, its sum.
pub proof fn lemma_sum_num_concat(es1: Seq<Option<EdgeView>>, es2: Seq<Option<EdgeView>>, s: nat)
    ensures
        max_scale(es1 + es2) == if max_scale(es1) > max_scale(es2) {
            max_scale(es1)
        } else {
            max_scale(es2)
        },
        sum_num_at(es1 + es2, s) == sum_num_at(es1, s) + sum_num_at(es2, s),
    decreases es2.len(),
{
    if es2.len() == 0 {
        assert(es1 + es2 =~= es1);
    } else {
        lemma_sum_num_concat(es1, es2.drop_last(), s);
        assert((es1 + es2).drop_last() =~= es1 + es2.drop_last());
        assert((es1 + es2).last() == es2.last());
    }
}

/// Every root path passes through its own endpoint.
pub proof fn lemma_pfr_contains_self(ns: Seq<NodeView>, j: int)
    requires
        0 <= j < ns.len(),
    ensures
        path_from_root(ns, j).contains(j as NodeId),
{
    let p = path_from_root(ns, j);
    match ns[j].parent {
        Some(q) => {
            if q < j {
                assert(p.last() == j as NodeId);
            } else {
                assert(p[0] == j as NodeId);
            }
        },
        None => {
            assert(p[0] == j as NodeId);
        },
    }
}

/// A root path never climbs above its endpoint's index.
pub proof fn lemma_pfr_elements_le(ns: Seq<NodeView>, j: int)
    ensures
        forall|w: int|
            0 <= w < path_from_root(ns, j).len() ==> (#[trigger] path_from_root(ns, j)[w]) <= j,
    decreases j,
{
    if 0 <= j < ns.len() {
        match ns[j].parent {
            Some(q) => {
                if q < j {
                    lemma_pfr_elements_le(ns, q as int);
                    let pq = path_from_root(ns, q as int);
                    let p = path_from_root(ns, j);
                    assert forall|w: int| 0 <= w < p.len() implies (#[trigger] p[w]) <= j by {
                        if w < pq.len() {
                            assert(p[w] == pq[w]);
                        }
                    }
                }
            },
            None => {},
        }
    }
}

/// The most recent common ancestor of `a` and `b`: the node just before the
/// point where their root paths part.
pub open spec fn common_ancestor_spec(ns: Seq<NodeView>, a: int, b: int) -> NodeId {
    if a == b {
        a as NodeId
    } else {
        let pa = path_from_root(ns, a);
        let pb = path_from_root(ns, b);
        path_from_root(ns, a)[diverge_at(pa, pb) - 1]
    }
}

/// Reverses a vector of indices.
fn reversed_ids(v: &Vec<NodeId>) -> (r: Vec<NodeId>)
    ensures
        r@ == v@.reverse(),
{
    let n = v.len();
    let mut out: Vec<NodeId> = Vec::new();
    let mut j: usize = 0;
    while j < n
        invariant
            j <= n,
            n == v@.len(),
            out@.len() == j,
            forall|k: int| 0 <= k < j ==> out@[k] == v@[n - 1 - k],
        decreases n - j,
    {
        out.push(v[n - 1 - j]);
        j += 1;
    }
    proof {
        assert(out@ =~= v@.reverse());
    }
    out
}

impl Tree {
    /// The path from the root down to `node`, the root first.
    pub fn get_path_from_root(&self, node: &NodeId) -> (r: Vec<NodeId>)
        requires
            self.well_formed(),
            *node < self@.len(),
        ensures
            r@ == path_from_root(self@, *node as int),
    {
        let mut up: Vec<NodeId> = Vec::new();
        let mut current: NodeId = *node;
        up.push(current);
        proof {
            lemma_path_from_root_basics(self@, current as int);
            assert(path_from_root(self@, current as int).drop_last() + up@.reverse()
                =~= path_from_root(self@, current as int));
        }
        while self.nodes[current].parent.is_some()
            invariant
                self.well_formed(),
                *node < self@.len(),
                current < self@.len(),
                path_from_root(self@, *node as int) == path_from_root(
                    self@,
                    current as int,
                ).drop_last() + up@.reverse(),
            decreases current,
        {
            let parent_opt = self.nodes[current].parent;
            let p = parent_opt.unwrap();
            proof {
                assert(node_ok(self@, current as int));
                lemma_path_from_root_basics(self@, current as int);
                lemma_path_from_root_basics(self@, p as int);
                let pc = path_from_root(self@, current as int);
                let pp = path_from_root(self@, p as int);
                assert(pc == pp.push(current));
                assert(pc.drop_last() =~= pp);
                assert(up@.push(p).reverse() =~= seq![p] + up@.reverse());
                assert(pp.drop_last() + (seq![p] + up@.reverse()) =~= (pp.drop_last() + seq![p])
                    + up@.reverse());
                assert(pp.drop_last() + seq![p] =~= pp.drop_last().push(p));
                assert(pp.last() == p);
                assert(pp.drop_last().push(p) =~= pp);
            }
            up.push(p);
            current = p;
        }
        proof {
            assert(path_from_root(self@, current as int) == seq![current]);
            assert(path_from_root(self@, current as int).drop_last()
                =~= Seq::<NodeId>::empty());
            assert(Seq::<NodeId>::empty() + up@.reverse() =~= up@.reverse());
        }
        reversed_ids(&up)
    }

    /// The most recent common ancestor of two nodes of the tree.
    pub fn get_common_ancestor(&self, source: &NodeId, target: &NodeId) -> (r: NodeId)
        requires
            self.well_formed(),
            *source < self@.len(),
            *target < self@.len(),
            path_from_root(self@, *source as int)[0] == path_from_root(self@, *target as int)[0],
        ensures
            r == common_ancestor_spec(self@, *source as int, *target as int),
    {
        if *source == *target {
            return *source;
        }
        let pa = self.get_path_from_root(source);
        let pb = self.get_path_from_root(target);
        proof {
            lemma_path_from_root_basics(self@, *source as int);
            lemma_path_from_root_basics(self@, *target as int);
        }
        let minlen = if pa.len() < pb.len() {
            pa.len()
        } else {
            pb.len()
        };
        let mut cursor: usize = 0;
        while cursor < minlen && pa[cursor] == pb[cursor]
            invariant
                cursor <= minlen,
                minlen <= pa@.len(),
                minlen <= pb@.len(),
                minlen == if pa@.len() < pb@.len() {
                    pa@.len()
                } else {
                    pb@.len()
                },
                forall|k: int| 0 <= k < cursor ==> pa@[k] == pb@[k],
            decreases minlen - cursor,
        {
            cursor += 1;
        }
        proof {
            lemma_diverge_at_from_props(pa@, pb@, cursor as int);
        }
        pa[cursor - 1]
    }

    /// The distance between two distinct nodes: the sum of the branch lengths
    /// on the walk between them when every branch has one, and in any case
    /// the number of branches crossed. Each branch is counted once: after
    /// the point where the two root paths part they share no node (see
    /// [`lemma_path_suffixes_disjoint`]). The distance of a node to itself
    /// is reported as no sum and zero branches.
    /// The index where the two paths part ways.
    fn shared_prefix_len(pa: &Vec<NodeId>, pb: &Vec<NodeId>) -> (cursor: usize)
        ensures
            cursor == diverge_at(pa@, pb@),
    {
        let minlen = if pa.len() < pb.len() {
            pa.len()
        } else {
            pb.len()
        };
        let mut cursor: usize = 0;
        while cursor < minlen && pa[cursor] == pb[cursor]
            invariant
                cursor <= minlen,
                minlen <= pa@.len(),
                minlen <= pb@.len(),
                minlen == if pa@.len() < pb@.len() {
                    pa@.len()
                } else {
                    pb@.len()
                },
                forall|k: int| 0 <= k < cursor ==> pa@[k] == pb@[k],
            decreases minlen - cursor,
        {
            cursor += 1;
        }
        proof {
            lemma_diverge_at_from_props(pa@, pb@, cursor as int);
        }
        cursor
    }

    /// The two suffixes from `cursor` on, laid end to end.
    fn suffix_concat(pa: &Vec<NodeId>, pb: &Vec<NodeId>, cursor: usize) -> (walk: Vec<NodeId>)
        requires
            cursor <= pa@.len(),
            cursor <= pb@.len(),
        ensures
            walk@ == pa@.skip(cursor as int) + pb@.skip(cursor as int),
    {
        let mut walk: Vec<NodeId> = Vec::new();
        let mut j: usize = cursor;
        while j < pa.len()
            invariant
                cursor <= j <= pa@.len(),
                walk@ == pa@.subrange(cursor as int, j as int),
            decreases pa@.len() - j,
        {
            walk.push(pa[j]);
            proof {
                assert(walk@ =~= pa@.subrange(cursor as int, j + 1));
            }
            j += 1;
        }
        let mut j2: usize = cursor;
        while j2 < pb.len()
            invariant
                cursor <= j2 <= pb@.len(),
                walk@ == pa@.subrange(cursor as int, pa@.len() as int) + pb@.subrange(
                    cursor as int,
                    j2 as int,
                ),
            decreases pb@.len() - j2,
        {
            walk.push(pb[j2]);
            proof {
                assert(walk@ =~= pa@.subrange(cursor as int, pa@.len() as int) + pb@.subrange(
                    cursor as int,
                    j2 + 1,
                ));
            }
            j2 += 1;
        }
        proof {
            assert(pa@.subrange(cursor as int, pa@.len() as int) =~= pa@.skip(cursor as int));
            assert(pb@.subrange(cursor as int, pb@.len() as int) =~= pb@.skip(cursor as int));
        }
        walk
    }

    /// Sums the upward branch lengths of the listed nodes exactly; nothing
    /// when one of them has no recorded length.
    fn accumulate_edges(&self, walk: &Vec<NodeId>) -> (r: Option<Edge>)
        requires
            self.well_formed(),
            forall|k: int| 0 <= k < walk@.len() ==> (#[trigger] walk@[k]) < self@.len(),
        ensures
            ({
                let es = walk@.map_values(|id: NodeId| self@[id as int].parent_edge);
                &&& all_some(es) ==> (r matches Some(d) && d@.canonical() && value_eq(
                    d@.num(),
                    d@.scale(),
                    sum_num_at(es, max_scale(es)),
                    max_scale(es),
                ))
                &&& !all_some(es) ==> r is None
            }),
    {
        let ghost es = walk@.map_values(|id: NodeId| self@[id as int].parent_edge);
        let mut mant: Vec<u8> = Vec::new();
        let mut scale: usize = 0;
        let mut all = true;
        let mut j3: usize = 0;
        while j3 < walk.len()
            invariant
                j3 <= walk@.len(),
                self.well_formed(),
                es == walk@.map_values(|id: NodeId| self@[id as int].parent_edge),
                forall|k: int| 0 <= k < walk@.len() ==> (#[trigger] walk@[k]) < self@.len(),
                crate::edge::all_digits(mant@),
                scale == max_scale(es.take(j3 as int)),
                digits_val(mant@) == sum_num_at(es.take(j3 as int), scale as nat),
                all == all_some(es.take(j3 as int)),
            decreases walk@.len() - j3,
        {
            let id = walk[j3];
            let ghost seen = es.take(j3 as int);
            let ghost seen1 = es.take(j3 + 1);
            proof {
                assert(node_ok(self@, id as int));
                assert(seen1.drop_last() =~= seen);
                assert(seen1.last() == es[j3 as int]);
                assert(es[j3 as int] == self@[id as int].parent_edge);
            }
            match &self.nodes[id].parent_edge {
                Some(e) => {
                    proof {
                        assert(self@[id as int].parent_edge == Some(e@));
                        assert(crate::node::opt_edge_wf(self@[id as int].parent_edge));
                    }
                    let escale = e.frac_part.len();
                    let news = if escale > scale {
                        escale
                    } else {
                        scale
                    };
                    proof {
                        lemma_sum_num_rescale(seen, scale as nat, news as nat);
                    }
                    digits_shift(&mut mant, news - scale);
                    let mut em = e.mantissa_vec();
                    digits_shift(&mut em, news - escale);
                    mant = digits_plus(&mant, &em);
                    scale = news;
                    proof {
                        assert(max_scale(seen1) == news);
                        assert(digits_val(mant@) == sum_num_at(seen1, news as nat));
                    }
                },
                None => {
                    all = false;
                    proof {
                        assert(!all_some(seen1));
                        assert(max_scale(seen1) == max_scale(seen));
                        assert(sum_num_at(seen1, scale as nat) == sum_num_at(seen, scale as nat));
                    }
                },
            }
            j3 += 1;
        }
        proof {
            assert(es.take(walk@.len() as int) =~= es);
        }
        if all {
            Some(Edge::from_parts(mant, scale))
        } else {
            None
        }
    }

    #[verifier::rlimit(50)]
    pub fn get_distance(&self, source: &NodeId, target: &NodeId) -> (r: (Option<Edge>, usize))
        requires
            self.well_formed(),
            *source < self@.len(),
            *target < self@.len(),
        ensures
            *source == *target ==> r == (None::<Edge>, 0usize),
            *source != *target ==> ({
                let es = dist_edges(self@, *source as int, *target as int);
                &&& r.1 == es.len()
                &&& all_some(es) ==> (r.0 matches Some(d) && d@.canonical() && value_eq(
                    d@.num(),
                    d@.scale(),
                    sum_num_at(es, max_scale(es)),
                    max_scale(es),
                ))
                &&& !all_some(es) ==> r.0 is None
            }),
    {
        if *source == *target {
            return (None, 0);
        }
        let pa = self.get_path_from_root(source);
        let pb = self.get_path_from_root(target);
        proof {
            lemma_path_from_root_basics(self@, *source as int);
            lemma_path_from_root_basics(self@, *target as int);
            lemma_diverge_at_basics(pa@, pb@);
        }
        let cursor = Tree::shared_prefix_len(&pa, &pb);
        let walk = Tree::suffix_concat(&pa, &pb, cursor);
        let ghost es = dist_edges(self@, *source as int, *target as int);
        proof {
            assert(es =~= walk@.map_values(|id: NodeId| self@[id as int].parent_edge));
            assert(forall|k: int| 0 <= k < walk@.len() ==> (#[trigger] walk@[k]) < self@.len());
        }
        let sum = self.accumulate_edges(&walk);
        let branches = walk.len();
        (sum, branches)
    }
}

} // verus!
