//! Mutations of a built tree: rescaling branch lengths, pruning subtrees,
//! and contracting single-child nodes.

use vstd::prelude::*;

use crate::edge::{Edge, EdgeView};
use crate::node::{opt_edge_rescaled, Node, NodeView};
use crate::tree::{attached_ok, child_link_ok, node_ok, parent_link_ok, tree_wf, Tree};
use crate::NodeId;

verus! {

/// All branch lengths recorded on `n` can take `f.scale()` more fraction
/// digits without leaving the machine's index range.
pub open spec fn node_scales_fit(n: NodeView, f: EdgeView) -> bool {
    &&& match n.parent_edge {
        Some(e) => e.scale() + f.scale() <= usize::MAX,
        None => true,
    }
    &&& forall|k: int|
        0 <= k < n.child_edges.len() ==> match #[trigger] n.child_edges[k] {
            Some(e) => e.scale() + f.scale() <= usize::MAX,
            None => true,
        }
}

/// Every branch length in the tree can be rescaled by `f` within machine
/// limits.
pub open spec fn scales_fit(ns: Seq<NodeView>, f: EdgeView) -> bool {
    forall|i: int| 0 <= i < ns.len() ==> node_scales_fit(#[trigger] ns[i], f)
}

/// `new` is `old` with every recorded branch length multiplied by `f` and
/// everything else unchanged.
pub open spec fn node_rescaled(new: NodeView, old: NodeView, f: EdgeView) -> bool {
    &&& new == (NodeView { parent_edge: new.parent_edge, child_edges: new.child_edges, ..old })
    &&& opt_edge_rescaled(new.parent_edge, old.parent_edge, f)
    &&& new.child_edges.len() == old.child_edges.len()
    &&& forall|k: int|
        0 <= k < old.child_edges.len() ==> opt_edge_rescaled(
            #[trigger] new.child_edges[k],
            old.child_edges[k],
            f,
        )
}

/// Rescaling branch lengths touches no structure, so well-formedness holds.
proof fn lemma_wf_rescaled(ns0: Seq<NodeView>, ns1: Seq<NodeView>, f: EdgeView)
    requires
        tree_wf(ns0),
        ns1.len() == ns0.len(),
        forall|i: int| 0 <= i < ns0.len() ==> node_rescaled(#[trigger] ns1[i], ns0[i], f),
    ensures
        tree_wf(ns1),
{
    assert forall|i: int| 0 <= i < ns1.len() implies #[trigger] node_ok(ns1, i) by {
        assert(node_ok(ns0, i));
        assert(node_rescaled(ns1[i], ns0[i], f));
        let n0 = ns0[i];
        let n1 = ns1[i];
        assert(n1.children == n0.children);
        assert forall|k: int| 0 <= k < n1.child_edges.len() implies crate::node::opt_edge_wf(
            #[trigger] n1.child_edges[k],
        ) by {
            assert(opt_edge_rescaled(n1.child_edges[k], n0.child_edges[k], f));
        }
        if !n1.deleted {
            assert forall|k: int| 0 <= k < n1.children.len() implies child_link_ok(
                ns1,
                i,
                #[trigger] n1.children[k],
            ) by {
                assert(child_link_ok(ns0, i, n0.children[k]));
                let c = n0.children[k] as int;
                assert(node_rescaled(ns1[c], ns0[c], f));
            }
            match n1.parent {
                Some(p) => {
                    assert(parent_link_ok(ns0, i));
                    assert(node_rescaled(ns1[p as int], ns0[p as int], f));
                    assert(ns1[p as int].children.contains(i as NodeId));
                    assert(parent_link_ok(ns1, i));
                },
                None => {
                    assert(parent_link_ok(ns1, i));
                },
            }
        }
    }
}

impl Tree {
    /// Multiplies every branch length in the tree (each node's upward length
    /// and the mirrored per-child lengths) by `factor`, exactly. Structure,
    /// names and comments are untouched.
    pub fn rescale(&mut self, factor: &Edge)
        requires
            old(self).well_formed(),
            factor@.wf(),
            scales_fit(old(self)@, factor@),
        ensures
            final (self)@.len() == old(self)@.len(),
            forall|i: int|
                0 <= i < old(self)@.len() ==> node_rescaled(
                    #[trigger] final (self)@[i],
                    old(self)@[i],
                    factor@,
                ),
            final (self).well_formed(),
    {
        let n = self.nodes.len();
        let mut i: usize = 0;
        while i < n
            invariant
                i <= n,
                n == self@.len(),
                self@.len() == old(self)@.len(),
                factor@.wf(),
                tree_wf(old(self)@),
                scales_fit(old(self)@, factor@),
                forall|j: int|
                    0 <= j < i ==> node_rescaled(#[trigger] self@[j], old(self)@[j], factor@),
                forall|j: int| i <= j < n ==> self@[j] == old(self)@[j],
            decreases n - i,
        {
            proof {
                assert(node_ok(old(self)@, i as int));
                assert(node_scales_fit(old(self)@[i as int], factor@));
            }
            let ghost pre = self@;
            let node = &mut self.nodes[i];
            node.rescale_edges(factor);
            proof {
                assert(self@ =~= pre.update(i as int, self@[i as int]));
                assert(node_rescaled(self@[i as int], old(self)@[i as int], factor@));
            }
            i += 1;
        }
        proof {
            lemma_wf_rescaled(old(self)@, self@, factor@);
        }
    }

    /// Prunes the subtree rooted at `root`: every node of it is detached and
    /// marked deleted (its arena slot stays), and `root` disappears from its
    /// parent's child records.
    pub fn prune(&mut self, root: &NodeId)
        requires
            old(self).well_formed(),
            *root < old(self)@.len(),
        ensures
            final (self)@.len() == old(self)@.len(),
            final (self).well_formed(),
            forall|j: int|
                0 <= j < old(self)@.len() && in_subtree(old(self)@, *root as int, j)
                    ==> final (self)@[j] == deleted_view(old(self)@[j]),
            forall|j: int|
                0 <= j < old(self)@.len() && !in_subtree(old(self)@, *root as int, j) && old(
                    self,
                )@[*root as int].parent != Some(j as NodeId) ==> final (self)@[j] == old(self)@[j],
            match old(self)@[*root as int].parent {
                Some(p) => !in_subtree(old(self)@, *root as int, p as int) && final (self)@[
                    p as int
                ] == (match crate::node::child_index_of(old(self)@[p as int].children, *root) {
                    Some(k) => NodeView {
                        children: old(self)@[p as int].children.remove(k),
                        child_edges: old(self)@[p as int].child_edges.remove(k),
                        ..old(self)@[p as int]
                    },
                    None => old(self)@[p as int],
                }),
                None => true,
            },
    {
        let n = self.nodes.len();
        // Work out which nodes lie under `root`: a node does exactly when its
        // root path passes through `root`, which its parent's mark decides.
        let mut desc: Vec<bool> = Vec::new();
        let mut j: usize = 0;
        while j < n
            invariant
                j <= n,
                n == self@.len(),
                *self == *old(self),
                self.well_formed(),
                *root < n,
                desc@.len() == j,
                forall|k: int| 0 <= k < j ==> desc@[k] == in_subtree(self@, *root as int, k),
            decreases n - j,
        {
            let mark: bool = if j == *root {
                true
            } else {
                match self.nodes[j].parent {
                    Some(p) => if p < j {
                        desc[p]
                    } else {
                        false
                    },
                    None => false,
                }
            };
            proof {
                let ns = self@;
                let r = *root as int;
                let pj = crate::paths::path_from_root(ns, j as int);
                match ns[j as int].parent {
                    Some(q) => {
                        if q < j {
                            assert(pj == crate::paths::path_from_root(ns, q as int).push(
                                j as NodeId,
                            ));
                            if j == *root {
                                assert(pj[pj.len() - 1] == *root);
                                assert(pj.contains(*root));
                            } else {
                                if crate::paths::path_from_root(ns, q as int).contains(
                                    *root,
                                ) {
                                    let w = choose|w: int|
                                        0 <= w < crate::paths::path_from_root(ns, q as int).len()
                                            && crate::paths::path_from_root(ns, q as int)[w]
                                            == *root;
                                    assert(pj[w] == *root);
                                } else {
                                    assert forall|w: int| 0 <= w < pj.len() implies pj[w]
                                        != *root by {
                                        if w < pj.len() - 1 {
                                            assert(pj[w] == crate::paths::path_from_root(
                                                ns,
                                                q as int,
                                            )[w]);
                                        }
                                    }
                                }
                            }
                        } else {
                            assert(pj == seq![j as NodeId]);
                            assert(pj[0] == j as NodeId);
                        }
                    },
                    None => {
                        assert(pj == seq![j as NodeId]);
                        assert(pj[0] == j as NodeId);
                    },
                }
                assert(mark == in_subtree(ns, r, j as int));
            }
            desc.push(mark);
            j += 1;
        }
        let parent_opt = self.nodes[*root].parent;
        // Mark everything under `root` as deleted.
        let mut j2: usize = 0;
        while j2 < n
            invariant
                j2 <= n,
                n == self@.len(),
                self@.len() == old(self)@.len(),
                tree_wf(old(self)@),
                *root < n,
                desc@.len() == n,
                forall|k: int| 0 <= k < n ==> desc@[k] == in_subtree(old(self)@, *root as int, k),
                forall|k: int|
                    0 <= k < j2 && desc@[k] ==> self@[k] == deleted_view(#[trigger] old(self)@[k]),
                forall|k: int| 0 <= k < j2 && !desc@[k] ==> self@[k] == old(self)@[k],
                forall|k: int| j2 <= k < n ==> self@[k] == old(self)@[k],
            decreases n - j2,
        {
            if desc[j2] {
                let ghost pre = self@;
                let nd = &mut self.nodes[j2];
                nd.delete();
                proof {
                    assert(self@ =~= pre.update(j2 as int, self@[j2 as int]));
                }
            }
            j2 += 1;
        }
        let ghost after_del = self@;
        // Detach `root` from its parent's records.
        if let Some(p) = parent_opt {
            proof {
                assert(node_ok(old(self)@, *root as int));
                crate::paths::lemma_pfr_elements_le(old(self)@, p as int);
                if in_subtree(old(self)@, *root as int, p as int) {
                    let w = choose|w: int|
                        0 <= w < crate::paths::path_from_root(old(self)@, p as int).len()
                            && crate::paths::path_from_root(old(self)@, p as int)[w] == *root;
                    assert(false);
                }
                crate::node::lemma_child_index_of_correct(old(self)@[p as int].children, *root);
                assert(node_ok(old(self)@, p as int));
            }
            let pn = &mut self.nodes[p];
            pn.remove_child(root);
            proof {
                assert(self@ =~= after_del.update(p as int, self@[p as int]));
            }
        }
        proof {
            let ns0 = old(self)@;
            let rr = *root as int;
            assert forall|j: int|
                0 <= j < ns0.len() && !in_subtree(ns0, rr, j) && ns0[rr].parent != Some(
                    j as NodeId,
                ) implies self@[j] == ns0[j] by {
                assert(desc@[j] == in_subtree(ns0, rr, j));
                match parent_opt {
                    Some(p) => {
                        assert(j != p as int);
                        assert(self@[j] == after_del[j]);
                    },
                    None => {},
                }
            }
            assert forall|j: int|
                0 <= j < ns0.len() && in_subtree(ns0, rr, j) implies self@[j] == deleted_view(
                ns0[j],
            ) by {
                assert(desc@[j] == in_subtree(ns0, rr, j));
                match parent_opt {
                    Some(p) => {
                        assert(j != p as int);
                        assert(self@[j] == after_del[j]);
                    },
                    None => {},
                }
            }
                        match parent_opt {
                Some(p) => {
                    assert(desc@[p as int] == in_subtree(ns0, rr, p as int));
                    assert(after_del[p as int] == ns0[p as int]);
                    assert(self@[p as int] == (match crate::node::child_index_of(
                        ns0[p as int].children,
                        *root,
                    ) {
                        Some(k) => NodeView {
                            children: ns0[p as int].children.remove(k),
                            child_edges: ns0[p as int].child_edges.remove(k),
                            ..ns0[p as int]
                        },
                        None => ns0[p as int],
                    }));
                },
                None => {},
            }
            lemma_wf_pruned(ns0, self@, rr);
        }
    }
}

/// Node `j` can be contracted: it is alive and has both a parent and
/// exactly one child.
pub open spec fn contractible(ns: Seq<NodeView>, j: int) -> bool {
    &&& 0 <= j < ns.len()
    &&& !ns[j].deleted
    &&& ns[j].parent is Some
    &&& ns[j].children.len() == 1
}

/// How many nodes among the first `n` slots are alive.
pub open spec fn live_count(ns: Seq<NodeView>, n: int) -> nat
    decreases n,
{
    if n <= 0 {
        0
    } else {
        live_count(ns, n - 1) + if !ns[n - 1].deleted {
            1nat
        } else {
            0nat
        }
    }
}

/// Marking one live slot deleted lowers the live count by one.
proof fn lemma_live_count_one_deleted(ns0: Seq<NodeView>, ns1: Seq<NodeView>, n: int, v: int)
    requires
        0 <= v < n,
        forall|j: int| 0 <= j < n && j != v ==> ns1[j].deleted == ns0[j].deleted,
        !ns0[v].deleted,
        ns1[v].deleted,
    ensures
        live_count(ns1, n) + 1 == live_count(ns0, n),
    decreases n,
{
    if v == n - 1 {
        lemma_live_count_same(ns0, ns1, n - 1);
    } else {
        lemma_live_count_one_deleted(ns0, ns1, n - 1, v);
    }
}

/// Slots with the same liveness have the same live count.
proof fn lemma_live_count_same(ns0: Seq<NodeView>, ns1: Seq<NodeView>, n: int)
    requires
        forall|j: int| 0 <= j < n ==> ns1[j].deleted == ns0[j].deleted,
    ensures
        live_count(ns1, n) == live_count(ns0, n),
    decreases n,
{
    if n > 0 {
        lemma_live_count_same(ns0, ns1, n - 1);
    }
}

/// A node under `c` sits at least as deep as `c`.
proof fn lemma_subtree_depth_ge(ns: Seq<NodeView>, c: int, j: int)
    requires
        tree_wf(ns),
        ns.len() <= usize::MAX,
        0 <= c < ns.len(),
        0 <= j < ns.len(),
        in_subtree(ns, c, j),
    ensures
        ns[j].depth >= ns[c].depth,
{
    crate::paths::lemma_path_from_root_basics(ns, j);
    let pj = crate::paths::path_from_root(ns, j);
    let w = choose|w: int| 0 <= w < pj.len() && pj[w] == c as NodeId;
    assert(ns[pj[w] as int].depth == w);
    assert(ns[pj[pj.len() - 1] as int].depth == pj.len() - 1);
    assert(pj.last() == j as NodeId);
}

impl Tree {
    /// The first live node with a parent and exactly one child, if any.
    fn find_contractible(&self) -> (r: Option<NodeId>)
        ensures
            match r {
                Some(v) => contractible(self@, v as int),
                None => forall|j: int| !contractible(self@, j),
            },
    {
        let mut i: usize = 0;
        while i < self.nodes.len()
            invariant
                i <= self@.len(),
                forall|k: int| 0 <= k < i ==> !contractible(self@, k),
            decreases self@.len() - i,
        {
            if !self.nodes[i].deleted && self.nodes[i].parent.is_some()
                && self.nodes[i].children.len() == 1 {
                return Some(i);
            }
            i += 1;
        }
        None
    }

    /// Contracts one node with a parent and a single child: the child moves
    /// up under the node's parent, the two branch lengths fuse (their exact
    /// sum when both are present, nothing otherwise), and the node's slot is
    /// marked deleted.
    fn contract_one(&mut self, v: NodeId)
        requires
            old(self).well_formed(),
            contractible(old(self)@, v as int),
        ensures
            final (self).well_formed(),
            final (self)@.len() == old(self)@.len(),
            live_count(final (self)@, final (self)@.len() as int) + 1 == live_count(
                old(self)@,
                old(self)@.len() as int,
            ),
            forall|j: int|
                0 <= j < old(self)@.len() && !(#[trigger] final (self)@[j]).deleted ==> !old(
                    self,
                )@[j].deleted && final (self)@[j].name == old(self)@[j].name && final (self)@[
                    j
                ].comment == old(self)@[j].comment && final (self)@[j].children.len() == old(
                    self,
                )@[j].children.len(),
            forall|j: int|
                0 <= j < old(self)@.len() ==> (#[trigger] final (self)@[j]).deleted == (old(
                    self,
                )@[j].deleted || j == v as int),
            forall|j: int|
                0 <= j < old(self)@.len() && j != v as int ==> (contractible(final (self)@, j)
                    == contractible(old(self)@, j)),
            forall|j: int|
                0 <= j < old(self)@.len() && j != old(self)@[v as int].children[0] as int ==> (
                #[trigger] final (self)@[j]).parent == old(self)@[j].parent && final (self)@[
                    j
                ].parent_edge == old(self)@[j].parent_edge,
            ({
                let ci = old(self)@[v as int].children[0] as int;
                &&& final (self)@[ci].parent == old(self)@[v as int].parent
                &&& match (old(self)@[v as int].parent_edge, old(self)@[ci].parent_edge) {
                    (Some(a), Some(b)) => final (self)@[ci].parent_edge matches Some(f)
                        && f.canonical() && crate::edge::value_eq(
                        f.num(),
                        f.scale(),
                        a.num() * crate::edge::pow10(b.scale()) + b.num() * crate::edge::pow10(
                            a.scale(),
                        ),
                        a.scale() + b.scale(),
                    ),
                    _ => final (self)@[ci].parent_edge is None,
                }
            }),
    {
        let n = self.nodes.len();
        let parent_opt = self.nodes[v].parent;
        let p = match parent_opt {
            Some(p) => p,
            None => {
                proof {
                    assert(false);
                }
                return ;
            },
        };
        let c = self.nodes[v].children[0];
        proof {
            assert(node_ok(self@, v as int));
            assert(crate::tree::child_link_ok(self@, v as int, c));
            assert(crate::tree::parent_link_ok(self@, v as int));
            assert(node_ok(self@, c as int));
            assert(node_ok(self@, p as int));
        }
        // Fuse the two branch lengths.
        let fused: Option<Edge> = match &self.nodes[v].parent_edge {
            Some(a) => {
                match &self.nodes[c].parent_edge {
                    Some(b) => {
                        proof {
                            assert(self@[v as int].parent_edge == Some(a@));
                            assert(self@[c as int].parent_edge == Some(b@));
                            assert(crate::node::opt_edge_wf(self@[v as int].parent_edge));
                            assert(crate::node::opt_edge_wf(self@[c as int].parent_edge));
                        }
                        Some(a.plus(b))
                    },
                    None => None,
                }
            },
            None => None,
        };
        let fused2 = crate::edge::duplicate_opt_edge(&fused);
        let ghost fe = crate::edge::opt_edge_view(fused);
        proof {
            assert(crate::node::opt_edge_wf(fe));
        }
        // Mark the nodes under the child; their depths all move up by one.
        let mut desc: Vec<bool> = Vec::new();
        let mut j: usize = 0;
        while j < n
            invariant
                j <= n,
                n == self@.len(),
                *self == *old(self),
                self.well_formed(),
                c < n,
                desc@.len() == j,
                forall|k: int| 0 <= k < j ==> desc@[k] == in_subtree(self@, c as int, k),
            decreases n - j,
        {
            let mark: bool = if j == c {
                true
            } else {
                match self.nodes[j].parent {
                    Some(q) => if q < j {
                        desc[q]
                    } else {
                        false
                    },
                    None => false,
                }
            };
            proof {
                let ns = self@;
                let pj = crate::paths::path_from_root(ns, j as int);
                match ns[j as int].parent {
                    Some(q) => {
                        if q < j {
                            assert(pj == crate::paths::path_from_root(ns, q as int).push(
                                j as NodeId,
                            ));
                            if j == c {
                                assert(pj[pj.len() - 1] == c);
                                assert(pj.contains(c));
                            } else {
                                if crate::paths::path_from_root(ns, q as int).contains(c) {
                                    let w = choose|w: int|
                                        0 <= w < crate::paths::path_from_root(ns, q as int).len()
                                            && crate::paths::path_from_root(ns, q as int)[w] == c;
                                    assert(pj[w] == c);
                                } else {
                                    assert forall|w: int| 0 <= w < pj.len() implies pj[w] != c by {
                                        if w < pj.len() - 1 {
                                            assert(pj[w] == crate::paths::path_from_root(
                                                ns,
                                                q as int,
                                            )[w]);
                                        }
                                    }
                                }
                            }
                        } else {
                            assert(pj == seq![j as NodeId]);
                            assert(pj[0] == j as NodeId);
                        }
                    },
                    None => {
                        assert(pj == seq![j as NodeId]);
                        assert(pj[0] == j as NodeId);
                    },
                }
                assert(mark == in_subtree(ns, c as int, j as int));
            }
            desc.push(mark);
            j += 1;
        }
        // Shift the depths of the nodes under the child.
        let mut j2: usize = 0;
        while j2 < n
            invariant
                j2 <= n,
                n == self@.len(),
                self@.len() == old(self)@.len(),
                tree_wf(old(self)@),
                old(self)@.len() <= usize::MAX,
                contractible(old(self)@, v as int),
                v < n,
                c < n,
                old(self)@[v as int].children[0] == c,
                !old(self)@[c as int].deleted,
                old(self)@[c as int].depth >= 2,
                desc@.len() == n,
                forall|k: int| 0 <= k < n ==> desc@[k] == in_subtree(old(self)@, c as int, k),
                forall|k: int|
                    0 <= k < j2 && desc@[k] ==> self@[k] == (NodeView {
                        depth: (old(self)@[k].depth - 1) as usize,
                        ..old(self)@[k]
                    }),
                forall|k: int| 0 <= k < j2 && !desc@[k] ==> self@[k] == old(self)@[k],
                forall|k: int| j2 <= k < n ==> self@[k] == old(self)@[k],
            decreases n - j2,
        {
            if desc[j2] {
                proof {
                    lemma_subtree_depth_ge(old(self)@, c as int, j2 as int);
                }
                let ghost pre = self@;
                let nd = &mut self.nodes[j2];
                let d = nd.depth;
                nd.set_depth(d - 1);
                proof {
                    assert(self@ =~= pre.update(j2 as int, self@[j2 as int]));
                    assert(pre[j2 as int] == old(self)@[j2 as int]);
                    assert(self@[j2 as int] == (NodeView {
                        depth: (old(self)@[j2 as int].depth - 1) as usize,
                        ..old(self)@[j2 as int]
                    }));
                    assert(forall|k: int| 0 <= k < n && k != j2 as int ==> self@[k] == pre[k]);
                }
            }
            j2 += 1;
        }
        // Move the child up under the node's parent, with the fused length.
        let ghost after_shift = self@;
        proof {
            assert(in_subtree(old(self)@, c as int, c as int)) by {
                crate::paths::lemma_pfr_contains_self(old(self)@, c as int);
            }
            assert(!in_subtree(old(self)@, c as int, v as int)) by {
                crate::paths::lemma_pfr_elements_le(old(self)@, v as int);
                if in_subtree(old(self)@, c as int, v as int) {
                    let w = choose|w: int|
                        0 <= w < crate::paths::path_from_root(old(self)@, v as int).len()
                            && crate::paths::path_from_root(old(self)@, v as int)[w] == c;
                    assert(false);
                }
            }
            assert(!in_subtree(old(self)@, c as int, p as int)) by {
                crate::paths::lemma_pfr_elements_le(old(self)@, p as int);
                if in_subtree(old(self)@, c as int, p as int) {
                    let w = choose|w: int|
                        0 <= w < crate::paths::path_from_root(old(self)@, p as int).len()
                            && crate::paths::path_from_root(old(self)@, p as int)[w] == c;
                    assert(false);
                }
            }
        }
        proof {
            assert(desc@[c as int] == in_subtree(old(self)@, c as int, c as int));
            assert(desc@[c as int]);
            assert(after_shift[c as int] == (NodeView {
                depth: (old(self)@[c as int].depth - 1) as usize,
                ..old(self)@[c as int]
            }));
            assert(desc@[v as int] == in_subtree(old(self)@, c as int, v as int));
            assert(after_shift[v as int] == old(self)@[v as int]);
            assert(desc@[p as int] == in_subtree(old(self)@, c as int, p as int));
            assert(after_shift[p as int] == old(self)@[p as int]);
        }
        let cn = &mut self.nodes[c];
        cn.set_parent(p, fused);
        proof {
            assert(self@ =~= after_shift.update(c as int, self@[c as int]));
        }
        let ghost after_reparent = self@;
        proof {
            assert(node_ok(old(self)@, p as int));
            assert(after_reparent[p as int] == old(self)@[p as int]);
            assert(after_reparent[p as int].local_wf());
            crate::node::lemma_child_index_of_correct(old(self)@[p as int].children, v);
        }
        let pn = &mut self.nodes[p];
        pn.replace_child(&v, c, fused2);
        proof {
            assert(self@ =~= after_reparent.update(p as int, self@[p as int]));
        }
        let ghost after_swap = self@;
        proof {
            assert(after_swap[v as int] == old(self)@[v as int]);
        }
        let vn = &mut self.nodes[v];
        vn.delete();
        proof {
            assert(self@ =~= after_swap.update(v as int, self@[v as int]));
            let ns0 = old(self)@;
            let ns1 = self@;
            assert(ns1[v as int] == deleted_view(ns0[v as int]));
            assert(ns1[c as int] == (NodeView {
                parent: Some(p),
                parent_edge: fe,
                depth: (ns0[c as int].depth - 1) as usize,
                ..ns0[c as int]
            }));
            assert forall|j: int|
                0 <= j < ns0.len() && j != c && in_subtree(
                    ns0,
                    c as int,
                    j,
                ) implies ns1[j] == (NodeView {
                depth: (ns0[j].depth - 1) as usize,
                ..ns0[j]
            }) by {
                assert(desc@[j] == in_subtree(ns0, c as int, j));
                assert(j != v as int && j != p as int);
                assert(after_shift[j] == (NodeView { depth: (ns0[j].depth - 1) as usize, ..ns0[j] }));
            }
            assert forall|j: int|
                0 <= j < ns0.len() && j != v as int && j != p as int && j != c as int
                    && !in_subtree(ns0, c as int, j) implies ns1[j] == ns0[j] by {
                assert(desc@[j] == in_subtree(ns0, c as int, j));
                assert(after_shift[j] == ns0[j]);
            }
            lemma_wf_contracted(ns0, ns1, v as int, p as int, c as int, fe);
            assert forall|j: int| 0 <= j < n && j != v as int implies ns1[j].deleted == ns0[
                j
            ].deleted by {
                if j == p as int || j == c as int {
                } else if in_subtree(ns0, c as int, j) {
                } else {
                }
            }
            lemma_live_count_one_deleted(ns0, ns1, n as int, v as int);
            // Contraction takes exactly one node out of the contractible
            // set: every other node keeps its liveness, its parent-or-not
            // status and its child count.
            assert forall|j: int|
                0 <= j < n && j != v as int implies (contractible(ns1, j) == contractible(
                ns0,
                j,
            )) by {
                assert(ns1[j].deleted == ns0[j].deleted);
                if j == c as int {
                    assert(ns1[c as int].children.len() == ns0[c as int].children.len());
                    assert(ns1[c as int].parent is Some && ns0[c as int].parent is Some);
                } else if j == p as int {
                    crate::node::lemma_child_index_of_correct(ns0[p as int].children, v);
                    assert(ns1[p as int].children.len() == ns0[p as int].children.len());
                    assert(ns1[p as int].parent == ns0[p as int].parent);
                }
            }
            assert forall|j: int|
                0 <= j < n && j != c as int implies (#[trigger] ns1[j]).parent == ns0[j].parent
                    && ns1[j].parent_edge == ns0[j].parent_edge by {
                if j == v as int {
                } else if j == p as int {
                } else if in_subtree(ns0, c as int, j) {
                } else {
                }
            }
            assert(ns1[c as int].parent == ns0[v as int].parent);
            match (ns0[v as int].parent_edge, ns0[c as int].parent_edge) {
                (Some(a), Some(b)) => {
                    assert(ns1[c as int].parent_edge == fe);
                    assert(fe matches Some(f) && f.canonical() && crate::edge::value_eq(
                        f.num(),
                        f.scale(),
                        a.num() * crate::edge::pow10(b.scale()) + b.num() * crate::edge::pow10(
                            a.scale(),
                        ),
                        a.scale() + b.scale(),
                    ));
                },
                _ => {
                    assert(ns1[c as int].parent_edge is None);
                },
            }
        }
    }

    /// Contracts every node that has a parent and exactly one child, fusing
    /// the two branch lengths (their exact sum when both are present,
    /// nothing otherwise), until no such node remains. Exactly the nodes
    /// that start out contractible are removed -- in particular every tip
    /// survives -- and every survivor keeps its name, comment, child count
    /// and root-or-not status; a survivor whose parent is not contracted
    /// keeps that parent and the branch length to it unchanged.
    pub fn compress(&mut self)
        requires
            old(self).well_formed(),
        ensures
            final (self).well_formed(),
            final (self)@.len() == old(self)@.len(),
            forall|j: int| !contractible(final (self)@, j),
            forall|j: int|
                0 <= j < old(self)@.len() ==> (#[trigger] final (self)@[j]).deleted == (old(
                    self,
                )@[j].deleted || contractible(old(self)@, j)),
            forall|j: int|
                0 <= j < old(self)@.len() && !(#[trigger] final (self)@[j]).deleted ==> !old(
                    self,
                )@[j].deleted && final (self)@[j].name == old(self)@[j].name && final (self)@[
                    j
                ].comment == old(self)@[j].comment && final (self)@[j].children.len() == old(
                    self,
                )@[j].children.len() && (final (self)@[j].parent is Some <==> old(self)@[j].parent
                is Some),
            forall|j: int|
                0 <= j < old(self)@.len() && !(#[trigger] final (self)@[j]).deleted && match old(
                    self,
                )@[j].parent {
                    Some(q) => !contractible(old(self)@, q as int),
                    None => false,
                } ==> final (self)@[j].parent == old(self)@[j].parent && final (self)@[
                    j
                ].parent_edge == old(self)@[j].parent_edge,
    {
        let n = self.nodes.len();
        let mut more = true;
        let mut moreu: u8 = 1;
        while more
            invariant
                n == self@.len(),
                self@.len() == old(self)@.len(),
                self.well_formed(),
                more ==> moreu == 1,
                !more ==> moreu == 0,
                !more ==> forall|j: int| !contractible(self@, j),
                forall|j: int|
                    0 <= j < n ==> ((#[trigger] self@[j]).deleted ==> old(self)@[j].deleted
                        || contractible(old(self)@, j)),
                forall|j: int| 0 <= j < n && old(self)@[j].deleted ==> (#[trigger] self@[j]).deleted,
                forall|j: int|
                    0 <= j < n ==> (contractible(self@, j) == (contractible(old(self)@, j)
                        && !(#[trigger] self@[j]).deleted)),
                forall|j: int|
                    0 <= j < old(self)@.len() && !(#[trigger] self@[j]).deleted ==> !old(
                        self,
                    )@[j].deleted && self@[j].name == old(self)@[j].name && self@[j].comment == old(
                        self,
                    )@[j].comment && self@[j].children.len() == old(self)@[j].children.len() && (
                    self@[j].parent is Some <==> old(self)@[j].parent is Some),
                forall|j: int|
                    0 <= j < n && !(#[trigger] self@[j]).deleted && match old(self)@[j].parent {
                        Some(q) => !contractible(old(self)@, q as int),
                        None => false,
                    } ==> self@[j].parent == old(self)@[j].parent && self@[j].parent_edge == old(
                        self,
                    )@[j].parent_edge,
            decreases live_count(self@, n as int), moreu,
        {
            let ghost pre = self@;
            match self.find_contractible() {
                None => {
                    more = false;
                    moreu = 0;
                },
                Some(v) => {
                    let ghost ci = pre[v as int].children[0] as int;
                    self.contract_one(v);
                    proof {
                        assert forall|j: int|
                            0 <= j < old(self)@.len() && !(#[trigger] self@[j]).deleted implies
                            !old(self)@[j].deleted && self@[j].name == old(self)@[j].name
                                && self@[j].comment == old(self)@[j].comment
                                && self@[j].children.len() == old(self)@[j].children.len() && (
                            self@[j].parent is Some <==> old(self)@[j].parent is Some) by {
                            assert(!pre[j].deleted);
                            if j == ci {
                                assert(node_ok(pre, v as int));
                                assert(child_link_ok(pre, v as int, pre[v as int].children[0]));
                                assert(pre[j].parent == Some(v));
                                assert(contractible(pre, v as int));
                                assert(self@[j].parent == pre[v as int].parent);
                                assert(self@[j].parent is Some && pre[j].parent is Some);
                            } else {
                                assert(self@[j].parent == pre[j].parent);
                            }
                        }
                        assert forall|j: int|
                            0 <= j < n implies (contractible(self@, j) == (contractible(
                            old(self)@,
                            j,
                        ) && !(#[trigger] self@[j]).deleted)) by {
                            if j == v as int {
                                assert(self@[j].deleted);
                                assert(!contractible(self@, j));
                            } else {
                                assert(contractible(self@, j) == contractible(pre, j));
                                assert(self@[j].deleted == pre[j].deleted);
                            }
                        }
                        assert forall|j: int|
                            0 <= j < n && !(#[trigger] self@[j]).deleted && match old(
                            self,
                        )@[j].parent {
                            Some(q) => !contractible(old(self)@, q as int),
                            None => false,
                        } implies self@[j].parent == old(self)@[j].parent && self@[j].parent_edge
                            == old(self)@[j].parent_edge by {
                            assert(!pre[j].deleted);
                            if j == ci {
                                // The moved child's old parent was the
                                // contracted node, which was contractible at
                                // the start.
                                assert(node_ok(pre, v as int));
                                assert(child_link_ok(pre, v as int, pre[v as int].children[0]));
                                assert(pre[j].parent == Some(v));
                                assert(contractible(pre, v as int));
                                assert(contractible(old(self)@, v as int));
                                assert(false);
                            } else {
                                assert(self@[j].parent == pre[j].parent);
                                assert(self@[j].parent_edge == pre[j].parent_edge);
                            }
                        }
                    }
                },
            }
        }
        proof {
            assert forall|j: int|
                0 <= j < old(self)@.len() implies (#[trigger] self@[j]).deleted == (old(
                self,
            )@[j].deleted || contractible(old(self)@, j)) by {
                if contractible(old(self)@, j) && !self@[j].deleted {
                    assert(contractible(self@, j));
                }
            }
        }
    }
}

/// Contracting one node, as the arena states describe it, keeps the arena
/// well-formed.
proof fn lemma_wf_contracted(
    ns0: Seq<NodeView>,
    ns1: Seq<NodeView>,
    v: int,
    p: int,
    c: int,
    fe: Option<EdgeView>,
)
    requires
        tree_wf(ns0),
        ns0.len() <= usize::MAX,
        ns1.len() == ns0.len(),
        contractible(ns0, v),
        0 <= p < v < c < ns0.len(),
        ns0[v].parent == Some(p as NodeId),
        ns0[v].children[0] == c as NodeId,
        crate::node::opt_edge_wf(fe),
        ns1[v] == deleted_view(ns0[v]),
        match crate::node::child_index_of(ns0[p].children, v as NodeId) {
            Some(k) => ns1[p] == (NodeView {
                children: ns0[p].children.update(k, c as NodeId),
                child_edges: ns0[p].child_edges.update(k, fe),
                ..ns0[p]
            }),
            None => false,
        },
        ns1[c] == (NodeView {
            parent: Some(p as NodeId),
            parent_edge: fe,
            depth: (ns0[c].depth - 1) as usize,
            ..ns0[c]
        }),
        ns0[c].depth >= 2,
        forall|j: int|
            0 <= j < ns0.len() && j != c && in_subtree(ns0, c, j) ==> ns1[j]
                == (NodeView { depth: (ns0[j].depth - 1) as usize, ..ns0[j] }),
        forall|j: int|
            0 <= j < ns0.len() && j != v && j != p && j != c && !in_subtree(
                ns0,
                c,
                j,
            ) ==> ns1[j] == ns0[j],
    ensures
        tree_wf(ns1),
{
    assert(node_ok(ns0, v));
    assert(crate::tree::child_link_ok(ns0, v, c as NodeId));
    assert(crate::paths::path_from_root(ns0, c).contains(c as NodeId)) by {
        crate::paths::lemma_pfr_contains_self(ns0, c);
    }
    assert(!in_subtree(ns0, c, v)) by {
        crate::paths::lemma_pfr_elements_le(ns0, v);
        if in_subtree(ns0, c, v) {
            let w = choose|w: int|
                0 <= w < crate::paths::path_from_root(ns0, v).len()
                    && crate::paths::path_from_root(ns0, v)[w] == c as NodeId;
            assert(false);
        }
    }
    assert(!in_subtree(ns0, c, p)) by {
        crate::paths::lemma_pfr_elements_le(ns0, p);
        if in_subtree(ns0, c, p) {
            let w = choose|w: int|
                0 <= w < crate::paths::path_from_root(ns0, p).len()
                    && crate::paths::path_from_root(ns0, p)[w] == c as NodeId;
            assert(false);
        }
    }
    assert forall|i: int| 0 <= i < ns1.len() implies #[trigger] node_ok(ns1, i) by {
        proof_node_ok_contracted(ns0, ns1, v, p, c, fe, i);
    }
}

/// One node's well-formedness after a contraction.
#[verifier::rlimit(100)]
proof fn proof_node_ok_contracted(
    ns0: Seq<NodeView>,
    ns1: Seq<NodeView>,
    v: int,
    p: int,
    c: int,
    fe: Option<EdgeView>,
    i: int,
)
    requires
        tree_wf(ns0),
        ns0.len() <= usize::MAX,
        ns1.len() == ns0.len(),
        contractible(ns0, v),
        0 <= p < v < c < ns0.len(),
        ns0[v].parent == Some(p as NodeId),
        ns0[v].children[0] == c as NodeId,
        crate::node::opt_edge_wf(fe),
        0 <= i < ns1.len(),
        in_subtree(ns0, c, c),
        !in_subtree(ns0, c, v),
        !in_subtree(ns0, c, p),
        ns1[v] == deleted_view(ns0[v]),
        match crate::node::child_index_of(ns0[p].children, v as NodeId) {
            Some(k) => ns1[p] == (NodeView {
                children: ns0[p].children.update(k, c as NodeId),
                child_edges: ns0[p].child_edges.update(k, fe),
                ..ns0[p]
            }),
            None => false,
        },
        ns1[c] == (NodeView {
            parent: Some(p as NodeId),
            parent_edge: fe,
            depth: (ns0[c].depth - 1) as usize,
            ..ns0[c]
        }),
        ns0[c].depth >= 2,
        forall|j: int|
            0 <= j < ns0.len() && j != c && in_subtree(ns0, c, j) ==> ns1[j]
                == (NodeView { depth: (ns0[j].depth - 1) as usize, ..ns0[j] }),
        forall|j: int|
            0 <= j < ns0.len() && j != v && j != p && j != c && !in_subtree(
                ns0,
                c,
                j,
            ) ==> ns1[j] == ns0[j],
    ensures
        node_ok(ns1, i),
{
    assert(node_ok(ns0, i));
    assert(node_ok(ns0, v));
    assert(node_ok(ns0, p));
    assert(node_ok(ns0, c));
    assert(crate::tree::child_link_ok(ns0, v, c as NodeId));
    assert(crate::tree::parent_link_ok(ns0, v));
    assert(p < v < c < ns0.len());
    crate::node::lemma_child_index_of_correct(ns0[p].children, v as NodeId);
    let kv = crate::node::child_index_of(ns0[p].children, v as NodeId)->Some_0;
    if i == v {
        assert(ns1[p].depth == ns0[p].depth);
        assert(parent_link_ok(ns1, i));
        assert(node_ok(ns1, i));
    } else if i == p {
        let n1 = ns1[p];
        assert(n1.local_wf()) by {
            assert forall|w: int| 0 <= w < n1.child_edges.len() implies crate::node::opt_edge_wf(
                #[trigger] n1.child_edges[w],
            ) by {
                if w != kv {
                    assert(n1.child_edges[w] == ns0[p].child_edges[w]);
                }
            }
        }
        assert forall|w: int| 0 <= w < n1.children.len() implies crate::tree::child_link_ok(
            ns1,
            i,
            #[trigger] n1.children[w],
        ) by {
            if w == kv {
                assert(n1.children[w] == c as NodeId);
            } else {
                let x = ns0[p].children[w];
                assert(crate::tree::child_link_ok(ns0, p, x));
                assert(x != v as NodeId);
                assert(ns0[x as int].parent == Some(p as NodeId));
                assert(x != c as NodeId);
                if in_subtree(ns0, c, x as int) {
                    lemma_subtree_parent(ns0, c, x as int);
                    assert(false);
                }
                assert(ns1[x as int] == ns0[x as int]);
            }
        }
        assert forall|w1: int, w2: int| 0 <= w1 < w2 < n1.children.len() implies n1.children[w1]
            != n1.children[w2] by {
            if w1 != kv && w2 != kv {
                assert(n1.children[w1] == ns0[p].children[w1]);
                assert(n1.children[w2] == ns0[p].children[w2]);
            } else {
                let other: int = if w1 == kv {
                    w2
                } else {
                    w1
                };
                let x = ns0[p].children[other];
                assert(crate::tree::child_link_ok(ns0, p, x));
                assert(x != c as NodeId);
            }
        }
        match n1.parent {
            Some(q) => {
                assert(crate::tree::parent_link_ok(ns0, p));
                assert(q < p);
                if in_subtree(ns0, c, q as int) {
                    lemma_subtree_child(ns0, c, q as int, p);
                    assert(false);
                }
                assert(ns1[q as int] == ns0[q as int]);
                assert(crate::tree::parent_link_ok(ns1, i));
                if !n1.deleted {
                    assert(crate::tree::attached_ok(ns0, p));
                    assert(crate::tree::attached_ok(ns1, i));
                }
            },
            None => {
                assert(crate::tree::parent_link_ok(ns1, i));
            },
        }
        assert(node_ok(ns1, i));
    } else if i == c {
        let n1 = ns1[c];
        assert(n1.local_wf());
        assert forall|w: int| 0 <= w < n1.children.len() implies crate::tree::child_link_ok(
            ns1,
            i,
            #[trigger] n1.children[w],
        ) by {
            let x = ns0[c].children[w];
            assert(crate::tree::child_link_ok(ns0, c, x));
            lemma_subtree_child(ns0, c, c, x as int);
            assert(ns1[x as int] == (NodeView {
                depth: (ns0[x as int].depth - 1) as usize,
                ..ns0[x as int]
            }));
        }
        match n1.parent {
            Some(q) => {
                assert(q == p);
                assert(ns1[p].children[kv] == c as NodeId);
                assert(ns1[p].children.contains(c as NodeId));
                assert(ns1[p].depth == ns0[p].depth);
                assert(ns0[c].depth == ns0[v].depth + 1);
                assert(ns0[v].depth == ns0[p].depth + 1);
                assert(crate::tree::parent_link_ok(ns1, i));
            },
            None => {
                assert(false);
            },
        }
        assert(node_ok(ns1, i));
    } else if in_subtree(ns0, c, i) {
        // A node below the child: only its depth moved.
        let n1 = ns1[i];
        assert(n1.local_wf());
        lemma_subtree_depth_ge(ns0, c, i);
        assert forall|w: int| 0 <= w < n1.children.len() implies crate::tree::child_link_ok(
            ns1,
            i,
            #[trigger] n1.children[w],
        ) by {
            let x = ns0[i].children[w];
            assert(crate::tree::child_link_ok(ns0, i, x));
            lemma_subtree_child(ns0, c, i, x as int);
            assert(x != c as NodeId) by {
                if x == c as NodeId {
                    assert(ns0[c].parent == Some(i as NodeId));
                    assert(i == v);
                    assert(!in_subtree(ns0, c, v));
                }
            }
            assert(ns1[x as int] == (NodeView {
                depth: (ns0[x as int].depth - 1) as usize,
                ..ns0[x as int]
            }));
            lemma_subtree_depth_ge(ns0, c, x as int);
        }
        match n1.parent {
            Some(q) => {
                assert(crate::tree::parent_link_ok(ns0, i));
                lemma_subtree_parent(ns0, c, i);
                let qq = ns0[i].parent->Some_0;
                assert(qq == q);
                assert(in_subtree(ns0, c, q as int));
                if q as int == c {
                    assert(ns1[q as int].children == ns0[q as int].children);
                    assert(ns1[q as int].depth == ns0[q as int].depth - 1);
                } else {
                    assert(ns1[q as int] == (NodeView {
                        depth: (ns0[q as int].depth - 1) as usize,
                        ..ns0[q as int]
                    }));
                }
                lemma_subtree_depth_ge(ns0, c, q as int);
                assert(crate::tree::parent_link_ok(ns1, i));
                assert(ns1[q as int].children == ns0[q as int].children);
                if !n1.deleted {
                    assert(crate::tree::attached_ok(ns0, i));
                    assert(crate::tree::attached_ok(ns1, i));
                }
            },
            None => {
                assert(false);
            },
        }
        assert(node_ok(ns1, i));
    } else {
        // Untouched nodes: everything they point at is untouched too, or is
        // the parent that merely swapped one child record.
        assert(ns1[i] == ns0[i]);
        let n1 = ns1[i];
        {
            assert forall|w: int| 0 <= w < n1.children.len() implies crate::tree::child_link_ok(
                ns1,
                i,
                #[trigger] n1.children[w],
            ) by {
                let x = ns0[i].children[w];
                assert(crate::tree::child_link_ok(ns0, i, x));
                assert(x != v as NodeId) by {
                    if x == v as NodeId {
                        assert(ns0[v].parent == Some(i as NodeId));
                    }
                }
                assert(x != c as NodeId) by {
                    if x == c as NodeId {
                        assert(ns0[c].parent == Some(i as NodeId));
                        assert(i == v);
                    }
                }
                if in_subtree(ns0, c, x as int) {
                    lemma_subtree_parent(ns0, c, x as int);
                    assert(in_subtree(ns0, c, i));
                    assert(false);
                }
                // The child may be the parent that swapped one record; its
                // liveness and upward link are untouched either way.
                if x as int == p {
                    assert(!ns1[p].deleted && ns1[p].parent == ns0[p].parent);
                } else {
                    assert(ns1[x as int] == ns0[x as int]);
                }
                assert(crate::tree::child_link_ok(ns1, i, x));
            }
            match n1.parent {
                Some(q) => {
                    assert(crate::tree::parent_link_ok(ns0, i));
                    // Only a tombstone can still point at the contracted
                    // node: a live child of it would be its single child.
                    if !n1.deleted && q as int == v {
                        assert(crate::tree::attached_ok(ns0, i));
                        let wv = choose|wv: int|
                            0 <= wv < ns0[v].children.len() && ns0[v].children[wv] == i as NodeId;
                        assert(ns0[v].children[0] == i as NodeId);
                        assert(i == c);
                        assert(false);
                    }
                    if in_subtree(ns0, c, q as int) {
                        lemma_subtree_child(ns0, c, q as int, i);
                        assert(false);
                    }
                    if q as int == v {
                        assert(ns1[v].depth == ns0[v].depth);
                        assert(crate::tree::parent_link_ok(ns1, i));
                    } else if q as int == p {
                        assert(ns1[p].depth == ns0[p].depth);
                        if !n1.deleted {
                            assert(crate::tree::attached_ok(ns0, i));
                            let wi = choose|wi: int|
                                0 <= wi < ns0[p].children.len() && ns0[p].children[wi]
                                    == i as NodeId;
                            assert(wi != kv);
                            assert(ns1[p].children[wi] == i as NodeId);
                            assert(ns1[p].children.contains(i as NodeId));
                            assert(crate::tree::attached_ok(ns1, i));
                        }
                    } else {
                        assert(ns1[q as int] == ns0[q as int]);
                        if !n1.deleted {
                            assert(crate::tree::attached_ok(ns0, i));
                            assert(crate::tree::attached_ok(ns1, i));
                        }
                    }
                    assert(crate::tree::parent_link_ok(ns1, i));
                },
                None => {
                    assert(crate::tree::parent_link_ok(ns1, i));
                },
            }
        }
        assert(node_ok(ns1, i));
    }
}

/// A node lies in the subtree under `r` exactly when its root path passes
/// through `r`.
pub open spec fn in_subtree(ns: Seq<NodeView>, r: int, j: int) -> bool {
    crate::paths::path_from_root(ns, j).contains(r as NodeId)
}

/// The node as pruning leaves it: marked deleted, with no child records.
pub open spec fn deleted_view(n: NodeView) -> NodeView {
    NodeView { deleted: true, children: Seq::empty(), child_edges: Seq::empty(), ..n }
}

/// A child of a node in the subtree is in the subtree.
proof fn lemma_subtree_child(ns: Seq<NodeView>, r: int, i: int, c: int)
    requires
        ns.len() <= usize::MAX,
        0 <= i < ns.len(),
        0 <= c < ns.len(),
        i < c,
        ns[c].parent == Some(i as NodeId),
        in_subtree(ns, r, i),
    ensures
        in_subtree(ns, r, c),
{
    let pi = crate::paths::path_from_root(ns, i);
    let pc = crate::paths::path_from_root(ns, c);
    assert(pc == pi.push(c as NodeId));
    let w = choose|w: int| 0 <= w < pi.len() && pi[w] == r as NodeId;
    assert(pc[w] == r as NodeId);
}

/// A subtree member other than the subtree's root has its parent in the
/// subtree too.
proof fn lemma_subtree_parent(ns: Seq<NodeView>, r: int, c: int)
    requires
        tree_wf(ns),
        ns.len() <= usize::MAX,
        0 <= r < ns.len(),
        0 <= c < ns.len(),
        in_subtree(ns, r, c),
        c != r,
    ensures
        ns[c].parent matches Some(q) && q < c && in_subtree(ns, r, q as int),
{
    assert(node_ok(ns, c));
    let pc = crate::paths::path_from_root(ns, c);
    match ns[c].parent {
        Some(q) => {
            assert(q < c);
            let pq = crate::paths::path_from_root(ns, q as int);
            assert(pc == pq.push(c as NodeId));
            let w = choose|w: int| 0 <= w < pc.len() && pc[w] == r as NodeId;
            assert(w < pc.len() - 1);
            assert(pq[w] == r as NodeId);
        },
        None => {
            assert(pc == seq![c as NodeId]);
            assert(pc[0] == c as NodeId);
            assert(false);
        },
    }
}

/// Deleting exactly the subtree under `r`, and removing `r` from its
/// parent's records, leaves a well-formed arena.
#[verifier::rlimit(100)]
proof fn lemma_wf_pruned(ns0: Seq<NodeView>, ns1: Seq<NodeView>, r: int)
    requires
        tree_wf(ns0),
        ns0.len() <= usize::MAX,
        0 <= r < ns0.len(),
        ns1.len() == ns0.len(),
        forall|j: int|
            0 <= j < ns0.len() && in_subtree(ns0, r, j) ==> ns1[j] == deleted_view(
                #[trigger] ns0[j],
            ),
        forall|j: int|
            0 <= j < ns0.len() && !in_subtree(ns0, r, j) && ns0[r].parent != Some(j as NodeId)
                ==> ns1[j] == ns0[j],
        match ns0[r].parent {
            Some(p) => !in_subtree(ns0, r, p as int) && ns1[p as int] == (match
                crate::node::child_index_of(ns0[p as int].children, r as NodeId) {
                Some(k) => NodeView {
                    children: ns0[p as int].children.remove(k),
                    child_edges: ns0[p as int].child_edges.remove(k),
                    ..ns0[p as int]
                },
                None => ns0[p as int],
            }),
            None => true,
        },
    ensures
        tree_wf(ns1),
{
    crate::paths::lemma_pfr_contains_self(ns0, r);
    assert(in_subtree(ns0, r, r));
    assert forall|i: int| 0 <= i < ns1.len() implies #[trigger] node_ok(ns1, i) by {
        assert(node_ok(ns0, i));
        proof_node_ok_pruned(ns0, ns1, r, i);
    }
}

/// One node's well-formedness after pruning.
#[verifier::rlimit(100)]
proof fn proof_node_ok_pruned(ns0: Seq<NodeView>, ns1: Seq<NodeView>, r: int, i: int)
    requires
        tree_wf(ns0),
        ns0.len() <= usize::MAX,
        0 <= r < ns0.len(),
        ns1.len() == ns0.len(),
        0 <= i < ns1.len(),
        in_subtree(ns0, r, r),
        forall|j: int|
            0 <= j < ns0.len() && in_subtree(ns0, r, j) ==> ns1[j] == deleted_view(
                #[trigger] ns0[j],
            ),
        forall|j: int|
            0 <= j < ns0.len() && !in_subtree(ns0, r, j) && ns0[r].parent != Some(j as NodeId)
                ==> ns1[j] == ns0[j],
        match ns0[r].parent {
            Some(p) => !in_subtree(ns0, r, p as int) && ns1[p as int] == (match
                crate::node::child_index_of(ns0[p as int].children, r as NodeId) {
                Some(k) => NodeView {
                    children: ns0[p as int].children.remove(k),
                    child_edges: ns0[p as int].child_edges.remove(k),
                    ..ns0[p as int]
                },
                None => ns0[p as int],
            }),
            None => true,
        },
    ensures
        node_ok(ns1, i),
{
    assert(node_ok(ns0, i));
    let n0 = ns0[i];
    let n1 = ns1[i];
    if in_subtree(ns0, r, i) {
        assert(n1 == deleted_view(n0));
        assert(n1.local_wf());
        // The tombstone keeps its upward link and depth; its parent's depth
        // is untouched whether that parent was pruned with it or survives.
        match n1.parent {
            Some(q) => {
                assert(parent_link_ok(ns0, i));
                if in_subtree(ns0, r, q as int) {
                    assert(ns1[q as int] == deleted_view(ns0[q as int]));
                } else if ns0[r].parent == Some(q) {
                } else {
                    assert(ns1[q as int] == ns0[q as int]);
                }
                assert(ns1[q as int].depth == ns0[q as int].depth);
                assert(parent_link_ok(ns1, i));
            },
            None => {
                assert(parent_link_ok(ns1, i));
            },
        }
    } else {
        // The node survives; its records change only if it is the pruned
        // root's parent, and then only by losing that one child.
        let is_parent = ns0[r].parent == Some(i as NodeId);
        if is_parent {
            crate::node::lemma_child_index_of_correct(n0.children, r as NodeId);
        } else {
            assert(n1 == n0);
        }
        assert(n1.local_wf()) by {
            if is_parent {
                match crate::node::child_index_of(n0.children, r as NodeId) {
                    Some(k) => {
                        assert forall|w: int| 0 <= w < n1.child_edges.len() implies
                            crate::node::opt_edge_wf(#[trigger] n1.child_edges[w]) by {
                            if w < k {
                                assert(n1.child_edges[w] == n0.child_edges[w]);
                            } else {
                                assert(n1.child_edges[w] == n0.child_edges[w + 1]);
                            }
                        }
                    },
                    None => {},
                }
            }
        }
        {
            // Surviving children: everything but possibly the pruned root.
            assert forall|w: int| 0 <= w < n1.children.len() implies child_link_ok(
                ns1,
                i,
                #[trigger] n1.children[w],
            ) by {
                let c: NodeId = n1.children[w];
                assert(n0.children.contains(c)) by {
                    if is_parent {
                        match crate::node::child_index_of(n0.children, r as NodeId) {
                            Some(k) => {
                                if w < k {
                                    assert(n0.children[w] == c);
                                } else {
                                    assert(n0.children[w + 1] == c);
                                }
                            },
                            None => {
                                assert(n0.children[w] == c);
                            },
                        }
                    } else {
                        assert(n0.children[w] == c);
                    }
                }
                let w0 = choose|w0: int| 0 <= w0 < n0.children.len() && n0.children[w0] == c;
                assert(child_link_ok(ns0, i, c));
                // The child is not the pruned root and not under it.
                if c as int == r {
                    assert(ns0[r].parent == Some(i as NodeId));
                    match crate::node::child_index_of(n0.children, r as NodeId) {
                        Some(k) => {
                            assert(n0.children[k] == r as NodeId);
                            if w < k {
                                assert(n0.children[w] == n1.children[w]);
                                assert(n0.children[w] != n0.children[k] || w == k);
                            } else {
                                assert(n0.children[w + 1] == n1.children[w]);
                            }
                            assert(false);
                        },
                        None => {
                            assert(false);
                        },
                    }
                }
                if in_subtree(ns0, r, c as int) {
                    lemma_subtree_parent(ns0, r, c as int);
                    lemma_subtree_child(ns0, r, i, c as int);
                    assert(in_subtree(ns0, r, i));
                    assert(false);
                }
                // The child may itself be the pruned root's parent; losing a
                // child record changes neither its liveness nor its own
                // upward link.
                if ns0[r].parent == Some(c) {
                    assert(!ns1[c as int].deleted && ns1[c as int].parent == Some(i as NodeId));
                } else {
                    assert(ns1[c as int] == ns0[c as int]);
                }
                assert(child_link_ok(ns1, i, c));
            }
            // Distinctness survives removal.
            assert forall|w1: int, w2: int| 0 <= w1 < w2 < n1.children.len() implies n1.children[w1]
                != n1.children[w2] by {
                if is_parent {
                    match crate::node::child_index_of(n0.children, r as NodeId) {
                        Some(k) => {
                            let u1: int = if w1 < k {
                                w1
                            } else {
                                w1 + 1
                            };
                            let u2: int = if w2 < k {
                                w2
                            } else {
                                w2 + 1
                            };
                            assert(n1.children[w1] == n0.children[u1]);
                            assert(n1.children[w2] == n0.children[u2]);
                        },
                        None => {},
                    }
                }
            }
            // The upward link survives: the parent is outside the subtree,
            // except for a tombstone already detached from it before.
            match n1.parent {
                Some(q) => {
                    assert(n0.parent == Some(q));
                    assert(parent_link_ok(ns0, i));
                    if in_subtree(ns0, r, q as int) {
                        if !n1.deleted {
                            lemma_subtree_child(ns0, r, q as int, i);
                            assert(false);
                        }
                        assert(ns1[q as int].depth == ns0[q as int].depth);
                        assert(parent_link_ok(ns1, i));
                    } else if ns0[r].parent == Some(q) {
                        // The parent also lost the pruned root, but keeps a
                        // live i among its children.
                        crate::node::lemma_child_index_of_correct(
                            ns0[q as int].children,
                            r as NodeId,
                        );
                        if !n1.deleted {
                            assert(attached_ok(ns0, i));
                            match crate::node::child_index_of(
                                ns0[q as int].children,
                                r as NodeId,
                            ) {
                                Some(k) => {
                                    assert(ns0[q as int].children[k] == r as NodeId);
                                    let wq = choose|wq: int|
                                        0 <= wq < ns0[q as int].children.len() && ns0[
                                            q as int
                                        ].children[wq] == i as NodeId;
                                    assert(i != r);
                                    assert(wq != k);
                                    if wq < k {
                                        assert(ns1[q as int].children[wq] == i as NodeId);
                                    } else {
                                        assert(ns1[q as int].children[wq - 1] == i as NodeId);
                                    }
                                    assert(ns1[q as int].children.contains(i as NodeId));
                                },
                                None => {
                                    assert(ns1[q as int].children == ns0[q as int].children);
                                },
                            }
                            assert(attached_ok(ns1, i));
                        }
                        assert(ns1[q as int].depth == ns0[q as int].depth);
                        assert(parent_link_ok(ns1, i));
                    } else {
                        assert(ns1[q as int] == ns0[q as int]);
                        assert(parent_link_ok(ns1, i));
                        if !n1.deleted {
                            assert(attached_ok(ns0, i));
                            assert(attached_ok(ns1, i));
                        }
                    }
                },
                None => {
                    assert(parent_link_ok(ns1, i));
                },
            }
        }
    }
}

} // verus!
