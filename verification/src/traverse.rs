//! Traversals: ordered visits of a subtree's nodes.
//!
//! Children are always visited in their insertion order. The depth-first
//! orders are also available lazily, through a walker that keeps its own
//! stack instead of recursing.

use vstd::prelude::*;

use crate::node::NodeView;
use crate::tree::{is_binary_spec, node_ok, tree_wf, Tree, TreeError};
use crate::NodeId;

verus! {

/// The nodes of the subtree under `i` in depth-first pre-order: the node
/// itself, then each child's subtree in child order.
pub open spec fn preorder_spec(ns: Seq<NodeView>, i: int) -> Seq<NodeId>
    decreases ns.len() - i, 1int, 0int,
{
    if 0 <= i < ns.len() {
        seq![i as NodeId] + preorder_list(ns, ns[i].children, i)
    } else {
        Seq::empty()
    }
}

/// Pre-orders of the subtrees under `cs`, concatenated. Only children above
/// `floor` are descended into; in a well-formed tree all of them are.
pub open spec fn preorder_list(ns: Seq<NodeView>, cs: Seq<NodeId>, floor: int) -> Seq<NodeId>
    decreases ns.len() - floor, 0int, cs.len(),
{
    if cs.len() == 0 {
        Seq::empty()
    } else {
        let head = if floor < cs[0] && cs[0] < ns.len() {
            preorder_spec(ns, cs[0] as int)
        } else {
            Seq::empty()
        };
        head + preorder_list(ns, cs.skip(1), floor)
    }
}

/// The nodes of the subtree under `i` in depth-first post-order: each
/// child's subtree in child order, then the node itself.
pub open spec fn postorder_spec(ns: Seq<NodeView>, i: int) -> Seq<NodeId>
    decreases ns.len() - i, 1int, 0int,
{
    if 0 <= i < ns.len() {
        postorder_list(ns, ns[i].children, i) + seq![i as NodeId]
    } else {
        Seq::empty()
    }
}

/// Post-orders of the subtrees under `cs`, concatenated.
pub open spec fn postorder_list(ns: Seq<NodeView>, cs: Seq<NodeId>, floor: int) -> Seq<NodeId>
    decreases ns.len() - floor, 0int, cs.len(),
{
    if cs.len() == 0 {
        Seq::empty()
    } else {
        let head = if floor < cs[0] && cs[0] < ns.len() {
            postorder_spec(ns, cs[0] as int)
        } else {
            Seq::empty()
        };
        head + postorder_list(ns, cs.skip(1), floor)
    }
}

/// The children of all the listed nodes, in order.
pub open spec fn children_round(ns: Seq<NodeView>, ids: Seq<NodeId>) -> Seq<NodeId>
    decreases ids.len(),
{
    if ids.len() == 0 {
        Seq::empty()
    } else {
        let head = if ids[0] < ns.len() {
            ns[ids[0] as int].children
        } else {
            Seq::empty()
        };
        head + children_round(ns, ids.skip(1))
    }
}

/// Whole levels, one after the other, starting from `ids`, for at most
/// `fuel` levels.
pub open spec fn levels_from(ns: Seq<NodeView>, ids: Seq<NodeId>, fuel: nat) -> Seq<NodeId>
    decreases fuel,
{
    if fuel == 0 || ids.len() == 0 {
        Seq::empty()
    } else {
        ids + levels_from(ns, children_round(ns, ids), (fuel - 1) as nat)
    }
}

/// The nodes of the subtree under `i` in breadth-first order: level by
/// level, each level in the parents' child order.
pub open spec fn levelorder_spec(ns: Seq<NodeView>, i: int) -> Seq<NodeId> {
    levels_from(ns, seq![i as NodeId], ns.len() + 1)
}

/// Splitting the child list for the traversal loop invariants.
#[verifier::rlimit(50)]
proof fn lemma_order_list_take(ns: Seq<NodeView>, cs: Seq<NodeId>, floor: int, k: int)
    requires
        0 <= k < cs.len(),
    ensures
        preorder_list(ns, cs.take(k + 1), floor) == preorder_list(ns, cs.take(k), floor) + (if floor
            < cs[k] && cs[k] < ns.len() {
            preorder_spec(ns, cs[k] as int)
        } else {
            Seq::<NodeId>::empty()
        }),
        postorder_list(ns, cs.take(k + 1), floor) == postorder_list(ns, cs.take(k), floor) + (
        if floor < cs[k] && cs[k] < ns.len() {
            postorder_spec(ns, cs[k] as int)
        } else {
            Seq::<NodeId>::empty()
        }),
    decreases k,
{
    if k == 0 {
        assert(cs.take(1) =~= seq![cs[0]]);
        assert(cs.take(1).skip(1) =~= Seq::<NodeId>::empty());
        assert(cs.take(0) =~= Seq::<NodeId>::empty());
        let head_pre = if floor < cs[0] && cs[0] < ns.len() {
            preorder_spec(ns, cs[0] as int)
        } else {
            Seq::<NodeId>::empty()
        };
        let head_post = if floor < cs[0] && cs[0] < ns.len() {
            postorder_spec(ns, cs[0] as int)
        } else {
            Seq::<NodeId>::empty()
        };
        assert(preorder_list(ns, Seq::empty(), floor) == Seq::<NodeId>::empty());
        assert(postorder_list(ns, Seq::empty(), floor) == Seq::<NodeId>::empty());
        assert(preorder_list(ns, cs.take(1), floor) =~= head_pre + Seq::<NodeId>::empty());
        assert(head_pre + Seq::<NodeId>::empty() =~= head_pre);
        assert(preorder_list(ns, cs.take(0), floor) + head_pre =~= head_pre);
        assert(postorder_list(ns, cs.take(1), floor) =~= head_post + Seq::<NodeId>::empty());
        assert(head_post + Seq::<NodeId>::empty() =~= head_post);
        assert(postorder_list(ns, cs.take(0), floor) + head_post =~= head_post);
    } else {
        lemma_order_list_take(ns, cs.skip(1), floor, k - 1);
        assert(cs.take(k + 1).skip(1) =~= cs.skip(1).take(k));
        assert(cs.take(k).skip(1) =~= cs.skip(1).take(k - 1));
        assert(cs.take(k + 1)[0] == cs[0]);
        assert(cs.take(k)[0] == cs[0]);
        assert(cs.skip(1)[k - 1] == cs[k]);
        let head0_pre = if floor < cs[0] && cs[0] < ns.len() {
            preorder_spec(ns, cs[0] as int)
        } else {
            Seq::<NodeId>::empty()
        };
        let tail_pre = if floor < cs[k] && cs[k] < ns.len() {
            preorder_spec(ns, cs[k] as int)
        } else {
            Seq::<NodeId>::empty()
        };
        assert(head0_pre + (preorder_list(ns, cs.skip(1).take(k - 1), floor) + tail_pre) =~= (
        head0_pre + preorder_list(ns, cs.skip(1).take(k - 1), floor)) + tail_pre);
        let head0_post = if floor < cs[0] && cs[0] < ns.len() {
            postorder_spec(ns, cs[0] as int)
        } else {
            Seq::<NodeId>::empty()
        };
        let tail_post = if floor < cs[k] && cs[k] < ns.len() {
            postorder_spec(ns, cs[k] as int)
        } else {
            Seq::<NodeId>::empty()
        };
        assert(head0_post + (postorder_list(ns, cs.skip(1).take(k - 1), floor) + tail_post) =~= (
        head0_post + postorder_list(ns, cs.skip(1).take(k - 1), floor)) + tail_post);
    }
}

impl Tree {
    /// The subtree under `root` in depth-first pre-order.
    pub fn preorder(&self, root: &NodeId) -> (r: Vec<NodeId>)
        requires
            self.well_formed(),
            *root < self@.len(),
        ensures
            r@ == preorder_spec(self@, *root as int),
        decreases self@.len() - *root,
    {
        proof {
            assert(node_ok(self@, *root as int));
        }
        let mut out: Vec<NodeId> = Vec::new();
        out.push(*root);
        let n_children = self.nodes[*root].children.len();
        let mut k: usize = 0;
        while k < n_children
            invariant
                k <= n_children,
                self.well_formed(),
                *root < self@.len(),
                n_children == self@[*root as int].children.len(),
                node_ok(self@, *root as int),
                out@ == seq![*root] + preorder_list(
                    self@,
                    self@[*root as int].children.take(k as int),
                    *root as int,
                ),
            decreases n_children - k,
        {
            let child = self.nodes[*root].children[k];
            proof {
                assert(crate::tree::child_link_ok(self@, *root as int, child));
            }
            let mut sub = self.preorder(&child);
            out.append(&mut sub);
            proof {
                lemma_order_list_take(self@, self@[*root as int].children, *root as int, k as int);
                assert(out@ =~= seq![*root] + preorder_list(
                    self@,
                    self@[*root as int].children.take(k + 1),
                    *root as int,
                ));
            }
            k += 1;
        }
        proof {
            assert(self@[*root as int].children.take(n_children as int) =~= self@[*root
                as int].children);
            assert(out@ =~= preorder_spec(self@, *root as int));
        }
        out
    }

    /// The subtree under `root` in depth-first post-order.
    pub fn postorder(&self, root: &NodeId) -> (r: Vec<NodeId>)
        requires
            self.well_formed(),
            *root < self@.len(),
        ensures
            r@ == postorder_spec(self@, *root as int),
        decreases self@.len() - *root,
    {
        proof {
            assert(node_ok(self@, *root as int));
        }
        let mut out: Vec<NodeId> = Vec::new();
        let n_children = self.nodes[*root].children.len();
        let mut k: usize = 0;
        while k < n_children
            invariant
                k <= n_children,
                self.well_formed(),
                *root < self@.len(),
                n_children == self@[*root as int].children.len(),
                node_ok(self@, *root as int),
                out@ == postorder_list(
                    self@,
                    self@[*root as int].children.take(k as int),
                    *root as int,
                ),
            decreases n_children - k,
        {
            let child = self.nodes[*root].children[k];
            proof {
                assert(crate::tree::child_link_ok(self@, *root as int, child));
            }
            let mut sub = self.postorder(&child);
            out.append(&mut sub);
            proof {
                lemma_order_list_take(self@, self@[*root as int].children, *root as int, k as int);
            }
            k += 1;
        }
        out.push(*root);
        proof {
            assert(self@[*root as int].children.take(n_children as int) =~= self@[*root
                as int].children);
            assert(out@ =~= postorder_spec(self@, *root as int));
        }
        out
    }

    /// The subtree under `root` in breadth-first order, level by level.
    pub fn levelorder(&self, root: &NodeId) -> (r: Vec<NodeId>)
        requires
            self.well_formed(),
            *root < self@.len(),
            !self@[*root as int].deleted,
        ensures
            r@ == levelorder_spec(self@, *root as int),
    {
        let n = self.nodes.len();
        let ghost fuel0: nat = self@.len() + 1;
        let ghost d0 = self@[*root as int].depth as int;
        let mut out: Vec<NodeId> = Vec::new();
        let mut current: Vec<NodeId> = Vec::new();
        current.push(*root);
        let mut round: usize = 0;
        proof {
            assert(current@ =~= seq![*root]);
        }
        while current.len() > 0
            invariant
                n == self@.len(),
                self.well_formed(),
                round <= n,
                d0 >= 0,
                fuel0 == n + 1,
                forall|w: int|
                    0 <= w < current@.len() ==> (#[trigger] current@[w]) < n && !self@[current@[w] as int].deleted
                        && self@[current@[w] as int].depth == round + d0,
                out@ + levels_from(self@, current@, (fuel0 - round) as nat) == levelorder_spec(
                    self@,
                    *root as int,
                ),
            decreases n - round,
        {
            proof {
                assert(self@[current@[0] as int].depth == round + d0);
                assert(node_ok(self@, current@[0] as int));
                assert(!self@[current@[0] as int].deleted);
                assert(self@[current@[0] as int].depth <= current@[0] as int);
                assert(d0 >= 0);
                assert(round < n);
            }
            let mut next: Vec<NodeId> = Vec::new();
            let mut w: usize = 0;
            let ghost cur = current@;
            while w < current.len()
                invariant
                    w <= cur.len(),
                    current@ == cur,
                    n == self@.len(),
                    self.well_formed(),
                    round < n,
                    forall|u: int|
                        0 <= u < cur.len() ==> (#[trigger] cur[u]) < n && !self@[cur[u] as int].deleted
                            && self@[cur[u] as int].depth == round + d0,
                    next@ == children_round(self@, cur.take(w as int)),
                    forall|u: int|
                        0 <= u < next@.len() ==> (#[trigger] next@[u]) < n && !self@[next@[u] as int].deleted
                            && self@[next@[u] as int].depth == round + 1 + d0,
                decreases cur.len() - w,
            {
                let id = current[w];
                proof {
                    assert(node_ok(self@, id as int));
                }
                let ghost next0 = next@;
                let mut cs = duplicate_ids(&self.nodes[id].children);
                next.append(&mut cs);
                proof {
                    lemma_children_round_take(self@, cur, w as int);
                    assert(next@ =~= children_round(self@, cur.take(w + 1)));
                    assert forall|u: int|
                        0 <= u < next@.len() implies (#[trigger] next@[u]) < n && !self@[next@[u] as int].deleted
                            && self@[next@[u] as int].depth == round + 1 + d0 by {
                        if u < next0.len() {
                            assert(next@[u] == next0[u]);
                        } else {
                            let c = next@[u];
                            assert(c == self@[id as int].children[u - next0.len()]);
                            assert(crate::tree::child_link_ok(self@, id as int, c));
                            assert(node_ok(self@, c as int));
                        }
                    }
                }
                w += 1;
            }
            proof {
                assert(cur.take(cur.len() as int) =~= cur);
                assert(next@ == children_round(self@, cur));
            }
            let ghost out0 = out@;
            let ghost round0 = round as int;
            let mut level = current;
            out.append(&mut level);
            current = next;
            round += 1;
            proof {
                assert(out@ =~= out0 + cur);
                assert(current@ == children_round(self@, cur));
                // Peel one level off the specification.
                assert(levels_from(self@, cur, (fuel0 - round0) as nat) == cur + levels_from(
                    self@,
                    children_round(self@, cur),
                    (fuel0 - round0 - 1) as nat,
                ));
                assert((out0 + cur) + levels_from(self@, current@, (fuel0 - round) as nat)
                    =~= out0 + (cur + levels_from(self@, current@, (fuel0 - round) as nat)));
                if current@.len() > 0 {
                    assert(self@[current@[0] as int].depth == round + d0);
                    assert(node_ok(self@, current@[0] as int));
                    assert(round <= n);
                }
                assert(out@ + levels_from(self@, current@, (fuel0 - round) as nat)
                    == levelorder_spec(self@, *root as int));
            }
        }
        proof {
            assert(out@ =~= levelorder_spec(self@, *root as int));
        }
        out
    }
}

/// The nodes of the subtree under `i` in symmetric order, for binary trees:
/// the first child's subtree, the node, then the second child's subtree.
pub open spec fn inorder_spec(ns: Seq<NodeView>, i: int) -> Seq<NodeId>
    decreases ns.len() - i,
{
    if 0 <= i < ns.len() {
        let cs = ns[i].children;
        let left = if cs.len() > 0 && i < cs[0] && cs[0] < ns.len() {
            inorder_spec(ns, cs[0] as int)
        } else {
            Seq::empty()
        };
        let right = if cs.len() > 1 && i < cs[1] && cs[1] < ns.len() {
            inorder_spec(ns, cs[1] as int)
        } else {
            Seq::empty()
        };
        left + seq![i as NodeId] + right
    } else {
        Seq::empty()
    }
}

impl Tree {
    /// The subtree under `root` in symmetric order. Defined only for binary
    /// trees; fails with [`TreeError::IsNotBinary`] otherwise.
    pub fn inorder(&self, root: &NodeId) -> (r: Result<Vec<NodeId>, TreeError>)
        requires
            self.well_formed(),
            *root < self@.len(),
        ensures
            match r {
                Ok(v) => is_binary_spec(self@) && v@ == inorder_spec(self@, *root as int),
                Err(e) => e == TreeError::IsNotBinary && !is_binary_spec(self@),
            },
    {
        if !self.is_binary() {
            return Err(TreeError::IsNotBinary);
        }
        Ok(self.inorder_walk(root))
    }

    /// Symmetric-order collection over at most two children per node.
    fn inorder_walk(&self, root: &NodeId) -> (r: Vec<NodeId>)
        requires
            self.well_formed(),
            *root < self@.len(),
        ensures
            r@ == inorder_spec(self@, *root as int),
        decreases self@.len() - *root,
    {
        proof {
            assert(node_ok(self@, *root as int));
        }
        let mut out: Vec<NodeId> = Vec::new();
        if self.nodes[*root].children.len() > 0 {
            let c0 = self.nodes[*root].children[0];
            proof {
                assert(crate::tree::child_link_ok(self@, *root as int, c0));
            }
            out = self.inorder_walk(&c0);
        }
        out.push(*root);
        if self.nodes[*root].children.len() > 1 {
            let c1 = self.nodes[*root].children[1];
            proof {
                assert(crate::tree::child_link_ok(self@, *root as int, c1));
            }
            let mut right = self.inorder_walk(&c1);
            out.append(&mut right);
        }
        proof {
            assert(out@ =~= inorder_spec(self@, *root as int));
        }
        out
    }
}

/// The pre-order text still owed by a walker whose stack holds these
/// entries, the next one last.
pub open spec fn pending_preorder(ns: Seq<NodeView>, st: Seq<NodeId>) -> Seq<NodeId>
    decreases st.len(),
{
    if st.len() == 0 {
        Seq::empty()
    } else {
        (if st.last() < ns.len() {
            preorder_spec(ns, st.last() as int)
        } else {
            Seq::empty()
        }) + pending_preorder(ns, st.drop_last())
    }
}

/// Pushing a child list in reverse onto the stack schedules exactly those
/// children's subtrees, in child order, before everything already pending.
proof fn lemma_pending_push_rev(ns: Seq<NodeView>, st: Seq<NodeId>, cs: Seq<NodeId>, floor: int)
    requires
        forall|k: int| 0 <= k < cs.len() ==> floor < (#[trigger] cs[k]) && cs[k] < ns.len(),
    ensures
        pending_preorder(ns, st + cs.reverse()) == preorder_list(ns, cs, floor)
            + pending_preorder(ns, st),
    decreases cs.len(),
{
    if cs.len() == 0 {
        assert(st + cs.reverse() =~= st);
        assert(preorder_list(ns, cs, floor) + pending_preorder(ns, st) =~= pending_preorder(
            ns,
            st,
        ));
    } else {
        lemma_pending_push_rev(ns, st, cs.skip(1), floor);
        let whole = st + cs.reverse();
        assert(whole.last() == cs[0]);
        assert(whole.drop_last() =~= st + cs.skip(1).reverse());
        assert(pending_preorder(ns, whole) == preorder_spec(ns, cs[0] as int) + pending_preorder(
            ns,
            st + cs.skip(1).reverse(),
        ));
        assert(preorder_spec(ns, cs[0] as int) + (preorder_list(ns, cs.skip(1), floor)
            + pending_preorder(ns, st)) =~= (preorder_spec(ns, cs[0] as int) + preorder_list(
            ns,
            cs.skip(1),
            floor,
        )) + pending_preorder(ns, st));
    }
}

/// A lazy depth-first pre-order walk over a subtree. It keeps its own stack
/// instead of recursing, and walking it to the end always yields the
/// subtree's pre-order: restarting from the same tree and start node yields
/// the same sequence again.
pub struct PreorderWalk<'a> {
    /// The tree being walked.
    pub tree: &'a Tree,
    /// Nodes whose subtrees are still owed, the next one last.
    pub stack: Vec<NodeId>,
    /// Where the walk started.
    pub start: Ghost<NodeId>,
    /// What the walk has yielded so far.
    pub emitted: Ghost<Seq<NodeId>>,
}

impl<'a> PreorderWalk<'a> {
    /// The walker's state is sound: what was yielded plus what the stack
    /// still owes is exactly the subtree's pre-order.
    pub open spec fn sound(self) -> bool {
        &&& self.tree.well_formed()
        &&& (self.start@ as int) < self.tree@.len()
        &&& forall|k: int|
            0 <= k < self.stack@.len() ==> (#[trigger] self.stack@[k]) < self.tree@.len()
        &&& self.emitted@ + pending_preorder(self.tree@, self.stack@) == preorder_spec(
            self.tree@,
            self.start@ as int,
        )
    }

    /// Starts a walk at `start`.
    pub fn new(tree: &'a Tree, start: NodeId) -> (r: PreorderWalk<'a>)
        requires
            tree.well_formed(),
            start < tree@.len(),
        ensures
            r.sound(),
            r.tree == tree,
            r.start@ == start,
            r.emitted@ == Seq::<NodeId>::empty(),
    {
        let mut stack: Vec<NodeId> = Vec::new();
        stack.push(start);
        let r = PreorderWalk {
            tree,
            stack,
            start: Ghost(start),
            emitted: Ghost(Seq::empty()),
        };
        proof {
            assert(r.stack@.drop_last() =~= Seq::<NodeId>::empty());
            assert(r.stack@.last() == start);
            assert(pending_preorder(r.tree@, r.stack@.drop_last()) == Seq::<NodeId>::empty());
            assert(pending_preorder(r.tree@, r.stack@) == preorder_spec(r.tree@, start as int)
                + Seq::<NodeId>::empty());
            assert(r.emitted@ + (preorder_spec(r.tree@, start as int) + Seq::<NodeId>::empty())
                =~= preorder_spec(r.tree@, start as int));
        }
        r
    }

    /// Yields the next node of the pre-order, or nothing once the walk is
    /// complete — and it completes exactly at the subtree's full pre-order.
    pub fn next(&mut self) -> (r: Option<NodeId>)
        requires
            old(self).sound(),
        ensures
            final (self).sound(),
            final (self).tree == old(self).tree,
            final (self).start == old(self).start,
            match r {
                Some(id) => final (self).emitted@ == old(self).emitted@.push(id),
                None => final (self).emitted@ == old(self).emitted@ && old(self).emitted@
                    == preorder_spec(old(self).tree@, old(self).start@ as int),
            },
    {
        let popped = self.stack.pop();
        let t = match popped {
            None => {
                proof {
                    assert(pending_preorder(self.tree@, self.stack@) =~= Seq::<NodeId>::empty());
                    assert(self.emitted@ + Seq::<NodeId>::empty() =~= self.emitted@);
                }
                return None;
            },
            Some(t) => t,
        };
        let ghost st1 = self.stack@;
        proof {
            assert(node_ok(self.tree@, t as int));
            assert(old(self).stack@.drop_last() =~= st1);
            assert(old(self).stack@.last() == t);
        }
        let n_children = self.tree.nodes[t].children.len();
        let ghost cs = self.tree@[t as int].children;
        let mut k: usize = 0;
        while k < n_children
            invariant
                k <= n_children,
                self.tree.well_formed(),
                t < self.tree@.len(),
                node_ok(self.tree@, t as int),
                cs == self.tree@[t as int].children,
                n_children == cs.len(),
                self.tree == old(self).tree,
                self.start == old(self).start,
                self.emitted == old(self).emitted,
                self.stack@ =~= st1 + cs.skip(n_children - k).reverse(),
            decreases n_children - k,
        {
            proof {
                if n_children > 0 {
                    assert(crate::tree::child_link_ok(self.tree@, t as int, cs[0]));
                }
            }
            let c = self.tree.nodes[t].children[n_children - 1 - k];
            let ghost pre = self.stack@;
            self.stack.push(c);
            proof {
                assert(cs.skip(n_children - k - 1) =~= seq![cs[n_children - k - 1]] + cs.skip(
                    n_children - k,
                ));
                assert(cs.skip(n_children - k - 1).reverse() =~= cs.skip(
                    n_children - k,
                ).reverse().push(cs[n_children - k - 1]));
                assert(self.stack@ =~= st1 + cs.skip(n_children - k - 1).reverse());
            }
            k += 1;
        }
        self.emitted = Ghost(self.emitted@.push(t));
        proof {
            assert(cs.skip(0) =~= cs);
            assert forall|w: int| 0 <= w < cs.len() implies (t as int) < (#[trigger] cs[w])
                && cs[w] < self.tree@.len() by {
                assert(crate::tree::child_link_ok(self.tree@, t as int, cs[w]));
            }
            lemma_pending_push_rev(self.tree@, st1, cs, t as int);
            assert(preorder_spec(self.tree@, t as int) == seq![t] + preorder_list(
                self.tree@,
                cs,
                t as int,
            ));
            assert(old(self).emitted@ + ((seq![t] + preorder_list(self.tree@, cs, t as int))
                + pending_preorder(self.tree@, st1)) =~= (old(self).emitted@.push(t)) + (
            preorder_list(self.tree@, cs, t as int) + pending_preorder(self.tree@, st1)));
        }
        Some(t)
    }
}

/// Copies a vector of indices.
fn duplicate_ids(v: &Vec<NodeId>) -> (r: Vec<NodeId>)
    ensures
        r@ == v@,
{
    let mut out: Vec<NodeId> = Vec::new();
    let mut i: usize = 0;
    while i < v.len()
        invariant
            i <= v@.len(),
            out@ == v@.take(i as int),
        decreases v@.len() - i,
    {
        out.push(v[i]);
        proof {
            assert(out@ =~= v@.take(i + 1));
        }
        i += 1;
    }
    proof {
        assert(v@.take(v@.len() as int) =~= v@);
    }
    out
}

/// One step of collecting a level's children.
#[verifier::rlimit(50)]
proof fn lemma_children_round_take(ns: Seq<NodeView>, ids: Seq<NodeId>, w: int)
    requires
        0 <= w < ids.len(),
    ensures
        children_round(ns, ids.take(w + 1)) == children_round(ns, ids.take(w)) + (if ids[w]
            < ns.len() {
            ns[ids[w] as int].children
        } else {
            Seq::<NodeId>::empty()
        }),
    decreases w,
{
    if w == 0 {
        assert(ids.take(1) =~= seq![ids[0]]);
        assert(ids.take(1).skip(1) =~= Seq::<NodeId>::empty());
        assert(ids.take(0) =~= Seq::<NodeId>::empty());
        let head = if ids[0] < ns.len() {
            ns[ids[0] as int].children
        } else {
            Seq::<NodeId>::empty()
        };
        assert(children_round(ns, Seq::empty()) == Seq::<NodeId>::empty());
        assert(children_round(ns, ids.take(1)) =~= head + Seq::<NodeId>::empty());
        assert(head + Seq::<NodeId>::empty() =~= head);
        assert(children_round(ns, ids.take(0)) + head =~= head);
    } else {
        lemma_children_round_take(ns, ids.skip(1), w - 1);
        assert(ids.take(w + 1).skip(1) =~= ids.skip(1).take(w));
        assert(ids.take(w).skip(1) =~= ids.skip(1).take(w - 1));
        assert(ids.take(w + 1)[0] == ids[0]);
        assert(ids.take(w)[0] == ids[0]);
        assert(ids.skip(1)[w - 1] == ids[w]);
        let head0 = if ids[0] < ns.len() {
            ns[ids[0] as int].children
        } else {
            Seq::<NodeId>::empty()
        };
        let tail_w = if ids[w] < ns.len() {
            ns[ids[w] as int].children
        } else {
            Seq::<NodeId>::empty()
        };
        assert(head0 + (children_round(ns, ids.skip(1).take(w - 1)) + tail_w) =~= (head0
            + children_round(ns, ids.skip(1).take(w - 1))) + tail_w);
    }
}

} // verus!
