//! Tree-shape statistics: cherries, Colless index, Sackin index.

use vstd::prelude::*;

use crate::tree::{
    is_binary_spec, node_ok, root_of, subtree_leaves_spec, leaf_ids, Tree, TreeError,
};
use crate::node::NodeView;
use crate::NodeId;

verus! {

/// The error a rooted-and-binary check reports, if any: no root at all, a
/// root without exactly two children, or a node with more than two children.
pub open spec fn rooted_binary_gate(ns: Seq<NodeView>) -> Option<TreeError> {
    match root_of(ns) {
        None => Some(TreeError::RootNotFound),
        Some(rt) => if ns[rt].children.len() != 2 {
            Some(TreeError::IsNotRooted)
        } else if !is_binary_spec(ns) {
            Some(TreeError::IsNotBinary)
        } else {
            None
        },
    }
}

/// Node `i` is a cherry: an inner node whose two children are both tips.
pub open spec fn is_cherry(ns: Seq<NodeView>, i: int) -> bool {
    &&& 0 <= i < ns.len()
    &&& ns[i].children.len() == 2
    &&& ns[i].children[0] < ns.len()
    &&& ns[i].children[1] < ns.len()
    &&& ns[ns[i].children[0] as int].children.len() == 0
    &&& ns[ns[i].children[1] as int].children.len() == 0
}

/// The number of cherries among the first `n` arena slots.
pub open spec fn cherries_count(ns: Seq<NodeView>, n: int) -> nat
    decreases n,
{
    if n <= 0 {
        0
    } else {
        cherries_count(ns, n - 1) + if is_cherry(ns, n - 1) {
            1nat
        } else {
            0nat
        }
    }
}

/// The Colless imbalance contributed by node `i`: how much the tip counts of
/// its first two child subtrees differ.
pub open spec fn colless_term(ns: Seq<NodeView>, i: int) -> nat {
    if 0 <= i < ns.len() && ns[i].children.len() > 0 {
        let l = subtree_leaves_spec(ns, ns[i].children[0] as int).len();
        let r = if ns[i].children.len() > 1 {
            subtree_leaves_spec(ns, ns[i].children[1] as int).len()
        } else {
            0
        };
        if l >= r {
            (l - r) as nat
        } else {
            (r - l) as nat
        }
    } else {
        0
    }
}

/// The Colless index summed over the first `n` arena slots.
pub open spec fn colless_sum(ns: Seq<NodeView>, n: int) -> nat
    decreases n,
{
    if n <= 0 {
        0
    } else {
        colless_sum(ns, n - 1) + colless_term(ns, n - 1)
    }
}

/// The Sackin contribution of slot `i`: its depth when it is a tip.
pub open spec fn sackin_term(ns: Seq<NodeView>, i: int) -> nat {
    if 0 <= i < ns.len() && ns[i].children.len() == 0 {
        ns[i].depth as nat
    } else {
        0
    }
}

/// The Sackin index summed over the first `n` arena slots.
pub open spec fn sackin_sum(ns: Seq<NodeView>, n: int) -> nat
    decreases n,
{
    if n <= 0 {
        0
    } else {
        sackin_sum(ns, n - 1) + sackin_term(ns, n - 1)
    }
}

impl Tree {
    /// Checks that the tree is rooted and binary, in that order.
    fn check_rooted_binary(&self) -> (r: Result<(), TreeError>)
        ensures
            match rooted_binary_gate(self@) {
                Some(e) => r == Err::<(), TreeError>(e),
                None => r == Ok::<(), TreeError>(()),
            },
    {
        match self.is_rooted() {
            Err(e) => Err(e),
            Ok(false) => Err(TreeError::IsNotRooted),
            Ok(true) => {
                if !self.is_binary() {
                    Err(TreeError::IsNotBinary)
                } else {
                    Ok(())
                }
            },
        }
    }

    /// The number of cherries: inner nodes whose two children are both tips.
    /// Defined only for rooted binary trees; fails with the matching error
    /// otherwise.
    pub fn cherries(&self) -> (r: Result<usize, TreeError>)
        requires
            self.well_formed(),
        ensures
            match rooted_binary_gate(self@) {
                Some(e) => r == Err::<usize, TreeError>(e),
                None => r == Ok::<usize, TreeError>(
                    cherries_count(self@, self@.len() as int) as usize,
                ),
            },
    {
        if let Err(e) = self.check_rooted_binary() {
            return Err(e);
        }
        let mut n: usize = 0;
        let mut i: usize = 0;
        while i < self.nodes.len()
            invariant
                i <= self@.len(),
                self.well_formed(),
                n == cherries_count(self@, i as int),
                n <= i,
            decreases self@.len() - i,
        {
            proof {
                assert(node_ok(self@, i as int));
            }
            if self.nodes[i].children.len() == 2 {
                let c0 = self.nodes[i].children[0];
                let c1 = self.nodes[i].children[1];
                if self.nodes[c0].children.len() == 0 && self.nodes[c1].children.len() == 0 {
                    n += 1;
                }
            }
            i += 1;
        }
        Ok(n)
    }

    /// The Colless index: over all inner nodes, the sum of how much the tip
    /// counts of the two child subtrees differ. Fails with
    /// [`TreeError::IsEmpty`] on an empty tree, and is otherwise defined
    /// only for rooted binary trees, failing with the matching error.
    pub fn colless(&self) -> (r: Result<u128, TreeError>)
        requires
            self.well_formed(),
        ensures
            self@.len() == 0 ==> r == Err::<u128, TreeError>(TreeError::IsEmpty),
            self@.len() > 0 ==> match rooted_binary_gate(self@) {
                Some(e) => r == Err::<u128, TreeError>(e),
                None => r == Ok::<u128, TreeError>(colless_sum(self@, self@.len() as int) as u128),
            },
    {
        if self.nodes.len() == 0 {
            return Err(TreeError::IsEmpty);
        }
        if let Err(e) = self.check_rooted_binary() {
            return Err(e);
        }
        let mut total: u128 = 0;
        let mut i: usize = 0;
        while i < self.nodes.len()
            invariant
                i <= self@.len(),
                self.well_formed(),
                total == colless_sum(self@, i as int),
                total <= (i as u128) * (usize::MAX as u128),
            decreases self@.len() - i,
        {
            proof {
                assert(node_ok(self@, i as int));
            }
            let term: usize = if self.nodes[i].children.len() > 0 {
                let c0 = self.nodes[i].children[0];
                let left = self.get_subtree_leaves(&c0).len();
                let right: usize = if self.nodes[i].children.len() > 1 {
                    let c1 = self.nodes[i].children[1];
                    self.get_subtree_leaves(&c1).len()
                } else {
                    0
                };
                if left >= right {
                    left - right
                } else {
                    right - left
                }
            } else {
                0
            };
            proof {
                assert(term == colless_term(self@, i as int));
                lemma_step_bound(i as nat, total as nat, term as nat);
            }
            total = total + (term as u128);
            i += 1;
        }
        Ok(total)
    }

    /// The Sackin index: the sum of the depths of all tips. Fails with
    /// [`TreeError::IsEmpty`] on an empty tree, and is otherwise defined
    /// only for rooted binary trees, failing with the matching error.
    pub fn sackin(&self) -> (r: Result<u128, TreeError>)
        requires
            self.well_formed(),
        ensures
            self@.len() == 0 ==> r == Err::<u128, TreeError>(TreeError::IsEmpty),
            self@.len() > 0 ==> match rooted_binary_gate(self@) {
                Some(e) => r == Err::<u128, TreeError>(e),
                None => r == Ok::<u128, TreeError>(sackin_sum(self@, self@.len() as int) as u128),
            },
    {
        if self.nodes.len() == 0 {
            return Err(TreeError::IsEmpty);
        }
        if let Err(e) = self.check_rooted_binary() {
            return Err(e);
        }
        let mut total: u128 = 0;
        let mut i: usize = 0;
        while i < self.nodes.len()
            invariant
                i <= self@.len(),
                self.well_formed(),
                total == sackin_sum(self@, i as int),
                total <= (i as u128) * (usize::MAX as u128),
            decreases self@.len() - i,
        {
            let term: usize = if self.nodes[i].children.len() == 0 {
                self.nodes[i].depth
            } else {
                0
            };
            proof {
                assert(term == sackin_term(self@, i as int));
                lemma_step_bound(i as nat, total as nat, term as nat);
            }
            total = total + (term as u128);
            i += 1;
        }
        Ok(total)
    }
}

/// A sum of `i` terms each at most `usize::MAX` stays below `u128::MAX` after
/// one more term, as long as `i` itself fits a machine word.
proof fn lemma_step_bound(i: nat, total: nat, term: nat)
    requires
        total <= i * (usize::MAX as nat),
        term <= usize::MAX as nat,
        i < usize::MAX as nat,
    ensures
        total + term <= (i + 1) * (usize::MAX as nat),
        total + term <= u128::MAX as nat,
{
    let m = usize::MAX as nat;
    assert((i + 1) * m == i * m + m) by (nonlinear_arith);
    assert((i + 1) * m <= m * m) by (nonlinear_arith)
        requires
            i + 1 <= m,
    ;
    assert(m * m <= u128::MAX as nat) by (nonlinear_arith)
        requires
            m <= u64::MAX as nat,
            u128::MAX as nat >= (u64::MAX as nat) * (u64::MAX as nat),
    ;
}

} // verus!
