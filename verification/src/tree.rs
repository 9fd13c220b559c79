//! The arena that owns a phylogenetic tree's nodes.
//!
//! Nodes live in one growable vector and point at each other by index. A
//! parent always has a smaller index than its children, which grounds every
//! recursive walk. Pruned nodes keep their slot (marked deleted) so that
//! indices handed out earlier stay meaningful.

use vstd::prelude::*;

use crate::edge::{duplicate_opt_edge, opt_edge_view, Edge, EdgeView};
use crate::node::{opt_edge_wf, opt_str_view, Node, NodeView};
use crate::NodeId;

verus! {

/// Failures of structural queries and mutations on an already-built tree.
#[derive(Debug, Clone, PartialEq, Eq, Structural)]
pub enum TreeError {
    /// The operation needs a binary tree.
    IsNotBinary,
    /// The operation needs a rooted tree.
    IsNotRooted,
    /// The operation needs a nonempty tree.
    IsEmpty,
    /// Every leaf must carry a name.
    UnnamedLeaves,
    /// Leaf names must be unique.
    DuplicateLeafNames,
    /// The leaf index was read before it was built.
    LeafIndexNotInitialized,
    /// Every branch must carry a length.
    MissingBranchLengths,
    /// The two trees have different tip sets.
    DifferentTipIndices,
    /// No node has this index.
    NodeNotFound(NodeId),
    /// The tree has no root node.
    RootNotFound,
    /// Reading or writing a file failed.
    IoError,
}

impl TreeError {
    /// The message this error prints.
    pub fn message(&self) -> (r: String)
        ensures
            r@ == self.message_spec(),
    {
        match self {
            TreeError::IsNotBinary => "This tree is not Binary.".to_owned(),
            TreeError::IsNotRooted => "This tree is not rooted.".to_owned(),
            TreeError::IsEmpty => "This tree is empty.".to_owned(),
            TreeError::UnnamedLeaves => "All your leaf nodes must ne named.".to_owned(),
            TreeError::DuplicateLeafNames => "Your leaf names must be unique.".to_owned(),
            TreeError::LeafIndexNotInitialized => "The leaf index of the tree is not initialized.".to_owned(),
            TreeError::MissingBranchLengths => "The tree must have all branch lengths.".to_owned(),
            TreeError::DifferentTipIndices => "The trees have different tips indices.".to_owned(),
            TreeError::NodeNotFound(_) => "There is no node with that index".to_owned(),
            TreeError::RootNotFound => "No root node found".to_owned(),
            TreeError::IoError => "Error writing tree to file".to_owned(),
        }
    }

    /// The message this error prints.
    pub open spec fn message_spec(&self) -> Seq<char> {
        match self {
            TreeError::IsNotBinary => "This tree is not Binary."@,
            TreeError::IsNotRooted => "This tree is not rooted."@,
            TreeError::IsEmpty => "This tree is empty."@,
            TreeError::UnnamedLeaves => "All your leaf nodes must ne named."@,
            TreeError::DuplicateLeafNames => "Your leaf names must be unique."@,
            TreeError::LeafIndexNotInitialized => "The leaf index of the tree is not initialized."@,
            TreeError::MissingBranchLengths => "The tree must have all branch lengths."@,
            TreeError::DifferentTipIndices => "The trees have different tips indices."@,
            TreeError::NodeNotFound(_) => "There is no node with that index"@,
            TreeError::RootNotFound => "No root node found"@,
            TreeError::IoError => "Error writing tree to file"@,
        }
    }
}

/// Failures while decoding Newick text.
#[derive(Debug, Clone, PartialEq, Eq, Structural)]
pub enum ParseError {
    /// A number field contains whitespace.
    WhiteSpaceInNumber,
    /// A subtree was still open when the semicolon came.
    UnclosedBracket,
    /// The text does not end with a semicolon.
    NoClosingSemicolon,
    /// Building the tree failed.
    TreeError(TreeError),
    /// A branch length is not a number.
    FloatError,
    /// A closing bracket came with no subtree open.
    NoSubtreeParent,
    /// Reading a file failed.
    IoError,
}

impl ParseError {
    /// The message this error prints.
    pub fn message(&self) -> (r: String)
        ensures
            r@ == self.message_spec(),
    {
        match self {
            ParseError::WhiteSpaceInNumber => "Cannot have whitespace in number field.".to_owned(),
            ParseError::UnclosedBracket => "Missing a closing bracket.".to_owned(),
            ParseError::NoClosingSemicolon => "The tree is missin a semi colon at the end.".to_owned(),
            ParseError::TreeError(_) => "Problem with building the tree.".to_owned(),
            ParseError::FloatError => "Could not parse a branch length".to_owned(),
            ParseError::NoSubtreeParent => "Parent node of subtree not found".to_owned(),
            ParseError::IoError => "Problem reading file".to_owned(),
        }
    }

    /// The message this error prints.
    pub open spec fn message_spec(&self) -> Seq<char> {
        match self {
            ParseError::WhiteSpaceInNumber => "Cannot have whitespace in number field."@,
            ParseError::UnclosedBracket => "Missing a closing bracket."@,
            ParseError::NoClosingSemicolon => "The tree is missin a semi colon at the end."@,
            ParseError::TreeError(_) => "Problem with building the tree."@,
            ParseError::FloatError => "Could not parse a branch length"@,
            ParseError::NoSubtreeParent => "Parent node of subtree not found"@,
            ParseError::IoError => "Problem reading file"@,
        }
    }
}

/// The links from node `i` to its children are sound: each child sits higher
/// in the arena, is alive, and points back at `i`.
pub open spec fn child_link_ok(ns: Seq<NodeView>, i: int, c: NodeId) -> bool {
    &&& i < c < ns.len()
    &&& !ns[c as int].deleted
    &&& ns[c as int].parent == Some(i as NodeId)
}

/// The link from node `i` to its parent is sound: the parent sits lower in
/// the arena, and `i`'s depth is one more than the parent's; a parentless
/// node has depth zero. This holds of every slot, pruned ones included.
pub open spec fn parent_link_ok(ns: Seq<NodeView>, i: int) -> bool {
    match ns[i].parent {
        Some(p) => {
            &&& p < i
            &&& ns[i].depth == ns[p as int].depth + 1
        },
        None => ns[i].depth == 0,
    }
}

/// A live node is listed among its parent's children; a pruned node has
/// been taken out of that list.
pub open spec fn attached_ok(ns: Seq<NodeView>, i: int) -> bool {
    match ns[i].parent {
        Some(p) => ns[p as int].children.contains(i as NodeId),
        None => true,
    }
}

/// Node `i` of the arena is well-formed.
pub open spec fn node_ok(ns: Seq<NodeView>, i: int) -> bool {
    let n = ns[i];
    &&& n.id == i
    &&& n.local_wf()
    &&& forall|k: int| 0 <= k < n.children.len() ==> child_link_ok(ns, i, #[trigger] n.children[k])
    &&& forall|k1: int, k2: int|
        0 <= k1 < k2 < n.children.len() ==> n.children[k1] != n.children[k2]
    &&& parent_link_ok(ns, i)
    &&& n.depth <= i
    &&& !n.deleted ==> attached_ok(ns, i)
}

/// The whole arena is well-formed.
pub open spec fn tree_wf(ns: Seq<NodeView>) -> bool {
    forall|i: int| 0 <= i < ns.len() ==> #[trigger] node_ok(ns, i)
}

/// A vector-backed tree: all nodes live in one arena, addressed by index.
#[derive(Debug, Clone)]
pub struct Tree {
    /// The node arena; a node's index is its identity.
    pub nodes: Vec<Node>,
}

impl View for Tree {
    type V = Seq<NodeView>;

    open spec fn view(&self) -> Seq<NodeView> {
        self.nodes@.map_values(|n: Node| n@)
    }
}

impl Tree {
    /// Every structural invariant of the arena holds.
    pub open spec fn well_formed(self) -> bool {
        tree_wf(self@)
    }

    /// Creates a new empty tree.
    pub fn new() -> (r: Tree)
        ensures
            r@.len() == 0,
            r.well_formed(),
    {
        let r = Tree { nodes: Vec::new() };
        proof {
            assert(r@ =~= Seq::<NodeView>::empty());
        }
        r
    }

    /// Adds an unattached node to the tree, assigning it the next index.
    /// Always succeeds; returns the new node's index.
    pub fn add(&mut self, node: Node) -> (r: NodeId)
        requires
            old(self).well_formed(),
            node@.unattached(),
        ensures
            r == old(self)@.len(),
            final (self)@ == old(self)@.push(NodeView { id: r, ..node@ }),
            final (self).well_formed(),
    {
        let idx = self.nodes.len();
        let mut node = node;
        node.set_id(idx);
        self.nodes.push(node);
        proof {
            assert(final (self)@ =~= old(self)@.push(NodeView { id: idx, ..node@ }));
            lemma_tree_wf_push_unattached(old(self)@, NodeView { id: idx, ..node@ });
        }
        idx
    }

    /// Adds an unattached node as a child of `parent`, setting its parent
    /// link, branch length and depth, and mirroring the branch length on the
    /// parent. Fails with [`TreeError::NodeNotFound`] exactly when `parent`
    /// is out of range; a pruned slot still accepts children, as its index
    /// stays meaningful.
    pub fn add_child(&mut self, node: Node, parent: NodeId, edge: Option<Edge>) -> (r: Result<
        NodeId,
        TreeError,
    >)
        requires
            old(self).well_formed(),
            node@.unattached(),
            opt_edge_wf(opt_edge_view(edge)),
        ensures
            final (self).well_formed(),
            parent < old(self)@.len() ==> r == Ok::<
                NodeId,
                TreeError,
            >(old(self)@.len() as NodeId) && final (self)@ =~= old(self)@.update(
                parent as int,
                NodeView {
                    children: old(self)@[parent as int].children.push(old(self)@.len() as NodeId),
                    child_edges: old(self)@[parent as int].child_edges.push(opt_edge_view(edge)),
                    ..old(self)@[parent as int]
                },
            ).push(
                NodeView {
                    id: old(self)@.len() as NodeId,
                    parent: Some(parent),
                    parent_edge: opt_edge_view(edge),
                    depth: (old(self)@[parent as int].depth + 1) as usize,
                    ..node@
                },
            ),
            parent >= old(self)@.len() ==> r == Err::<
                NodeId,
                TreeError,
            >(TreeError::NodeNotFound(parent)) && final (self)@ == old(self)@,
    {
        if parent >= self.nodes.len() {
            return Err(TreeError::NodeNotFound(parent));
        }
        let mirrored = duplicate_opt_edge(&edge);
        let mut node = node;
        node.set_parent(parent, edge);
        let parent_depth = self.nodes[parent].depth;
        proof {
            assert(node_ok(old(self)@, parent as int));
        }
        node.set_depth(parent_depth + 1);
        let id = self.nodes.len();
        node.set_id(id);
        self.nodes.push(node);
        let p = &mut self.nodes[parent];
        p.add_child(id, mirrored);
        proof {
            let ns0 = old(self)@;
            let pv0 = ns0[parent as int];
            let child = NodeView {
                id: id as NodeId,
                parent: Some(parent),
                parent_edge: opt_edge_view(edge),
                depth: (pv0.depth + 1) as usize,
                ..node@
            };
            let pv1 = NodeView {
                children: pv0.children.push(id as NodeId),
                child_edges: pv0.child_edges.push(opt_edge_view(edge)),
                ..pv0
            };
            assert(final (self)@ =~= ns0.update(parent as int, pv1).push(child));
            lemma_tree_wf_add_child(ns0, parent as int, child, opt_edge_view(edge));
        }
        Ok(id)
    }

    /// The number of nodes ever added to the tree.
    pub fn size(&self) -> (r: usize)
        ensures
            r == self@.len(),
    {
        self.nodes.len()
    }

    /// A reference to the node with the given index.
    pub fn get(&self, id: &NodeId) -> (r: &Node)
        requires
            *id < self@.len(),
        ensures
            r@ == self@[*id as int],
    {
        &self.nodes[*id]
    }

    /// A mutable reference to the node with the given index. Structural
    /// edits through it must leave the tree well-formed before any other
    /// operation relies on that.
    pub fn get_mut(&mut self, id: &NodeId) -> (r: &mut Node)
        requires
            *id < old(self)@.len(),
        ensures
            r@ == old(self)@[*id as int],
            final (self)@ =~= old(self)@.update(*id as int, final (r)@),
    {
        &mut self.nodes[*id]
    }
}

/// The first node at or after `i` whose name is `name`.
pub open spec fn first_named_from(ns: Seq<NodeView>, name: Seq<char>, i: int) -> Option<int>
    decreases ns.len() - i,
{
    if i < 0 || i >= ns.len() {
        None
    } else if ns[i].name == Some(name) {
        Some(i)
    } else {
        first_named_from(ns, name, i + 1)
    }
}

/// The first parentless node at or after `i`: the tree's root. A pruned
/// slot that never had a parent still counts, as the slot is never reused.
pub open spec fn first_root_from(ns: Seq<NodeView>, i: int) -> Option<int>
    decreases ns.len() - i,
{
    if i < 0 || i >= ns.len() {
        None
    } else if ns[i].parent is None {
        Some(i)
    } else {
        first_root_from(ns, i + 1)
    }
}

/// The root of the tree: the first parentless node.
pub open spec fn root_of(ns: Seq<NodeView>) -> Option<int> {
    first_root_from(ns, 0)
}

/// Node `i` is a tip: it has no children. A pruned slot with no children
/// counts as a tip, as the slot is never reused.
pub open spec fn is_leaf(ns: Seq<NodeView>, i: int) -> bool {
    &&& 0 <= i < ns.len()
    &&& ns[i].children.len() == 0
}

/// The tips among the first `n` arena slots, in arena order.
pub open spec fn leaf_ids(ns: Seq<NodeView>, n: int) -> Seq<NodeId>
    decreases n,
{
    if n <= 0 {
        Seq::empty()
    } else if is_leaf(ns, n - 1) {
        leaf_ids(ns, n - 1).push((n - 1) as NodeId)
    } else {
        leaf_ids(ns, n - 1)
    }
}

/// Every node has at most two children, except that a parentless (virtual)
/// root may have up to three, which stands for an unrooted tree.
pub open spec fn is_binary_spec(ns: Seq<NodeView>) -> bool {
    forall|i: int|
        0 <= i < ns.len() ==> (#[trigger] ns[i].children.len() <= 2 || (ns[i].parent is None
            && ns[i].children.len() <= 3))
}

/// The tip ids in the subtree rooted at `i`, in depth-first child order.
pub open spec fn subtree_leaves_spec(ns: Seq<NodeView>, i: int) -> Seq<NodeId>
    decreases ns.len() - i, 1int, 0int,
{
    if 0 <= i < ns.len() {
        if ns[i].children.len() == 0 {
            seq![i as NodeId]
        } else {
            subtree_leaves_of(ns, ns[i].children, i)
        }
    } else {
        Seq::empty()
    }
}

/// The tip ids under each of the subtrees rooted at `cs`, concatenated.
/// Only children above `floor` are descended into; in a well-formed tree all
/// of them are.
pub open spec fn subtree_leaves_of(ns: Seq<NodeView>, cs: Seq<NodeId>, floor: int) -> Seq<NodeId>
    decreases ns.len() - floor, 0int, cs.len(),
{
    if cs.len() == 0 {
        Seq::empty()
    } else {
        let head = if floor < cs[0] && cs[0] < ns.len() {
            subtree_leaves_spec(ns, cs[0] as int)
        } else {
            Seq::empty()
        };
        head + subtree_leaves_of(ns, cs.skip(1), floor)
    }
}

/// Splitting the child list: the tips under the first `k+1` children are the
/// tips under the first `k` plus the tips under child `k`.
#[verifier::rlimit(100)]
#[verifier::spinoff_prover]
proof fn lemma_subtree_leaves_of_take(ns: Seq<NodeView>, cs: Seq<NodeId>, floor: int, k: int)
    requires
        0 <= k < cs.len(),
    ensures
        subtree_leaves_of(ns, cs.take(k + 1), floor) == subtree_leaves_of(ns, cs.take(k), floor)
            + (if floor < cs[k] && cs[k] < ns.len() {
            subtree_leaves_spec(ns, cs[k] as int)
        } else {
            Seq::<NodeId>::empty()
        }),
    decreases k,
{
    if k == 0 {
        assert(cs.take(1) =~= seq![cs[0]]);
        assert(cs.take(1).skip(1) =~= Seq::<NodeId>::empty());
        assert(cs.take(0) =~= Seq::<NodeId>::empty());
        assert(subtree_leaves_of(ns, Seq::empty(), floor) == Seq::<NodeId>::empty());
        assert(subtree_leaves_of(ns, cs.take(1), floor) =~= Seq::<NodeId>::empty()
            + subtree_leaves_of(ns, cs.take(1), floor));
    } else {
        lemma_subtree_leaves_of_take(ns, cs.skip(1), floor, k - 1);
        assert(cs.take(k + 1).skip(1) =~= cs.skip(1).take(k));
        assert(cs.take(k).skip(1) =~= cs.skip(1).take(k - 1));
        assert(cs.take(k + 1)[0] == cs[0]);
        assert(cs.take(k)[0] == cs[0]);
        assert(cs.skip(1)[k - 1] == cs[k]);
        let head0 = if floor < cs[0] && cs[0] < ns.len() {
            subtree_leaves_spec(ns, cs[0] as int)
        } else {
            Seq::<NodeId>::empty()
        };
        let tail_k = if floor < cs[k] && cs[k] < ns.len() {
            subtree_leaves_spec(ns, cs[k] as int)
        } else {
            Seq::<NodeId>::empty()
        };
        assert(subtree_leaves_of(ns, cs.take(k + 1), floor) == head0 + (subtree_leaves_of(
            ns,
            cs.skip(1).take(k - 1),
            floor,
        ) + tail_k));
        assert(head0 + (subtree_leaves_of(ns, cs.skip(1).take(k - 1), floor) + tail_k) =~= (head0
            + subtree_leaves_of(ns, cs.skip(1).take(k - 1), floor)) + tail_k);
    }
}

impl Tree {
    /// A reference to the first node carrying the given name, if any.
    pub fn get_by_name(&self, name: &str) -> (r: Option<&Node>)
        ensures
            match first_named_from(self@, name@, 0) {
                Some(i) => r matches Some(n) && n@ == self@[i],
                None => r is None,
            },
    {
        let query: String = name.to_owned();
        let mut i: usize = 0;
        while i < self.nodes.len()
            invariant
                i <= self@.len(),
                query@ == name@,
                forall|k: int| 0 <= k < i ==> self@[k].name != Some(name@),
            decreases self@.len() - i,
        {
            let hit = match &self.nodes[i].name {
                Some(n) => *n == query,
                None => false,
            };
            if hit {
                proof {
                    lemma_first_named_found(self@, name@, i as int);
                }
                return Some(&self.nodes[i]);
            }
            i += 1;
        }
        proof {
            lemma_first_named_absent(self@, name@, 0);
        }
        None
    }

    /// A mutable reference to the first node carrying the given name, if
    /// any; the tree is unchanged when no node has the name.
    pub fn get_by_name_mut(&mut self, name: &str) -> (r: Option<&mut Node>)
        ensures
            match first_named_from(old(self)@, name@, 0) {
                Some(i) => r matches Some(m) && m@ == old(self)@[i] && final (self)@ =~= old(
                    self,
                )@.update(i, final (m)@),
                None => r is None && final (self)@ == old(self)@,
            },
    {
        let query: String = name.to_owned();
        let mut i: usize = 0;
        let n = self.nodes.len();
        while i < n
            invariant
                i <= n,
                n == self@.len(),
                *self == *old(self),
                query@ == name@,
                forall|k: int| 0 <= k < i ==> self@[k].name != Some(name@),
            decreases n - i,
        {
            let hit = match &self.nodes[i].name {
                Some(nm) => *nm == query,
                None => false,
            };
            if hit {
                proof {
                    lemma_first_named_found(self@, name@, i as int);
                }
                return Some(&mut self.nodes[i]);
            }
            i += 1;
        }
        proof {
            lemma_first_named_absent(self@, name@, 0);
        }
        None
    }

    /// The root node's index: the first parentless node in arena order.
    /// Fails with [`TreeError::RootNotFound`] when the tree has none, in
    /// particular when it is empty.
    pub fn get_root(&self) -> (r: Result<NodeId, TreeError>)
        ensures
            match root_of(self@) {
                Some(i) => r == Ok::<NodeId, TreeError>(i as NodeId),
                None => r == Err::<NodeId, TreeError>(TreeError::RootNotFound),
            },
    {
        let mut i: usize = 0;
        while i < self.nodes.len()
            invariant
                i <= self@.len(),
                forall|k: int| 0 <= k < i ==> !(#[trigger] self@[k].parent is None),
            decreases self@.len() - i,
        {
            if self.nodes[i].parent.is_none() {
                proof {
                    lemma_first_root_found(self@, i as int);
                }
                return Ok(i);
            }
            i += 1;
        }
        proof {
            lemma_first_root_absent(self@, 0);
        }
        Err(TreeError::RootNotFound)
    }

    /// The indices of all tips, in arena order.
    pub fn get_leaves(&self) -> (r: Vec<NodeId>)
        ensures
            r@ == leaf_ids(self@, self@.len() as int),
    {
        let mut out: Vec<NodeId> = Vec::new();
        let mut i: usize = 0;
        while i < self.nodes.len()
            invariant
                i <= self@.len(),
                out@ == leaf_ids(self@, i as int),
            decreases self@.len() - i,
        {
            if self.nodes[i].children.len() == 0 {
                out.push(i);
            }
            i += 1;
        }
        out
    }

    /// The number of tips.
    pub fn n_leaves(&self) -> (r: usize)
        ensures
            r == leaf_ids(self@, self@.len() as int).len(),
    {
        let mut count: usize = 0;
        let mut i: usize = 0;
        while i < self.nodes.len()
            invariant
                i <= self@.len(),
                count == leaf_ids(self@, i as int).len(),
                count <= i,
            decreases self@.len() - i,
        {
            if self.nodes[i].children.len() == 0 {
                count += 1;
            }
            i += 1;
        }
        count
    }

    /// The tip indices of the subtree rooted at `index`, in depth-first
    /// child order.
    pub fn get_subtree_leaves(&self, index: &NodeId) -> (r: Vec<NodeId>)
        requires
            self.well_formed(),
            *index < self@.len(),
        ensures
            r@ == subtree_leaves_spec(self@, *index as int),
        decreases self@.len() - *index,
    {
        let mut indices: Vec<NodeId> = Vec::new();
        if self.nodes[*index].children.len() == 0 {
            indices.push(*index);
            proof {
                assert(indices@ =~= subtree_leaves_spec(self@, *index as int));
            }
            return indices;
        }
        proof {
            assert(node_ok(self@, *index as int));
        }
        let n_children = self.nodes[*index].children.len();
        let mut k: usize = 0;
        while k < n_children
            invariant
                k <= n_children,
                self.well_formed(),
                *index < self@.len(),
                n_children == self@[*index as int].children.len(),
                n_children > 0,
                node_ok(self@, *index as int),
                indices@ == subtree_leaves_of(
                    self@,
                    self@[*index as int].children.take(k as int),
                    *index as int,
                ),
            decreases n_children - k,
        {
            let child = self.nodes[*index].children[k];
            proof {
                assert(child_link_ok(self@, *index as int, child));
            }
            let mut sub = self.get_subtree_leaves(&child);
            indices.append(&mut sub);
            proof {
                lemma_subtree_leaves_of_take(
                    self@,
                    self@[*index as int].children,
                    *index as int,
                    k as int,
                );
            }
            k += 1;
        }
        proof {
            assert(self@[*index as int].children.take(n_children as int) =~= self@[*index
                as int].children);
            assert(subtree_leaves_spec(self@, *index as int) == subtree_leaves_of(
                self@,
                self@[*index as int].children,
                *index as int,
            ));
        }
        indices
    }

    /// Whether the tree is binary: no node has more than two children,
    /// except that a parentless (virtual) root may have up to three.
    pub fn is_binary(&self) -> (r: bool)
        ensures
            r == is_binary_spec(self@),
    {
        let mut i: usize = 0;
        while i < self.nodes.len()
            invariant
                i <= self@.len(),
                forall|k: int|
                    0 <= k < i ==> (#[trigger] self@[k].children.len() <= 2 || (self@[k].parent
                        is None && self@[k].children.len() <= 3)),
            decreases self@.len() - i,
        {
            let n_children = self.nodes[i].children.len();
            if n_children > 2 && (self.nodes[i].parent.is_some() || n_children > 3) {
                proof {
                    assert(!(self@[i as int].children.len() <= 2 || (self@[i as int].parent
                        is None && self@[i as int].children.len() <= 3)));
                }
                return false;
            }
            i += 1;
        }
        true
    }

    /// Whether the tree is rooted: it has a root with exactly two children.
    /// Fails with [`TreeError::RootNotFound`] when it has no root at all.
    pub fn is_rooted(&self) -> (r: Result<bool, TreeError>)
        ensures
            match root_of(self@) {
                Some(i) => r == Ok::<bool, TreeError>(self@[i].children.len() == 2),
                None => r == Err::<bool, TreeError>(TreeError::RootNotFound),
            },
    {
        proof {
            lemma_first_root_in_range(self@, 0);
        }
        let n = self.nodes.len();
        let root_id = match self.get_root() {
            Ok(id) => id,
            Err(e) => {
                return Err(e);
            },
        };
        proof {
            assert(self@.len() == n);
            assert(root_of(self@) == Some(root_id as int));
        }
        Ok(self.nodes[root_id].children.len() == 2)
    }
}

proof fn lemma_first_named_found(ns: Seq<NodeView>, name: Seq<char>, i: int)
    requires
        0 <= i < ns.len(),
        ns[i].name == Some(name),
        forall|k: int| 0 <= k < i ==> ns[k].name != Some(name),
    ensures
        first_named_from(ns, name, 0) == Some(i),
{
    lemma_first_named_step(ns, name, 0, i);
}

proof fn lemma_first_named_step(ns: Seq<NodeView>, name: Seq<char>, j: int, i: int)
    requires
        0 <= j <= i < ns.len(),
        ns[i].name == Some(name),
        forall|k: int| j <= k < i ==> ns[k].name != Some(name),
    ensures
        first_named_from(ns, name, j) == Some(i),
    decreases i - j,
{
    if j < i {
        lemma_first_named_step(ns, name, j + 1, i);
    }
}

proof fn lemma_first_named_absent(ns: Seq<NodeView>, name: Seq<char>, j: int)
    requires
        0 <= j,
        forall|k: int| j <= k < ns.len() ==> ns[k].name != Some(name),
    ensures
        first_named_from(ns, name, j) is None,
    decreases ns.len() - j,
{
    if j < ns.len() {
        lemma_first_named_absent(ns, name, j + 1);
    }
}

pub proof fn lemma_first_root_found(ns: Seq<NodeView>, i: int)
    requires
        0 <= i < ns.len(),
        ns[i].parent is None,
        forall|k: int| 0 <= k < i ==> !(#[trigger] ns[k].parent is None),
    ensures
        root_of(ns) == Some(i),
{
    lemma_first_root_step(ns, 0, i);
}

proof fn lemma_first_root_step(ns: Seq<NodeView>, j: int, i: int)
    requires
        0 <= j <= i < ns.len(),
        ns[i].parent is None,
        forall|k: int| j <= k < i ==> !(#[trigger] ns[k].parent is None),
    ensures
        first_root_from(ns, j) == Some(i),
    decreases i - j,
{
    if j < i {
        lemma_first_root_step(ns, j + 1, i);
    }
}

proof fn lemma_first_root_absent(ns: Seq<NodeView>, j: int)
    requires
        0 <= j,
        forall|k: int| j <= k < ns.len() ==> !(#[trigger] ns[k].parent is None),
    ensures
        first_root_from(ns, j) is None,
    decreases ns.len() - j,
{
    if j < ns.len() {
        lemma_first_root_absent(ns, j + 1);
    }
}

/// A found root lies inside the arena.
pub proof fn lemma_first_root_in_range(ns: Seq<NodeView>, j: int)
    requires
        0 <= j,
    ensures
        match first_root_from(ns, j) {
            Some(i) => j <= i < ns.len() && ns[i].parent is None,
            None => true,
        },
    decreases ns.len() - j,
{
    if j < ns.len() {
        lemma_first_root_in_range(ns, j + 1);
    }
}

impl Default for Tree {
    /// An empty tree.
    fn default() -> (r: Tree)
        ensures
            r@.len() == 0,
            r.well_formed(),
    {
        Tree::new()
    }
}

/// Changing only a node's label, comment or stored branch lengths (keeping
/// its link structure and the number of child records) preserves
/// well-formedness.
pub proof fn lemma_wf_update_soft(ns0: Seq<NodeView>, ns1: Seq<NodeView>, i: int)
    requires
        tree_wf(ns0),
        0 <= i < ns0.len(),
        ns1 == ns0.update(i, ns1[i]),
        ns1[i].id == ns0[i].id,
        ns1[i].parent == ns0[i].parent,
        ns1[i].children == ns0[i].children,
        ns1[i].depth == ns0[i].depth,
        ns1[i].deleted == ns0[i].deleted,
        ns1[i].local_wf(),
    ensures
        tree_wf(ns1),
{
    assert forall|j: int| 0 <= j < ns1.len() implies #[trigger] node_ok(ns1, j) by {
        assert(node_ok(ns0, j));
        let n = ns1[j];
        if j != i {
            assert(ns1[j] == ns0[j]);
        }
        assert forall|k: int| 0 <= k < n.children.len() implies child_link_ok(
            ns1,
            j,
            #[trigger] n.children[k],
        ) by {
            assert(child_link_ok(ns0, j, n.children[k]));
            let c = n.children[k] as int;
            assert(ns1[c].deleted == ns0[c].deleted && ns1[c].parent == ns0[c].parent);
        }
        match n.parent {
            Some(p) => {
                assert(parent_link_ok(ns0, j));
                assert(ns1[p as int].children == ns0[p as int].children);
                assert(ns1[p as int].depth == ns0[p as int].depth);
                assert(parent_link_ok(ns1, j));
                if !n.deleted {
                    assert(attached_ok(ns0, j));
                    assert(attached_ok(ns1, j));
                }
            },
            None => {
                assert(parent_link_ok(ns1, j));
            },
        }
    }
}

/// Appending an unattached node preserves well-formedness.
proof fn lemma_tree_wf_push_unattached(ns: Seq<NodeView>, node: NodeView)
    requires
        tree_wf(ns),
        node.unattached(),
        node.local_wf(),
        node.id == ns.len(),
    ensures
        tree_wf(ns.push(node)),
{
    let ns1 = ns.push(node);
    assert forall|i: int| 0 <= i < ns1.len() implies #[trigger] node_ok(ns1, i) by {
        if i < ns.len() {
            assert(node_ok(ns, i));
            assert(ns1[i] == ns[i]);
            let n = ns[i];
            assert(forall|k: int|
                0 <= k < n.children.len() ==> child_link_ok(ns1, i, #[trigger] n.children[k]));
        } else {
            assert(ns1[i] == node);
        }
    }
}

/// Attaching a fresh child under an existing parent slot preserves
/// well-formedness.
proof fn lemma_tree_wf_add_child(
    ns: Seq<NodeView>,
    parent: int,
    child: NodeView,
    edge: Option<EdgeView>,
)
    requires
        tree_wf(ns),
        0 <= parent < ns.len(),
        opt_edge_wf(edge),
        opt_edge_wf(child.parent_edge),
        child.id == ns.len(),
        child.parent == Some(parent as NodeId),
        child.children.len() == 0,
        child.child_edges.len() == 0,
        child.depth == ns[parent].depth + 1,
        !child.deleted,
    ensures
        tree_wf(
            ns.update(
                parent,
                NodeView {
                    children: ns[parent].children.push(child.id),
                    child_edges: ns[parent].child_edges.push(edge),
                    ..ns[parent]
                },
            ).push(child),
        ),
{
    let pv0 = ns[parent];
    let pv1 = NodeView {
        children: pv0.children.push(child.id),
        child_edges: pv0.child_edges.push(edge),
        ..pv0
    };
    let ns1 = ns.update(parent, pv1).push(child);
    let new_id = ns.len() as int;
    assert(node_ok(ns, parent));
    assert forall|i: int| 0 <= i < ns1.len() implies #[trigger] node_ok(ns1, i) by {
        if i == new_id {
            // The fresh child: no children, and its parent link points at the
            // updated parent, which now lists it.
            assert(ns1[i] == child);
            assert(ns1[parent] == pv1);
            assert(pv1.children[pv1.children.len() - 1] == child.id);
            assert(pv1.children.contains(child.id));
            assert(parent_link_ok(ns1, i));
            assert(attached_ok(ns1, i));
            assert(child.depth <= i);
        } else if i == parent {
            assert(ns1[i] == pv1);
            // Old child links are untouched; the new one reaches the child.
            assert forall|k: int| 0 <= k < pv1.children.len() implies child_link_ok(
                ns1,
                i,
                #[trigger] pv1.children[k],
            ) by {
                if k < pv0.children.len() {
                    assert(child_link_ok(ns, i, pv0.children[k]));
                    let c = pv0.children[k] as int;
                    assert(ns1[c] == ns[c]);
                } else {
                    assert(pv1.children[k] == child.id);
                    assert(ns1[new_id] == child);
                }
            }
            // Children stay distinct: the old ones lie below the new index.
            assert forall|k1: int, k2: int| 0 <= k1 < k2 < pv1.children.len() implies pv1.children[k1]
                != pv1.children[k2] by {
                if k2 == pv0.children.len() {
                    assert(child_link_ok(ns, i, pv0.children[k1]));
                }
            }
            // The parent's own upward link is unchanged.
            match pv1.parent {
                Some(q) => {
                    assert(parent_link_ok(ns, i));
                    assert(ns1[q as int] == ns[q as int]);
                    assert(parent_link_ok(ns1, i));
                    if !pv1.deleted {
                        assert(attached_ok(ns, i));
                        assert(attached_ok(ns1, i));
                    }
                },
                None => {
                    assert(parent_link_ok(ns1, i));
                },
            }
        } else {
            assert(node_ok(ns, i));
            assert(ns1[i] == ns[i]);
            let n = ns[i];
            assert forall|k: int| 0 <= k < n.children.len() implies child_link_ok(
                ns1,
                i,
                #[trigger] n.children[k],
            ) by {
                assert(child_link_ok(ns, i, n.children[k]));
                let c = n.children[k] as int;
                if c == parent {
                    assert(ns1[c] == pv1);
                } else {
                    assert(ns1[c] == ns[c]);
                }
            }
            match n.parent {
                Some(q) => {
                    assert(parent_link_ok(ns, i));
                    if q as int == parent {
                        assert(ns1[q as int].depth == ns[q as int].depth);
                    } else {
                        assert(ns1[q as int] == ns[q as int]);
                    }
                    assert(parent_link_ok(ns1, i));
                    if !n.deleted {
                        assert(attached_ok(ns, i));
                        if q as int == parent {
                            let w = choose|w: int|
                                0 <= w < pv0.children.len() && pv0.children[w] == i as NodeId;
                            assert(pv1.children[w] == i as NodeId);
                            assert(pv1.children.contains(i as NodeId));
                        } else {
                            assert(ns1[q as int] == ns[q as int]);
                        }
                        assert(attached_ok(ns1, i));
                    }
                },
                None => {
                    assert(parent_link_ok(ns1, i));
                },
            }
        }
    }
}

} // verus!
