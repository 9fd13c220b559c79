//! A single vertex of a phylogenetic tree.

use vstd::prelude::*;

use crate::edge::{duplicate_opt_edge, opt_edge_view, value_eq, Edge, EdgeView};
use crate::NodeId;

verus! {

/// A tree vertex: its identity, label, links to parent and children, and the
/// branch lengths on those links.
///
/// The `child_edges` vector mirrors, entry for entry, the branch length that
/// each child in `children` stores as its own `parent_edge`.
#[derive(Debug, Clone)]
pub struct Node {
    /// The node's index in the arena; equals its position there.
    pub id: NodeId,
    /// The node's label, if it has one.
    pub name: Option<String>,
    /// Free text captured from a bracketed comment next to the label.
    pub comment: Option<String>,
    /// The parent's index; the root has none.
    pub parent: Option<NodeId>,
    /// The length of the branch up to the parent, if given.
    pub parent_edge: Option<Edge>,
    /// The children's indices, in insertion order.
    pub children: Vec<NodeId>,
    /// The mirrored branch length of each child, parallel to `children`.
    pub child_edges: Vec<Option<Edge>>,
    /// The number of branches between this node and the root.
    pub depth: usize,
    /// Whether the node was pruned away; its slot is never reused.
    pub deleted: bool,
}

/// The mathematical content of a [`Node`].
#[verifier::ext_equal]
pub struct NodeView {
    /// The node's index in the arena.
    pub id: NodeId,
    /// The node's label.
    pub name: Option<Seq<char>>,
    /// Captured comment text.
    pub comment: Option<Seq<char>>,
    /// The parent's index.
    pub parent: Option<NodeId>,
    /// The branch length up to the parent.
    pub parent_edge: Option<EdgeView>,
    /// The children's indices, in insertion order.
    pub children: Seq<NodeId>,
    /// The mirrored branch length of each child.
    pub child_edges: Seq<Option<EdgeView>>,
    /// The number of branches between this node and the root.
    pub depth: usize,
    /// Whether the node was pruned away.
    pub deleted: bool,
}

/// The view of an optional string.
pub open spec fn opt_str_view(s: Option<String>) -> Option<Seq<char>> {
    match s {
        Some(t) => Some(t@),
        None => None,
    }
}

impl View for Node {
    type V = NodeView;

    open spec fn view(&self) -> NodeView {
        NodeView {
            id: self.id,
            name: opt_str_view(self.name),
            comment: opt_str_view(self.comment),
            parent: self.parent,
            parent_edge: opt_edge_view(self.parent_edge),
            children: self.children@,
            child_edges: self.child_edges@.map_values(|e: Option<Edge>| opt_edge_view(e)),
            depth: self.depth,
            deleted: self.deleted,
        }
    }
}

/// A well-formed optional branch length.
pub open spec fn opt_edge_wf(e: Option<EdgeView>) -> bool {
    match e {
        Some(edge) => edge.wf(),
        None => true,
    }
}

/// `new` relates to `old` as a branch length rescaled by `factor`: present
/// exactly when `old` is, and then canonical with `old`'s value times
/// `factor`'s value.
pub open spec fn opt_edge_rescaled(
    new: Option<EdgeView>,
    old: Option<EdgeView>,
    factor: EdgeView,
) -> bool {
    match old {
        None => new is None,
        Some(o) => match new {
            Some(n) => n.canonical() && value_eq(
                n.num(),
                n.scale(),
                o.num() * factor.num(),
                o.scale() + factor.scale(),
            ),
            None => false,
        },
    }
}

impl NodeView {
    /// A node as `new` returns it: no links, no label, depth zero.
    pub open spec fn is_fresh(self) -> bool {
        &&& self.name is None
        &&& self.unattached()
    }

    /// A node that may carry a label but no links yet.
    pub open spec fn unattached(self) -> bool {
        &&& self.comment is None
        &&& self.parent is None
        &&& self.parent_edge is None
        &&& self.children.len() == 0
        &&& self.child_edges.len() == 0
        &&& self.depth == 0
        &&& !self.deleted
    }

    /// The node's own records are consistent: one mirrored edge per child,
    /// and every stored branch length is a well-formed number.
    pub open spec fn local_wf(self) -> bool {
        &&& self.children.len() == self.child_edges.len()
        &&& opt_edge_wf(self.parent_edge)
        &&& forall|k: int| 0 <= k < self.child_edges.len() ==> opt_edge_wf(#[trigger] self.child_edges[k])
    }
}

impl Node {
    /// Creates a new unnamed, unattached node.
    pub fn new() -> (r: Node)
        ensures
            r@ == Node::new_spec(),
            r@.is_fresh(),
            r@.local_wf(),
    {
        let r = Node {
            id: 0,
            name: None,
            comment: None,
            parent: None,
            parent_edge: None,
            children: Vec::new(),
            child_edges: Vec::new(),
            depth: 0,
            deleted: false,
        };
        proof {
            assert(r@ =~~= Node::new_spec());
        }
        r
    }

    /// Creates a new named, unattached node.
    pub fn new_named(name: &str) -> (r: Node)
        ensures
            r@ == (NodeView { name: Some(name@), ..Node::new_spec() }),
            r@.unattached(),
            r@.local_wf(),
    {
        let mut n = Node::new();
        n.name = Some(name.to_owned());
        proof {
            assert(n@ =~~= (NodeView { name: Some(name@), ..Node::new_spec() }));
        }
        n
    }

    /// The view of a node as `new` returns it.
    pub open spec fn new_spec() -> NodeView {
        NodeView {
            id: 0,
            name: None,
            comment: None,
            parent: None,
            parent_edge: None,
            children: Seq::empty(),
            child_edges: Seq::empty(),
            depth: 0,
            deleted: false,
        }
    }

    /// Sets the node's label.
    pub fn set_name(&mut self, name: String)
        ensures
            final (self)@ == (NodeView { name: Some(name@), ..old(self)@ }),
    {
        self.name = Some(name);
    }

    /// Sets the node's identity.
    pub fn set_id(&mut self, id: NodeId)
        ensures
            final (self)@ == (NodeView { id, ..old(self)@ }),
    {
        self.id = id;
    }

    /// Sets the parent link and the branch length leading to it.
    pub fn set_parent(&mut self, parent: NodeId, parent_edge: Option<Edge>)
        ensures
            final (self)@ == (NodeView {
                parent: Some(parent),
                parent_edge: opt_edge_view(parent_edge),
                ..old(self)@
            }),
    {
        self.parent = Some(parent);
        self.parent_edge = parent_edge;
    }

    /// Sets the node's distance from the root.
    pub fn set_depth(&mut self, depth: usize)
        ensures
            final (self)@ == (NodeView { depth, ..old(self)@ }),
    {
        self.depth = depth;
    }

    /// Records a child and the mirrored branch length that leads to it.
    pub fn add_child(&mut self, child: NodeId, edge: Option<Edge>)
        ensures
            final (self)@ == (NodeView {
                children: old(self)@.children.push(child),
                child_edges: old(self)@.child_edges.push(opt_edge_view(edge)),
                ..old(self)@
            }),
    {
        let ghost e0 = self.child_edges@;
        self.children.push(child);
        self.child_edges.push(edge);
        proof {
            assert(self.child_edges@.map_values(|e: Option<Edge>| opt_edge_view(e)) =~= e0.map_values(
                |e: Option<Edge>| opt_edge_view(e),
            ).push(opt_edge_view(edge)));
        }
    }

    /// Whether the node is a tip (it has no children).
    pub fn is_tip(&self) -> (r: bool)
        ensures
            r == (self@.children.len() == 0),
    {
        self.children.len() == 0
    }

    /// Reads the mirrored branch length recorded for a child.
    pub fn get_child_edge(&self, child: &NodeId) -> (r: &Option<Edge>)
        requires
            self@.local_wf(),
        ensures
            match child_index_of(self@.children, *child) {
                Some(k) => opt_edge_view(*r) == self@.child_edges[k],
                None => r is None,
            },
    {
        let mut i: usize = 0;
        while i < self.children.len()
            invariant
                i <= self@.children.len(),
                self@.local_wf(),
                forall|k: int| 0 <= k < i ==> self@.children[k] != *child,
            decreases self@.children.len() - i,
        {
            if self.children[i] == *child {
                proof {
                    lemma_child_index_of_found(self@.children, *child, i as int);
                }
                return &self.child_edges[i];
            }
            i += 1;
        }
        proof {
            lemma_child_index_of_absent(self@.children, *child);
        }
        &None
    }

    /// Overwrites the mirrored branch length recorded for a child; does
    /// nothing when the id is not a child of this node.
    pub fn set_child_edge(&mut self, child: &NodeId, edge: Option<Edge>)
        requires
            old(self)@.local_wf(),
        ensures
            match child_index_of(old(self)@.children, *child) {
                Some(k) => final (self)@ == (NodeView {
                    child_edges: old(self)@.child_edges.update(k, opt_edge_view(edge)),
                    ..old(self)@
                }),
                None => final (self)@ == old(self)@,
            },
    {
        let mut i: usize = 0;
        while i < self.children.len()
            invariant
                i <= self@.children.len(),
                *self == *old(self),
                self@.local_wf(),
                forall|k: int| 0 <= k < i ==> self@.children[k] != *child,
            decreases self@.children.len() - i,
        {
            if self.children[i] == *child {
                proof {
                    lemma_child_index_of_found(self@.children, *child, i as int);
                }
                let ghost e0 = self.child_edges@;
                self.child_edges[i] = edge;
                proof {
                    assert(self.child_edges@.map_values(|e: Option<Edge>| opt_edge_view(e))
                        =~= e0.map_values(|e: Option<Edge>| opt_edge_view(e)).update(
                        i as int,
                        opt_edge_view(edge),
                    ));
                }
                return ;
            }
            i += 1;
        }
        proof {
            lemma_child_index_of_absent(self@.children, *child);
        }
    }

    /// Removes a child and its mirrored branch length from this node's
    /// records; does nothing when the id is not a child of this node.
    pub fn remove_child(&mut self, child: &NodeId)
        requires
            old(self)@.local_wf(),
        ensures
            final (self)@.local_wf(),
            match child_index_of(old(self)@.children, *child) {
                Some(k) => final (self)@ == (NodeView {
                    children: old(self)@.children.remove(k),
                    child_edges: old(self)@.child_edges.remove(k),
                    ..old(self)@
                }),
                None => final (self)@ == old(self)@,
            },
    {
        let mut i: usize = 0;
        while i < self.children.len()
            invariant
                i <= self@.children.len(),
                *self == *old(self),
                self@.local_wf(),
                forall|k: int| 0 <= k < i ==> self@.children[k] != *child,
            decreases self@.children.len() - i,
        {
            if self.children[i] == *child {
                proof {
                    lemma_child_index_of_found(self@.children, *child, i as int);
                }
                let ghost e0 = self.child_edges@;
                self.children.remove(i);
                self.child_edges.remove(i);
                proof {
                    assert(self.child_edges@.map_values(|e: Option<Edge>| opt_edge_view(e))
                        =~= e0.map_values(|e: Option<Edge>| opt_edge_view(e)).remove(i as int));
                }
                return ;
            }
            i += 1;
        }
        proof {
            lemma_child_index_of_absent(self@.children, *child);
        }
    }

    /// Replaces a child in this node's records with another id and a new
    /// mirrored branch length; does nothing when the id is not a child.
    pub fn replace_child(&mut self, old_child: &NodeId, new_child: NodeId, edge: Option<Edge>)
        requires
            old(self)@.local_wf(),
        ensures
            match child_index_of(old(self)@.children, *old_child) {
                Some(k) => final (self)@ == (NodeView {
                    children: old(self)@.children.update(k, new_child),
                    child_edges: old(self)@.child_edges.update(k, opt_edge_view(edge)),
                    ..old(self)@
                }),
                None => final (self)@ == old(self)@,
            },
    {
        let mut i: usize = 0;
        while i < self.children.len()
            invariant
                i <= self@.children.len(),
                *self == *old(self),
                self@.local_wf(),
                forall|k: int| 0 <= k < i ==> self@.children[k] != *old_child,
            decreases self@.children.len() - i,
        {
            if self.children[i] == *old_child {
                proof {
                    lemma_child_index_of_found(self@.children, *old_child, i as int);
                }
                let ghost e0 = self.child_edges@;
                self.children[i] = new_child;
                self.child_edges[i] = edge;
                proof {
                    assert(self.child_edges@.map_values(|e: Option<Edge>| opt_edge_view(e))
                        =~= e0.map_values(|e: Option<Edge>| opt_edge_view(e)).update(
                        i as int,
                        opt_edge_view(edge),
                    ));
                }
                return ;
            }
            i += 1;
        }
        proof {
            lemma_child_index_of_absent(self@.children, *old_child);
        }
    }

    /// Marks the node as removed and clears its child records; the arena
    /// slot and the upward link stay behind.
    pub fn delete(&mut self)
        ensures
            final (self)@ == (NodeView {
                deleted: true,
                children: Seq::empty(),
                child_edges: Seq::empty(),
                ..old(self)@
            }),
    {
        self.deleted = true;
        self.children = Vec::new();
        self.child_edges = Vec::new();
        proof {
            assert(self.child_edges@.map_values(|e: Option<Edge>| opt_edge_view(e))
                =~= Seq::<Option<EdgeView>>::empty());
        }
    }

    /// Multiplies the parent branch length and every mirrored child branch
    /// length by `factor`.
    pub fn rescale_edges(&mut self, factor: &Edge)
        requires
            old(self)@.local_wf(),
            factor@.wf(),
            match old(self)@.parent_edge {
                Some(e) => e.scale() + factor@.scale() <= usize::MAX,
                None => true,
            },
            forall|k: int|
                0 <= k < old(self)@.child_edges.len() ==> match #[trigger] old(
                    self,
                )@.child_edges[k] {
                    Some(e) => e.scale() + factor@.scale() <= usize::MAX,
                    None => true,
                },
        ensures
            final (self)@ == (NodeView {
                parent_edge: final (self)@.parent_edge,
                child_edges: final (self)@.child_edges,
                ..old(self)@
            }),
            final (self)@.local_wf(),
            opt_edge_rescaled(final (self)@.parent_edge, old(self)@.parent_edge, factor@),
            final (self)@.child_edges.len() == old(self)@.child_edges.len(),
            forall|k: int|
                0 <= k < old(self)@.child_edges.len() ==> opt_edge_rescaled(
                    #[trigger] final (self)@.child_edges[k],
                    old(self)@.child_edges[k],
                    factor@,
                ),
    {
        let new_parent_edge: Option<Edge> = match &self.parent_edge {
            Some(e) => {
                proof {
                    assert(self@.parent_edge == Some(e@));
                    assert(opt_edge_wf(self@.parent_edge));
                }
                Some(e.times(factor))
            },
            None => None,
        };
        self.parent_edge = new_parent_edge;
        let n = self.child_edges.len();
        let mut i: usize = 0;
        while i < n
            invariant
                i <= n,
                n == self@.child_edges.len(),
                self@ == (NodeView {
                    parent_edge: self@.parent_edge,
                    child_edges: self@.child_edges,
                    ..old(self)@
                }),
                self@.local_wf(),
                opt_edge_rescaled(self@.parent_edge, old(self)@.parent_edge, factor@),
                factor@.wf(),
                self@.child_edges.len() == old(self)@.child_edges.len(),
                forall|k: int|
                    0 <= k < old(self)@.child_edges.len() ==> match #[trigger] old(
                        self,
                    )@.child_edges[k] {
                        Some(e) => e.scale() + factor@.scale() <= usize::MAX,
                        None => true,
                    },
                forall|k: int|
                    0 <= k < i ==> opt_edge_rescaled(
                        #[trigger] self@.child_edges[k],
                        old(self)@.child_edges[k],
                        factor@,
                    ),
                forall|k: int| i <= k < n ==> self@.child_edges[k] == old(self)@.child_edges[k],
            decreases n - i,
        {
            let ghost e0 = self.child_edges@;
            proof {
                assert(self@.child_edges[i as int] == opt_edge_view(self.child_edges@[i as int]));
                assert(opt_edge_wf(self@.child_edges[i as int]));
            }
            let new_edge: Option<Edge> = match &self.child_edges[i] {
                Some(e) => {
                    proof {
                        assert(self@.child_edges[i as int] == Some(e@));
                    }
                    Some(e.times(factor))
                },
                None => None,
            };
            self.child_edges[i] = new_edge;
            proof {
                assert(self.child_edges@.map_values(|e: Option<Edge>| opt_edge_view(e))
                    =~= e0.map_values(|e: Option<Edge>| opt_edge_view(e)).update(
                    i as int,
                    opt_edge_view(new_edge),
                ));
            }
            i += 1;
        }
    }
}

/// The position of `child` in a children list, scanning from the front.
pub open spec fn child_index_of(cs: Seq<NodeId>, child: NodeId) -> Option<int>
    decreases cs.len(),
{
    if cs.len() == 0 {
        None
    } else if cs[0] == child {
        Some(0)
    } else {
        match child_index_of(cs.skip(1), child) {
            Some(k) => Some(k + 1),
            None => None,
        }
    }
}

/// What a found or missing child position means for the list itself.
pub proof fn lemma_child_index_of_correct(cs: Seq<NodeId>, child: NodeId)
    ensures
        match child_index_of(cs, child) {
            Some(k) => 0 <= k < cs.len() && cs[k] == child,
            None => forall|w: int| 0 <= w < cs.len() ==> cs[w] != child,
        },
    decreases cs.len(),
{
    if cs.len() > 0 && cs[0] != child {
        lemma_child_index_of_correct(cs.skip(1), child);
        match child_index_of(cs.skip(1), child) {
            Some(k) => {
                assert(cs[k + 1] == cs.skip(1)[k]);
            },
            None => {
                assert forall|w: int| 0 <= w < cs.len() implies cs[w] != child by {
                    if w > 0 {
                        assert(cs.skip(1)[w - 1] == cs[w]);
                    }
                }
            },
        }
    }
}

proof fn lemma_child_index_of_absent(cs: Seq<NodeId>, child: NodeId)
    requires
        forall|k: int| 0 <= k < cs.len() ==> cs[k] != child,
    ensures
        child_index_of(cs, child) is None,
    decreases cs.len(),
{
    if cs.len() > 0 {
        lemma_child_index_of_absent(cs.skip(1), child);
    }
}

proof fn lemma_child_index_of_found(cs: Seq<NodeId>, child: NodeId, i: int)
    requires
        0 <= i < cs.len(),
        cs[i] == child,
        forall|k: int| 0 <= k < i ==> cs[k] != child,
    ensures
        child_index_of(cs, child) == Some(i),
    decreases cs.len(),
{
    if i == 0 {
    } else {
        lemma_child_index_of_found(cs.skip(1), child, i - 1);
    }
}

} // verus!
