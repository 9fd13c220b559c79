//! The Newick codec: serializing a tree to its text form and parsing it
//! back.

use vstd::prelude::*;

use crate::edge::{is_length_text, opt_edge_view, Edge};
use crate::node::{Node, NodeView};
use crate::tree::{node_ok, root_of, ParseError, Tree, TreeError};
use crate::NodeId;

verus! {

/// What the parser is reading at the moment.
#[derive(PartialEq, Eq, Structural)]
pub enum Phase {
    /// A name (the default at the start of every label).
    Name,
    /// The inside of a bracketed comment.
    Comment,
    /// A branch length, after a colon.
    Length,
}

/// The whitespace characters rejected inside a number field.
pub open spec fn is_ws_spec(c: char) -> bool {
    c == ' ' || c == '\t' || c == '\n' || c == '\r' || c == '\u{b}' || c == '\u{c}'
}

fn is_ws(c: char) -> (r: bool)
    ensures
        r == is_ws_spec(c),
{
    c == ' ' || c == '\t' || c == '\n' || c == '\r' || c == '\u{b}' || c == '\u{c}'
}

/// Relies on `str::chars` (collected into a vector): it yields exactly the
/// string's characters, in order.
#[verifier::external_body]
fn chars_of(s: &str) -> (r: Vec<char>)
    ensures
        r@ == s@,
{
    s.chars().collect()
}

/// Relies on `String`'s `FromIterator` over characters: the collected
/// string holds exactly the given characters, in order.
#[verifier::external_body]
fn string_from_chars(v: &Vec<char>) -> (r: String)
    ensures
        r@ == v@,
{
    v.iter().collect()
}

/// The label a node writes after its subtree: name, colon-prefixed branch
/// length, and bracketed comment, each only when present.
pub open spec fn render_label(n: NodeView) -> Seq<char> {
    (match n.name {
        Some(s) => s,
        None => Seq::empty(),
    }) + (match n.parent_edge {
        Some(e) => seq![':'] + e.text(),
        None => Seq::empty(),
    }) + (match n.comment {
        Some(c) => seq!['['] + c + seq![']'],
        None => Seq::empty(),
    })
}

/// The Newick text of the subtree rooted at `i` (without the final
/// semicolon): a tip writes its label; an inner node writes its children in
/// parentheses, comma-separated, followed by its own label.
pub open spec fn render_subtree(ns: Seq<NodeView>, i: int) -> Seq<char>
    decreases ns.len() - i, 1int, 0int,
{
    if 0 <= i < ns.len() {
        if ns[i].children.len() == 0 {
            render_label(ns[i])
        } else {
            seq!['('] + render_children(ns, ns[i].children, i) + seq![')'] + render_label(ns[i])
        }
    } else {
        Seq::empty()
    }
}

/// The comma-separated texts of the subtrees rooted at `cs`. Only children
/// above `floor` are descended into; in a well-formed tree all of them are.
pub open spec fn render_children(ns: Seq<NodeView>, cs: Seq<NodeId>, floor: int) -> Seq<char>
    decreases ns.len() - floor, 0int, cs.len(),
{
    if cs.len() == 0 {
        Seq::empty()
    } else {
        let head = if floor < cs[0] && cs[0] < ns.len() {
            render_subtree(ns, cs[0] as int)
        } else {
            Seq::empty()
        };
        if cs.len() == 1 {
            head
        } else {
            head + seq![','] + render_children(ns, cs.skip(1), floor)
        }
    }
}

impl Tree {
    /// The label text of one node, as characters.
    fn label_chars(&self, id: NodeId) -> (r: Vec<char>)
        requires
            self.well_formed(),
            id < self@.len(),
        ensures
            r@ == render_label(self@[id as int]),
    {
        let mut out: Vec<char> = Vec::new();
        let node = &self.nodes[id];
        match &node.name {
            Some(s) => {
                let mut cs = chars_of(s.as_str());
                out.append(&mut cs);
            },
            None => {},
        }
        match &node.parent_edge {
            Some(e) => {
                proof {
                    assert(node_ok(self@, id as int));
                    assert(self@[id as int].parent_edge == Some(e@));
                    assert(crate::node::opt_edge_wf(self@[id as int].parent_edge));
                }
                out.push(':');
                let mut cs = e.to_chars();
                out.append(&mut cs);
            },
            None => {},
        }
        match &node.comment {
            Some(c) => {
                out.push('[');
                let mut cs = chars_of(c.as_str());
                out.append(&mut cs);
                out.push(']');
            },
            None => {},
        }
        proof {
            assert(out@ =~= render_label(self@[id as int]));
        }
        out
    }

    /// The Newick text of the subtree rooted at `root`, as characters.
    fn to_newick_chars(&self, root: NodeId) -> (r: Vec<char>)
        requires
            self.well_formed(),
            root < self@.len(),
        ensures
            r@ == render_subtree(self@, root as int),
        decreases self@.len() - root,
    {
        if self.nodes[root].children.len() == 0 {
            return self.label_chars(root);
        }
        proof {
            assert(node_ok(self@, root as int));
        }
        let mut out: Vec<char> = Vec::new();
        out.push('(');
        let n_children = self.nodes[root].children.len();
        let mut k: usize = 0;
        while k < n_children
            invariant
                k <= n_children,
                self.well_formed(),
                root < self@.len(),
                n_children == self@[root as int].children.len(),
                n_children > 0,
                node_ok(self@, root as int),
                out@ == seq!['('] + render_children_upto(
                    self@,
                    self@[root as int].children,
                    root as int,
                    k as int,
                ),
            decreases n_children - k,
        {
            if k > 0 {
                out.push(',');
            }
            let child = self.nodes[root].children[k];
            proof {
                assert(crate::tree::child_link_ok(self@, root as int, child));
            }
            let mut sub = self.to_newick_chars(child);
            out.append(&mut sub);
            proof {
                lemma_render_children_upto_step(
                    self@,
                    self@[root as int].children,
                    root as int,
                    k as int,
                );
                assert(out@ =~= seq!['('] + render_children_upto(
                    self@,
                    self@[root as int].children,
                    root as int,
                    k + 1,
                ));
            }
            k += 1;
        }
        proof {
            lemma_render_children_upto_full(
                self@,
                self@[root as int].children,
                root as int,
            );
        }
        out.push(')');
        let mut label = self.label_chars(root);
        out.append(&mut label);
        proof {
            assert(out@ =~= render_subtree(self@, root as int));
        }
        out
    }

    /// Writes the tree as a Newick string: the root's subtree followed by a
    /// semicolon. Fails with [`TreeError::RootNotFound`] when the tree has
    /// no root.
    pub fn to_newick(&self) -> (r: Result<String, TreeError>)
        requires
            self.well_formed(),
        ensures
            match root_of(self@) {
                Some(rt) => r matches Ok(s) && s@ == render_subtree(self@, rt) + seq![';'],
                None => r == Err::<String, TreeError>(TreeError::RootNotFound),
            },
    {
        proof {
            crate::tree::lemma_first_root_in_range(self@, 0);
        }
        let n = self.nodes.len();
        let root = match self.get_root() {
            Ok(rt) => rt,
            Err(e) => {
                return Err(e);
            },
        };
        proof {
            assert(self@.len() == n);
            assert(root_of(self@) == Some(root as int));
        }
        let mut out = self.to_newick_chars(root);
        out.push(';');
        Ok(string_from_chars(&out))
    }
}

/// Node `j`'s upward branch length, when there is one, is mirrored in its
/// parent's per-child registry under the same written form.
pub open spec fn node_mirrored(ns: Seq<NodeView>, j: int) -> bool {
    match (ns[j].parent, ns[j].parent_edge) {
        (Some(p), Some(e)) => p < ns.len() && (match crate::node::child_index_of(
            ns[p as int].children,
            j as NodeId,
        ) {
            Some(k) => 0 <= k < ns[p as int].child_edges.len() && ns[p as int].child_edges[k]
                == Some(e),
            None => true,
        }),
        _ => true,
    }
}

/// Every recorded upward branch length agrees with the parent's mirrored
/// per-child registry.
pub open spec fn mirrors_ok(ns: Seq<NodeView>) -> bool {
    forall|j: int| 0 <= j < ns.len() ==> #[trigger] node_mirrored(ns, j)
}

/// The arena after the accumulated label fields are assigned onto node
/// `idx`: the name when one was read, the comment when brackets were seen,
/// and the branch length when its field is nonempty -- the length only onto
/// a node that has a parent, except at the closing semicolon, where the
/// root too may carry one.
pub open spec fn labeled_nodes(
    ns: Seq<NodeView>,
    idx: NodeId,
    name: Seq<char>,
    has_comment: bool,
    comment: Seq<char>,
    length: Seq<char>,
    at_end: bool,
) -> Seq<NodeView> {
    ns.update(
        idx as int,
        NodeView {
            name: if name.len() > 0 {
                Some(name)
            } else {
                ns[idx as int].name
            },
            comment: if has_comment {
                Some(comment)
            } else {
                ns[idx as int].comment
            },
            parent_edge: if length.len() > 0 && (at_end || ns[idx as int].parent is Some) {
                Some(crate::edge::edge_of_text(length))
            } else {
                ns[idx as int].parent_edge
            },
            ..ns[idx as int]
        },
    )
}

/// Assigns the accumulated label fields to node `idx` of the tree, as
/// [`labeled_nodes`] describes. Fails with [`ParseError::FloatError`]
/// exactly when a nonempty length field is not a number.
fn assign_label(
    tree: &mut Tree,
    idx: NodeId,
    name_acc: &Vec<char>,
    has_comment: bool,
    comment_acc: &Vec<char>,
    length_acc: &Vec<char>,
    at_end: bool,
) -> (r: Result<(), ParseError>)
    requires
        old(tree).well_formed(),
        idx < old(tree)@.len(),
    ensures
        match r {
            Ok(()) => {
                &&& length_acc@.len() > 0 ==> is_length_text(length_acc@)
                &&& final (tree)@ == labeled_nodes(
                    old(tree)@,
                    idx,
                    name_acc@,
                    has_comment,
                    comment_acc@,
                    length_acc@,
                    at_end,
                )
                &&& final (tree).well_formed()
            },
            Err(e) => e == ParseError::FloatError && final (tree)@ == old(tree)@
                && length_acc@.len() > 0 && !is_length_text(length_acc@),
        },
{
    let mut edge: Option<Edge> = None;
    if length_acc.len() > 0 {
        match Edge::parse_chars(length_acc) {
            Some(e) => {
                edge = Some(e);
            },
            None => {
                return Err(ParseError::FloatError);
            },
        }
    }
    let ghost pre = tree@;
    let node = &mut tree.nodes[idx];
    if name_acc.len() > 0 {
        node.name = Some(string_from_chars(name_acc));
    }
    if has_comment {
        node.comment = Some(string_from_chars(comment_acc));
    }
    if length_acc.len() > 0 && (at_end || node.parent.is_some()) {
        node.parent_edge = edge;
    }
    proof {
        assert(tree@ =~= pre.update(idx as int, tree@[idx as int]));
        assert(node_ok(pre, idx as int));
        assert(tree@[idx as int].local_wf());
        crate::tree::lemma_wf_update_soft(pre, tree@, idx as int);
        assert(tree@ =~~= labeled_nodes(
            pre,
            idx,
            name_acc@,
            has_comment,
            comment_acc@,
            length_acc@,
            at_end,
        ));
    }
    Ok(())
}

/// Copies every node's upward branch length into its parent's mirrored
/// per-child registry. Everything else, including every node's own upward
/// length, stays as it is.
fn mirror_edges(tree: &mut Tree)
    requires
        old(tree).well_formed(),
    ensures
        final (tree).well_formed(),
        final (tree)@.len() == old(tree)@.len(),
        forall|j: int|
            0 <= j < old(tree)@.len() ==> #[trigger] final (tree)@[j] == (NodeView {
                child_edges: final (tree)@[j].child_edges,
                ..old(tree)@[j]
            }) && final (tree)@[j].child_edges.len() == old(tree)@[j].child_edges.len(),
        mirrors_ok(final (tree)@),
{
    let n = tree.nodes.len();
    let mut id: usize = 0;
    while id < n
        invariant
            id <= n,
            n == tree@.len(),
            tree@.len() == old(tree)@.len(),
            tree.well_formed(),
            forall|j: int|
                0 <= j < n ==> #[trigger] tree@[j] == (NodeView {
                    child_edges: tree@[j].child_edges,
                    ..old(tree)@[j]
                }) && tree@[j].child_edges.len() == old(tree)@[j].child_edges.len(),
            forall|j: int| 0 <= j < id ==> node_mirrored(tree@, j),
        decreases n - id,
    {
        let parent_opt = tree.nodes[id].parent;
        let edge = crate::edge::duplicate_opt_edge(&tree.nodes[id].parent_edge);
        proof {
            assert(node_ok(tree@, id as int));
        }
        if let Some(p) = parent_opt {
            if let Some(e) = edge {
                proof {
                    assert(opt_edge_view(Some(e)) == tree@[id as int].parent_edge);
                    assert(crate::node::opt_edge_wf(tree@[id as int].parent_edge));
                    assert(node_ok(tree@, p as int));
                    assert(tree@[p as int].local_wf());
                }
                let ghost pre = tree@;
                let pn = &mut tree.nodes[p];
                pn.set_child_edge(&id, Some(e));
                proof {
                    assert(tree@ =~= pre.update(p as int, tree@[p as int]));
                    crate::node::lemma_child_index_of_correct(pre[p as int].children, id);
                    assert(tree@[p as int].local_wf()) by {
                        match crate::node::child_index_of(pre[p as int].children, id) {
                            Some(k) => {
                                assert(node_ok(pre, p as int));
                                assert forall|w: int|
                                    0 <= w < tree@[p as int].child_edges.len() implies
                                    crate::node::opt_edge_wf(
                                        #[trigger] tree@[p as int].child_edges[w],
                                    ) by {
                                    if w != k {
                                        assert(tree@[p as int].child_edges[w] == pre[
                                            p as int
                                        ].child_edges[w]);
                                    }
                                }
                            },
                            None => {},
                        }
                    }
                    crate::tree::lemma_wf_update_soft(pre, tree@, p as int);
                    // The processed node is now mirrored, and every node
                    // mirrored before keeps its own registry entry: only one
                    // slot of one parent changed, and it belongs to `id`.
                    match crate::node::child_index_of(pre[p as int].children, id) {
                        Some(k) => {
                            assert(node_mirrored(tree@, id as int)) by {
                                assert(tree@[id as int] == pre[id as int]);
                                assert(tree@[p as int].children == pre[p as int].children);
                                assert(tree@[p as int].child_edges[k] == tree@[
                                    id as int
                                ].parent_edge);
                            }
                            assert forall|j: int| 0 <= j < id implies node_mirrored(
                                tree@,
                                j,
                            ) by {
                                assert(node_mirrored(pre, j));
                                if j == p {
                                    // Only this node's registry changed; its
                                    // own upward link and its own parent's
                                    // registry are untouched.
                                    assert(tree@[j].parent == pre[j].parent);
                                    assert(tree@[j].parent_edge == pre[j].parent_edge);
                                    match (pre[j].parent, pre[j].parent_edge) {
                                        (Some(pj), Some(_ej)) => {
                                            assert(node_ok(pre, j));
                                            assert(pj < j);
                                            assert(tree@[pj as int] == pre[pj as int]);
                                        },
                                        _ => {},
                                    }
                                } else {
                                assert(tree@[j] == pre[j]);
                                match (pre[j].parent, pre[j].parent_edge) {
                                    (Some(pj), Some(_ej)) => {
                                        if pj == p {
                                            crate::node::lemma_child_index_of_correct(
                                                pre[p as int].children,
                                                j as NodeId,
                                            );
                                            match crate::node::child_index_of(
                                                pre[p as int].children,
                                                j as NodeId,
                                            ) {
                                                Some(kj) => {
                                                    assert(pre[p as int].children[kj]
                                                        == j as NodeId);
                                                    assert(pre[p as int].children[k] == id);
                                                    assert(kj != k);
                                                    assert(tree@[p as int].child_edges[kj] == pre[
                                                        p as int
                                                    ].child_edges[kj]);
                                                },
                                                None => {},
                                            }
                                        } else {
                                            assert(tree@[pj as int] == pre[pj as int]);
                                        }
                                    },
                                    _ => {},
                                }
                                }
                            }
                        },
                        None => {
                            assert(node_mirrored(tree@, id as int));
                            assert forall|j: int| 0 <= j < id implies node_mirrored(
                                tree@,
                                j,
                            ) by {
                                assert(node_mirrored(pre, j));
                                assert(tree@ =~= pre);
                            }
                        },
                    }
                }
            } else {
                proof {
                    assert(node_mirrored(tree@, id as int));
                }
            }
        } else {
            proof {
                assert(node_mirrored(tree@, id as int));
            }
        }
        id += 1;
    }
    proof {
        assert forall|j: int| 0 <= j < tree@.len() implies #[trigger] node_mirrored(tree@, j) by {
        }
    }
}

/// One snapshot of the scanner: what it is reading, the quote flag, the
/// accumulated label fields, the open subtrees, the node awaiting its
/// label, and the nodes built so far.
#[verifier::ext_equal]
pub ghost struct ScanState {
    /// What the scanner is reading.
    pub phase: Phase,
    /// Whether a quoted name is open.
    pub in_quotes: bool,
    /// The name accumulated so far.
    pub name: Seq<char>,
    /// Whether a comment was opened for the current label.
    pub has_comment: bool,
    /// The comment accumulated so far.
    pub comment: Seq<char>,
    /// The branch-length text accumulated so far.
    pub length: Seq<char>,
    /// The open subtrees, innermost last.
    pub stack: Seq<NodeId>,
    /// The node the next label belongs to, when a subtree just closed.
    pub current: Option<NodeId>,
    /// The nodes built so far.
    pub nodes: Seq<NodeView>,
}

/// Where the scan stands: still going, finished at the semicolon with the
/// nodes it built, or stopped with an error.
#[verifier::ext_equal]
pub ghost enum ScanOutcome {
    /// The scan continues in this state.
    Going(ScanState),
    /// The semicolon closed the tree over these nodes.
    Finished(Seq<NodeView>),
    /// The scan failed.
    Stopped(ParseError),
}

/// The scanner's starting state: reading a name, nothing accumulated,
/// nothing built.
pub open spec fn scan_init() -> ScanState {
    ScanState {
        phase: Phase::Name,
        in_quotes: false,
        name: Seq::empty(),
        has_comment: false,
        comment: Seq::empty(),
        length: Seq::empty(),
        stack: Seq::empty(),
        current: None,
        nodes: Seq::empty(),
    }
}

/// The arena after a fresh node is attached under `parent` with no branch
/// length, as [`Tree::add_child`] does it.
pub open spec fn scan_add_child(ns: Seq<NodeView>, parent: NodeId) -> Seq<NodeView> {
    ns.update(
        parent as int,
        NodeView {
            children: ns[parent as int].children.push(ns.len() as NodeId),
            child_edges: ns[parent as int].child_edges.push(None),
            ..ns[parent as int]
        },
    ).push(
        NodeView {
            id: ns.len() as NodeId,
            parent: Some(parent),
            parent_edge: None,
            depth: (ns[parent as int].depth + 1) as usize,
            ..Node::new_spec()
        },
    )
}

/// One scanner step: the outcome of reading `c` in state `st`. A quoted
/// name and an open comment capture their characters verbatim; a quote
/// toggles the flag; brackets open and close a comment; `(` opens a
/// subtree where none of a label has begun; `:` starts the length; `,` and
/// `)` finalize the pending label (a closing bracket with nothing open
/// stops the scan); `;` finishes the tree; everything else goes into the
/// name or length field, whitespace in a length stopping the scan.
pub open spec fn scan_step(st: ScanState, c: char) -> ScanOutcome {
    if st.phase == Phase::Name && st.in_quotes && c != '"' {
        ScanOutcome::Going(ScanState { name: st.name.push(c), ..st })
    } else if st.phase == Phase::Comment && c != ']' {
        ScanOutcome::Going(ScanState { comment: st.comment.push(c), ..st })
    } else if c == '"' {
        ScanOutcome::Going(
            ScanState {
                in_quotes: !st.in_quotes,
                name: if st.phase == Phase::Name {
                    st.name.push('"')
                } else {
                    st.name
                },
                ..st
            },
        )
    } else if c == '[' {
        ScanOutcome::Going(ScanState { phase: Phase::Comment, has_comment: true, ..st })
    } else if c == ']' {
        ScanOutcome::Going(ScanState { phase: Phase::Name, ..st })
    } else if c == '(' && st.phase == Phase::Name && st.name.len() == 0 && st.current is None && (
    st.stack.len() > 0 || st.nodes.len() == 0) {
        if st.stack.len() == 0 {
            ScanOutcome::Going(
                ScanState {
                    stack: st.stack.push(st.nodes.len() as NodeId),
                    nodes: st.nodes.push(
                        NodeView { id: st.nodes.len() as NodeId, ..Node::new_spec() },
                    ),
                    ..st
                },
            )
        } else {
            ScanOutcome::Going(
                ScanState {
                    stack: st.stack.push(st.nodes.len() as NodeId),
                    nodes: scan_add_child(st.nodes, st.stack.last()),
                    ..st
                },
            )
        }
    } else if c == ':' {
        ScanOutcome::Going(ScanState { phase: Phase::Length, ..st })
    } else if c == ',' || c == ')' {
        if st.current is None && st.stack.len() == 0 {
            ScanOutcome::Stopped(ParseError::NoSubtreeParent)
        } else {
            let idx = match st.current {
                Some(ix) => ix,
                None => st.nodes.len() as NodeId,
            };
            let ns1 = match st.current {
                Some(ix) => st.nodes,
                None => scan_add_child(st.nodes, st.stack.last()),
            };
            if st.length.len() > 0 && !is_length_text(st.length) {
                ScanOutcome::Stopped(ParseError::FloatError)
            } else {
                let ns2 = labeled_nodes(
                    ns1,
                    idx,
                    st.name,
                    st.has_comment,
                    st.comment,
                    st.length,
                    false,
                );
                if c == ',' {
                    ScanOutcome::Going(
                        ScanState {
                            phase: Phase::Name,
                            name: Seq::empty(),
                            has_comment: false,
                            comment: Seq::empty(),
                            length: Seq::empty(),
                            current: None,
                            nodes: ns2,
                            ..st
                        },
                    )
                } else if st.stack.len() == 0 {
                    ScanOutcome::Stopped(ParseError::NoSubtreeParent)
                } else {
                    ScanOutcome::Going(
                        ScanState {
                            phase: Phase::Name,
                            name: Seq::empty(),
                            has_comment: false,
                            comment: Seq::empty(),
                            length: Seq::empty(),
                            stack: st.stack.drop_last(),
                            current: Some(st.stack.last()),
                            nodes: ns2,
                            ..st
                        },
                    )
                }
            }
        }
    } else if c == ';' {
        if st.stack.len() > 0 {
            ScanOutcome::Stopped(ParseError::UnclosedBracket)
        } else {
            match st.current {
                None => ScanOutcome::Stopped(ParseError::NoSubtreeParent),
                Some(ix) => if st.length.len() > 0 && !is_length_text(st.length) {
                    ScanOutcome::Stopped(ParseError::FloatError)
                } else {
                    ScanOutcome::Finished(
                        labeled_nodes(
                            st.nodes,
                            ix,
                            st.name,
                            st.has_comment,
                            st.comment,
                            st.length,
                            true,
                        ),
                    )
                },
            }
        }
    } else if st.phase == Phase::Length {
        if is_ws_spec(c) {
            ScanOutcome::Stopped(ParseError::WhiteSpaceInNumber)
        } else {
            ScanOutcome::Going(ScanState { length: st.length.push(c), ..st })
        }
    } else {
        ScanOutcome::Going(ScanState { name: st.name.push(c), ..st })
    }
}

/// The scan's standing after the first `i` characters of `s`. Text after
/// a finishing semicolon is trailing and stops the scan.
pub open spec fn scan_upto(s: Seq<char>, i: int) -> ScanOutcome
    decreases i,
{
    if i <= 0 {
        ScanOutcome::Going(scan_init())
    } else {
        match scan_upto(s, i - 1) {
            ScanOutcome::Going(st) => scan_step(st, s[i - 1]),
            ScanOutcome::Finished(ns) => ScanOutcome::Stopped(ParseError::NoClosingSemicolon),
            ScanOutcome::Stopped(e) => ScanOutcome::Stopped(e),
        }
    }
}

/// What the scan of the whole text settles on: the nodes built when the
/// text is one tree closed by a final semicolon, or the error; text that
/// simply runs out has no closing semicolon.
pub open spec fn scan_of(s: Seq<char>) -> ScanOutcome {
    match scan_upto(s, s.len() as int) {
        ScanOutcome::Going(st) => ScanOutcome::Stopped(ParseError::NoClosingSemicolon),
        ScanOutcome::Finished(ns) => ScanOutcome::Finished(ns),
        ScanOutcome::Stopped(e) => ScanOutcome::Stopped(e),
    }
}

/// Once the scan has stopped, the rest of the text changes nothing.
proof fn lemma_scan_settled(s: Seq<char>, i: int, j: int)
    requires
        0 <= i <= j,
        scan_upto(s, i) is Stopped,
    ensures
        scan_upto(s, j) == scan_upto(s, i),
    decreases j - i,
{
    if j > i {
        lemma_scan_settled(s, i, j - 1);
    }
}

/// After a finishing semicolon, any further character is trailing text,
/// which the scan refuses as a missing closing semicolon.
proof fn lemma_scan_trailing(s: Seq<char>, i: int, j: int)
    requires
        0 <= i < j,
        scan_upto(s, i) is Finished,
    ensures
        scan_upto(s, j) == ScanOutcome::Stopped(ParseError::NoClosingSemicolon),
    decreases j - i,
{
    if j > i + 1 {
        lemma_scan_trailing(s, i, j - 1);
    }
}

impl Tree {
    /// Reads a Newick string into a tree, by a single left-to-right scan.
    ///
    /// The result is exactly what the scanner specification [`scan_of`]
    /// settles on for the text: on the inputs it accepts, a well-formed
    /// tree whose nodes are the scanned ones (the parents' mirrored branch
    /// registries filled in by the finishing pass), with the root at index
    /// zero as the only parentless node; on every other input, the error
    /// that the scanner names -- a still-open subtree at the semicolon is
    /// [`ParseError::UnclosedBracket`], text that ends without a semicolon
    /// or continues after one is [`ParseError::NoClosingSemicolon`],
    /// whitespace inside a length is [`ParseError::WhiteSpaceInNumber`], a
    /// malformed length is [`ParseError::FloatError`], and a closing
    /// bracket or a label with no subtree open is
    /// [`ParseError::NoSubtreeParent`].
    pub fn from_newick(newick: &str) -> (r: Result<Tree, ParseError>)
        ensures
            match scan_of(newick@) {
                ScanOutcome::Finished(ns) => {
                    &&& r matches Ok(t)
                    &&& t.well_formed()
                    &&& t@.len() == ns.len()
                    &&& t@.len() > 0
                    &&& forall|j: int|
                        0 <= j < ns.len() ==> (#[trigger] t@[j]) == (NodeView {
                            child_edges: t@[j].child_edges,
                            ..ns[j]
                        }) && t@[j].child_edges.len() == ns[j].child_edges.len()
                    &&& mirrors_ok(t@)
                    &&& root_of(t@) == Some(0int)
                    &&& forall|j: int| 1 <= j < t@.len() ==> (#[trigger] t@[j]).parent is Some
                    &&& forall|j: int| 0 <= j < t@.len() ==> !(#[trigger] t@[j]).deleted
                    &&& newick@.len() > 0 && newick@.last() == ';'
                },
                ScanOutcome::Stopped(e) => r == Err::<Tree, ParseError>(e),
                ScanOutcome::Going(st) => false,
            },
    {
        let chars = chars_of(newick);
        let n = chars.len();
        let mut tree = Tree::new();
        let mut phase = Phase::Name;
        let mut in_quotes = false;
        let mut name_acc: Vec<char> = Vec::new();
        let mut has_comment = false;
        let mut comment_acc: Vec<char> = Vec::new();
        let mut length_acc: Vec<char> = Vec::new();
        let mut stack: Vec<NodeId> = Vec::new();
        let mut current: Option<NodeId> = None;
        let mut i: usize = 0;
        proof {
            assert(tree@ =~= Seq::<NodeView>::empty());
            assert(scan_upto(chars@, 0int) =~~= ScanOutcome::Going(
                ScanState {
                    phase: phase,
                    in_quotes: in_quotes,
                    name: name_acc@,
                    has_comment: has_comment,
                    comment: comment_acc@,
                    length: length_acc@,
                    stack: stack@,
                    current: current,
                    nodes: tree@,
                },
            ));
        }
        while i < n
            invariant
                i <= n,
                n == chars@.len(),
                chars@ == newick@,
                tree.well_formed(),
                forall|k: int| 0 <= k < stack@.len() ==> (#[trigger] stack@[k]) < tree@.len(),
                current matches Some(cu) ==> cu < tree@.len(),
                tree@.len() > 0 ==> tree@[0].parent is None,
                forall|j: int| 1 <= j < tree@.len() ==> (#[trigger] tree@[j]).parent is Some,
                forall|j: int| 0 <= j < tree@.len() ==> !(#[trigger] tree@[j]).deleted,
                scan_upto(chars@, i as int) == ScanOutcome::Going(
                    ScanState {
                        phase: phase,
                        in_quotes: in_quotes,
                        name: name_acc@,
                        has_comment: has_comment,
                        comment: comment_acc@,
                        length: length_acc@,
                        stack: stack@,
                        current: current,
                        nodes: tree@,
                    },
                ),
            decreases n - i,
        {
            let ghost st = ScanState {
                phase: phase,
                in_quotes: in_quotes,
                name: name_acc@,
                has_comment: has_comment,
                comment: comment_acc@,
                length: length_acc@,
                stack: stack@,
                current: current,
                nodes: tree@,
            };
            let c = chars[i];
            proof {
                assert(scan_upto(chars@, i as int + 1) == scan_step(st, c));
            }
            // Characters captured verbatim by the current field.
            if phase == Phase::Name && in_quotes && c != '"' {
                name_acc.push(c);
                proof {
                    assert(scan_step(st, c) =~~= ScanOutcome::Going(
                        ScanState { name: name_acc@, ..st },
                    ));
                }
                i += 1;
                continue ;
            }
            if phase == Phase::Comment && c != ']' {
                comment_acc.push(c);
                proof {
                    assert(scan_step(st, c) =~~= ScanOutcome::Going(
                        ScanState { comment: comment_acc@, ..st },
                    ));
                }
                i += 1;
                continue ;
            }
            if c == '"' {
                in_quotes = !in_quotes;
                if phase == Phase::Name {
                    name_acc.push('"');
                }
                proof {
                    assert(scan_step(st, c) =~~= ScanOutcome::Going(
                        ScanState { in_quotes: in_quotes, name: name_acc@, ..st },
                    ));
                }
                i += 1;
                continue ;
            }
            if c == '[' {
                phase = Phase::Comment;
                has_comment = true;
                proof {
                    assert(scan_step(st, c) =~~= ScanOutcome::Going(
                        ScanState { phase: Phase::Comment, has_comment: true, ..st },
                    ));
                }
                i += 1;
                continue ;
            }
            if c == ']' {
                phase = Phase::Name;
                proof {
                    assert(scan_step(st, c) =~~= ScanOutcome::Going(
                        ScanState { phase: Phase::Name, ..st },
                    ));
                }
                i += 1;
                continue ;
            }
            if c == '(' && phase == Phase::Name && name_acc.len() == 0 && current.is_none() && (
            stack.len() > 0 || tree.size() == 0) {
                // Open a subtree: a fresh root, or a fresh child of the
                // innermost open subtree.
                if stack.len() == 0 {
                    let id = tree.add(Node::new());
                    stack.push(id);
                    proof {
                        assert(tree@ =~~= st.nodes.push(
                            NodeView { id: st.nodes.len() as NodeId, ..Node::new_spec() },
                        ));
                        assert(scan_step(st, c) =~~= ScanOutcome::Going(
                            ScanState { stack: stack@, nodes: tree@, ..st },
                        ));
                    }
                } else {
                    let parent = stack[stack.len() - 1];
                    let id = match tree.add_child(Node::new(), parent, None) {
                        Ok(id) => id,
                        Err(e) => {
                            proof {
                                assert(false);
                            }
                            return Err(ParseError::TreeError(e));
                        },
                    };
                    stack.push(id);
                    proof {
                        assert(st.stack.last() == parent);
                        assert(tree@ =~~= scan_add_child(st.nodes, parent));
                        assert(scan_step(st, c) =~~= ScanOutcome::Going(
                            ScanState { stack: stack@, nodes: tree@, ..st },
                        ));
                    }
                }
                i += 1;
                continue ;
            }
            if c == ':' {
                phase = Phase::Length;
                proof {
                    assert(scan_step(st, c) =~~= ScanOutcome::Going(
                        ScanState { phase: Phase::Length, ..st },
                    ));
                }
                i += 1;
                continue ;
            }
            // Structural characters: ',' ')' and ';'.
            if c == ',' || c == ')' {
                // Finish the node the label belongs to: the one just closed,
                // or a fresh sibling under the innermost open subtree.
                let idx: NodeId = match current {
                    Some(ix) => ix,
                    None => {
                        if stack.len() == 0 {
                            proof {
                                lemma_scan_settled(chars@, i as int + 1, n as int);
                            }
                            return Err(ParseError::NoSubtreeParent);
                        }
                        let parent = stack[stack.len() - 1];
                        match tree.add_child(Node::new(), parent, None) {
                            Ok(id) => {
                                proof {
                                    assert(st.stack.last() == parent);
                                    assert(tree@ =~~= scan_add_child(st.nodes, parent));
                                }
                                id
                            },
                            Err(e) => {
                                proof {
                                    assert(false);
                                }
                                return Err(ParseError::TreeError(e));
                            },
                        }
                    },
                };
                let ghost ns1 = tree@;
                match assign_label(
                    &mut tree,
                    idx,
                    &name_acc,
                    has_comment,
                    &comment_acc,
                    &length_acc,
                    false,
                ) {
                    Ok(()) => {},
                    Err(e) => {
                        proof {
                            assert(scan_step(st, c) == ScanOutcome::Stopped(
                                ParseError::FloatError,
                            ));
                            lemma_scan_settled(chars@, i as int + 1, n as int);
                        }
                        return Err(e);
                    },
                }
                proof {
                    assert(tree@ == labeled_nodes(
                        ns1,
                        idx,
                        st.name,
                        st.has_comment,
                        st.comment,
                        st.length,
                        false,
                    ));
                }
                name_acc = Vec::new();
                has_comment = false;
                comment_acc = Vec::new();
                length_acc = Vec::new();
                phase = Phase::Name;
                if c == ',' {
                    current = None;
                    proof {
                        assert(scan_step(st, c) =~~= ScanOutcome::Going(
                            ScanState {
                                phase: Phase::Name,
                                name: name_acc@,
                                has_comment: false,
                                comment: comment_acc@,
                                length: length_acc@,
                                current: None,
                                nodes: tree@,
                                ..st
                            },
                        ));
                    }
                } else {
                    // ')': the subtree closes; its opening node takes the
                    // label that follows.
                    match stack.pop() {
                        Some(p) => {
                            current = Some(p);
                            proof {
                                assert(st.stack.last() == p);
                                assert(stack@ =~= st.stack.drop_last());
                                assert(scan_step(st, c) =~~= ScanOutcome::Going(
                                    ScanState {
                                        phase: Phase::Name,
                                        name: name_acc@,
                                        has_comment: false,
                                        comment: comment_acc@,
                                        length: length_acc@,
                                        stack: stack@,
                                        current: Some(p),
                                        nodes: tree@,
                                        ..st
                                    },
                                ));
                            }
                        },
                        None => {
                            proof {
                                assert(scan_step(st, c) == ScanOutcome::Stopped(
                                    ParseError::NoSubtreeParent,
                                ));
                                lemma_scan_settled(chars@, i as int + 1, n as int);
                            }
                            return Err(ParseError::NoSubtreeParent);
                        },
                    }
                }
                i += 1;
                continue ;
            }
            if c == ';' {
                // The tree ends here.
                if stack.len() > 0 {
                    proof {
                        lemma_scan_settled(chars@, i as int + 1, n as int);
                    }
                    return Err(ParseError::UnclosedBracket);
                }
                let idx: NodeId = match current {
                    Some(ix) => ix,
                    None => {
                        proof {
                            lemma_scan_settled(chars@, i as int + 1, n as int);
                        }
                        return Err(ParseError::NoSubtreeParent);
                    },
                };
                match assign_label(
                    &mut tree,
                    idx,
                    &name_acc,
                    has_comment,
                    &comment_acc,
                    &length_acc,
                    true,
                ) {
                    Ok(()) => {},
                    Err(e) => {
                        proof {
                            assert(scan_step(st, c) == ScanOutcome::Stopped(
                                ParseError::FloatError,
                            ));
                            lemma_scan_settled(chars@, i as int + 1, n as int);
                        }
                        return Err(e);
                    },
                }
                proof {
                    assert(scan_step(st, c) == ScanOutcome::Finished(tree@));
                }
                if i + 1 != n {
                    proof {
                        lemma_scan_trailing(chars@, i as int + 1, n as int);
                    }
                    return Err(ParseError::NoClosingSemicolon);
                }
                let ghost before_mirror = tree@;
                mirror_edges(&mut tree);
                proof {
                    assert(tree@.len() > 0);
                    assert forall|j: int| 0 <= j < tree@.len() implies !(
                    #[trigger] tree@[j]).deleted by {
                        assert(tree@[j].deleted == before_mirror[j].deleted);
                    }
                    assert forall|j: int| 1 <= j < tree@.len() implies (
                    #[trigger] tree@[j]).parent is Some by {
                        assert(tree@[j].parent == before_mirror[j].parent);
                    }
                    assert(tree@[0].parent is None);
                    crate::tree::lemma_first_root_found(tree@, 0);
                    assert(scan_of(newick@) == ScanOutcome::Finished(before_mirror));
                    assert(newick@.last() == ';');
                }
                return Ok(tree);
            }
            // Field characters: into the length after a colon, else into the
            // name.
            if phase == Phase::Length {
                if is_ws(c) {
                    proof {
                        lemma_scan_settled(chars@, i as int + 1, n as int);
                    }
                    return Err(ParseError::WhiteSpaceInNumber);
                }
                length_acc.push(c);
                proof {
                    assert(scan_step(st, c) =~~= ScanOutcome::Going(
                        ScanState { length: length_acc@, ..st },
                    ));
                }
                i += 1;
                continue ;
            }
            name_acc.push(c);
            proof {
                assert(scan_step(st, c) =~~= ScanOutcome::Going(
                    ScanState { name: name_acc@, ..st },
                ));
            }
            i += 1;
        }
        Err(ParseError::NoClosingSemicolon)
    }
}

/// The comma-separated texts of the first `k` children.
pub open spec fn render_children_upto(
    ns: Seq<NodeView>,
    cs: Seq<NodeId>,
    floor: int,
    k: int,
) -> Seq<char> {
    render_children_partial(ns, cs, floor, k)
}

/// Helper for `render_children_upto`: the first `k` entries, joined.
pub open spec fn render_children_partial(
    ns: Seq<NodeView>,
    cs: Seq<NodeId>,
    floor: int,
    k: int,
) -> Seq<char>
    decreases k,
{
    if k <= 0 || cs.len() == 0 {
        Seq::empty()
    } else if k == 1 {
        if floor < cs[0] && cs[0] < ns.len() {
            render_subtree(ns, cs[0] as int)
        } else {
            Seq::empty()
        }
    } else {
        render_children_partial(ns, cs, floor, k - 1) + seq![','] + (if k - 1 < cs.len() {
            if floor < cs[k - 1] && cs[k - 1] < ns.len() {
                render_subtree(ns, cs[k - 1] as int)
            } else {
                Seq::empty()
            }
        } else {
            Seq::empty()
        })
    }
}

/// Adding the next child appends a comma (after the first) and its text.
#[verifier::rlimit(50)]
proof fn lemma_render_children_upto_step(ns: Seq<NodeView>, cs: Seq<NodeId>, floor: int, k: int)
    requires
        0 <= k < cs.len(),
    ensures
        render_children_upto(ns, cs, floor, k + 1) == render_children_upto(ns, cs, floor, k) + (
        if k > 0 {
            seq![',']
        } else {
            Seq::<char>::empty()
        }) + (if floor < cs[k] && cs[k] < ns.len() {
            render_subtree(ns, cs[k] as int)
        } else {
            Seq::<char>::empty()
        }),
{
    if k == 0 {
        assert(render_children_upto(ns, cs, floor, 0) == Seq::<char>::empty());
        assert(Seq::<char>::empty() + Seq::<char>::empty() =~= Seq::<char>::empty());
        assert forall|s: Seq<char>| true implies Seq::<char>::empty() + s =~= s by {}
        assert(render_children_upto(ns, cs, floor, 1) =~= (Seq::<char>::empty()
            + Seq::<char>::empty()) + (if floor < cs[0] && cs[0] < ns.len() {
            render_subtree(ns, cs[0] as int)
        } else {
            Seq::<char>::empty()
        }));
    }
}

/// All children joined equals the full comma-separated rendering.
#[verifier::rlimit(50)]
proof fn lemma_render_children_upto_full(ns: Seq<NodeView>, cs: Seq<NodeId>, floor: int)
    ensures
        render_children_upto(ns, cs, floor, cs.len() as int) == render_children(ns, cs, floor),
    decreases cs.len(),
{
    if cs.len() == 0 {
    } else if cs.len() == 1 {
    } else {
        lemma_render_children_upto_full(ns, cs.skip(1), floor);
        lemma_render_children_shift(ns, cs, floor, cs.len() as int);
        assert(render_children(ns, cs, floor) == (if floor < cs[0] && cs[0] < ns.len() {
            render_subtree(ns, cs[0] as int)
        } else {
            Seq::<char>::empty()
        }) + seq![','] + render_children(ns, cs.skip(1), floor));
        assert((if floor < cs[0] && cs[0] < ns.len() {
            render_subtree(ns, cs[0] as int)
        } else {
            Seq::<char>::empty()
        }) + seq![','] + render_children_upto(ns, cs.skip(1), floor, cs.len() - 1)
            =~= render_children_upto(ns, cs, floor, cs.len() as int));
    }
}

/// The joined prefix over `cs` equals head, comma, then the joined prefix
/// over the remaining children.
#[verifier::rlimit(50)]
proof fn lemma_render_children_shift(ns: Seq<NodeView>, cs: Seq<NodeId>, floor: int, k: int)
    requires
        2 <= k <= cs.len(),
    ensures
        render_children_upto(ns, cs, floor, k) =~= (if floor < cs[0] && cs[0] < ns.len() {
            render_subtree(ns, cs[0] as int)
        } else {
            Seq::<char>::empty()
        }) + seq![','] + render_children_upto(ns, cs.skip(1), floor, k - 1),
    decreases k,
{
    if k == 2 {
        assert(cs.skip(1)[0] == cs[1]);
    } else {
        lemma_render_children_shift(ns, cs, floor, k - 1);
        assert(cs.skip(1)[k - 2] == cs[k - 1]);
        let head = if floor < cs[0] && cs[0] < ns.len() {
            render_subtree(ns, cs[0] as int)
        } else {
            Seq::<char>::empty()
        };
        let tail_k = if floor < cs[k - 1] && cs[k - 1] < ns.len() {
            render_subtree(ns, cs[k - 1] as int)
        } else {
            Seq::<char>::empty()
        };
        assert(render_children_upto(ns, cs, floor, k) == render_children_upto(ns, cs, floor, k - 1)
            + seq![','] + tail_k);
        assert((head + seq![','] + render_children_upto(ns, cs.skip(1), floor, k - 2)) + seq![',']
            + tail_k =~= head + seq![','] + (render_children_upto(ns, cs.skip(1), floor, k - 2)
            + seq![','] + tail_k));
    }
}

} // verus!
