use phylotree::edge::Edge;
use phylotree::node::Node;
use phylotree::tree::Tree;

fn edge(s: &str) -> Edge {
    Edge::parse_chars(&s.chars().collect()).unwrap()
}

fn opt_edge(s: &str) -> Option<Edge> {
    Some(edge(s))
}

/// Generates example tree from the tree traversal wikipedia page
/// The difference is that I is the left child of G since this tree structure
/// cannot represent a right child only.
fn build_simple_tree() -> Tree {
    let mut tree = Tree::new();
    tree.add(Node::new_named("F")); // 0
    tree.add_child(Node::new_named("B"), 0, None).unwrap(); // 1
    tree.add_child(Node::new_named("G"), 0, None).unwrap(); // 2
    tree.add_child(Node::new_named("A"), 1, None).unwrap(); // 3
    tree.add_child(Node::new_named("D"), 1, None).unwrap(); // 4
    tree.add_child(Node::new_named("I"), 2, None).unwrap(); // 5
    tree.add_child(Node::new_named("C"), 4, None).unwrap(); // 6
    tree.add_child(Node::new_named("E"), 4, None).unwrap(); // 7
    tree.add_child(Node::new_named("H"), 5, None).unwrap(); // 8

    tree
}

/// Generates example tree from the newick format wikipedia page
fn build_tree_with_lengths() -> Tree {
    let mut tree = Tree::new();
    tree.add(Node::new_named("F")); // 0
    tree.add_child(Node::new_named("A"), 0, opt_edge("0.1")).unwrap(); // 1
    tree.add_child(Node::new_named("B"), 0, opt_edge("0.2")).unwrap(); // 2
    tree.add_child(Node::new_named("E"), 0, opt_edge("0.5")).unwrap(); // 3
    tree.add_child(Node::new_named("C"), 3, opt_edge("0.3")).unwrap(); // 4
    tree.add_child(Node::new_named("D"), 3, opt_edge("0.4")).unwrap(); // 5

    tree
}

fn get_values(indices: &[usize], tree: &Tree) -> Vec<Option<String>> {
    indices
        .iter()
        .map(|idx| tree.get(idx).name.clone())
        .collect()
}

#[test]
fn test_tips() {
    let mut tree = Tree::new();
    tree.add(Node::new_named("root"));
    assert_eq!(tree.get_leaves(), vec![0]);

    tree.add_child(Node::new_named("A"), 0, opt_edge("0.1")).unwrap(); // 1
    tree.add_child(Node::new_named("B"), 0, opt_edge("0.2")).unwrap(); // 2
    tree.add_child(Node::new_named("E"), 0, opt_edge("0.5")).unwrap(); // 3

    assert_eq!(tree.get_leaves(), vec![1, 2, 3]);

    tree.add_child(Node::new_named("C"), 3, opt_edge("0.3")).unwrap(); // 4
    tree.add_child(Node::new_named("D"), 3, opt_edge("0.4")).unwrap(); // 5

    assert_eq!(tree.get_leaves(), vec![1, 2, 4, 5]);
}

#[test]
fn test_binary() {
    let mut tree = Tree::new();
    tree.add(Node::new_named("root"));

    tree.add_child(Node::new_named("0L"), 0, None).unwrap(); //1
    tree.add_child(Node::new_named("0R"), 0, None).unwrap(); //2

    assert!(tree.is_binary());

    tree.add_child(Node::new_named("1L"), 1, None).unwrap(); //3
    tree.add_child(Node::new_named("1R"), 1, None).unwrap(); //4

    assert!(tree.is_binary());

    tree.add_child(Node::new_named("3L"), 3, None).unwrap(); //5
    tree.add_child(Node::new_named("3R"), 3, None).unwrap(); //6
    assert!(tree.is_binary());

    tree.add_child(Node::new_named("3?"), 3, None).unwrap(); //7
    assert!(!tree.is_binary());
}

#[test]
fn binary_from_newick() {
    // A parentless virtual root may carry three children and still count
    // as binary; four do not, and three under an attached node do not.
    let test_cases = vec![
        ("(A,B,(C,D)E)F;", true),
        ("((D,E)B,(F,G)C)A;", true),
        ("(A,B,C,D)F;", false),
        ("((A,B,C)D,E)F;", false),
    ];

    for (newick, is_binary) in test_cases {
        assert_eq!(Tree::from_newick(newick).unwrap().is_binary(), is_binary)
    }
}

#[test]
fn path_from_root() {
    let tree = build_simple_tree();
    let values: Vec<_> = get_values(&(tree.get_path_from_root(&7)), &tree)
        .into_iter()
        .flatten()
        .collect();
    assert_eq!(values, vec!["F", "B", "D", "E"])
}

#[test]
fn last_common_ancestor() {
    let test_cases = vec![
        ((3, 7), 1), // (A,E) -> B
        ((6, 8), 0), // (C,H) -> F
        ((3, 3), 3), // (A,A) -> A
        ((8, 5), 5), // (H,I) -> I
        ((4, 7), 4), // (D,E) -> D
    ];
    let tree = build_simple_tree();
    for ((source, target), ancestor) in test_cases {
        println!(
            "Testing: ({:?}, {:?}) -> {:?}",
            tree.get(&source).name,
            tree.get(&target).name,
            tree.get(&ancestor).name
        );
        assert_eq!(ancestor, tree.get_common_ancestor(&source, &target));
    }
}

#[test]
fn get_distances_lengths() {
    let test_cases = vec![
        ((1, 3), (Some("0.6"), 2)), // (A,E)
        ((1, 4), (Some("0.9"), 3)), // (A,C)
        ((4, 5), (Some("0.7"), 2)), // (C,D)
        ((5, 2), (Some("1.1"), 3)), // (D,B)
        ((2, 5), (Some("1.1"), 3)), // (B,D)
        ((0, 2), (Some("0.2"), 1)), // (F,B)
        ((1, 1), (None, 0)),        // (A,A)
    ];
    let tree = build_tree_with_lengths();

    for ((idx_s, idx_t), (dist, branches)) in test_cases {
        let (d_pred, b_pred) = tree.get_distance(&idx_s, &idx_t);
        assert_eq!(branches, b_pred);
        match dist {
            None => assert!(d_pred.is_none()),
            Some(d) => {
                assert!(d_pred.is_some());
                assert!(d_pred.unwrap().value_equals(&edge(d)));
            }
        }
    }
}

#[test]
fn get_correct_leaves() {
    let tree = build_simple_tree();
    let values: Vec<_> = get_values(&(tree.get_leaves()), &tree)
        .into_iter()
        .flatten()
        .collect();
    assert_eq!(values, vec!["A", "C", "E", "H"])
}

#[test]
fn test_subtree_leaves() {
    let tree = Tree::from_newick("(A:0.1,B:0.2,(C:0.3,D:0.4)E:0.5)F;").unwrap();
    let sub_root = tree.get_by_name("E").unwrap();
    let sub_leaves: Vec<_> = tree
        .get_subtree_leaves(&sub_root.id)
        .iter()
        .map(|id| tree.get(id).name.clone().unwrap())
        .collect();

    assert_eq!(sub_leaves, vec![String::from("C"), String::from("D")]);
}

#[test]
fn test_prune() {
    let mut tree = Tree::from_newick("((A,(C,E)D)B,((H)I)G)F;").unwrap();
    let root_idx = tree.get_by_name("G").unwrap().id;

    tree.prune(&root_idx);

    assert_eq!(tree.to_newick().unwrap(), String::from("((A,(C,E)D)B)F;"))
}

#[test]
fn test_rescale_exact() {
    let mut tree = Tree::from_newick("(A:0.1,B:0.2,(C:0.3,D:0.4)E:0.5)F;").unwrap();
    // Double all branch lengths.
    tree.rescale(&edge("2"));

    assert_eq!(tree.to_newick().unwrap(), "(A:0.2,B:0.4,(C:0.6,D:0.8)E:1)F;");

    let mut tree2 = Tree::from_newick("(A:2,B:6)C;").unwrap();
    tree2.rescale(&edge("0.5"));
    assert_eq!(tree2.to_newick().unwrap(), "(A:1,B:3)C;");
}

#[test]
fn test_mutability() {
    let tree = Tree::from_newick("(A:0.1,B:0.2,(C:0.3,D:0.4)E:0.5)F;").unwrap();
    // First computation
    assert!(tree.diameter().unwrap().value_equals(&edge("1.1")));
    assert!(tree.height().unwrap().value_equals(&edge("0.9")));
    // Recomputation must agree
    println!("{:?}", tree.size());
    assert!(tree.diameter().unwrap().value_equals(&edge("1.1")));
    assert!(tree.height().unwrap().value_equals(&edge("0.9")));
}

#[test]
fn test_get_by_name() {
    let mut tree = Tree::new();
    let root_idx = tree.add(Node::new_named("root"));
    let child_idx = tree
        .add_child(Node::new_named("child"), root_idx, None)
        .unwrap();

    assert_eq!(tree.get_by_name("child").unwrap().id, child_idx);
    assert!(tree.get_by_name("nobody").is_none());

    let renamed = tree.get_by_name_mut("child").unwrap();
    renamed.set_name(String::from("kid"));
    assert!(tree.get_by_name("child").is_none());
    assert_eq!(tree.get_by_name("kid").unwrap().id, child_idx);
}

#[test]
fn test_depths() {
    let tree = Tree::from_newick("((A,(C,E)D)B,((H)I)G)F;").unwrap();
    let root = tree.get_root().unwrap();
    assert_eq!(tree.get(&root).depth, 0);
    for id in 0..tree.size() {
        let node = tree.get(&id);
        if let Some(p) = node.parent {
            assert_eq!(node.depth, tree.get(&p).depth + 1);
        }
    }
}

#[test]
fn test_size_and_leaves() {
    let tree = Tree::from_newick("(A:0.1,B:0.2,(C:0.3,D:0.4)E:0.5)F;").unwrap();
    assert_eq!(tree.size(), 6);
    assert_eq!(tree.n_leaves(), 4);
    assert_eq!(tree.is_rooted().unwrap(), false);
}

#[test]
fn test_compress() {
    let mut tree = Tree::new();
    tree.add(Node::new_named("root"));
    tree.add_child(Node::new_named("tip_A"), 0, opt_edge("1")).unwrap(); // 1
    tree.add_child(Node::new_named("in_B"), 0, opt_edge("1")).unwrap(); // 2
    tree.add_child(Node::new_named("in_C"), 2, opt_edge("1")).unwrap(); // 3
    tree.add_child(Node::new_named("tip_D"), 3, opt_edge("1")).unwrap(); // 4

    tree.compress();

    assert_eq!(tree.to_newick().unwrap(), "(tip_A:1,tip_D:3)root;");

    // Absent lengths swallow the fused value.
    let mut chain = Tree::from_newick("((A)B,C)D;").unwrap();
    chain.compress();
    assert_eq!(chain.to_newick().unwrap(), "(A,C)D;");
}

#[test]
fn test_ancestry_fixture() {
    let tree = Tree::from_newick("((A,(C,E)D)B,((H)I)G)F;").unwrap();
    let a = tree.get_by_name("A").unwrap().id;
    let d = tree.get_by_name("D").unwrap().id;
    let i = tree.get_by_name("I").unwrap().id;
    let b = tree.get_by_name("B").unwrap().id;

    assert_eq!(tree.get_common_ancestor(&a, &d), b);

    let (sum, count) = tree.get_distance(&a, &i);
    assert!(sum.is_none());
    assert_eq!(count, 4);
}

#[test]
fn test_tombstone_visibility() {
    // A pruned slot keeps its index meaningful: it still counts as a tip,
    // the first parentless slot is still the root, and new children can
    // still be attached under it.
    let mut tree = Tree::from_newick("((A,B)C,D)E;").unwrap();
    let c = tree.get_by_name("C").unwrap().id;
    let size = tree.size();
    tree.prune(&c);
    assert_eq!(tree.size(), size);
    // The pruned nodes are childless, so they are listed among the tips.
    let leaves = tree.get_leaves();
    assert!(leaves.contains(&c));
    assert_eq!(leaves.len(), tree.n_leaves());

    // Pruning everything leaves the arena rootless never: slot zero is
    // still the first parentless node.
    let root = tree.get_root().unwrap();
    tree.prune(&root);
    assert_eq!(tree.get_root().unwrap(), root);

    // Attaching under a pruned slot succeeds; only an out-of-range index
    // is refused.
    let added = tree.add_child(Node::new_named("fresh"), c, None).unwrap();
    assert_eq!(tree.get(&added).parent, Some(c));
    assert_eq!(tree.get(&added).depth, tree.get(&c).depth + 1);
    let out_of_range = tree.size();
    assert!(tree.add_child(Node::new(), out_of_range, None).is_err());
}
