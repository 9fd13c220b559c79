use phylotree::edge::Edge;
use phylotree::node::Node;
use phylotree::tree::{ParseError, Tree, TreeError};

fn edge(s: &str) -> Edge {
    Edge::parse_chars(&s.chars().collect()).unwrap()
}

fn opt_edge(s: &str) -> Option<Edge> {
    Some(edge(s))
}

/// The newick example tree, rebuilt by hand.
fn build_tree_with_lengths() -> Tree {
    let mut tree = Tree::new();
    tree.add(Node::new_named("F")); // 0
    tree.add_child(Node::new_named("A"), 0, opt_edge("0.1")).unwrap(); // 1
    tree.add_child(Node::new_named("B"), 0, opt_edge("0.2")).unwrap(); // 2
    tree.add_child(Node::new_named("E"), 0, opt_edge("0.5")).unwrap(); // 3
    tree.add_child(Node::new_named("C"), 3, opt_edge("0.3")).unwrap(); // 4
    tree.add_child(Node::new_named("D"), 3, opt_edge("0.4")).unwrap(); // 5

    tree
}

#[test]
fn to_newick() {
    let tree = build_tree_with_lengths();
    assert_eq!(
        "(A:0.1,B:0.2,(C:0.3,D:0.4)E:0.5)F;",
        tree.to_newick().unwrap()
    );
}

// test cases from a newick validator test suite
#[test]
fn read_newick() {
    let newick_strings = vec![
        "((D,E)B,(F,G)C)A;",
        "(A:0.1,B:0.2,(C:0.3,D:0.4)E:0.5)F;",
        "(A:0.1,B:0.2,(C:0.3,D:0.4):0.5);",
        "(dog:20,(elephant:30,horse:60):20):50;",
        "(A,B,(C,D));",
        "(A,B,(C,D)E)F;",
        "(((One:0.2,Two:0.3):0.3,(Three:0.5,Four:0.3):0.2):0.3,Five:0.7):0;",
        "(:0.1,:0.2,(:0.3,:0.4):0.5);",
        "(:0.1,:0.2,(:0.3,:0.4):0.5):0;",
        "(A:0.1,B:0.2,(C:0.3,D:0.4):0.5);",
        "(A:0.1,B:0.2,(C:0.3,D:0.4)E:0.5)F;",
        "((B:0.2,(C:0.3,D:0.4)E:0.5)A:0.1)F;",
        "(,,(,));",
        "(\"hungarian dog\":20,(\"indian elephant\":30,\"swedish horse\":60):20):50;",
        "(\"hungarian dog\":20[Comment_1],(\"indian elephant\":30,\"swedish horse[Another interesting comment]\":60):20):50;",
        "(A:20[comment],B);",
    ];
    for newick in newick_strings {
        let tree = Tree::from_newick(newick).unwrap();
        assert_eq!(newick, tree.to_newick().unwrap());
    }
}

#[test]
fn read_newick_comment_before_length() {
    // A comment written before the colon is accepted; serialization puts
    // the label fields in grammar order: name, length, comment.
    let newick =
        "(\"hungarian dog\"[Comment_1]:20,(\"indian elephant\":30,\"swedish horse[Another interesting comment]\":60):20):50;";
    let tree = Tree::from_newick(newick).unwrap();
    assert_eq!(
        tree.to_newick().unwrap(),
        "(\"hungarian dog\":20[Comment_1],(\"indian elephant\":30,\"swedish horse[Another interesting comment]\":60):20):50;"
    );
    let dog = tree.get_by_name("\"hungarian dog\"").unwrap();
    assert_eq!(dog.comment.as_deref(), Some("Comment_1"));
}

#[test]
fn read_newick_fails() {
    let newick_strings = vec![
        ("((D,E)B,(F,G,C)A;", ParseError::UnclosedBracket),
        ("((D,E)B,(F,G)C)A", ParseError::NoClosingSemicolon),
    ];
    for (newick, error) in newick_strings {
        let tree = Tree::from_newick(newick);
        assert!(tree.is_err());
        assert_eq!(tree.unwrap_err(), error);
    }
}

#[test]
fn read_newick_more_failures() {
    assert_eq!(
        Tree::from_newick("(A:0. 5,B);").unwrap_err(),
        ParseError::WhiteSpaceInNumber
    );
    assert_eq!(
        Tree::from_newick("(A:x,B);").unwrap_err(),
        ParseError::FloatError
    );
    assert_eq!(
        Tree::from_newick("(A:1.2.3,B);").unwrap_err(),
        ParseError::FloatError
    );
    assert_eq!(
        Tree::from_newick("A,B);").unwrap_err(),
        ParseError::NoSubtreeParent
    );
    assert_eq!(
        Tree::from_newick(";").unwrap_err(),
        ParseError::NoSubtreeParent
    );
    assert_eq!(
        Tree::from_newick("(A,B); ").unwrap_err(),
        ParseError::NoClosingSemicolon
    );
    assert_eq!(
        Tree::from_newick("(A,B)").unwrap_err(),
        ParseError::NoClosingSemicolon
    );
}

#[test]
fn test_height() {
    // heights computed with other phylogenetic tools
    let test_cases = vec![
        ("(A:0.1,B:0.2,(C:0.3,D:0.4)E:0.5)F;", "0.9"),
        ("((B:0.2,(C:0.3,D:0.4)E:0.5)A:0.1)F;", "1.0"),
        ("(A,B,(C,D)E)F;", "2.0"),
        (
            "((((((((Tip9,Tip8),Tip7),Tip6),Tip5),Tip4),Tip3),Tip2),Tip0,Tip1);",
            "8.0",
        ),
    ];

    for (newick, height) in test_cases {
        assert!(Tree::from_newick(newick)
            .unwrap()
            .height()
            .unwrap()
            .value_equals(&edge(height)));
    }
}

#[test]
fn test_diam() {
    let test_cases = vec![
        ("((D,E)B,(F,G)C)A;", "4.0"),
        ("(A:0.1,B:0.2,(C:0.3,D:0.4)E:0.5)F;", "1.1"),
        ("(A:0.1,B:0.2,(C:0.3,D:0.4):0.5);", "1.1"),
        ("(A,B,(C,D));", "3.0"),
        ("(A,B,(C,D)E)F;", "3.0"),
    ];

    for (newick, diameter) in test_cases {
        assert!(Tree::from_newick(newick)
            .unwrap()
            .diameter()
            .unwrap()
            .value_equals(&edge(diameter)));
    }
}

#[test]
fn test_cherries() {
    // Number of cherries computed with other phylogenetic tools
    let test_cases = vec![
        ("(((((((((Tip9,Tip8),Tip7),Tip6),Tip5),Tip4),Tip3),Tip2),Tip1),Tip0);", 1),
        ("(((i:0.1,j:0.1):0.1,(a:0.1,b:0.1):0.1):0.1,((c:0.1,d:0.1):0.1,((e:0.1,f:0.1):0.1,(g:0.1,h:0.1):0.1):0.1):0.1);", 5),
        ("((a:0.2,b:0.2):0.2,((c:0.2,d:0.2):0.2,((e:0.2,f:0.2):0.2,((g:0.2,h:0.2):0.2,(i:0.2,j:0.2):0.2):0.2):0.2):0.2);", 5),
        ("(((d:0.3,e:0.3):0.3,((f:0.3,g:0.3):0.3,(h:0.3,(i:0.3,j:0.3):0.3):0.3):0.3):0.3,(a:0.3,(b:0.3,c:0.3):0.3):0.3);", 4),
    ];

    for (newick, true_cherries) in test_cases {
        let tree = Tree::from_newick(newick).unwrap();
        let cherries = tree.cherries();
        assert!(cherries.is_ok());
        assert_eq!(cherries.unwrap(), true_cherries);
    }
}

#[test]
fn test_colless_rooted() {
    // Colless index computed with other phylogenetic tools
    let test_cases = vec![
        ("(((((((((Tip9,Tip8),Tip7),Tip6),Tip5),Tip4),Tip3),Tip2),Tip1),Tip0);", 36u128),
        ("(((i:0.1,j:0.1):0.1,(a:0.1,b:0.1):0.1):0.1,((c:0.1,d:0.1):0.1,((e:0.1,f:0.1):0.1,(g:0.1,h:0.1):0.1):0.1):0.1);", 4),
        ("((a:0.2,b:0.2):0.2,((c:0.2,d:0.2):0.2,((e:0.2,f:0.2):0.2,((g:0.2,h:0.2):0.2,(i:0.2,j:0.2):0.2):0.2):0.2):0.2);", 12),
        ("(((d:0.3,e:0.3):0.3,((f:0.3,g:0.3):0.3,(h:0.3,(i:0.3,j:0.3):0.3):0.3):0.3):0.3,(a:0.3,(b:0.3,c:0.3):0.3):0.3);", 10),
    ];

    for (newick, true_colless) in test_cases {
        let tree = Tree::from_newick(newick).unwrap();
        let colless = tree.colless();
        assert!(colless.is_ok());
        if tree.colless().unwrap() != true_colless {
            panic!(
                "Computed colless {} not equal to true {true_colless}",
                tree.colless().unwrap()
            )
        };
    }
}

#[test]
fn test_sackin_rooted() {
    // Sackin index computed with other phylogenetic tools
    let test_cases = vec![
        ("(((((((((Tip9,Tip8),Tip7),Tip6),Tip5),Tip4),Tip3),Tip2),Tip1),Tip0);", 54u128),
        ("(((i:0.1,j:0.1):0.1,(a:0.1,b:0.1):0.1):0.1,((c:0.1,d:0.1):0.1,((e:0.1,f:0.1):0.1,(g:0.1,h:0.1):0.1):0.1):0.1);", 34),
        ("((a:0.2,b:0.2):0.2,((c:0.2,d:0.2):0.2,((e:0.2,f:0.2):0.2,((g:0.2,h:0.2):0.2,(i:0.2,j:0.2):0.2):0.2):0.2):0.2);", 38),
        ("(((d:0.3,e:0.3):0.3,((f:0.3,g:0.3):0.3,(h:0.3,(i:0.3,j:0.3):0.3):0.3):0.3):0.3,(a:0.3,(b:0.3,c:0.3):0.3):0.3);", 36),
    ];

    for (newick, true_sackin) in test_cases {
        let tree = Tree::from_newick(newick).unwrap();
        let sackin = tree.sackin();
        assert!(sackin.is_ok());
        assert_eq!(tree.sackin().unwrap(), true_sackin);
    }
}

#[test]
fn test_sackin_unrooted() {
    let test_cases = vec![
        "(A:0.1,B:0.2,(C:0.3,D:0.4)E:0.5)F;",
        "((B:0.2,(C:0.3,D:0.4)E:0.5)A:0.1)F;",
        "(A,B,(C,D)E)F;",
        "((((((((Tip9,Tip8),Tip7),Tip6),Tip5),Tip4),Tip3),Tip2),Tip0,Tip1);",
    ];

    for newick in test_cases {
        let tree = Tree::from_newick(newick).unwrap();
        assert!(tree.sackin().is_err())
    }
}

#[test]
fn test_gating_errors() {
    // Unrooted: a virtual root with three children.
    let unrooted = Tree::from_newick("(A,B,(C,D)E)F;").unwrap();
    assert_eq!(unrooted.cherries().unwrap_err(), TreeError::IsNotRooted);
    assert_eq!(unrooted.colless().unwrap_err(), TreeError::IsNotRooted);
    assert_eq!(unrooted.sackin().unwrap_err(), TreeError::IsNotRooted);

    // Rooted but not binary: an inner node with three children.
    let nonbinary = Tree::from_newick("((A,B,C)D,E)F;").unwrap();
    assert_eq!(nonbinary.cherries().unwrap_err(), TreeError::IsNotBinary);
    assert_eq!(nonbinary.colless().unwrap_err(), TreeError::IsNotBinary);
    assert_eq!(nonbinary.sackin().unwrap_err(), TreeError::IsNotBinary);

    // No root at all: cherries propagates the root lookup's error, while
    // colless and sackin report emptiness itself.
    let empty = Tree::new();
    assert_eq!(empty.cherries().unwrap_err(), TreeError::RootNotFound);
    assert_eq!(empty.colless().unwrap_err(), TreeError::IsEmpty);
    assert_eq!(empty.sackin().unwrap_err(), TreeError::IsEmpty);
    assert_eq!(empty.get_root().unwrap_err(), TreeError::RootNotFound);
    assert!(empty.height().is_none());
}

#[test]
fn test_edge_texts() {
    // Written forms are kept exactly.
    for s in ["0", "0.1", "20", "1.10", ".5", "5.", "007", "0.500"] {
        let e = edge(s);
        let back: String = e.to_chars().into_iter().collect();
        assert_eq!(back, s);
    }
    // Values compare by number, not by written form.
    assert!(edge("1.10").value_equals(&edge("1.1")));
    assert!(edge("007").value_equals(&edge("7")));
    assert!(!edge("0.5").value_equals(&edge("0.50001")));
    // Sums and products are exact.
    assert!(edge("0.1").plus(&edge("0.2")).value_equals(&edge("0.3")));
    assert!(edge("0.5").times(&edge("2")).value_equals(&edge("1")));
    // Malformed texts are rejected.
    for s in ["", ".", "1.2.3", "1e5", "-1", "1 0"] {
        assert!(Edge::parse_chars(&s.chars().collect::<Vec<char>>()).is_none());
    }
}

#[test]
fn test_error_messages() {
    assert_eq!(TreeError::IsNotBinary.message(), "This tree is not Binary.");
    assert_eq!(
        ParseError::UnclosedBracket.message(),
        "Missing a closing bracket."
    );
}
