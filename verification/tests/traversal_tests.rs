use phylotree::traverse::PreorderWalk;
use phylotree::tree::Tree;

fn get_str(iter: &[usize], tree: &Tree) -> String {
    iter.iter()
        .map(|id| tree.get(id).name.clone().unwrap())
        .collect()
}

#[test]
fn compare_traversals() {
    let tree = Tree::from_newick("((3,4)2,(6,7)5)1;").unwrap();
    let root = tree.get_root().unwrap();

    let postorder = "3426751";
    let preorder = "1234567";
    let levelorder = "1253467";

    assert_eq!(get_str(&tree.postorder(&root), &tree), postorder);
    assert_eq!(get_str(&tree.preorder(&root), &tree), preorder);
    assert_eq!(get_str(&tree.levelorder(&root), &tree), levelorder);

    // The lazy walk yields the same pre-order, and does so again when
    // restarted from the same pair of tree and start node.
    for _ in 0..2 {
        let mut walk = PreorderWalk::new(&tree, root);
        let mut lazy: Vec<usize> = Vec::new();
        while let Some(id) = walk.next() {
            lazy.push(id);
        }
        assert_eq!(get_str(&lazy, &tree), preorder);
    }
}

#[test]
fn inorder_binary_only() {
    let tree = Tree::from_newick("((A,B)C,(D,E)F)G;").unwrap();
    let root = tree.get_root().unwrap();
    let inorder = tree.inorder(&root).unwrap();
    assert_eq!(get_str(&inorder, &tree), "ACBGDFE");

    let nonbinary = Tree::from_newick("((A,B,C)D,E)F;").unwrap();
    let nb_root = nonbinary.get_root().unwrap();
    assert!(nonbinary.inorder(&nb_root).is_err());
}
