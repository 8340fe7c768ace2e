use arbutus::diff::apply_operation;
use arbutus::iterator::traverse;
use arbutus::{
    IdGenerator, Node, NodeBuilder, NodePosition, NodeRef, Tree, TreeBuilder, TreePatch,
    TreePatchOperation, UniqueGenerator,
};

fn text(s: &str) -> Vec<u8> {
    s.as_bytes().to_vec()
}

// A tree of a root with the given leaves.
fn flat(children: &[&str]) -> Tree<IdGenerator> {
    let mut builder = TreeBuilder::<IdGenerator>::new().root(text("root"));
    for child in children {
        builder.child(text(child)).unwrap();
        builder.end();
    }
    builder.done().unwrap()
}

fn handles(tree: &Tree<IdGenerator>) -> Vec<NodeRef> {
    traverse(tree, tree.root())
        .iter()
        .map(|item| item.node())
        .collect()
}

#[test]
fn positions() {
    let zero = NodePosition::zero();
    assert_eq!((zero.depth(), zero.index(), zero.child_index()), (0, 0, 0));
    let max = NodePosition::max();
    assert_eq!(max.depth(), usize::MAX);
    assert_eq!(max.index(), usize::MAX);
    assert_eq!(max.child_index(), usize::MAX);
    let p = NodePosition {
        depth: 1,
        index: 2,
        child_index: 3,
    };
    assert_eq!((p.depth(), p.index(), p.child_index()), (1, 2, 3));
    assert!(zero < p && p < max);
}

#[test]
fn node_holds_what_it_is_given() {
    let tree = flat(&["a", "b", "c"]);
    let refs = handles(&tree);
    let (a, b, c) = (refs[1], refs[2], refs[3]);

    let mut node = Node::new(7, text("data"), None);
    assert_eq!(node.id(), 7);
    assert_eq!(node.data(), &text("data"));
    assert_eq!(node.parent(), None);
    assert!(node.children().is_none());
    assert_eq!(node.get_position(), None);
    assert_eq!(node.get_subtree_hash(), 0);
    assert_eq!(node.num_children(), 0);

    node = node.with_parent(a).with_position(NodePosition::max());
    assert_eq!(node.parent(), Some(a));
    assert_eq!(node.get_position(), Some(&NodePosition::max()));
    node.set_id(8);
    node.set_parent(b);
    node.set_position(NodePosition::zero());
    node.set_subtree_hash(99);
    node.set_data(text("other"));
    assert_eq!(node.id(), 8);
    assert_eq!(node.parent(), Some(b));
    assert_eq!(node.get_position(), Some(&NodePosition::zero()));
    assert_eq!(node.get_subtree_hash(), 99);
    assert_eq!(node.data(), &text("other"));
    assert_eq!(node.data_xxhash(), xxhash_rust::xxh64::xxh64(b"other", 0));
    node.clear_parent();
    assert_eq!(node.parent(), None);

    // An index behind the end is refused, whether there is a list or not.
    assert_eq!(node.insert_child(a, 1), None);
    assert!(node.children().is_none());
    assert_eq!(node.insert_child(a, 0), Some(()));
    assert_eq!(node.insert_child(c, 2), None);
    assert_eq!(node.insert_child(c, 1), Some(()));
    assert_eq!(node.insert_child(b, 1), Some(()));
    assert_eq!(node.children(), Some(&vec![a, b, c]));
    assert_eq!(node.num_children(), 3);

    node.replace_child(c, 0);
    node.replace_child(a, 3);
    assert_eq!(node.children(), Some(&vec![c, b, c]));
    assert_eq!(node.remove_child_index(3), None);
    assert_eq!(node.remove_child_index(1), Some(b));
    assert_eq!(node.children(), Some(&vec![c, c]));

    assert_eq!(node.take_children(), Some(vec![c, c]));
    assert_eq!(node.take_children(), None);
    assert_eq!(node.remove_child_index(0), None);
    node.replace_child(a, 0);
    assert!(node.children().is_none());
    node.push_child(a);
    node.push_child(b);
    assert_eq!(node.children(), Some(&vec![a, b]));
    node.set_children(Some(vec![]));
    assert_eq!(node.children(), Some(&vec![]));
    node.set_children(None);
    assert!(node.children().is_none());
}

#[test]
fn scopes_of_the_builder() {
    let scope = NodeBuilder::new(handles(&flat(&[]))[0], NodePosition::max());
    assert_eq!(scope.node().slot(), 0);
    assert_eq!(scope.position(), &NodePosition::max());

    let mut builder = TreeBuilder::with_generator(IdGenerator::new());
    assert_eq!(builder.depth(), 0);
    assert_eq!(builder.position(), None);
    assert_eq!(builder.node(), None);
    // Without a node under construction there is nothing to add a child to.
    assert_eq!(builder.child(text("x")), None);
    builder.end();
    let mut builder = builder.root(text("root"));
    assert_eq!(builder.depth(), 1);
    let first = builder.child(text("a")).unwrap();
    assert_eq!(builder.node(), Some(first));
    assert_eq!(builder.depth(), 2);
    let second = builder.child(text("b")).unwrap();
    assert_eq!(
        builder.position(),
        Some(NodePosition {
            depth: 2,
            index: 0,
            child_index: 0
        })
    );
    // Scopes that are still open are ended when the tree is done.
    let tree = builder.done().unwrap();
    assert_eq!(tree.children_of(tree.root()), vec![first]);
    assert_eq!(tree.children_of(first), vec![second]);
    assert_eq!(tree.node(second).parent(), Some(first));
    assert_eq!(tree.node(second).id(), 2);

    let none = TreeBuilder::<IdGenerator>::new().done();
    assert!(none.is_none());
}

#[test]
fn operations_that_name_nothing_change_nothing() {
    let mut tree = flat(&["a", "b"]);
    let source = flat(&["x"]);
    let root = tree.root();
    let astray = handles(&flat(&["1", "2", "3", "4", "5", "6"]))[6];
    let hash = tree.root_hash();
    let size = tree.size();
    let operations = vec![
        TreePatchOperation::InsertChild { dest: root, index: 3, source: source.root() },
        TreePatchOperation::InsertChild { dest: astray, index: 0, source: source.root() },
        TreePatchOperation::InsertChild { dest: root, index: 0, source: astray },
        TreePatchOperation::DeleteChild { dest: root, index: 2 },
        TreePatchOperation::ReplaceChild { dest: root, index: 2, source: source.root() },
        TreePatchOperation::RemoveChildren { dest: astray },
        TreePatchOperation::SetChildren { dest: root, nodes: vec![source.root(), astray] },
        TreePatchOperation::ReplaceNode { dest: root, source: astray },
        TreePatchOperation::ReplaceNode { dest: astray, source: source.root() },
    ];
    let patch = TreePatch::new(operations);
    assert_eq!(patch.len(), 9);
    assert_eq!(patch.operations().len(), 9);
    patch.apply(&mut tree, &source);
    assert_eq!(tree.size(), size);
    assert_eq!(tree.root_hash(), hash);
    assert_eq!(tree.node(root).num_children(), 2);
    assert_eq!(tree.node(root).data(), &text("root"));
}

#[test]
fn one_operation_changes_and_rehashes() {
    let mut tree = flat(&["a", "b"]);
    let source = flat(&["x"]);
    let root = tree.root();
    let before = tree.root_hash();
    let x = source.child(source.root(), 0);
    apply_operation(
        &mut tree,
        &source,
        &TreePatchOperation::ReplaceChild { dest: root, index: 1, source: x },
    );
    assert_ne!(tree.root_hash(), before);
    assert_eq!(
        tree.node(tree.child(root, 1)).get_subtree_hash(),
        source.node(x).get_subtree_hash()
    );
    apply_operation(&mut tree, &source, &TreePatchOperation::DeleteChild { dest: root, index: 0 });
    apply_operation(
        &mut tree,
        &source,
        &TreePatchOperation::ReplaceNode { dest: root, source: source.root() },
    );
    // The tree has the data and the children of the source now.
    assert!(tree == source);
}

#[test]
fn trees_are_equal_by_the_hash_of_the_root() {
    let a = flat(&["a", "b"]);
    let b = flat(&["a", "b"]);
    let c = flat(&["b", "a"]);
    assert!(a == b);
    assert!(a != c);
    let empty: Tree<IdGenerator> = Tree::new();
    let other: Tree<IdGenerator> = Tree::new();
    assert!(empty == other);
    assert!(empty != a);
    assert_eq!(empty.root_hash(), None);
    assert!(a.index() == b.index());
}

#[test]
fn the_tree_hands_out_identities() {
    let mut tree = flat(&["a"]);
    assert!(tree.has_generator());
    assert_eq!(tree.generate_id(), 2);
    assert_eq!(tree.generate_id(), 3);
    let mut copy = tree.generator().clone();
    assert_eq!(copy.generate(), 4);
    assert_eq!(tree.create_node(text("n")).map(|n| tree.node(n).id()), Some(4));
}
