use arbutus::hash::{hash_data, hash_subtree, hash_words, update_subtree_hash};
use arbutus::iterator::{traverse, NodeRefIter};
use arbutus::leaf::LeafIter;
use arbutus::{
    AtomicU64Generator, IdGenerator, IndexedTree, NodePosition, NodeRef, Tree, TreeBuilder,
    TreeDiff, TreePatchOperation, UniqueGenerator, UuidGenerator,
};

#[derive(Debug, Clone, Hash)]
#[allow(unused)]
enum TestData {
    Root,
    Nest,
    String(&'static str),
}

impl TestData {
    fn bytes(&self) -> Vec<u8> {
        match self {
            TestData::Root => vec![0],
            TestData::Nest => vec![1],
            TestData::String(s) => {
                let mut bytes = vec![2];
                bytes.extend_from_slice(s.as_bytes());
                bytes
            }
        }
    }
}

fn text(s: &str) -> Vec<u8> {
    s.as_bytes().to_vec()
}

struct TestNode(&'static str, Vec<TestNode>);

fn add_children(builder: &mut TreeBuilder<IdGenerator>, children: &Vec<TestNode>) {
    for child in children {
        builder.child(text(child.0)).unwrap();
        add_children(builder, &child.1);
        builder.end();
    }
}

fn test_tree_node(data: Vec<TestNode>) -> IndexedTree<IdGenerator> {
    let mut builder = TreeBuilder::<IdGenerator>::new().root(text("root"));
    add_children(&mut builder, &data);
    builder.end();
    builder.done().unwrap().index()
}

/// Construct a tree from a Vec of tuples of (&str, Vec of children)
fn test_tree_vec(data: Vec<(&'static str, Vec<&'static str>)>) -> IndexedTree<IdGenerator> {
    let mut builder = TreeBuilder::<IdGenerator>::new().root(text("root"));
    for (data, children) in data {
        builder.child(text(data)).unwrap();
        for child in children {
            builder.child(text(child)).unwrap();
            builder.end();
        }
        builder.end();
    }
    builder.end();
    builder.done().unwrap().index()
}

fn test_tree_deep(a: Vec<&'static str>, b: Vec<&'static str>) -> IndexedTree<IdGenerator> {
    let mut builder = TreeBuilder::<IdGenerator>::new().root(text("root"));
    builder.child(text("column")).unwrap();
    builder.child(text("row")).unwrap();
    for child in &a {
        builder.child(text(child)).unwrap();
        builder.end();
    }
    builder.end();
    builder.child(text("row")).unwrap();
    for child in &b {
        builder.child(text(child)).unwrap();
        builder.end();
    }
    builder.end();
    builder.end();
    builder.end();
    builder.done().unwrap().index()
}

fn test_tree_nested(depth: usize, children: Vec<&'static str>) -> IndexedTree<IdGenerator> {
    let mut builder = TreeBuilder::<IdGenerator>::new().root(TestData::Root.bytes());
    for _ in 0..depth {
        builder.child(TestData::Nest.bytes()).unwrap();
        builder.child(TestData::Nest.bytes()).unwrap();
        for child in &children {
            builder.child(TestData::String(child).bytes()).unwrap();
            builder.end();
        }
        builder.end();
        builder.end();
    }
    builder.end();
    builder.done().unwrap().index()
}

fn flat_tree(children: Vec<&'static str>) -> IndexedTree<IdGenerator> {
    let mut builder = TreeBuilder::<IdGenerator>::new().root(TestData::Root.bytes());
    for child in children {
        builder.child(TestData::String(child).bytes()).unwrap();
        builder.end();
    }
    builder.end();
    builder.done().unwrap().index()
}

fn patch(a: &mut IndexedTree<IdGenerator>, b: &IndexedTree<IdGenerator>) -> Vec<TreePatchOperation> {
    let patch = TreeDiff::new(a.tree(), a.root(), b.tree(), b.root()).diff();
    let operations = patch.operations().clone();
    patch.patch_tree(a, b.tree());
    operations
}

#[test]
fn test_builder() {
    let mut builder = TreeBuilder::<IdGenerator>::new().root(text("Foo"));
    builder.child(text("Bar")).unwrap();
    builder.child(text("Baz")).unwrap();
    builder.end();
    builder.end();
    builder.child(text("Hello")).unwrap();
    builder.end();
    builder.end();
    let tree = builder.done().unwrap();

    println!("{:?}", tree.root());
    assert_eq!(tree.size(), 4);
    assert_eq!(tree.node(tree.root()).num_children(), 2);
}

#[test]
fn test_indices() {
    let mut builder = TreeBuilder::<IdGenerator>::new().root(text("Foo"));
    assert_eq!(builder.position().unwrap(), NodePosition::zero());
    builder.child(text("Bar")).unwrap();
    assert_eq!(builder.position().unwrap().depth, 1);
    assert_eq!(builder.position().unwrap().index, 0);
    builder.child(text("Baz")).unwrap();
    assert_eq!(builder.position().unwrap().depth, 2);
    assert_eq!(builder.position().unwrap().index, 0);
    builder.end();
    builder.end();
    builder.child(text("Hello")).unwrap();
    assert_eq!(builder.position().unwrap().depth, 1);
    assert_eq!(builder.position().unwrap().index, 1);
    builder.end();
    builder.end();
    let tree = builder.done().unwrap();

    println!("{:?}", tree.root());
}

#[test]
fn deep() {
    let mut a = test_tree_deep(vec!["foo", "a", "bar"], vec!["a", "b", "c"]);
    let b = test_tree_deep(vec!["foo", "b", "bar"], vec!["a", "b", "c"]);

    patch(&mut a, &b);

    println!("{}\n{:?}", "Patched Tree:", a.root());
    assert_eq!(a, b);
}

#[test]
fn nested() {
    let mut a = test_tree_nested(2, vec!["foo", "a", "bar"]);
    let b = test_tree_nested(1, vec!["foo", "a", "bar"]);

    patch(&mut a, &b);

    println!("{}\n{:?}", "Patched Tree:", a.root());
    assert_eq!(a, b);
}

#[test]
fn insert_child() {
    let mut a = flat_tree(vec!["foo", "a", "bar"]);
    let b = flat_tree(vec!["foo", "b", "bar"]);

    patch(&mut a, &b);

    println!("{}\n{:?}", "Patched Tree:", a.root());
    assert_eq!(a, b);
}

#[test]
fn append_child() {
    let mut a = flat_tree(vec!["foo", "bar"]);
    let b = flat_tree(vec!["foo", "bar", "a"]);

    patch(&mut a, &b);

    println!("{}\n{:?}", "Patched Tree:", a.root());
    assert_eq!(a, b);
}

#[test]
fn prepend_child() {
    let mut a = flat_tree(vec!["foo", "bar"]);
    let b = flat_tree(vec!["a", "foo", "bar"]);

    patch(&mut a, &b);

    println!("{}\n{:?}", "Patched Tree:", a.root());
    assert_eq!(a, b);
}

#[test]
fn delete_middle_child() {
    let mut a = flat_tree(vec!["foo", "a", "bar"]);
    let b = flat_tree(vec!["foo", "bar"]);

    patch(&mut a, &b);

    println!("{}\n{:?}", "Patched Tree:", a.root());
    assert_eq!(a, b);
}

#[test]
fn delete_first_child() {
    let mut a = flat_tree(vec!["foo", "a", "bar"]);
    let b = flat_tree(vec!["a", "bar"]);

    patch(&mut a, &b);

    println!("{}\n{:?}", "Patched Tree:", a.root());
    assert_eq!(a, b);
}

#[test]
fn replace_parent() {
    let mut a = test_tree_vec(vec![("a", vec!["a", "b"])]);
    let b = test_tree_vec(vec![("b", vec!["a", "b"])]);

    println!("A:\n{:?}", a.root());
    println!("B:\n{:?}", b.root());

    patch(&mut a, &b);

    println!("{}\n{:?}", "Patched Tree:", a.root());
    assert_eq!(a, b);
}

/// Test when the dest doesn't have children, and the node data is different
#[test]
fn insert_children() {
    let nodes_a = vec![TestNode("a", vec![TestNode("1", vec![])])];

    let nodes_b = vec![TestNode(
        "a",
        vec![TestNode("b", vec![TestNode("1", vec![])])],
    )];

    let mut a = test_tree_node(nodes_a);
    let b = test_tree_node(nodes_b);

    println!("A:\n{:?}", a.root());
    println!("B:\n{:?}", b.root());

    patch(&mut a, &b);

    println!("{}\n{:?}", "Patched Tree:", a.root());
    assert_eq!(a, b);
}

/// Test inserting a node, where the same subtree exists as children, as in this case where
/// in tree B we're inserting node "b" between node "a" and it's child "1"
#[test]
fn move_subtree() {
    let nodes_a = vec![TestNode(
        "a",
        vec![TestNode("1", vec![TestNode("x", vec![])])],
    )];

    let nodes_b = vec![TestNode(
        "a",
        vec![TestNode(
            "b",
            vec![TestNode("1", vec![TestNode("x", vec![])])],
        )],
    )];

    let mut a = test_tree_node(nodes_a);
    let b = test_tree_node(nodes_b);

    println!("A:\n{:?}", a.root());
    println!("B:\n{:?}", b.root());

    let operations = patch(&mut a, &b);

    println!("{}\n{:?}", "Patched Tree:", a.root());
    assert_eq!(a, b);

    // The wrapping is found where the subtree "1" of the destination meets the
    // node "b" of the source: the data of that node is replaced, and its
    // children are set to those of "b".
    let node_a: NodeRef = a.tree().child(a.root(), 0);
    let wrapped: NodeRef = a.tree().child(node_a, 0);
    let source_b: NodeRef = b.tree().child(b.tree().child(b.root(), 0), 0);
    let source_1: NodeRef = b.tree().child(source_b, 0);
    assert_eq!(operations.len(), 3);
    assert!(
        matches!(&operations[0], TreePatchOperation::ReplaceNode { dest, source } if *dest == wrapped && *source == source_b)
    );
    assert!(
        matches!(&operations[1], TreePatchOperation::SetChildren { dest, nodes } if *dest == wrapped && *nodes == vec![source_1])
    );
    assert!(
        matches!(&operations[2], TreePatchOperation::ReplaceNode { dest, source } if *dest == wrapped && *source == source_b)
    );
    assert_eq!(a.tree().node(wrapped).data(), &text("b"));
}

/// Create a simple tree for tests using the TreeBuilder
fn simple_tree() -> Option<Tree<IdGenerator>> {
    let mut builder = TreeBuilder::<IdGenerator>::new().root(text("Foo"));
    builder.child(text("Bar")).unwrap();
    builder.child(text("Hello")).unwrap();
    builder.child(text("World")).unwrap();
    builder.end();
    builder.end();
    builder.child(text("Baz")).unwrap();
    builder.end();
    builder.end();
    for _ in 0..4 {
        builder.child(text("Baz")).unwrap();
        builder.end();
    }
    builder.end();
    builder.done()
}

#[test]
fn test_tree() {
    let tree = simple_tree().unwrap();

    // Create an indexed tree
    let tree = tree.index();

    println!("{:?}", tree);
    assert_eq!(tree.index().len(), 9);
    assert_eq!(tree.leaves().len(), 6);
}

#[test]
fn leaf_for_each() {
    let tree = test_tree_node(vec![
        TestNode(
            "a",
            vec![
                TestNode("1", vec![]),
                TestNode("2", vec![]),
                TestNode("3", vec![]),
            ],
        ),
        TestNode(
            "b",
            vec![
                TestNode("1", vec![]),
                TestNode("2", vec![]),
                TestNode("3", vec![]),
            ],
        ),
        TestNode(
            "c",
            vec![
                TestNode("1", vec![]),
                TestNode("2", vec![]),
                TestNode("3", vec![]),
            ],
        ),
        TestNode(
            "d",
            vec![
                TestNode("x", vec![]),
                TestNode("y", vec![]),
                TestNode(
                    "z",
                    vec![
                        TestNode("1", vec![]),
                        TestNode("2", vec![]),
                        TestNode("3", vec![]),
                    ],
                ),
            ],
        ),
    ]);

    println!("{:?}", tree.root());

    let mut min_depth = usize::MAX;

    let mut iter = tree.leaf_iter();
    while let Some(node) = iter.next(tree.tree()) {
        let inner = tree.tree().node(node);

        let pos = inner.get_position().unwrap();
        println!("Node {:?} {:?}", node, pos);

        assert!(pos.depth() <= min_depth);
        min_depth = pos.depth();
    }
    assert_eq!(min_depth, 0);
}

// The hash of a subtree as its data and children give it, made without the
// cached hashes.
fn fresh_hash(tree: &Tree<IdGenerator>, node: NodeRef) -> u64 {
    let mut bytes: Vec<u8> = Vec::new();
    for child in tree.children_of(node) {
        bytes.extend_from_slice(&fresh_hash(tree, child).to_le_bytes());
    }
    let data = xxhash_rust::xxh64::xxh64(tree.node(node).data(), 0);
    bytes.extend_from_slice(&data.to_le_bytes());
    xxhash_rust::xxh64::xxh64(&bytes, 0)
}

fn assert_hashed(tree: &Tree<IdGenerator>) {
    for item in traverse(tree, tree.root()) {
        assert_eq!(
            tree.node(item.node()).get_subtree_hash(),
            fresh_hash(tree, item.node())
        );
    }
}

#[test]
fn built_tree_caches_fresh_hashes() {
    let tree = simple_tree().unwrap();
    assert_hashed(&tree);
    let leaf = tree.child(tree.root(), 1);
    assert_eq!(
        tree.node(leaf).get_subtree_hash(),
        hash_subtree(&vec![], hash_data(&text("Baz")))
    );
}

#[test]
fn hash_of_data_is_xxh64_with_seed_zero() {
    assert_eq!(hash_data(&vec![]), 0xEF46DB3751D8E999);
    assert_eq!(
        hash_data(&text("arbutus")),
        xxhash_rust::xxh64::xxh64(b"arbutus", 0)
    );
    let words = vec![1u64, 0x0102030405060708];
    let mut bytes = vec![1u8, 0, 0, 0, 0, 0, 0, 0, 8, 7, 6, 5, 4, 3, 2, 1];
    assert_eq!(hash_words(&words), xxhash_rust::xxh64::xxh64(&bytes, 0));
    bytes.extend_from_slice(&[9, 0, 0, 0, 0, 0, 0, 0]);
    assert_eq!(hash_subtree(&words, 9), xxhash_rust::xxh64::xxh64(&bytes, 0));
}

#[test]
fn patched_tree_caches_fresh_hashes() {
    let mut a = test_tree_deep(vec!["foo", "a", "bar"], vec!["a", "b", "c"]);
    let b = test_tree_deep(vec!["foo", "b", "bar", "more"], vec!["c"]);
    patch(&mut a, &b);
    assert_hashed(a.tree());
    assert_eq!(a, b);
}

#[test]
fn hash_propagation_after_a_change() {
    let mut tree = simple_tree().unwrap();
    let bar = tree.child(tree.root(), 0);
    let hello = tree.child(bar, 0);
    let world = tree_node(&tree, 3);
    assert_eq!(tree.node(world).data(), &text("World"));
    let before = tree.node(tree.root()).get_subtree_hash();
    // Removing a child leaves the cached hashes as they were.
    assert_eq!(tree.remove_child(hello, 0), Some(world));
    assert_eq!(tree.node(tree.root()).get_subtree_hash(), before);
    update_subtree_hash(&mut tree, hello);
    assert_ne!(tree.node(tree.root()).get_subtree_hash(), before);
    assert_hashed(&tree);
}

fn tree_node(tree: &Tree<IdGenerator>, at: usize) -> NodeRef {
    traverse(tree, tree.root())
        .iter()
        .map(|item| item.node())
        .find(|node| node.slot() == at)
        .unwrap()
}

#[test]
fn diff_of_a_tree_with_itself_is_empty() {
    let a = test_tree_deep(vec!["foo", "a", "bar"], vec!["a", "b", "c"]);
    let b = test_tree_deep(vec!["foo", "a", "bar"], vec!["a", "b", "c"]);
    assert_eq!(TreeDiff::new(a.tree(), a.root(), a.tree(), a.root()).diff().len(), 0);
    assert_eq!(TreeDiff::new(a.tree(), a.root(), b.tree(), b.root()).diff().len(), 0);
}

#[test]
fn replaced_child_is_replaced_in_place() {
    let text_tree = |children: Vec<&'static str>| {
        test_tree_node(children.into_iter().map(|c| TestNode(c, vec![])).collect())
    };
    let mut a = text_tree(vec!["a", "x", "bar"]);
    let b = text_tree(vec!["b", "x", "bar"]);
    let first = a.tree().child(a.root(), 0);
    let operations = patch(&mut a, &b);
    assert_eq!(operations.len(), 2);
    assert!(
        matches!(&operations[0], TreePatchOperation::ReplaceNode { dest, source } if *dest == first && *source == b.tree().child(b.root(), 0))
    );
    assert!(
        matches!(&operations[1], TreePatchOperation::ReplaceChild { dest, index: 0, source } if *dest == a.root() && *source == b.tree().child(b.root(), 0))
    );
    assert_eq!(a, b);

    let mut a = text_tree(vec!["foo", "a", "bar"]);
    let b = text_tree(vec!["foo", "b", "bar"]);
    let operations = patch(&mut a, &b);
    let replacements: Vec<&TreePatchOperation> = operations
        .iter()
        .filter(|op| matches!(op, TreePatchOperation::ReplaceChild { .. }))
        .collect();
    assert_eq!(replacements.len(), 1);
    assert!(matches!(replacements[0], TreePatchOperation::ReplaceChild { index: 1, .. }));
    assert_eq!(a, b);
}

#[test]
fn appended_child_is_one_insertion() {
    let text_tree = |children: Vec<&'static str>| {
        test_tree_node(children.into_iter().map(|c| TestNode(c, vec![])).collect())
    };
    let mut a = text_tree(vec!["foo", "bar"]);
    let b = text_tree(vec!["foo", "bar", "extra"]);
    let operations = patch(&mut a, &b);
    assert_eq!(operations.len(), 1);
    assert!(
        matches!(&operations[0], TreePatchOperation::InsertChild { dest, index: 2, source } if *dest == a.root() && *source == b.tree().child(b.root(), 2))
    );
    assert_eq!(a, b);
    assert_eq!(a.tree().node(a.root()).num_children(), 3);
    // The copy has an identity of its own.
    let copy = a.tree().child(a.root(), 2);
    assert_eq!(a.tree().node(copy).data(), &text("extra"));
    assert_eq!(a.tree().node(copy).id(), 3);
    assert_eq!(a.tree().node(copy).parent(), Some(a.root()));
}

#[test]
fn children_are_removed_and_set() {
    let mut a = test_tree_node(vec![TestNode("a", vec![TestNode("1", vec![])])]);
    let b = test_tree_node(vec![TestNode("a", vec![])]);
    let node_a = a.tree().child(a.root(), 0);
    let operations = patch(&mut a, &b);
    assert_eq!(operations.len(), 1);
    assert!(matches!(&operations[0], TreePatchOperation::RemoveChildren { dest } if *dest == node_a));
    assert!(a.tree().node(node_a).children().is_none());
    assert_eq!(a, b);

    let c = test_tree_node(vec![TestNode(
        "a",
        vec![TestNode("1", vec![TestNode("2", vec![])])],
    )]);
    let operations = patch(&mut a, &c);
    assert_eq!(operations.len(), 2);
    assert!(
        matches!(&operations[0], TreePatchOperation::SetChildren { dest, nodes } if *dest == node_a && nodes.len() == 1)
    );
    assert!(matches!(&operations[1], TreePatchOperation::ReplaceNode { dest, .. } if *dest == node_a));
    assert_eq!(a, c);
    assert_eq!(a.tree().node(a.tree().child(node_a, 0)).num_children(), 1);
    assert_hashed(a.tree());
}

#[test]
fn roots_that_are_leaves_are_given_the_data() {
    let mut a = test_tree_node(vec![]);
    let b = TreeBuilder::<IdGenerator>::new()
        .root(text("other"))
        .done()
        .unwrap()
        .index();
    let operations = patch(&mut a, &b);
    assert_eq!(operations.len(), 1);
    assert!(matches!(&operations[0], TreePatchOperation::ReplaceNode { .. }));
    assert_eq!(a.tree().node(a.root()).data(), &text("other"));
    assert_eq!(a, b);
}

#[test]
fn traversal_gives_positions() {
    let tree = simple_tree().unwrap();
    let items = traverse(&tree, tree.root());
    let places: Vec<(Vec<u8>, usize, usize, usize)> = items
        .iter()
        .map(|item| {
            (
                tree.node(item.node()).data().clone(),
                item.depth(),
                item.index(),
                item.child_index(),
            )
        })
        .collect();
    assert_eq!(
        places,
        vec![
            (text("Foo"), 0, 0, 0),
            (text("Bar"), 1, 0, 0),
            (text("Hello"), 2, 0, 0),
            (text("World"), 3, 0, 0),
            (text("Baz"), 2, 1, 1),
            (text("Baz"), 1, 1, 1),
            (text("Baz"), 1, 2, 2),
            (text("Baz"), 1, 3, 3),
            (text("Baz"), 1, 4, 4),
        ]
    );
    // The builder gave the same positions.
    for item in &items {
        assert_eq!(tree.node(item.node()).get_position(), Some(item.position()));
    }
    assert_eq!(tree.depth(), 3);
    assert_eq!(tree.width(), 4);

    let mut iter = NodeRefIter::new(tree.child(tree.root(), 0));
    let mut count = 0;
    while let Some(item) = iter.next(&tree) {
        if count == 0 {
            assert_eq!(*item.position(), NodePosition::zero());
        }
        count += 1;
    }
    assert_eq!(count, 4);
    assert!(iter.is_done());
}

#[test]
fn positional_hash_tells_shapes_apart() {
    let a = test_tree_node(vec![TestNode("a", vec![TestNode("b", vec![])])]);
    let b = test_tree_node(vec![TestNode("a", vec![]), TestNode("b", vec![])]);
    let c = test_tree_node(vec![TestNode("a", vec![TestNode("b", vec![])])]);
    assert_ne!(a.tree().xxhash_positional(), b.tree().xxhash_positional());
    assert_eq!(a.tree().xxhash_positional(), c.tree().xxhash_positional());
}

#[test]
fn tree_operations() {
    let mut tree: Tree<IdGenerator> = Tree::new();
    assert!(!tree.has_generator());
    assert_eq!(tree.create_node(text("x")), None);
    assert_eq!(tree.try_root(), None);

    let mut tree = simple_tree().unwrap();
    let root = tree.root();
    let bar = tree.child(root, 0);
    assert_eq!(tree.size(), 9);

    // A new node is detached until it is inserted.
    let node = tree.create_node(text("new")).unwrap();
    assert_eq!(tree.node(node).id(), 9);
    assert_eq!(tree.node(node).parent(), None);
    assert_eq!(tree.insert_child(bar, 3, node), None);
    assert_eq!(tree.insert_child(node, 0, bar), None);
    assert_eq!(tree.insert_child(bar, 1, node), Some(()));
    assert_eq!(tree.insert_child(bar, 1, node), None);
    assert_eq!(tree.children_of(bar).len(), 3);
    assert_eq!(tree.child(bar, 1), node);
    assert_eq!(tree.node(node).parent(), Some(bar));

    // Removal detaches.
    assert_eq!(tree.remove_child(bar, 5), None);
    tree.remove_node(node);
    assert_eq!(tree.children_of(bar).len(), 2);
    assert_eq!(tree.node(node).parent(), None);
    tree.remove_node(node);
    assert_eq!(tree.children_of(bar).len(), 2);

    // Replacing data.
    let baz = tree.child(root, 1);
    let source = simple_tree().unwrap();
    tree.replace_node(baz, &source, source.root());
    assert_eq!(tree.node(baz).data(), &text("Foo"));

    // Replacing and setting children takes copies.
    let size = tree.size();
    tree.replace_child(root, 1, &source, source.child(source.root(), 0));
    assert_eq!(tree.size(), size + 4);
    assert_eq!(tree.node(baz).parent(), None);
    let copy = tree.child(root, 1);
    assert_eq!(tree.node(copy).data(), &text("Bar"));
    assert_eq!(tree.node(tree.child(copy, 0)).data(), &text("Hello"));
    tree.replace_child(root, 9, &source, source.root());
    assert_eq!(tree.size(), size + 4);

    tree.set_children(bar, &source, vec![source.root(), source.child(source.root(), 1)]);
    assert_eq!(tree.children_of(bar).len(), 2);
    assert_eq!(tree.node(tree.child(bar, 0)).data(), &text("Foo"));
    assert_eq!(tree.node(tree.child(bar, 0)).num_children(), 5);
    assert_eq!(tree.node(tree.child(bar, 1)).data(), &text("Baz"));

    tree.remove_children(root);
    assert!(tree.node(root).children().is_none());
    assert_eq!(tree.node(bar).parent(), None);
    assert_eq!(tree.insert_subtree(root, 1, &source, source.root()), None);
    assert_eq!(tree.insert_subtree(root, 0, &source, source.root()), Some(()));
    update_subtree_hash(&mut tree, root);
    assert_eq!(
        tree.node(tree.child(root, 0)).get_subtree_hash(),
        source.node(source.root()).get_subtree_hash()
    );

    let copy = Tree::from_node(&source, source.child(source.root(), 0), IdGenerator::new());
    assert_eq!(copy.size(), 4);
    assert_eq!(
        copy.root_hash(),
        Some(source.node(source.child(source.root(), 0)).get_subtree_hash())
    );
    assert!(copy != source);
}

#[test]
fn indexed_tree_operations() {
    let mut tree = simple_tree().unwrap().index();
    assert_eq!(tree.index().get_ids(), vec![0, 1, 2, 3, 4, 5, 6, 7, 8]);
    let bar = *tree.get_node(&1).unwrap();
    assert_eq!(tree.tree().node(bar).data(), &text("Bar"));
    assert_eq!(tree.get_node(&9), None);

    assert_eq!(tree.insert_child(42, 0, text("x")), None);
    assert_eq!(tree.insert_child(1, 7, text("x")), None);
    assert_eq!(tree.index().len(), 9);
    assert_eq!(tree.insert_child(1, 2, text("x")), Some(()));
    assert_eq!(tree.index().len(), 10);
    assert_eq!(tree.leaves().len(), 7);
    let made = *tree.get_node(&10).unwrap();
    assert_eq!(tree.tree().child(bar, 2), made);

    // Removing a node takes its subtree out of index and leaves.
    assert_eq!(tree.remove_node(bar), Some(()));
    assert_eq!(tree.index().get_ids(), vec![0, 5, 6, 7, 8]);
    assert_eq!(tree.leaves().len(), 4);
    assert_eq!(tree.tree().node(tree.root()).num_children(), 4);
    assert_eq!(tree.remove_node(bar), None);

    tree.reindex();
    assert_eq!(tree.index().get_ids(), vec![0, 5, 6, 7, 8]);
    assert_eq!(tree.leaves().len(), 4);

    let empty: IndexedTree<IdGenerator> = IndexedTree::new();
    assert_eq!(empty.leaves().len(), 0);
    assert_eq!(empty.index().len(), 0);
}

#[test]
fn leaves_up_visits_every_node_once_and_children_first() {
    let tree = simple_tree().unwrap().index();
    let mut iter = LeafIter::new(tree.leaves());
    let order = iter.for_each(tree.tree());
    assert_eq!(order.len(), 9);
    for (at, node) in order.iter().enumerate() {
        assert_eq!(order.iter().filter(|other| *other == node).count(), 1);
        for child in tree.tree().children_of(*node) {
            assert!(order[..at].contains(&child));
        }
    }
    assert_eq!(order[8], tree.root());
    assert_eq!(iter.next(tree.tree()), None);

    // A node whose children are not all reached is never visited.
    let one_leaf = vec![tree.leaves()[0]];
    let order = LeafIter::new(&one_leaf).for_each(tree.tree());
    let hello = tree.tree().node(one_leaf[0]).parent().unwrap();
    assert_eq!(order, vec![one_leaf[0], hello]);
}

#[test]
fn generators() {
    let mut numbers = AtomicU64Generator::default();
    assert_eq!(numbers.generate(), 0);
    assert_eq!(numbers.generate(), 1);
    let mut random = UuidGenerator;
    let a = random.generate();
    let b = random.generate();
    assert_ne!(a, b);
    // The version of a random identifier is 4, and its variant bits are 10.
    assert_eq!((a.value >> 76) & 0xf, 4);
    assert_eq!((a.value >> 62) & 0x3, 2);
    assert_eq!(
        b.value & 0x0000_0000_0000_f000_c000_0000_0000_0000,
        0x0000_0000_0000_4000_8000_0000_0000_0000
    );
}

#[test]
fn shifted_leaves_are_patched_pair_by_pair() {
    let text_tree = |children: Vec<&'static str>| {
        test_tree_node(children.into_iter().map(|c| TestNode(c, vec![])).collect())
    };
    let mut a = text_tree(vec!["a", "b", "c"]);
    let b = text_tree(vec!["b", "c", "d"]);
    let operations = patch(&mut a, &b);
    // Each pair of leaves is given the data of the source leaf, and the edit
    // script between the two child lists, one insertion and one deletion, is
    // applied once for each pair.
    assert_eq!(operations.len(), 9);
    let data: Vec<Vec<u8>> = a
        .tree()
        .children_of(a.root())
        .iter()
        .map(|child| a.tree().node(*child).data().clone())
        .collect();
    assert_eq!(data, vec![text("d"), text("d"), text("d")]);
    assert!(a != b);
    assert_hashed(a.tree());
}

#[test]
fn leaf_and_subtree_changed_side_by_side() {
    let mut a = test_tree_node(vec![
        TestNode("a", vec![TestNode("1", vec![]), TestNode("2", vec![])]),
        TestNode("x", vec![]),
        TestNode("y", vec![]),
    ]);
    let b = test_tree_node(vec![
        TestNode("a", vec![TestNode("1", vec![]), TestNode("3", vec![])]),
        TestNode("z", vec![]),
        TestNode("y", vec![]),
    ]);
    patch(&mut a, &b);
    assert_eq!(a, b);
    assert_hashed(a.tree());
}

#[test]
fn wrapping_beside_a_changed_leaf() {
    let mut a = test_tree_node(vec![TestNode(
        "1",
        vec![TestNode("x", vec![]), TestNode("y", vec![])],
    )]);
    let b = test_tree_node(vec![TestNode(
        "b",
        vec![
            TestNode("1", vec![TestNode("x", vec![]), TestNode("y", vec![])]),
            TestNode("z", vec![]),
        ],
    )]);
    let operations = patch(&mut a, &b);
    assert!(operations
        .iter()
        .any(|op| matches!(op, TreePatchOperation::SetChildren { .. })));
    assert_eq!(a, b);
    assert_hashed(a.tree());
}

#[test]
fn changes_in_two_subtrees() {
    let mut a = test_tree_node(vec![
        TestNode("a", vec![TestNode("1", vec![]), TestNode("2", vec![])]),
        TestNode("b", vec![TestNode("3", vec![TestNode("4", vec![])])]),
        TestNode("c", vec![TestNode("5", vec![])]),
    ]);
    let b = test_tree_node(vec![
        TestNode("a", vec![TestNode("1", vec![]), TestNode("2", vec![]), TestNode("6", vec![])]),
        TestNode("b", vec![TestNode("3", vec![TestNode("7", vec![])])]),
        TestNode("c", vec![TestNode("5", vec![])]),
    ]);
    patch(&mut a, &b);
    assert_eq!(a, b);
    assert_hashed(a.tree());
}
