use reversi_rs::tree::{Tree, ROOT};

#[derive(Copy, Clone, PartialEq, Debug)]
struct TestData(i32);

#[test]
fn node_holds_data() {
    let tree = Tree::new_root(TestData(1));

    assert_eq!(tree.data(ROOT), &TestData(1));
}

#[test]
fn node_adds_child() {
    let mut tree = Tree::new_root(TestData(1));
    let child = tree.new_child(ROOT, TestData(2));

    let root_children = tree.children(ROOT);

    assert_eq!(tree.data(root_children[0]), &TestData(2));
    assert_eq!(tree.children(child).len(), 0);
}

#[test]
fn child_has_parent() {
    let mut tree = Tree::new_root(TestData(1));
    let child = tree.new_child(ROOT, TestData(2));

    assert_eq!(
        tree.data(tree.parent(child).expect("child should have a parent")),
        &TestData(1)
    );
}

#[test]
fn root_has_no_parent() {
    let tree = Tree::new_root(TestData(1));

    assert!(tree.parent(ROOT).is_none());
}

#[test]
fn refcells_dont_explode() {
    let mut tree = Tree::new_root(TestData(1));
    let child_1 = tree.new_child(ROOT, TestData(2));
    let child_2 = tree.new_child(ROOT, TestData(3));
    let child_3 = tree.new_child(ROOT, TestData(4));

    let child_4 = tree.new_child(child_1, TestData(5));
    let child_5 = tree.new_child(child_2, TestData(5));
    let child_6 = tree.new_child(child_5, TestData(5));

    let child_1_children = tree.children(child_1);
    let child_2_children = tree.children(child_2);
    let child_3_children = tree.children(child_3);
    let child_4_children = tree.children(child_4);
    let child_5_children = tree.children(child_5);
    let child_6_children = tree.children(child_6);

    let mut _test: Vec<_> = child_6_children.iter().collect();
    _test = child_5_children.iter().collect();
    _test = child_6_children.iter().collect();
    _test = child_1_children.iter().collect();
    _test = child_2_children.iter().collect();
    _test = child_4_children.iter().collect();
    _test = child_3_children.iter().collect();
    _test = child_5_children.iter().collect();

    let up_1 = tree.parent(*_test[0]).unwrap(); // child_5
    let up_2 = tree.parent(up_1).unwrap(); // child_2
    let up_3 = tree.parent(up_2).unwrap(); // root
    assert_eq!(tree.data(up_3), &TestData(1));
}

#[test]
fn children_keep_their_order_and_can_be_forgotten() {
    let mut tree = Tree::new_root(TestData(0));
    let a = tree.new_child(ROOT, TestData(1));
    let b = tree.new_child(ROOT, TestData(2));
    assert_eq!(tree.children(ROOT), vec![a, b]);
    assert_eq!(tree.child_count(ROOT), 2);
    assert_eq!(tree.child(ROOT, 1), b);
    assert_eq!(tree.node_count(), 3);
    *tree.data_mut(a) = TestData(7);
    assert_eq!(tree.data(a), &TestData(7));
    tree.clear_children(ROOT);
    assert_eq!(tree.child_count(ROOT), 0);
    assert_eq!(tree.parent(b), Some(ROOT));
}

#[test]
fn new_child_expects_can_add_children() {
    let mut tree = Tree::new_root(0u64);

    let root_child_a = tree.new_child(ROOT, 1u64);
    let root_child_a_child1 = tree.new_child(root_child_a, 2u64);
    let root_child_b = tree.new_child(ROOT, 3u64);
    let root_child_b_child1 = tree.new_child(root_child_b, 4u64);

    assert_eq!(2, tree.children(ROOT).iter().count());
    assert_eq!(1, tree.children(root_child_a).iter().count());
    assert_eq!(0, tree.children(root_child_a_child1).iter().count());
    assert_eq!(1, tree.children(root_child_b).iter().count());
    assert_eq!(0, tree.children(root_child_b_child1).iter().count());
}

#[test]
fn can_iter_over_generic_children() {
    let tree = Tree::new_root(());
    let children = tree.children(ROOT);

    for _child in children {}
}
