use algo_labs::trees::array_binary_search_tree::ArrayBinarySearchTree;
use algo_labs::trees::array_bst::ArrayBST;
use algo_labs::trees::binary_tree::BinaryTree;
use algo_labs::trees::list_bst::ListBST;
use algo_labs::trees::traits::NodeIdentifiableTree;
use algo_labs::trees::traits::ParentifiedTree;
use algo_labs::trees::traits::RotatableTree;
use algo_labs::trees::traits::Tree;

const PAIRS: [(i32, i32); 11] = [
    (0, 1),
    (1, 2),
    (-1, 3),
    (2, 3),
    (3, 4),
    (-10, 1010),
    (4, 5),
    (-321, 5),
    (5, 6),
    (6, 7),
    (7, 8),
];

#[test]
fn array_binary_search_tree_test_binary_tree() {
    let mut tree = ArrayBinarySearchTree::<i32, i32>::default();

    let pairs = PAIRS;

    for (key, val) in &pairs {
        tree.insert(*key, *val);
    }

    for (key, val) in pairs {
        let found = tree.get(&key);
        assert!(found.is_some());
        assert_eq!(*found.unwrap(), val);
    }

    for non_existent in 1000..2000 {
        let found = tree.get(&non_existent);
        assert!(found.is_none());
    }
}

#[test]
fn array_binary_search_tree_test_rotations() {
    let mut tree = ArrayBinarySearchTree::default();
    let id = tree.insert_and_get_id(15, 0);
    tree.insert(5, 0);
    tree.insert(1, 0);
    assert!(tree.get_root_id() == Some(id));
}

#[test]
fn array_bst_test_binary_tree() {
    let mut tree = ArrayBST::<i32, i32>::default();

    let pairs = PAIRS;

    for (key, val) in &pairs {
        tree.insert(*key, *val);
    }

    for (key, val) in pairs {
        let found = tree.get(&key);
        assert!(found.is_some());
        assert_eq!(*found.unwrap(), val);
    }

    for non_existent in 1000..2000 {
        let found = tree.get(&non_existent);
        assert!(found.is_none());
    }
}

#[test]
fn array_bst_test_rotations() {
    let mut tree = ArrayBST::default();
    let id = tree.insert_and_get_id(5, 0);
    tree.insert(3, 0);
    tree.insert(1, 0);
    tree.insert(4, 0);
    tree.insert(6, 0);
    tree.left_rotate(id);
}

#[test]
fn binary_tree_test_binary_tree() {
    let mut tree = BinaryTree::<i32, i32>::default();

    let pairs = PAIRS;

    for (key, val) in &pairs {
        tree.insert(*key, *val);
    }

    for (key, val) in pairs {
        let found = tree.get(&key);
        assert!(found.is_some());
        assert_eq!(*found.unwrap(), val);
    }

    for non_existent in 1000..2000 {
        let found = tree.get(&non_existent);
        assert!(found.is_none());
    }
}

#[test]
fn list_bst_test_binary_tree() {
    let mut tree = ListBST::<i32, i32>::default();

    let pairs = PAIRS;

    for (key, val) in &pairs {
        tree.insert(*key, *val);
    }

    for (key, val) in pairs {
        let found = tree.get(&key);
        assert!(found.is_some());
        assert_eq!(*found.unwrap(), val);
    }

    for non_existent in 1000..2000 {
        let found = tree.get(&non_existent);
        assert!(found.is_none());
    }
}

#[test]
fn left_rotation_of_a_right_chain() {
    let mut tree = ArrayBST::<i32, &str>::default();
    let n1 = tree.insert_and_get_id(1, "one");
    let n2 = tree.insert_and_get_id(2, "two");
    let n3 = tree.insert_and_get_id(3, "three");
    let n4 = tree.insert_and_get_id(4, "four");
    let n5 = tree.insert_and_get_id(5, "five");
    assert_eq!(tree.get_root_id(), Some(n1));
    assert_eq!(tree.get_right_son_id(n1), Some(n2));
    assert_eq!(tree.get_parent_id(n2), Some(n1));

    tree.left_rotate(n1);

    assert_eq!(tree.get_root_id(), Some(n2));
    assert_eq!(tree.get_parent_id(n2), None);
    assert_eq!(tree.get_left_son_id(n2), Some(n1));
    assert_eq!(tree.get_right_son_id(n2), Some(n3));
    assert_eq!(tree.get_parent_id(n1), Some(n2));
    assert_eq!(tree.get_left_son_id(n1), None);
    assert_eq!(tree.get_right_son_id(n1), None);
    assert_eq!(tree.get_parent_id(n3), Some(n2));
    assert_eq!(tree.get_right_son_id(n3), Some(n4));
    assert_eq!(tree.get_parent_id(n4), Some(n3));
    assert_eq!(tree.get_right_son_id(n4), Some(n5));
    assert_eq!(tree.get_parent_id(n5), Some(n4));
    assert!(tree.is_left_son(n1));
    assert!(!tree.is_right_son(n1));
    assert!(tree.is_right_son(n3));
    assert!(!tree.is_left_son(n2));
    assert!(!tree.is_right_son(n2));
    for (key, val) in [(1, "one"), (2, "two"), (3, "three"), (4, "four"), (5, "five")] {
        assert_eq!(tree.get(&key), Some(&val));
    }
}

#[test]
fn rotation_moves_the_inner_subtree_across() {
    let mut tree = ArrayBST::<i32, i32>::default();
    let root = tree.insert_and_get_id(1000, 0);
    let x = tree.insert_and_get_id(5, 0);
    let a = tree.insert_and_get_id(4, 0);
    let y = tree.insert_and_get_id(7, 0);
    let b = tree.insert_and_get_id(6, 0);
    let c = tree.insert_and_get_id(8, 0);

    tree.left_rotate(x);

    assert_eq!(tree.get_root_id(), Some(root));
    assert_eq!(tree.get_left_son_id(root), Some(y));
    assert_eq!(tree.get_parent_id(y), Some(root));
    assert_eq!(tree.get_left_son_id(y), Some(x));
    assert_eq!(tree.get_right_son_id(y), Some(c));
    assert_eq!(tree.get_parent_id(x), Some(y));
    assert_eq!(tree.get_left_son_id(x), Some(a));
    assert_eq!(tree.get_right_son_id(x), Some(b));
    assert_eq!(tree.get_parent_id(b), Some(x));
    assert_eq!(tree.get_parent_id(a), Some(x));
    assert_eq!(tree.get_parent_id(c), Some(y));

    tree.right_rotate(y);

    assert_eq!(tree.get_left_son_id(root), Some(x));
    assert_eq!(tree.get_parent_id(x), Some(root));
    assert_eq!(tree.get_left_son_id(x), Some(a));
    assert_eq!(tree.get_right_son_id(x), Some(y));
    assert_eq!(tree.get_parent_id(y), Some(x));
    assert_eq!(tree.get_left_son_id(y), Some(b));
    assert_eq!(tree.get_right_son_id(y), Some(c));
    assert_eq!(tree.get_parent_id(b), Some(y));
    for key in [1000, 5, 4, 7, 6, 8] {
        assert_eq!(tree.get(&key), Some(&0));
    }
}

#[test]
fn rotation_without_the_pivot_child_changes_nothing() {
    let mut tree = ArrayBST::<i32, i32>::default();
    let root = tree.insert_and_get_id(2, 20);
    let left = tree.insert_and_get_id(1, 10);
    tree.left_rotate(root);
    assert_eq!(tree.get_root_id(), Some(root));
    assert_eq!(tree.get_left_son_id(root), Some(left));
    assert_eq!(tree.get_parent_id(left), Some(root));
    tree.right_rotate(left);
    assert_eq!(tree.get_root_id(), Some(root));
    assert_eq!(tree.get_left_son_id(root), Some(left));
    assert_eq!(tree.get(&1), Some(&10));
}

#[test]
fn store_overwrites_in_place() {
    let mut tree = ArrayBST::<i32, i32>::default();
    let first = tree.insert_and_get_id(8, 1);
    let other = tree.insert_and_get_id(3, 2);
    let again = tree.insert_and_get_id(8, 9);
    assert_eq!(first, again);
    assert_eq!(tree.get(&8), Some(&9));
    assert_eq!(tree.get_by_id(first), Some(&9));
    assert_eq!(tree.get_left_son_id(first), Some(other));
    assert_eq!(tree.get_key_by_id(other), Some(&3));
}

#[test]
fn store_access_by_identity() {
    let mut tree = ArrayBST::<i32, i32>::default();
    assert_eq!(tree.get_root_id(), None);
    assert!(tree.get_root_mut().is_none());
    let g = tree.insert_and_get_id(10, 100);
    let p = tree.insert_and_get_id(5, 50);
    let u = tree.insert_and_get_id(15, 150);
    let z = tree.insert_and_get_id(3, 30);
    assert_eq!(tree.get_left_uncle_id(z), Some(p));
    assert_eq!(tree.get_right_uncle_id(z), Some(u));
    assert_eq!(tree.get_left_uncle_id(p), None);
    assert_eq!(tree.get_parent(z), Some(&50));
    assert_eq!(tree.get_parent(g), None);
    *tree.get_by_id_mut(z).unwrap() = 31;
    *tree.get_parent_mut(z).unwrap() = 51;
    *tree.get_right_uncle_mut(z).unwrap() = 151;
    *tree.get_left_uncle_mut(z).unwrap() = 52;
    *tree.get_root_mut().unwrap() = 101;
    *tree.get_left_son_mut(p).unwrap() = 32;
    *tree.get_right_son_mut(g).unwrap() = 152;
    assert!(tree.get_right_son_mut(p).is_none());
    tree.modify(g, |v| v + 1);
    assert_eq!(tree.get(&10), Some(&102));
    assert_eq!(tree.get(&5), Some(&52));
    assert_eq!(tree.get(&15), Some(&152));
    assert_eq!(tree.get(&3), Some(&32));
}

#[test]
fn array_layout_access_by_identity() {
    let mut tree = ArrayBinarySearchTree::<i32, i32>::default();
    assert!(tree.get_root_id().is_none());
    let g = tree.insert_and_get_id(10, 100);
    let p = tree.insert_and_get_id(5, 50);
    let u = tree.insert_and_get_id(15, 150);
    let z = tree.insert_and_get_id(3, 30);
    assert!(tree.get_root_id() == Some(g));
    assert!(tree.get_left_son_id(g) == Some(p));
    assert!(tree.get_right_son_id(g) == Some(u));
    assert!(tree.get_parent_id(z) == Some(p));
    assert!(tree.get_parent_id(g).is_none());
    assert!(tree.get_left_uncle_id(z) == Some(p));
    assert!(tree.get_right_uncle_id(z) == Some(u));
    assert!(tree.is_left_son(p));
    assert!(tree.is_right_son(u));
    assert!(!tree.is_right_son(p));
    assert!(!tree.is_left_son(g));
    assert_eq!(tree.get_by_id(u), Some(&150));
    assert_eq!(tree.get_key_by_id(z), Some(&3));
    *tree.get_by_id_mut(z).unwrap() = 31;
    tree.modify(p, |v| v * 2);
    assert_eq!(tree.get(&3), Some(&31));
    assert_eq!(tree.get(&5), Some(&100));
    assert!(tree.insert_and_get_id(3, 33) == z);
    assert_eq!(tree.get(&3), Some(&33));
}

#[test]
fn empty_trees_hold_nothing() {
    assert_eq!(ArrayBST::<i32, i32>::default().get(&1), None);
    assert_eq!(ArrayBinarySearchTree::<i32, i32>::default().get(&1), None);
    assert_eq!(BinaryTree::<i32, i32>::default().get(&1), None);
    assert_eq!(ListBST::<i32, i32>::default().get(&1), None);
}

#[test]
fn trees_overwrite_a_value() {
    let mut a = BinaryTree::<i32, i32>::default();
    let mut b = ListBST::<i32, i32>::default();
    for (k, v) in [(2, 1), (1, 1), (3, 1), (2, 5), (3, 6)] {
        a.insert(k, v);
        b.insert(k, v);
    }
    assert_eq!(a.get(&2), Some(&5));
    assert_eq!(b.get(&2), Some(&5));
    assert_eq!(a.get(&3), Some(&6));
    assert_eq!(b.get(&3), Some(&6));
    assert_eq!(a.get(&1), Some(&1));
    assert_eq!(b.get(&1), Some(&1));
}

#[test]
fn picture_of_a_store() {
    let mut tree = ArrayBST::<i32, i32>::default();
    let label = |key: &i32, val: &i32| format!("{} -> {}", key, val);
    assert_eq!(algo_labs::trees::render::stringify_tree(&tree, &label), "NIL");
    tree.insert(5, 50);
    tree.insert(3, 30);
    tree.insert(8, 80);
    tree.insert(4, 40);
    let expected = "\
└── 5 -> 50
    ├── 3 -> 30
    │   ├── NIL
    │   └── 4 -> 40
    │       ├── NIL
    │       └── NIL
    └── 8 -> 80
        ├── NIL
        └── NIL
";
    assert_eq!(
        algo_labs::trees::render::stringify_tree(&tree, &label),
        expected
    );
}

#[test]
fn picture_of_the_array_layout_shows_greater_keys_first() {
    let mut tree = ArrayBinarySearchTree::<i32, i32>::default();
    let label = |key: &i32, val: &i32| format!("{} -> {}", key, val);
    assert_eq!(
        algo_labs::trees::render::stringify_subtree(
            &tree,
            tree.get_root_id(),
            &label,
            true,
            String::new(),
            false,
            0
        ),
        "└── NIL\n"
    );
    tree.insert(5, 50);
    tree.insert(3, 30);
    tree.insert(8, 80);
    let expected = "\
└── 5 -> 50
    ├── 8 -> 80
    │   ├── NIL
    │   └── NIL
    └── 3 -> 30
        ├── NIL
        └── NIL
";
    assert_eq!(
        algo_labs::trees::render::stringify_subtree(
            &tree,
            tree.get_root_id(),
            &label,
            true,
            String::new(),
            false,
            0
        ),
        expected
    );
}

#[test]
fn picture_stops_below_depth_one_hundred() {
    let mut tree = ArrayBST::<i32, i32>::default();
    for key in 0..200 {
        tree.insert(key, 0);
    }
    let label = |key: &i32, _: &i32| key.to_string();
    let picture = algo_labs::trees::render::stringify_tree(&tree, &label);
    assert_eq!(picture.matches(" NIL\n").count(), 102);
    assert!(picture.contains(" 100\n"));
    assert!(!picture.contains(" 101\n"));
}

#[test]
fn stale_identity_finds_nothing_and_changes_nothing() {
    let stale = algo_labs::trees::array_bst::NodeId::default();
    let mut tree = ArrayBST::<i32, i32>::default();
    assert_eq!(tree.get_by_id(stale), None);
    assert_eq!(tree.get_key_by_id(stale), None);
    assert_eq!(tree.get_parent_id(stale), None);
    assert_eq!(tree.get_left_son_id(stale), None);
    assert_eq!(tree.get_right_son_id(stale), None);
    assert!(!tree.is_left_son(stale));
    assert!(!tree.is_right_son(stale));
    assert!(tree.get_by_id_mut(stale).is_none());
    tree.modify(stale, |v| v + 1);
    tree.left_rotate(stale);
    tree.right_rotate(stale);
    assert_eq!(tree.get_root_id(), None);
    let first = tree.insert_and_get_id(1, 10);
    assert_eq!(first, stale);
    let other = algo_labs::trees::array_binary_search_tree::NodeId::default();
    let plain = ArrayBinarySearchTree::<i32, i32>::default();
    assert_eq!(plain.get_by_id(other), None);
    assert!(plain.get_parent_id(other).is_none());
}
