use algo_labs::trees::array_bst::ArrayBST;
use algo_labs::trees::array_bst::NodeId;
use algo_labs::trees::red_black_tree::Data;
use algo_labs::trees::red_black_tree::RedBlackTree;
use algo_labs::trees::traits::NodeIdentifiableTree;
use algo_labs::trees::traits::ParentifiedTree;
use algo_labs::trees::traits::Tree;

type Store<Key, Value> = ArrayBST<Key, Data<Value>>;

type ArrayRedBlackTree<Key, Value> = RedBlackTree<Key, Value, Store<Key, Value>, NodeId>;

/// Checks the ordering, the colours and the parent links below `node`, and
/// returns the height and the black height of the subtree.
fn check_subtree<Value>(
    store: &Store<i64, Value>,
    node: Option<NodeId>,
    parent: Option<NodeId>,
    low: Option<i64>,
    high: Option<i64>,
) -> (usize, usize) {
    let id = match node {
        Some(id) => id,
        None => return (0, 0),
    };
    assert_eq!(store.get_parent_id(id), parent);
    let key = *store.get_key_by_id(id).unwrap();
    if let Some(low) = low {
        assert!(low < key);
    }
    if let Some(high) = high {
        assert!(key < high);
    }
    let red = store.get_by_id(id).unwrap().is_red();
    if red {
        let parent = parent.expect("a red node is not the root");
        assert!(!store.get_by_id(parent).unwrap().is_red());
    }
    let (left_height, left_black) =
        check_subtree(store, store.get_left_son_id(id), Some(id), low, Some(key));
    let (right_height, right_black) =
        check_subtree(store, store.get_right_son_id(id), Some(id), Some(key), high);
    assert_eq!(left_black, right_black);
    (
        1 + left_height.max(right_height),
        left_black + if red { 0 } else { 1 },
    )
}

fn check_tree<Value>(tree: &ArrayRedBlackTree<i64, Value>) -> usize {
    let store = tree.store();
    let root = store.get_root_id();
    if let Some(root) = root {
        assert!(!store.get_by_id(root).unwrap().is_red());
    }
    check_subtree(store, root, None, None, None).0
}

fn shape<Value>(store: &Store<i64, Value>, node: Option<NodeId>) -> String {
    match node {
        None => "-".to_string(),
        Some(id) => format!(
            "({} {}{} {})",
            shape(store, store.get_left_son_id(id)),
            store.get_key_by_id(id).unwrap(),
            if store.get_by_id(id).unwrap().is_red() {
                "r"
            } else {
                "b"
            },
            shape(store, store.get_right_son_id(id)),
        ),
    }
}

fn shape_of<Value>(tree: &ArrayRedBlackTree<i64, Value>) -> String {
    shape(tree.store(), tree.store().get_root_id())
}

#[test]
fn lookup_after_three_insertions() {
    let mut tree = ArrayRedBlackTree::<i64, &str>::default();
    tree.insert(15, "a");
    tree.insert(5, "b");
    tree.insert(1, "c");
    assert_eq!(tree.get(&15), Some(&"a"));
    assert_eq!(tree.get(&5), Some(&"b"));
    assert_eq!(tree.get(&1), Some(&"c"));
    assert_eq!(shape_of(&tree), "((- 1r -) 5b (- 15r -))");
    let height = check_tree(&tree);

    tree.insert(5, "z");
    assert_eq!(tree.get(&5), Some(&"z"));
    assert_eq!(tree.get(&15), Some(&"a"));
    assert_eq!(tree.get(&1), Some(&"c"));
    assert_eq!(shape_of(&tree), "((- 1r -) 5b (- 15r -))");
    assert_eq!(check_tree(&tree), height);
}

#[test]
fn first_insertion_makes_a_black_root() {
    let mut tree = ArrayRedBlackTree::<i64, i32>::default();
    assert_eq!(shape_of(&tree), "-");
    tree.insert(7, 70);
    assert_eq!(shape_of(&tree), "(- 7b -)");
    assert_eq!(check_tree(&tree), 1);
}

#[test]
fn red_uncle_is_recoloured() {
    let mut tree = ArrayRedBlackTree::<i64, i32>::default();
    for key in [10, 5, 15] {
        tree.insert(key, 0);
    }
    assert_eq!(shape_of(&tree), "((- 5r -) 10b (- 15r -))");
    tree.insert(3, 0);
    assert_eq!(shape_of(&tree), "(((- 3r -) 5b -) 10b (- 15b -))");
    tree.insert(20, 0);
    assert_eq!(shape_of(&tree), "(((- 3r -) 5b -) 10b (- 15b (- 20r -)))");
    check_tree(&tree);
}

#[test]
fn triangles_and_lines_are_rotated_on_both_sides() {
    let mut left_line = ArrayRedBlackTree::<i64, i32>::default();
    for key in [3, 2, 1] {
        left_line.insert(key, 0);
    }
    assert_eq!(shape_of(&left_line), "((- 1r -) 2b (- 3r -))");

    let mut left_triangle = ArrayRedBlackTree::<i64, i32>::default();
    for key in [3, 1, 2] {
        left_triangle.insert(key, 0);
    }
    assert_eq!(shape_of(&left_triangle), "((- 1r -) 2b (- 3r -))");

    let mut right_line = ArrayRedBlackTree::<i64, i32>::default();
    for key in [1, 2, 3] {
        right_line.insert(key, 0);
    }
    assert_eq!(shape_of(&right_line), "((- 1r -) 2b (- 3r -))");

    let mut right_triangle = ArrayRedBlackTree::<i64, i32>::default();
    for key in [1, 3, 2] {
        right_triangle.insert(key, 0);
    }
    assert_eq!(shape_of(&right_triangle), "((- 1r -) 2b (- 3r -))");
}

#[test]
fn ascending_and_descending_runs_stay_balanced() {
    let mut up = ArrayRedBlackTree::<i64, i64>::default();
    let mut down = ArrayRedBlackTree::<i64, i64>::default();
    for key in 0..1000 {
        up.insert(key, key * 2);
        down.insert(-key, key * 3);
        check_tree(&up);
        check_tree(&down);
    }
    for key in 0..1000 {
        assert_eq!(up.get(&key), Some(&(key * 2)));
        assert_eq!(down.get(&-key), Some(&(key * 3)));
    }
    assert_eq!(up.get(&1000), None);
    assert_eq!(down.get(&1), None);
    assert!(check_tree(&up) <= 20);
    assert!(check_tree(&down) <= 20);
}

#[test]
fn ten_thousand_random_keys_stay_within_the_height_bound() {
    const N: usize = 10_000;
    let mut keys: Vec<i64> = (0..N as i64).collect();
    let mut seed: u64 = 0x2545F4914F6CDD1D;
    for i in (1..N).rev() {
        seed ^= seed << 13;
        seed ^= seed >> 7;
        seed ^= seed << 17;
        let j = (seed % (i as u64 + 1)) as usize;
        keys.swap(i, j);
    }
    let mut tree = ArrayRedBlackTree::<i64, usize>::default();
    for (position, key) in keys.iter().enumerate() {
        tree.insert(*key, position);
    }
    let height = check_tree(&tree);
    let bound = 2.0 * ((N + 1) as f64).log2();
    assert!((height as f64) <= bound);
    for (position, key) in keys.iter().enumerate() {
        assert_eq!(tree.get(key), Some(&position));
    }
}

#[test]
fn overwriting_keeps_height_and_shape() {
    let mut tree = ArrayRedBlackTree::<i64, i64>::default();
    let mut seed: u32 = 99;
    for _ in 0..300 {
        seed = seed.wrapping_mul(1664525).wrapping_add(1013904223);
        tree.insert((seed >> 8) as i64 % 500, 1);
    }
    let before = shape_of(&tree);
    let height = check_tree(&tree);
    seed = 99;
    for _ in 0..300 {
        seed = seed.wrapping_mul(1664525).wrapping_add(1013904223);
        let key = (seed >> 8) as i64 % 500;
        tree.insert(key, 2);
        assert_eq!(shape_of(&tree), before);
        assert_eq!(tree.get(&key), Some(&2));
    }
    assert_eq!(check_tree(&tree), height);
}

#[test]
fn unknown_keys_are_not_found() {
    let mut tree = ArrayRedBlackTree::<i64, i32>::default();
    assert_eq!(tree.get(&0), None);
    assert_eq!(tree.get(&i64::MIN), None);
    tree.insert(1, 10);
    tree.insert(3, 30);
    assert_eq!(tree.get(&2), None);
    assert_eq!(tree.get(&0), None);
    assert_eq!(tree.get(&4), None);
    assert_eq!(tree.get(&3), Some(&30));
}

#[test]
fn payload_shows_value_and_colour() {
    let mut tree = ArrayRedBlackTree::<i64, i32>::default();
    tree.insert(2, 20);
    tree.insert(1, 10);
    let store = tree.store();
    let root = store.get_root_id().unwrap();
    let left = store.get_left_son_id(root).unwrap();
    assert_eq!(*store.get_by_id(root).unwrap().value(), 20);
    assert!(!store.get_by_id(root).unwrap().is_red());
    assert_eq!(*store.get_by_id(left).unwrap().value(), 10);
    assert!(store.get_by_id(left).unwrap().is_red());
}
