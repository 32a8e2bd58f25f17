use trees::checking::{colors_alternate, is_balanced, is_red_black_tree, keys_ascend};
use trees::node::{Color, Node, Side};
use trees::redblack_tree::{DeleteOutcome, InsertOutcome, RedBlackTree};

fn is_valid<T: Ord>(node: &Node<T>) -> bool {
    let is_lhs_valid = if let Some(lhs) = node.left.as_ref() {
        if node.key <= lhs.key {
            false
        } else {
            is_valid(lhs)
        }
    } else {
        true
    };
    let is_rhs_valid = if let Some(rhs) = node.right.as_ref() {
        if node.key >= rhs.key {
            false
        } else {
            is_valid(rhs)
        }
    } else {
        true
    };
    is_lhs_valid && is_rhs_valid
}

fn leaf(key: i32, color: Color) -> Option<Box<Node<i32>>> {
    Some(Box::new(Node { key, color, left: None, right: None }))
}

fn node(
    key: i32,
    color: Color,
    left: Option<Box<Node<i32>>>,
    right: Option<Box<Node<i32>>>,
) -> Option<Box<Node<i32>>> {
    Some(Box::new(Node { key, color, left, right }))
}

fn tree_of(keys: &[i32]) -> RedBlackTree<i32> {
    let mut tree = RedBlackTree::new();
    for k in keys {
        tree.insert(*k);
    }
    tree
}

fn keys_of(tree: &RedBlackTree<i32>) -> Vec<i32> {
    tree.in_order().into_iter().copied().collect()
}

/// The shape of a subtree with its colours, as text: `(left key/colour right)`.
fn shape(t: &Option<Box<Node<i32>>>) -> String {
    match t {
        None => String::from("."),
        Some(n) => {
            let c = match n.color {
                Color::Red => "r",
                Color::Black => "b",
            };
            format!("({} {}{} {})", shape(&n.left), n.key, c, shape(&n.right))
        }
    }
}

fn shape_of(tree: &RedBlackTree<i32>) -> String {
    match tree.root() {
        None => String::from("."),
        Some(n) => {
            let c = match n.color {
                Color::Red => "r",
                Color::Black => "b",
            };
            format!("({} {}{} {})", shape(&n.left), n.key, c, shape(&n.right))
        }
    }
}

#[test]
fn insert_root() {
    let mut tree = RedBlackTree::new();
    tree.insert(42);
    assert!(is_valid(tree.root().unwrap()));
    assert_eq!(
        Some(&Node {
            key: 42,
            color: Color::Black,
            left: None,
            right: None,
        }),
        tree.root()
    );
}

#[test]
fn left_rotation() {
    let mut node = Node::new(
        11,
        Some(Node::new(9, None, None)),
        Some(Node::new(
            18,
            Some(Node::new(14, None, None)),
            Some(Node::new(19, None, None)),
        )),
    );
    node = Node::rotate_left(node);
    assert!(is_valid(&node));
    assert_eq!(
        Node::new(
            18,
            Some(Node::new(
                11,
                Some(Node::new(9, None, None)),
                Some(Node::new(14, None, None)),
            )),
            Some(Node::new(19, None, None)),
        ),
        node
    )
}

#[test]
fn right_rotation() {
    let mut node = Node::new(
        18,
        Some(Node::new(
            11,
            Some(Node::new(9, None, None)),
            Some(Node::new(14, None, None)),
        )),
        Some(Node::new(19, None, None)),
    );
    node = Node::rotate_right(node);
    assert!(is_valid(&node));
    assert_eq!(
        Node::new(
            11,
            Some(Node::new(9, None, None)),
            Some(Node::new(
                18,
                Some(Node::new(14, None, None)),
                Some(Node::new(19, None, None)),
            )),
        ),
        node
    )
}

#[test]
fn new_tree_is_empty_and_valid() {
    let tree: RedBlackTree<i32> = RedBlackTree::new();
    assert!(tree.root().is_none());
    assert!(tree.validate());
    assert!(tree.in_order().is_empty());
    assert_eq!(None, tree.search(&1));
}

#[test]
fn inserted_root_is_black() {
    let mut tree = RedBlackTree::new();
    assert_eq!(InsertOutcome::Inserted, tree.insert(42));
    assert_eq!(Color::Black, tree.root().unwrap().color);
    assert_eq!("(. 42b .)", shape_of(&tree));
}

#[test]
fn new_node_is_red() {
    let n = Node::new(7, None, None);
    assert_eq!(Color::Red, n.color);
    assert_eq!(7, n.key);
    assert!(n.left.is_none() && n.right.is_none());
}

#[test]
fn insert_five_keys() {
    let mut tree = RedBlackTree::new();
    for k in [11, 9, 18, 14, 19] {
        assert_eq!(InsertOutcome::Inserted, tree.insert(k));
        assert!(tree.validate());
    }
    assert_eq!(vec![&9, &11, &14, &18, &19], tree.in_order());
    assert_eq!("((. 9b .) 11b ((. 14r .) 18b (. 19r .)))", shape_of(&tree));
}

#[test]
fn rotation_moves_the_middle_subtree() {
    let node = Node::new(
        11,
        Some(Node::new(9, None, None)),
        Some(Node::new(
            18,
            Some(Node::new(14, None, None)),
            Some(Node::new(19, None, None)),
        )),
    );
    let root = Node::rotate_left(node);
    assert_eq!(18, root.key);
    let left = root.left.as_ref().unwrap();
    assert_eq!(11, left.key);
    assert_eq!(9, left.left.as_ref().unwrap().key);
    assert_eq!(14, left.right.as_ref().unwrap().key);
    assert_eq!(19, root.right.as_ref().unwrap().key);
    assert!(keys_ascend(&Some(root)));
}

#[test]
fn rotation_keeps_colours_with_keys() {
    let n = node(2, Color::Black, leaf(1, Color::Red), node(4, Color::Red, leaf(3, Color::Black), None));
    let r = Node::rotate_left(n.unwrap());
    assert_eq!("(((. 1r .) 2b (. 3b .)) 4r .)", shape(&Some(r)));
}

#[test]
fn rotation_without_pivot_changes_nothing() {
    let n = Node::new(5, Some(Node::new(3, None, None)), None);
    let r = Node::rotate_left(n);
    assert_eq!("((. 3r .) 5r .)", shape(&Some(r)));
    let n = Node::new(5, None, Some(Node::new(8, None, None)));
    let r = Node::rotate_right(n);
    assert_eq!("(. 5r (. 8r .))", shape(&Some(r)));
}

#[test]
fn rotate_by_side() {
    let n = Node::new(5, Some(Node::new(3, None, None)), Some(Node::new(8, None, None)));
    let r = Node::rotate(n, Side::Left);
    assert_eq!(8, r.key);
    let r = Node::rotate(r, Side::Right);
    assert_eq!(5, r.key);
    assert_eq!(Side::Right, Side::Left.opposite());
    assert_eq!(Side::Left, Side::Right.opposite());
}

#[test]
fn rotation_round_trip_restores_keys() {
    let build = || {
        Node::new(
            11,
            Some(Node::new(9, None, None)),
            Some(Node::new(
                18,
                Some(Node::new(14, None, None)),
                Some(Node::new(19, None, None)),
            )),
        )
    };
    let mut before = Vec::new();
    let untouched = Some(build());
    trees::checking::collect_in_order(&untouched, &mut before);
    let back = Some(Node::rotate_right(Node::rotate_left(build())));
    let mut after = Vec::new();
    trees::checking::collect_in_order(&back, &mut after);
    assert_eq!(before, after);
    assert_eq!(vec![&9, &11, &14, &18, &19], after);
    assert_eq!(untouched, back);
}

#[test]
fn rotation_round_trip_without_right_child() {
    let n = Node::new(5, Some(Node::new(3, None, None)), None);
    let back = Some(Node::rotate_right(Node::rotate_left(n)));
    let mut keys = Vec::new();
    trees::checking::collect_in_order(&back, &mut keys);
    assert_eq!(vec![&3, &5], keys);
    assert_eq!("(. 3r (. 5r .))", shape(&back));
}

#[test]
fn insert_outer_left() {
    assert_eq!("((. 1r .) 2b (. 3r .))", shape_of(&tree_of(&[3, 2, 1])));
}

#[test]
fn insert_outer_right() {
    assert_eq!("((. 1r .) 2b (. 3r .))", shape_of(&tree_of(&[1, 2, 3])));
}

#[test]
fn insert_inner_left() {
    assert_eq!("((. 1r .) 2b (. 3r .))", shape_of(&tree_of(&[3, 1, 2])));
}

#[test]
fn insert_inner_right() {
    assert_eq!("((. 1r .) 2b (. 3r .))", shape_of(&tree_of(&[1, 3, 2])));
}

#[test]
fn insert_with_red_uncle_recolours() {
    assert_eq!("((. 1b .) 2b (. 3b (. 4r .)))", shape_of(&tree_of(&[1, 2, 3, 4])));
    assert_eq!("(((. 1r .) 2b .) 3b (. 4b .))", shape_of(&tree_of(&[4, 3, 2, 1])));
}

#[test]
fn insert_recolouring_moves_up() {
    let tree = tree_of(&[1, 2, 3, 4, 5, 6, 7, 8]);
    assert_eq!(
        "(((. 1b .) 2r (. 3b .)) 4b ((. 5b .) 6r (. 7b (. 8r .))))",
        shape_of(&tree)
    );
    assert!(tree.validate());
}

#[test]
fn insert_twice_changes_nothing() {
    let mut tree = tree_of(&[5, 3, 8, 1, 4]);
    let keys = keys_of(&tree);
    let before = shape_of(&tree);
    assert_eq!(InsertOutcome::AlreadyPresent, tree.insert(4));
    assert_eq!(keys, keys_of(&tree));
    assert_eq!(5, tree.in_order().len());
    assert_eq!(before, shape_of(&tree));
    assert_eq!(InsertOutcome::Inserted, tree.insert(6));
    let keys = keys_of(&tree);
    assert_eq!(InsertOutcome::AlreadyPresent, tree.insert(6));
    assert_eq!(keys, keys_of(&tree));
    assert_eq!(6, tree.in_order().len());
}

#[test]
fn every_insert_leaves_a_valid_tree() {
    let mut tree = RedBlackTree::new();
    let mut expected = Vec::new();
    let mut k: i32 = 7;
    for _ in 0..300 {
        k = (k * 73 + 41) % 1009;
        let outcome = tree.insert(k);
        if expected.contains(&k) {
            assert_eq!(InsertOutcome::AlreadyPresent, outcome);
        } else {
            assert_eq!(InsertOutcome::Inserted, outcome);
            expected.push(k);
        }
        assert!(tree.validate());
        assert!(is_valid(tree.root().unwrap()));
    }
    expected.sort();
    assert_eq!(expected, keys_of(&tree));
}

#[test]
fn ascending_and_descending_inserts_stay_valid() {
    let mut up = RedBlackTree::new();
    let mut down = RedBlackTree::new();
    for k in 0..200 {
        up.insert(k);
        down.insert(199 - k);
        assert!(up.validate());
        assert!(down.validate());
    }
    let all: Vec<i32> = (0..200).collect();
    assert_eq!(all, keys_of(&up));
    assert_eq!(all, keys_of(&down));
}

#[test]
fn in_order_is_strictly_ascending() {
    let tree = tree_of(&[50, 20, 70, 10, 30, 60, 80, 25, 35, 65, 20, 70]);
    let keys = keys_of(&tree);
    assert_eq!(vec![10, 20, 25, 30, 35, 50, 60, 65, 70, 80], keys);
    for w in keys.windows(2) {
        assert!(w[0] < w[1]);
    }
}

#[test]
fn search_finds_what_was_inserted() {
    let tree = tree_of(&[11, 9, 18, 14, 19]);
    for k in [11, 9, 18, 14, 19] {
        assert_eq!(Some(&k), tree.search(&k));
    }
    for k in [0, 10, 12, 15, 20] {
        assert_eq!(None, tree.search(&k));
    }
}

#[test]
fn delete_the_only_key() {
    let mut tree = RedBlackTree::new();
    tree.insert(42);
    assert_eq!(DeleteOutcome::Deleted, tree.delete(&42));
    assert!(tree.root().is_none());
    assert_eq!(None, tree.search(&42));
    assert!(tree.validate());
    assert!(tree.in_order().is_empty());
}

#[test]
fn delete_missing_key() {
    let mut tree = tree_of(&[5, 3, 8]);
    let before = shape_of(&tree);
    assert_eq!(DeleteOutcome::NotFound, tree.delete(&4));
    assert_eq!(before, shape_of(&tree));
    let mut empty: RedBlackTree<i32> = RedBlackTree::new();
    assert_eq!(DeleteOutcome::NotFound, empty.delete(&4));
}

#[test]
fn delete_red_leaf() {
    let mut tree = tree_of(&[2, 1, 3]);
    assert_eq!(DeleteOutcome::Deleted, tree.delete(&3));
    assert_eq!("((. 1r .) 2b .)", shape_of(&tree));
}

#[test]
fn delete_black_node_with_red_child() {
    let mut tree = tree_of(&[1, 2, 3, 4]);
    assert_eq!("((. 1b .) 2b (. 3b (. 4r .)))", shape_of(&tree));
    tree.delete(&3);
    assert_eq!("((. 1b .) 2b (. 4b .))", shape_of(&tree));
}

#[test]
fn delete_node_with_two_children_takes_next_key() {
    let mut tree = tree_of(&[11, 9, 18, 14, 19]);
    tree.delete(&18);
    assert_eq!("((. 9b .) 11b ((. 14r .) 19b .))", shape_of(&tree));
    tree.delete(&11);
    assert_eq!("((. 9b .) 14b (. 19b .))", shape_of(&tree));
    assert!(tree.validate());
}

#[test]
fn delete_with_black_sibling_and_black_nephews() {
    let mut tree = tree_of(&[1, 2, 3, 4]);
    tree.delete(&4);
    assert_eq!("((. 1b .) 2b (. 3b .))", shape_of(&tree));
    tree.delete(&1);
    assert_eq!("(. 2b (. 3r .))", shape_of(&tree));
    let mut tree = tree_of(&[1, 2, 3, 4]);
    tree.delete(&4);
    tree.delete(&3);
    assert_eq!("((. 1r .) 2b .)", shape_of(&tree));
}

#[test]
fn delete_with_red_far_nephew() {
    let mut tree = tree_of(&[1, 2, 3, 4]);
    tree.delete(&1);
    assert_eq!("((. 2b .) 3b (. 4b .))", shape_of(&tree));
    let mut tree = tree_of(&[4, 3, 2, 1]);
    tree.delete(&4);
    assert_eq!("((. 1b .) 2b (. 3b .))", shape_of(&tree));
}

#[test]
fn delete_with_red_near_nephew() {
    let mut tree = tree_of(&[1, 2, 4, 3]);
    assert_eq!("((. 1b .) 2b ((. 3r .) 4b .))", shape_of(&tree));
    tree.delete(&1);
    assert_eq!("((. 2b .) 3b (. 4b .))", shape_of(&tree));
    let mut tree = tree_of(&[4, 3, 1, 2]);
    assert_eq!("((. 1b (. 2r .)) 3b (. 4b .))", shape_of(&tree));
    tree.delete(&4);
    assert_eq!("((. 1b .) 2b (. 3b .))", shape_of(&tree));
}

#[test]
fn delete_with_red_sibling() {
    let mut tree = tree_of(&[1, 2, 3, 4, 5, 6]);
    assert_eq!(
        "((. 1b .) 2b ((. 3b .) 4r (. 5b (. 6r .))))",
        shape_of(&tree)
    );
    tree.delete(&1);
    assert_eq!("((. 2b (. 3r .)) 4b (. 5b (. 6r .)))", shape_of(&tree));
    assert!(tree.validate());
    let mut tree = tree_of(&[6, 5, 4, 3, 2, 1]);
    assert_eq!(
        "((((. 1r .) 2b .) 3r (. 4b .)) 5b (. 6b .))",
        shape_of(&tree)
    );
    tree.delete(&6);
    assert_eq!("(((. 1r .) 2b .) 3b ((. 4r .) 5b .))", shape_of(&tree));
    assert!(tree.validate());
}

#[test]
fn every_delete_leaves_a_valid_tree() {
    let mut tree = RedBlackTree::new();
    let mut present = Vec::new();
    let mut k: i32 = 3;
    for _ in 0..400 {
        k = (k * 61 + 17) % 983;
        if tree.insert(k) == InsertOutcome::Inserted {
            present.push(k);
        }
    }
    let inserted = present.clone();
    let mut deleted = Vec::new();
    for (i, k) in inserted.iter().enumerate() {
        if i % 3 != 0 {
            assert_eq!(DeleteOutcome::Deleted, tree.delete(k));
            assert!(tree.validate());
            assert_eq!(None, tree.search(k));
            assert_eq!(DeleteOutcome::NotFound, tree.delete(k));
            deleted.push(*k);
            present.retain(|p| p != k);
        }
    }
    for k in &deleted {
        assert_eq!(None, tree.search(k));
    }
    for k in &present {
        assert_eq!(Some(k), tree.search(k));
    }
    present.sort();
    assert_eq!(present, keys_of(&tree));
    for k in present {
        assert_eq!(DeleteOutcome::Deleted, tree.delete(&k));
        assert!(tree.validate());
    }
    assert!(tree.root().is_none());
}

#[test]
fn delete_in_every_order_of_seven() {
    let keys = [4, 2, 6, 1, 3, 5, 7];
    for first in keys {
        for second in keys {
            for third in keys {
                let mut tree = tree_of(&keys);
                let mut left: Vec<i32> = keys.to_vec();
                for k in [first, second, third] {
                    let was_there = left.contains(&k);
                    let outcome = tree.delete(&k);
                    assert_eq!(was_there, outcome == DeleteOutcome::Deleted);
                    left.retain(|p| *p != k);
                    assert!(tree.validate());
                }
                left.sort();
                assert_eq!(left, keys_of(&tree));
            }
        }
    }
}

#[test]
fn checks_tell_broken_trees() {
    let red_root = leaf(1, Color::Red);
    assert!(!is_red_black_tree(&red_root));
    assert!(colors_alternate(&red_root));
    assert!(is_balanced(&red_root));
    assert!(keys_ascend(&red_root));

    let red_red = node(2, Color::Black, node(1, Color::Red, leaf(0, Color::Red), None), None);
    assert!(!colors_alternate(&red_red));
    assert!(!is_red_black_tree(&red_red));
    assert!(is_balanced(&red_red));

    let lopsided = node(2, Color::Black, leaf(1, Color::Black), None);
    assert!(!is_balanced(&lopsided));
    assert!(!is_red_black_tree(&lopsided));
    assert!(colors_alternate(&lopsided));

    let unordered = node(2, Color::Black, leaf(3, Color::Red), None);
    assert!(!keys_ascend(&unordered));
    assert!(!is_red_black_tree(&unordered));

    let deep_unordered = node(
        5,
        Color::Black,
        node(3, Color::Red, None, None),
        node(8, Color::Red, None, None),
    );
    assert!(is_red_black_tree(&deep_unordered));
    let deep_unordered = node(
        5,
        Color::Black,
        node(3, Color::Black, None, leaf(6, Color::Red)),
        leaf(8, Color::Black),
    );
    assert!(is_valid(deep_unordered.as_ref().unwrap()));
    assert!(!keys_ascend(&deep_unordered));

    let duplicate = node(2, Color::Black, leaf(2, Color::Red), None);
    assert!(!keys_ascend(&duplicate));

    let empty: Option<Box<Node<i32>>> = None;
    assert!(is_red_black_tree(&empty));
}

#[test]
fn black_heights_are_compared_past_red_nodes() {
    let a = node(2, Color::Red, leaf(1, Color::Black), leaf(3, Color::Black));
    let b = leaf(9, Color::Black);
    assert!(trees::checking::same_black_height(&a, &b));
    assert!(trees::checking::same_black_height(&b, &a));
    let c = node(2, Color::Black, leaf(1, Color::Black), leaf(3, Color::Black));
    assert!(!trees::checking::same_black_height(&c, &b));
    assert!(!trees::checking::same_black_height(&b, &c));
    let empty: Option<Box<Node<i32>>> = None;
    assert!(trees::checking::same_black_height(&empty, &leaf(1, Color::Red)));
    assert!(!trees::checking::same_black_height(&empty, &b));
}

#[test]
fn equality_compares_shape_and_keys() {
    assert_eq!(tree_of(&[1, 2, 3]), tree_of(&[3, 2, 1]));
    assert!(tree_of(&[1, 2, 3]) != tree_of(&[1, 2, 4]));
    assert!(tree_of(&[1, 2, 3, 4]) != tree_of(&[4, 3, 2, 1]));
    assert_eq!(keys_of(&tree_of(&[1, 2, 3, 4])), keys_of(&tree_of(&[4, 3, 2, 1])));
    assert_eq!(leaf(1, Color::Red), leaf(1, Color::Black));
    assert!(leaf(1, Color::Red) != leaf(2, Color::Red));
    assert!(leaf(1, Color::Red) != node(1, Color::Red, leaf(0, Color::Red), None));
    let empty: RedBlackTree<i32> = RedBlackTree::new();
    assert_eq!(empty, RedBlackTree::new());
    assert!(empty != tree_of(&[1]));
}

#[test]
fn keys_of_another_type() {
    let mut tree = RedBlackTree::new();
    for w in ["pear", "apple", "fig", "apple", "kiwi"] {
        tree.insert(String::from(w));
    }
    assert!(tree.validate());
    let keys: Vec<&str> = tree.in_order().into_iter().map(|s| s.as_str()).collect();
    assert_eq!(vec!["apple", "fig", "kiwi", "pear"], keys);
    assert_eq!(DeleteOutcome::Deleted, tree.delete(&String::from("fig")));
    assert_eq!(None, tree.search(&String::from("fig")));
    assert!(tree.validate());
}

#[test]
fn parent_of_every_key() {
    let tree = tree_of(&[11, 9, 18, 14, 19]);
    assert_eq!("((. 9b .) 11b ((. 14r .) 18b (. 19r .)))", shape_of(&tree));
    assert_eq!(None, tree.parent(&11));
    assert_eq!(Some(&11), tree.parent(&9));
    assert_eq!(Some(&11), tree.parent(&18));
    assert_eq!(Some(&18), tree.parent(&14));
    assert_eq!(Some(&18), tree.parent(&19));
    assert_eq!(None, tree.parent(&10));
    assert_eq!(None, tree.parent(&20));
    let empty: RedBlackTree<i32> = RedBlackTree::new();
    assert_eq!(None, empty.parent(&1));
}

#[test]
fn every_child_names_its_parent() {
    fn walk(tree: &RedBlackTree<i32>, n: &Node<i32>) {
        for child in [&n.left, &n.right] {
            if let Some(c) = child {
                assert_eq!(Some(&n.key), tree.parent(&c.key));
                walk(tree, c);
            }
        }
    }
    let mut tree = RedBlackTree::new();
    let mut k: i32 = 1;
    for _ in 0..200 {
        k = (k * 89 + 7) % 499;
        tree.insert(k);
    }
    for d in [5, 77, 130, 301] {
        tree.delete(&d);
    }
    let root = tree.root().unwrap();
    assert_eq!(None, tree.parent(&root.key));
    walk(&tree, root);
}

#[test]
fn insert_fixup_with_red_uncle() {
    let top = node(
        10,
        Color::Black,
        node(5, Color::Red, leaf(3, Color::Red), None),
        leaf(15, Color::Red),
    );
    let fixed = trees::insertion::insert_fixup(top.unwrap(), Side::Left);
    assert_eq!("(((. 3r .) 5b .) 10r (. 15b .))", shape(&Some(fixed)));
    let top = node(
        10,
        Color::Black,
        leaf(5, Color::Red),
        node(15, Color::Red, leaf(12, Color::Red), None),
    );
    let fixed = trees::insertion::insert_fixup(top.unwrap(), Side::Right);
    assert_eq!("((. 5b .) 10r ((. 12r .) 15b .))", shape(&Some(fixed)));
}

#[test]
fn insert_fixup_with_black_uncle() {
    let top = node(
        10,
        Color::Black,
        node(5, Color::Red, leaf(3, Color::Red), None),
        None,
    );
    let fixed = trees::insertion::insert_fixup(top.unwrap(), Side::Left);
    assert_eq!("((. 3r .) 5b (. 10r .))", shape(&Some(fixed)));
    let top = node(
        10,
        Color::Black,
        node(5, Color::Red, None, leaf(7, Color::Red)),
        None,
    );
    let fixed = trees::insertion::insert_fixup(top.unwrap(), Side::Left);
    assert_eq!("((. 5r .) 7b (. 10r .))", shape(&Some(fixed)));
    let top = node(
        10,
        Color::Black,
        None,
        node(15, Color::Red, None, leaf(17, Color::Red)),
    );
    let fixed = trees::insertion::insert_fixup(top.unwrap(), Side::Right);
    assert_eq!("((. 10r .) 15b (. 17r .))", shape(&Some(fixed)));
    let top = node(
        10,
        Color::Black,
        None,
        node(15, Color::Red, leaf(12, Color::Red), None),
    );
    let fixed = trees::insertion::insert_fixup(top.unwrap(), Side::Right);
    assert_eq!("((. 10r .) 12b (. 15r .))", shape(&Some(fixed)));
}

#[test]
fn insert_fixup_leaves_sound_nodes_alone() {
    let top = node(10, Color::Black, leaf(5, Color::Red), leaf(15, Color::Red));
    let fixed = trees::insertion::insert_fixup(top.unwrap(), Side::Left);
    assert_eq!("((. 5r .) 10b (. 15r .))", shape(&Some(fixed)));
    let top = node(10, Color::Red, leaf(5, Color::Red), None);
    let fixed = trees::insertion::insert_fixup(top.unwrap(), Side::Left);
    assert_eq!("((. 5r .) 10r .)", shape(&Some(fixed)));
}

#[test]
fn delete_fixup_with_red_sibling() {
    let top = node(
        10,
        Color::Black,
        None,
        node(20, Color::Red, leaf(15, Color::Black), leaf(25, Color::Black)),
    );
    let (fixed, short) = trees::deletion::delete_fixup(top.unwrap(), Side::Left);
    assert!(!short);
    assert_eq!("((. 10b (. 15r .)) 20b (. 25b .))", shape(&Some(fixed)));
    let top = node(
        10,
        Color::Black,
        node(5, Color::Red, leaf(3, Color::Black), leaf(7, Color::Black)),
        None,
    );
    let (fixed, short) = trees::deletion::delete_fixup(top.unwrap(), Side::Right);
    assert!(!short);
    assert_eq!("((. 3b .) 5b ((. 7r .) 10b .))", shape(&Some(fixed)));
}

#[test]
fn delete_fixup_with_black_nephews() {
    let top = node(10, Color::Black, None, leaf(20, Color::Black));
    let (fixed, short) = trees::deletion::delete_fixup(top.unwrap(), Side::Left);
    assert!(short);
    assert_eq!("(. 10b (. 20r .))", shape(&Some(fixed)));
    let top = node(10, Color::Red, None, leaf(20, Color::Black));
    let (fixed, short) = trees::deletion::delete_fixup(top.unwrap(), Side::Left);
    assert!(!short);
    assert_eq!("(. 10b (. 20r .))", shape(&Some(fixed)));
    let top = node(10, Color::Red, leaf(5, Color::Black), None);
    let (fixed, short) = trees::deletion::delete_fixup(top.unwrap(), Side::Right);
    assert!(!short);
    assert_eq!("((. 5r .) 10b .)", shape(&Some(fixed)));
}

#[test]
fn delete_fixup_with_red_nephews() {
    let top = node(
        10,
        Color::Red,
        None,
        node(20, Color::Black, None, leaf(25, Color::Red)),
    );
    let (fixed, short) = trees::deletion::delete_fixup(top.unwrap(), Side::Left);
    assert!(!short);
    assert_eq!("((. 10b .) 20r (. 25b .))", shape(&Some(fixed)));
    let top = node(
        10,
        Color::Black,
        None,
        node(20, Color::Black, leaf(15, Color::Red), None),
    );
    let (fixed, short) = trees::deletion::delete_fixup(top.unwrap(), Side::Left);
    assert!(!short);
    assert_eq!("((. 10b .) 15b (. 20b .))", shape(&Some(fixed)));
    let top = node(
        10,
        Color::Black,
        node(5, Color::Black, leaf(3, Color::Red), None),
        None,
    );
    let (fixed, short) = trees::deletion::delete_fixup(top.unwrap(), Side::Right);
    assert!(!short);
    assert_eq!("((. 3b .) 5b (. 10b .))", shape(&Some(fixed)));
    let top = node(
        10,
        Color::Red,
        node(5, Color::Black, None, leaf(7, Color::Red)),
        None,
    );
    let (fixed, short) = trees::deletion::delete_fixup(top.unwrap(), Side::Right);
    assert!(!short);
    assert_eq!("((. 5b .) 7r (. 10b .))", shape(&Some(fixed)));
}

#[test]
fn children_by_side() {
    let mut n = Node::new(5, Some(Node::new(3, None, None)), None);
    assert_eq!(3, n.child_ref(Side::Left).as_ref().unwrap().key);
    assert!(n.child_ref(Side::Right).is_none());
    let taken = n.take_child(Side::Left);
    assert_eq!(3, taken.as_ref().unwrap().key);
    assert!(n.left.is_none());
    n.set_child(Side::Right, taken);
    assert_eq!("(. 5r (. 3r .))", shape(&Some(n)));
    assert!(trees::node::link_is_red(&leaf(1, Color::Red)));
    assert!(!trees::node::link_is_red(&leaf(1, Color::Black)));
    assert!(!trees::node::link_is_red::<i32>(&None));
}

#[test]
fn insert_into_a_subtree() {
    let (grown, added) = trees::insertion::insert_into(None, 5);
    assert!(added);
    assert_eq!("(. 5r .)", shape(&Some(grown)));
    let t = node(10, Color::Black, leaf(5, Color::Red), None);
    let (grown, added) = trees::insertion::insert_into(t, 3);
    assert!(added);
    assert_eq!("((. 3r .) 5b (. 10r .))", shape(&Some(grown)));
    let t = node(10, Color::Black, leaf(5, Color::Red), leaf(15, Color::Red));
    let (grown, added) = trees::insertion::insert_into(t, 3);
    assert!(added);
    assert_eq!("(((. 3r .) 5b .) 10r (. 15b .))", shape(&Some(grown)));
    let t = node(10, Color::Black, leaf(5, Color::Red), None);
    let (same, added) = trees::insertion::insert_into(t, 5);
    assert!(!added);
    assert_eq!("((. 5r .) 10b .)", shape(&Some(same)));
}

#[test]
fn splice_out_a_node() {
    let (rest, key, short) = trees::deletion::splice(leaf(7, Color::Red).unwrap());
    assert_eq!((".", 7, false), (shape(&rest).as_str(), key, short));
    let (rest, key, short) = trees::deletion::splice(leaf(7, Color::Black).unwrap());
    assert_eq!((".", 7, true), (shape(&rest).as_str(), key, short));
    let n = node(7, Color::Black, leaf(5, Color::Red), None);
    let (rest, key, short) = trees::deletion::splice(n.unwrap());
    assert_eq!(("(. 5b .)", 7, false), (shape(&rest).as_str(), key, short));
    let n = node(7, Color::Black, None, leaf(9, Color::Red));
    let (rest, key, short) = trees::deletion::splice(n.unwrap());
    assert_eq!(("(. 9b .)", 7, false), (shape(&rest).as_str(), key, short));
}

#[test]
fn take_out_the_least_key() {
    let t = node(
        10,
        Color::Black,
        node(5, Color::Black, leaf(3, Color::Red), None),
        leaf(15, Color::Black),
    );
    let (rest, least, short) = trees::deletion::delete_min(t.unwrap());
    assert_eq!(3, least);
    assert!(!short);
    assert_eq!("((. 5b .) 10b (. 15b .))", shape(&rest));
    let (rest, least, short) = trees::deletion::delete_min(rest.unwrap());
    assert_eq!(5, least);
    assert!(short);
    assert_eq!("(. 10b (. 15r .))", shape(&rest));
    let (rest, least, short) = trees::deletion::delete_min(leaf(1, Color::Black).unwrap());
    assert_eq!((".", 1, true), (shape(&rest).as_str(), least, short));
}

#[test]
fn take_out_the_root_key() {
    let t = node(10, Color::Black, leaf(5, Color::Red), leaf(15, Color::Red));
    let (rest, short) = trees::deletion::delete_root(t.unwrap());
    assert!(!short);
    assert_eq!("((. 5r .) 15b .)", shape(&rest));
    let t = node(10, Color::Black, leaf(5, Color::Black), leaf(15, Color::Black));
    let (rest, short) = trees::deletion::delete_root(t.unwrap());
    assert!(short);
    assert_eq!("((. 5r .) 15b .)", shape(&rest));
    let (rest, short) = trees::deletion::delete_root(leaf(10, Color::Black).unwrap());
    assert!(short);
    assert_eq!(".", shape(&rest));
}

#[test]
fn delete_from_a_subtree() {
    let t = node(10, Color::Black, leaf(5, Color::Red), leaf(15, Color::Red));
    let (rest, found, short) = trees::deletion::delete_from(t, &5);
    assert_eq!((true, false), (found, short));
    assert_eq!("(. 10b (. 15r .))", shape(&rest));
    let (rest, found, short) = trees::deletion::delete_from(rest, &7);
    assert_eq!((false, false), (found, short));
    assert_eq!("(. 10b (. 15r .))", shape(&rest));
    let (rest, found, short) = trees::deletion::delete_from(None, &7);
    assert_eq!((false, false), (found, short));
    assert_eq!(".", shape(&rest));
    let t = node(10, Color::Black, leaf(5, Color::Black), leaf(15, Color::Black));
    let (rest, found, short) = trees::deletion::delete_from(t, &15);
    assert_eq!((true, true), (found, short));
    assert_eq!("((. 5r .) 10b .)", shape(&rest));
}

#[test]
fn find_in_a_subtree() {
    let t = node(10, Color::Black, leaf(5, Color::Red), leaf(15, Color::Red));
    assert_eq!(Some(&15), trees::redblack_tree::find_in(&t, &15));
    assert_eq!(None, trees::redblack_tree::find_in(&t, &12));
    assert_eq!(Some(&10), trees::lineage::find_parent(&t, &5));
    assert_eq!(None, trees::lineage::find_parent(&t, &10));
    assert!(trees::equality::links_equal(&t, &t));
    assert!(!trees::equality::links_equal(&t, &None));
    assert!(trees::checking::keys_within(&t, Some(&4), Some(&16)));
    assert!(!trees::checking::keys_within(&t, Some(&5), None));
    assert!(!trees::checking::keys_within(&t, None, Some(&15)));
    assert!(trees::order::key_less(&1, &2));
    assert!(!trees::order::key_less(&2, &2));
    assert_eq!(std::cmp::Ordering::Greater, trees::order::compare(&3, &2));
}
