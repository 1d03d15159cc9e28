//! Scenario tests for insertion, lookup, removal, cursors and the UTF-8
//! aware child enumeration.

use string_tree::IterableCoroutine;
use string_tree::StringTree;

#[test]
fn worked_example() {
    let mut tree: StringTree<u64> = StringTree::new();
    tree.insert("cat", 1);
    tree.insert("car", 2);
    tree.insert("card", 3);
    assert_eq!(tree.get("cat"), Some(&1));
    assert_eq!(tree.get("car"), Some(&2));
    assert_eq!(tree.get("card"), Some(&3));
    assert_eq!(tree.get("ca"), None);
    // "car" keeps a live child edge to 'd', so only its value slot clears.
    assert_eq!(tree.remove("car"), Some(2));
    assert_eq!(tree.get("car"), None);
    assert_eq!(tree.get("cat"), Some(&1));
    assert_eq!(tree.get("card"), Some(&3));
}

#[test]
fn insert_get() {
    let mut tree: StringTree<i32> = StringTree::new();
    assert_eq!(tree.insert("test", 10), None);
    assert_eq!(tree.get("test"), Some(&10));
    assert_eq!(tree.insert("testing", 15), None);
    assert_eq!(tree.get("testing"), Some(&15));
    assert_eq!(tree.insert("test", 11), Some(10));
    assert_eq!(tree.get("test"), Some(&11));
    let node = tree.step("test").unwrap();
    assert_eq!(node.value(), Some(&11));
    let deeper = node.step("ing").unwrap();
    assert_eq!(deeper.value(), Some(&15));
    assert_eq!(node.path(), String::from("test"));
    assert_eq!(deeper.path(), String::from("testing"));
}

#[test]
fn remove_then_get() {
    let mut tree: StringTree<u64> = StringTree::new();
    tree.insert("test", 10);
    tree.insert("testing", 15);
    assert_eq!(tree.remove("test"), Some(10));
    assert_eq!(tree.get("test"), None);
    // A second removal of the same key is a no-op yielding absent.
    assert_eq!(tree.remove("test"), None);
    assert_eq!(tree.get("testing"), Some(&15));
    assert_eq!(tree.remove("testing"), Some(15));
    assert_eq!(tree.get("testing"), None);
    assert_eq!(tree.remove("testing"), None);
}

#[test]
fn remove_all_leaves_only_root() {
    let mut tree: StringTree<u64> = StringTree::new();
    let keys = ["alpha", "alphabet", "beta", "bet", "b", "gamma", "日本語"];
    for (i, k) in keys.iter().enumerate() {
        tree.insert(k, i as u64);
    }
    for k in keys.iter() {
        assert!(tree.remove(k).is_some());
    }
    // Nothing may be leaked: the root has no children and no value left.
    let root = tree.root_node();
    assert!(root.value().is_none());
    let mut kids = root.children();
    assert!(kids.next().is_none());
}

#[test]
fn children_whole_characters() {
    let mut tree: StringTree<u64> = StringTree::new();
    tree.insert("a\u{1F600}b", 1); // "a😀b"
    tree.insert("a\u{1F601}c", 2); // "a😁c"
    let a_node = tree.step("a").unwrap();
    let mut kids = a_node.children();
    // Exactly the two whole-emoji children, never a continuation node.
    let first = kids.next().expect("first child");
    let second = kids.next().expect("second child");
    assert!(kids.next().is_none());
    assert_eq!(first.path(), String::from("a\u{1F600}"));
    assert_eq!(second.path(), String::from("a\u{1F601}"));
}

#[test]
fn children_class_order() {
    let mut tree: StringTree<u64> = StringTree::new();
    // One child per UTF-8 width class, inserted in scrambled order.
    tree.insert("\u{1F600}", 4); // four bytes
    tree.insert("z", 1); // one byte
    tree.insert("\u{4E2D}", 3); // three bytes
    tree.insert("é", 2); // two bytes
    tree.insert("a", 1); // one byte, before 'z'
    let root = tree.root_node();
    let mut kids = root.children();
    let mut paths = Vec::new();
    while let Some(c) = kids.next() {
        paths.push(c.path());
    }
    // Classes in fixed order, ascending lead byte within a class.
    assert_eq!(paths, vec![
        String::from("a"),
        String::from("z"),
        String::from("é"),
        String::from("\u{4E2D}"),
        String::from("\u{1F600}"),
    ]);
}

#[test]
fn path_identity() {
    let mut tree: StringTree<u64> = StringTree::new();
    let keys = ["", "a", "abc", "aé", "字引", "x\u{1F600}y"];
    for (i, k) in keys.iter().enumerate() {
        tree.insert(k, i as u64);
    }
    for k in keys.iter() {
        let node = tree.step(k).expect("inserted key must have a node");
        assert_eq!(node.path(), String::from(*k));
    }
}

#[test]
fn from_pairs_last_wins() {
    let pairs = vec![
        (String::from("one"), 1u64),
        (String::from("two"), 2),
        (String::from("one"), 11),
    ];
    let tree = StringTree::from(pairs);
    assert_eq!(tree.get("one"), Some(&11));
    assert_eq!(tree.get("two"), Some(&2));
    assert_eq!(tree.get("three"), None);
}

#[test]
fn empty_key_lives_on_root() {
    let mut tree: StringTree<u64> = StringTree::new();
    assert_eq!(tree.get(""), None);
    assert_eq!(tree.remove(""), None);
    assert_eq!(tree.insert("", 7), None);
    assert_eq!(tree.get(""), Some(&7));
    assert_eq!(tree.root_node().value(), Some(&7));
    assert_eq!(tree.remove(""), Some(7));
    assert_eq!(tree.get(""), None);
    assert_eq!(tree.remove(""), None);
}

#[test]
fn try_get_reports_attempted_path() {
    let mut tree: StringTree<u64> = StringTree::new();
    tree.insert("abc", 1);
    let node = tree.step("ab").unwrap();
    assert_eq!(node.try_get("c"), Ok(&1));
    assert_eq!(node.try_get("z"), Err(String::from("abz")));
    assert_eq!(node.value_result(), Err(String::from("ab")));
    let leaf = tree.step("abc").unwrap();
    assert_eq!(leaf.value_result(), Ok(&1));
    assert_eq!(leaf.try_step("d").err(), Some(String::from("abcd")));
}

#[test]
fn get_mut_updates_value() {
    let mut tree: StringTree<u64> = StringTree::new();
    tree.insert("key", 1);
    {
        let v = tree.get_mut("key").unwrap();
        *v = 99;
    }
    assert_eq!(tree.get("key"), Some(&99));
    assert!(tree.get_mut("missing").is_none());
}

#[test]
fn mutable_cursor_edits_subtree() {
    let mut tree: StringTree<u64> = StringTree::new();
    tree.insert("ab", 1);
    let cursor = tree.step_mut("ab").unwrap();
    assert_eq!(cursor.set(&mut tree, "xy", 5), None);
    assert_eq!(tree.get("abxy"), Some(&5));
    assert_eq!(cursor.get(&tree, "xy"), Some(&5));
    {
        let v = cursor.get_mut(&mut tree, "xy").unwrap();
        *v = 6;
    }
    assert_eq!(tree.get("abxy"), Some(&6));
    assert_eq!(cursor.try_get(&tree, "zz"), Err(String::from("abzz")));
    assert!(cursor.try_get_mut(&mut tree, "zz") == Err(String::from("abzz")));
    assert_eq!(cursor.try_step(&tree, "zz").err(), Some(String::from("abzz")));
    {
        let v = cursor.value(&mut tree).unwrap();
        *v = 2;
    }
    assert_eq!(tree.get("ab"), Some(&2));
    assert_eq!(cursor.value_non_mut(&tree), Some(&2));
    assert_eq!(cursor.value_result_non_mut(&tree), Ok(&2));
    assert_eq!(cursor.path(&tree), String::from("ab"));
    let below = cursor.step(&tree, "xy").unwrap();
    assert_eq!(below.value_result_non_mut(&tree), Ok(&6));
    {
        let v = below.value_result(&mut tree).unwrap();
        *v = 7;
    }
    assert_eq!(tree.get("abxy"), Some(&7));
    let empty = tree.step_mut("ab").unwrap();
    let probe = empty.step(&tree, "x").unwrap();
    assert!(probe.value_result_non_mut(&tree) == Err(String::from("abx")));
    let read = cursor.as_ref(&tree);
    assert_eq!(read.value(), Some(&2));
    // Removing below the root through the root cursor keeps it usable.
    let root = tree.root_node_mut();
    assert_eq!(root.remove(&mut tree, "abxy"), Some(7));
    assert_eq!(tree.get("abxy"), None);
    assert_eq!(tree.get("ab"), Some(&2));
}

#[test]
fn mutable_children_cover_subtrees() {
    let mut tree: StringTree<u64> = StringTree::new();
    tree.insert("ma", 1);
    tree.insert("mé", 2);
    let m_node = tree.step_mut("m").unwrap();
    let mut kids = m_node.children(&tree);
    let mut seen = Vec::new();
    while let Some(c) = kids.next() {
        seen.push(c.path(&tree));
    }
    assert_eq!(seen, vec![String::from("ma"), String::from("mé")]);
}

#[test]
fn iterable_coroutine_yields_in_order() {
    let mut it = IterableCoroutine::from_items(vec![1u32, 2, 3]);
    assert_eq!(it.next(), Some(1));
    assert_eq!(it.next(), Some(2));
    assert_eq!(it.next(), Some(3));
    assert_eq!(it.next(), None);
    assert_eq!(it.next(), None);
}
