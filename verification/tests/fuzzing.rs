//! Differential test: a long pseudo-random sequence of inserts and removes
//! driven against both the trie and a reference map, with periodic full
//! cross-checks by traversal.

use std::collections::HashMap;
use string_tree::StringTree;

/// Deterministic pseudo-random stream (a linear congruential generator).
struct Lcg(u64);

impl Lcg {
    fn next(&mut self) -> u64 {
        self.0 = self
            .0
            .wrapping_mul(6364136223846793005)
            .wrapping_add(1442695040888963407);
        self.0 >> 16
    }
}

const ALPHABET: [&str; 8] = ["a", "b", "c", "z", "é", "ø", "字", "😀"];

fn random_key(rng: &mut Lcg) -> String {
    let len = 1 + (rng.next() % 6) as usize;
    let mut key = String::new();
    for _ in 0..len {
        key.push_str(ALPHABET[(rng.next() % ALPHABET.len() as u64) as usize]);
    }
    key
}

/// Collects every (path, value) pair of the trie by full cursor traversal.
fn collect_values(tree: &StringTree<u64>) -> Vec<(String, u64)> {
    let mut out = Vec::new();
    let mut stack = vec![tree.root_node()];
    while let Some(node) = stack.pop() {
        let mut kids = node.children();
        while let Some(child) = kids.next() {
            stack.push(child);
        }
        if let Some(v) = node.value() {
            out.push((node.path(), *v));
        }
    }
    out
}

#[test]
fn fuzzing() {
    let mut rng = Lcg(0x5eed);
    let mut tree: StringTree<u64> = StringTree::new();
    let mut reference: HashMap<String, u64> = HashMap::new();
    for round in 0..4000u64 {
        let key = random_key(&mut rng);
        if rng.next() % 3 == 0 {
            let expected = reference.remove(&key);
            let got = tree.remove(&key);
            assert_eq!(expected, got);
        } else {
            let value = rng.next();
            let expected = reference.insert(key.clone(), value);
            let got = tree.insert(&key, value);
            assert_eq!(expected, got);
        }
        assert_eq!(reference.get(&key), tree.get(&key));
        if round % 500 == 499 {
            for (k, v) in reference.iter() {
                assert_eq!(tree.get(k), Some(v));
            }
            let live = collect_values(&tree);
            assert_eq!(live.len(), reference.len());
            for (path, v) in live {
                assert_eq!(reference.get(&path), Some(&v));
            }
        }
    }
    // Drain everything: the arena must end up holding only the root.
    let keys: Vec<String> = reference.keys().cloned().collect();
    for k in keys {
        assert_eq!(tree.remove(&k), reference.remove(&k));
    }
    assert!(collect_values(&tree).is_empty());
    let mut kids = tree.root_node().children();
    assert!(kids.next().is_none());
}
