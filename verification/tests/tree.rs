use rustdb::b_plus_tree::{BPlusTree, Node};
use rustdb::db_errors::DbError;
use std::collections::BTreeMap;

struct Lcg(u64);

impl Lcg {
    fn next(&mut self) -> u64 {
        self.0 = self.0.wrapping_mul(6364136223846793005).wrapping_add(1442695040888963407);
        self.0 >> 33
    }
}

fn agrees(tree: &BPlusTree, model: &BTreeMap<u16, u64>, span: u16) {
    for k in 0..span {
        match model.get(&k) {
            Some(p) => assert_eq!(tree.search(k), Ok(*p), "key {}", k),
            None => assert_eq!(tree.search(k), Err(DbError::RecordAbsent), "key {}", k),
        }
    }
}

#[test]
fn empty_tree_finds_nothing() {
    let tree = BPlusTree::new();
    assert_eq!(tree.search(0), Err(DbError::RecordAbsent));
    assert_eq!(tree.search(u16::MAX), Err(DbError::RecordAbsent));
}

#[test]
fn insert_then_search() {
    let mut tree = BPlusTree::new();
    assert_eq!(tree.insert(5, 50), Ok(()));
    assert_eq!(tree.insert(1, 10), Ok(()));
    assert_eq!(tree.insert(9, 90), Ok(()));
    assert_eq!(tree.search(5), Ok(50));
    assert_eq!(tree.search(1), Ok(10));
    assert_eq!(tree.search(9), Ok(90));
    assert_eq!(tree.search(2), Err(DbError::RecordAbsent));
}

#[test]
fn duplicate_insert_is_refused_and_keeps_value() {
    let mut tree = BPlusTree::new();
    tree.insert(7, 70).unwrap();
    assert_eq!(tree.insert(7, 71), Err(DbError::DuplicateKey));
    assert_eq!(tree.search(7), Ok(70));
}

#[test]
fn delete_absent_is_refused() {
    let mut tree = BPlusTree::new();
    assert_eq!(tree.delete(3), Err(DbError::RecordAbsent));
    tree.insert(3, 30).unwrap();
    assert_eq!(tree.delete(3), Ok(()));
    assert_eq!(tree.delete(3), Err(DbError::RecordAbsent));
    assert_eq!(tree.search(3), Err(DbError::RecordAbsent));
}

#[test]
fn insert_then_delete_leaves_others() {
    let mut tree = BPlusTree::new();
    for k in 0..20u16 {
        tree.insert(k, k as u64 * 3).unwrap();
    }
    tree.insert(100, 1).unwrap();
    tree.delete(100).unwrap();
    for k in 0..20u16 {
        assert_eq!(tree.search(k), Ok(k as u64 * 3));
    }
    assert_eq!(tree.search(100), Err(DbError::RecordAbsent));
}

#[test]
fn ascending_inserts_split_many_times() {
    let mut tree = BPlusTree::new();
    let mut model = BTreeMap::new();
    for k in 0..300u16 {
        tree.insert(k, 1000 + k as u64).unwrap();
        model.insert(k, 1000 + k as u64);
    }
    agrees(&tree, &model, 320);
}

#[test]
fn descending_inserts_then_delete_all() {
    let mut tree = BPlusTree::new();
    for k in (0..200u16).rev() {
        tree.insert(k, k as u64).unwrap();
    }
    for k in 0..200u16 {
        assert_eq!(tree.delete(k), Ok(()));
        assert_eq!(tree.search(k), Err(DbError::RecordAbsent));
        if k + 1 < 200 {
            assert_eq!(tree.search(k + 1), Ok(k as u64 + 1));
        }
    }
    tree.insert(42, 4242).unwrap();
    assert_eq!(tree.search(42), Ok(4242));
}

#[test]
fn random_operations_match_a_map() {
    let mut tree = BPlusTree::new();
    let mut model: BTreeMap<u16, u64> = BTreeMap::new();
    let mut rng = Lcg(12345);
    for step in 0..3000u64 {
        let key = (rng.next() % 400) as u16;
        if rng.next() % 3 == 0 {
            let expected = if model.remove(&key).is_some() { Ok(()) } else { Err(DbError::RecordAbsent) };
            assert_eq!(tree.delete(key), expected, "step {}", step);
        } else {
            let expected = if model.contains_key(&key) {
                Err(DbError::DuplicateKey)
            } else {
                model.insert(key, step);
                Ok(())
            };
            assert_eq!(tree.insert(key, step), expected, "step {}", step);
        }
        if step % 250 == 0 {
            agrees(&tree, &model, 400);
        }
    }
    agrees(&tree, &model, 400);
}

#[test]
fn entries_come_in_key_order() {
    let mut tree = BPlusTree::new();
    for k in [50u16, 3, 17, 99, 4, 60, 1, 1000, 77, 2] {
        tree.insert(k, k as u64 * 10).unwrap();
    }
    let entries = tree.entries();
    let keys: Vec<u16> = entries.iter().map(|e| e.0).collect();
    assert_eq!(keys, vec![1, 2, 3, 4, 17, 50, 60, 77, 99, 1000]);
    assert!(entries.iter().all(|(k, p)| *p == *k as u64 * 10));
    assert_eq!(tree.max_key(), Some(1000));
    assert_eq!(BPlusTree::new().max_key(), None);
}

#[test]
fn tree_bytes_roundtrip() {
    let mut tree = BPlusTree::new();
    let mut model = BTreeMap::new();
    let mut rng = Lcg(99);
    for _ in 0..500 {
        let k = (rng.next() % 2000) as u16;
        let p = rng.next();
        if tree.insert(k, p).is_ok() {
            model.insert(k, p);
        }
    }
    for k in 0..300u16 {
        if model.remove(&k).is_some() {
            tree.delete(k).unwrap();
        }
    }
    let bytes = tree.serialise();
    assert_eq!(bytes.len(), model.len() * 10);
    assert_eq!(&bytes[0..2], &model.keys().next().unwrap().to_le_bytes());
    let back = BPlusTree::deserialise(&bytes).unwrap();
    agrees(&back, &model, 2100);
    assert_eq!(BPlusTree::deserialise(&[]).unwrap().search(0), Err(DbError::RecordAbsent));
    assert_eq!(BPlusTree::deserialise(&bytes[..7]).err().map(|_| ()), Some(()));
    assert!(matches!(BPlusTree::deserialise(&bytes[..7]), Err(DbError::CorruptedDataError)));
    let mut twice = bytes[..10].to_vec();
    twice.extend_from_slice(&bytes[..10]);
    assert!(matches!(BPlusTree::deserialise(&twice), Err(DbError::DuplicateKey)));
}

fn leaf_chain(tree: &BPlusTree) -> Vec<u16> {
    let mut n = tree.root;
    while let Node::Internal { children, .. } = &tree.nodes[n] {
        n = children[0];
    }
    let mut keys = Vec::new();
    let mut at = Some(n);
    while let Some(x) = at {
        match &tree.nodes[x] {
            Node::Leaf { entries, next } => {
                keys.extend(entries.iter().map(|e| e.record_id));
                at = *next;
            },
            Node::Internal { .. } => panic!("a leaf links to an internal node"),
        }
    }
    keys
}

#[test]
fn leaves_stay_chained_in_key_order() {
    let mut tree = BPlusTree::new();
    assert_eq!(tree.root, 0);
    assert_eq!(tree.nodes.len(), 1);
    assert!(tree.trash.is_empty());
    let mut model = BTreeMap::new();
    let mut rng = Lcg(7);
    for _ in 0..300 {
        let k = (rng.next() % 200) as u16;
        if rng.next() % 3 == 0 {
            let had = model.remove(&k).is_some();
            assert_eq!(tree.delete(k).is_ok(), had);
        } else {
            let fresh = !model.contains_key(&k);
            if fresh {
                model.insert(k, k as u64);
            }
            assert_eq!(tree.insert(k, k as u64).is_ok(), fresh);
        }
        let chained: Vec<u16> = model.keys().copied().collect();
        assert_eq!(leaf_chain(&tree), chained);
    }
    agrees(&tree, &model, 200);
}

fn leaf_of(tree: &BPlusTree, n: usize) -> (Vec<(u16, u64)>, Option<usize>) {
    match &tree.nodes[n] {
        Node::Leaf { entries, next } => (entries.iter().map(|e| (e.record_id, e.page_id)).collect(), *next),
        Node::Internal { .. } => panic!("node {} is not a leaf", n),
    }
}

fn internal_of(tree: &BPlusTree, n: usize) -> (Vec<u16>, Vec<usize>) {
    match &tree.nodes[n] {
        Node::Internal { keys, children } => (keys.clone(), children.clone()),
        Node::Leaf { .. } => panic!("node {} is not internal", n),
    }
}

#[test]
fn a_full_leaf_splits_in_half_under_a_new_root() {
    let mut t = BPlusTree::new();
    for k in 1..=3u16 {
        assert_eq!(t.insert(k, 10 * k as u64), Ok(()));
    }
    assert_eq!(t.root, 0);
    assert_eq!(t.insert(4, 40), Ok(()));
    assert_eq!(t.root, 2);
    assert_eq!(internal_of(&t, 2), (vec![3], vec![0, 1]));
    assert_eq!(leaf_of(&t, 0), (vec![(1, 10), (2, 20)], Some(1)));
    assert_eq!(leaf_of(&t, 1), (vec![(3, 30), (4, 40)], None));
    assert_eq!(t.search(3), Ok(30));
    assert_eq!(t.search(5), Err(DbError::RecordAbsent));

    assert_eq!(t.delete(1), Ok(()));
    assert_eq!(t.root, 0);
    assert_eq!(leaf_of(&t, 0), (vec![(2, 20), (3, 30), (4, 40)], None));
    assert_eq!(t.trash, vec![1]);
    assert_eq!(t.search(1), Err(DbError::RecordAbsent));
    assert_eq!(t.search(4), Ok(40));
    assert_eq!(t.delete(1), Err(DbError::RecordAbsent));
}
