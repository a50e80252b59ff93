use datalake::mapping::MemoryMapping;
use datalake::store::DataLake;
use datalake::tree::leaf::Leaf;
use datalake::tree::node::{Lazy, Node, NodeChild, NodeEntry, NodeIterator};

fn fresh_lake(size: usize) -> DataLake {
    let mapping = MemoryMapping::from_vec(vec![0u8; size]);
    DataLake::create(mapping, size as u64).expect("create")
}

fn key_of(i: u32) -> Vec<u8> {
    format!("{}", i).into_bytes()
}

fn val_of(i: u32) -> Vec<u8> {
    format!("v{}", i).into_bytes()
}

#[test]
fn leaf_round_trips_payloads() {
    let mut lake = fresh_lake(1 << 20);
    let key = b"a key".to_vec();
    let long_value: Vec<u8> = (0..100u8).collect();
    let leaf = Leaf::from_kv(key.clone(), long_value.clone(), &mut lake).expect("from_kv");
    assert_eq!(leaf.key(&lake).expect("key"), key);
    assert_eq!(leaf.value(&lake).expect("value"), long_value);
    assert_eq!(leaf.key_ref().len(), 7);  // 5 bytes, inline: ceil(4 * 5 / 3)
    assert_eq!(leaf.val_ref().len(), 50);  // 100 bytes, spilled: an identifier
}

#[test]
fn leaf_rebuilds_from_its_hash() {
    let mut lake = fresh_lake(1 << 20);
    let key = b"rebuild me".to_vec();
    let value: Vec<u8> = (0..80u8).rev().collect();
    let leaf = Leaf::from_kv(key.clone(), value.clone(), &mut lake).expect("from_kv");
    let id = leaf.hash(&mut lake).expect("hash");
    let again = Leaf::from_hash(&id, &lake).expect("from_hash");
    assert_eq!(again.key_u32(), leaf.key_u32());
    assert_eq!(again.key_ref(), leaf.key_ref());
    assert_eq!(again.val_ref(), leaf.val_ref());
    assert!(again.key_val().is_none());
    assert_eq!(again.key(&lake).expect("key"), key);
    assert_eq!(again.value(&lake).expect("value"), value);
}

#[test]
fn set_then_get_returns_the_value() {
    let mut lake = fresh_lake(1 << 20);
    let root = Node::new();
    let root = root.set(b"alpha".to_vec(), b"one".to_vec(), &mut lake).expect("set");
    let root = root.set(b"beta".to_vec(), b"two".to_vec(), &mut lake).expect("set");

    let a = root.get(&b"alpha".to_vec(), &mut lake).expect("get").expect("present");
    assert_eq!(a.value(&lake).expect("value"), b"one".to_vec());
    let b = root.get(&b"beta".to_vec(), &mut lake).expect("get").expect("present");
    assert_eq!(b.value(&lake).expect("value"), b"two".to_vec());
    assert!(root.get(&b"gamma".to_vec(), &mut lake).expect("get").is_none());
}

#[test]
fn set_replaces_an_existing_key() {
    let mut lake = fresh_lake(1 << 20);
    let root = Node::new();
    let root = root.set(b"k".to_vec(), b"first".to_vec(), &mut lake).expect("set");
    let root = root.set(b"k".to_vec(), b"second".to_vec(), &mut lake).expect("set");
    assert_eq!(root.entry_count(), 1);
    let l = root.get(&b"k".to_vec(), &mut lake).expect("get").expect("present");
    assert_eq!(l.value(&lake).expect("value"), b"second".to_vec());
}

#[test]
fn old_roots_stay_valid() {
    let mut lake = fresh_lake(1 << 20);
    let root0 = Node::new();
    let root1 = root0.set(b"one".to_vec(), b"1".to_vec(), &mut lake).expect("set");
    let root2 = root1.set(b"two".to_vec(), b"2".to_vec(), &mut lake).expect("set");

    // the old roots read exactly as before the later sets
    assert!(root0.get(&b"one".to_vec(), &mut lake).expect("get").is_none());
    assert!(root1.get(&b"two".to_vec(), &mut lake).expect("get").is_none());
    let l = root1.get(&b"one".to_vec(), &mut lake).expect("get").expect("present");
    assert_eq!(l.value(&lake).expect("value"), b"1".to_vec());
    let l2 = root2.get(&b"one".to_vec(), &mut lake).expect("get").expect("present");
    assert_eq!(l2.value(&lake).expect("value"), b"1".to_vec());
}

#[test]
fn node_rebuilds_from_its_hash() {
    let mut lake = fresh_lake(1 << 20);
    let mut root = Node::new();
    let mut keys: Vec<Vec<u8>> = Vec::new();
    for i in 0..8u32 {
        let key = key_of(i);
        let value: Vec<u8> = (0..60u8).map(|b| b.wrapping_add(i as u8)).collect();
        root = root.set(key.clone(), value, &mut lake).expect("set");
        keys.push(key);
    }

    let id = root.hash(&mut lake).expect("hash");
    let again = Node::from_hash(&id, &lake).expect("from_hash");
    assert_eq!(again.depth(), 0);
    assert_eq!(again.entry_count(), root.entry_count());
    for (i, key) in keys.iter().enumerate() {
        let expected: Vec<u8> = (0..60u8).map(|b| b.wrapping_add(i as u8)).collect();
        let l = again.get(key, &mut lake).expect("get").expect("present");
        assert_eq!(l.value(&lake).expect("value"), expected);
    }
    // hashing the rebuilt node gives the same identifier
    let id2 = again.hash(&mut lake).expect("hash");
    assert_eq!(id, id2);
}

#[test]
fn iterator_yields_leaves_in_surrogate_order() {
    let mut lake = fresh_lake(1 << 20);
    let mut root = Node::new();
    for i in 0..200u32 {
        root = root.set(key_of(i), val_of(i), &mut lake).expect("set");
    }
    let mut iter = NodeIterator::from(&root, &lake).expect("iterator");
    let mut count = 0usize;
    let mut last: Option<u32> = None;
    while let Some(leaf) = iter.next() {
        if let Some(prev) = last {
            assert!(prev < leaf.key_u32(), "iterator out of surrogate order");
        }
        last = Some(leaf.key_u32());
        count += 1;
    }
    assert_eq!(count, 200);
}

#[test]
fn ten_thousand_keys() {
    let mut lake = fresh_lake(1 << 20);
    let mut root = Node::new();
    for i in 0..10000u32 {
        root = root.set(key_of(i), val_of(i), &mut lake).expect("set");
    }
    for i in (0..10000u32).step_by(97) {
        let l = root.get(&key_of(i), &mut lake).expect("get").expect("present");
        assert_eq!(l.value(&lake).expect("value"), val_of(i));
    }
    let mut iter = NodeIterator::from(&root, &lake).expect("iterator");
    let mut count = 0usize;
    let mut last: Option<u32> = None;
    while let Some(leaf) = iter.next() {
        if let Some(prev) = last {
            assert!(prev < leaf.key_u32());
        }
        last = Some(leaf.key_u32());
        count += 1;
    }
    assert_eq!(count, 10000);
}

#[test]
fn root_identifier_survives_reopen() {
    let mut lake = fresh_lake(1 << 20);
    let mut root = Node::new();
    for i in 0..60u32 {
        let value: Vec<u8> = format!("value number {} with some padding to spill", i).into_bytes();
        root = root.set(key_of(i), value, &mut lake).expect("set");
    }
    let id = root.hash(&mut lake).expect("hash");

    let mut expected: Vec<(Vec<u8>, Vec<u8>)> = Vec::new();
    for i in (0..60u32).step_by(7) {
        let l = root.get(&key_of(i), &mut lake).expect("get").expect("present");
        expected.push((key_of(i), l.value(&lake).expect("value")));
    }

    let bytes = lake.to_vec();
    drop(lake);
    drop(root);

    let mut reopened = DataLake::load(MemoryMapping::from_vec(bytes), false).expect("load");
    let again = Node::from_hash(&id, &reopened).expect("from_hash");
    for (key, value) in expected {
        let l = again.get(&key, &mut reopened).expect("get").expect("present");
        assert_eq!(l.value(&reopened).expect("value"), value);
    }
}

#[test]
fn deep_tree_routes_lookups_and_survives_hashing() {
    let mut lake = fresh_lake(1 << 20);

    // four leaves, taken in surrogate order from a flat tree
    let mut flat = Node::new();
    let pairs = [
        (b"apple".to_vec(), b"fruit".to_vec()),
        (b"bear".to_vec(), b"animal".to_vec()),
        (b"cedar".to_vec(), b"tree".to_vec()),
        (b"delta".to_vec(), b"river".to_vec()),
    ];
    for (k, v) in pairs.iter() {
        flat = flat.set(k.clone(), v.clone(), &mut lake).expect("set");
    }
    let mut iter = NodeIterator::from(&flat, &lake).expect("iterator");
    let mut leaves = Vec::new();
    while let Some(l) = iter.next() {
        leaves.push(l);
    }
    assert_eq!(leaves.len(), 4);

    // two flat children of two leaves each, under a depth-1 parent keyed
    // by each child's smallest surrogate
    let low = Node::new()
        .set_rc_leaf(leaves[0].clone())
        .expect("set")
        .set_rc_leaf(leaves[1].clone())
        .expect("set");
    let high = Node::new()
        .set_rc_leaf(leaves[2].clone())
        .expect("set")
        .set_rc_leaf(leaves[3].clone())
        .expect("set");
    let k_low = leaves[0].key_u32();
    let k_high = leaves[2].key_u32();
    let entries = vec![
        NodeEntry::new(k_low, NodeChild::Node(std::rc::Rc::new(low))),
        NodeEntry::new(k_high, NodeChild::Node(std::rc::Rc::new(high))),
    ];
    let parent = Node::new_from_props(1, entries);
    assert_eq!(parent.depth(), 1);

    for (k, v) in pairs.iter() {
        let l = parent.get(k, &mut lake).expect("get").expect("present");
        assert_eq!(l.value(&lake).expect("value"), v.clone());
    }

    // hashing the parent stores one blob per child; rebuilding gives a
    // depth-1 node with lazy children that still route every lookup
    let id = parent.hash(&mut lake).expect("hash");
    let again = Node::from_hash(&id, &lake).expect("from_hash");
    assert_eq!(again.depth(), 1);
    assert_eq!(again.entry_count(), 2);
    for (k, v) in pairs.iter() {
        let l = again.get(k, &mut lake).expect("get").expect("present");
        assert_eq!(l.value(&lake).expect("value"), v.clone());
    }

    // a pending lazy child materializes on first load and stays so
    let mut lazy = Lazy::from_hash(id.clone());
    assert!(!lazy.is_materialized());
    let first_load = lazy.load(&lake).expect("load");
    assert!(lazy.is_materialized());
    assert_eq!(first_load.entry_count(), 2);
    let second_load = lazy.load(&lake).expect("load again");
    assert_eq!(second_load.entry_count(), 2);
    assert_eq!(lazy.hash(), &id);

    // a lazy child built around a materialized node starts materialized
    let mut premade = Lazy::from_node(std::rc::Rc::new(again), id.clone());
    assert!(premade.is_materialized());
    let loaded = premade.load(&lake).expect("load");
    assert_eq!(loaded.entry_count(), 2);
}
