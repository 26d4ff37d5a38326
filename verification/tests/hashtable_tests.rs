use redis_like::hashtable::{
    create_node, entry_eq, entry_eq_kv, free_entry, get_entry_from_dp, str_hash, Entry, HMap,
    HTable, LookUpFunction, MapSlot, Slot, DEFAULT_HASH_SIZE,
};

fn clear_nodes_by_key(map: &mut HMap, template_node: &Entry, initial_size: usize) {
    println!("LOG: Starting chain cleanup {}...", map.current().size());
    let mut deleted_count = 0;

    while let Some(entry) = map.delete(template_node, LookUpFunction::EntryEq) {
        println!("LOG: Freeing node with value: '{}'", entry.val);
        free_entry(entry);
        deleted_count += 1;
    }

    assert_eq!(
        deleted_count, initial_size,
        "FAILED: Expected to delete {} nodes, but deleted {}",
        initial_size, deleted_count
    );
    assert_eq!(map.current().size(), 0, "Table should be empty after cleanup");
}

/// Test if the map initializes with correct sizes and null pointers.
#[test]
fn test_initialization() {
    let default = HMap::new();
    assert!(default.current().size() == 0, "New current hashtable size != 0");
    assert!(default.older().size() == 0, "New older hashtable size != 0");
}

/// Test basic insertion and retrieval of a single node.
#[test]
fn test_single_insert_and_lookup() {
    let mut map = HMap::new();

    // 1. Preparation
    let key = "key_1";
    let val = "val_1";
    let node = create_node(key, val);

    // 2. Execution
    map.insert(node.clone());
    println!("LOG: Inserted node with key='{}', val='{}'", key, val);

    // 3. Lookup Verification
    let lookup = map.lookup(&node, LookUpFunction::EntryEq);
    assert!(
        lookup.is_some(),
        "FAILED: Node with key '{}' should be found in the map",
        key
    );

    let fentry = get_entry_from_dp(&map, lookup).unwrap();
    println!("LOG: Lookup successful. Found Entry: {:?}", fentry);

    assert_eq!(
        fentry.key, key,
        "FAILED: Key mismatch! Expected '{}', found '{}'",
        key, fentry.key
    );
    assert_eq!(
        fentry.val, val,
        "FAILED: Value mismatch! Expected '{}', found '{}'",
        val, fentry.val
    );

    // 4. Delete & Cleanup Verification
    let node_to_free = map.delete(&node, LookUpFunction::EntryEq);
    assert!(
        node_to_free.is_some(),
        "FAILED: Delete returned None, but node with key '{}' was expected",
        key
    );
    if let Some(entry) = node_to_free {
        println!("LOG: Cleanup. Freeing entry with key: '{}'", entry.key);
        free_entry(entry);
    }

    // 5. Post-delete Verification
    let final_lookup = map.lookup(&node, LookUpFunction::EntryEq);
    assert!(
        final_lookup.is_none(),
        "FAILED: Node with key '{}' still exists after deletion",
        key
    );

    println!("SUCCESS: Single insert/lookup/delete cycle completed perfectly.");
}

/// Test handling of hash collisions (multiple nodes in the same bucket).
#[test]
fn test_collision_chains() {
    let mut map = HMap::with_capacity(4);
    let common_key = "node_key_common";
    let node_1 = create_node(common_key, "value_1");
    let node_2 = create_node(common_key, "value_2");
    let node_3 = create_node(common_key, "value_3");

    // Inserting (LIFO order in the bucket: 3 -> 2 -> 1)
    map.insert(node_1.clone());
    map.insert(node_2.clone());
    map.insert(node_3.clone());

    println!(
        "LOG: Inserted 3 nodes with identical key '{}' into the same bucket.",
        common_key
    );
    assert_eq!(map.current().size(), 3, "Table size should be exactly 3");

    let lookup_ptr = map.lookup(&node_3, LookUpFunction::EntryEq);
    assert!(
        lookup_ptr.is_some(),
        "FAILED: Could not find any node with key '{}'",
        common_key
    );

    let fentry = get_entry_from_dp(&map, lookup_ptr).unwrap();
    println!(
        "LOG: Found entry value: '{}' (Expected 'value_3' because it's the chain head)",
        fentry.val
    );
    assert_eq!(
        fentry.val, "value_3",
        "FAILED: Lookup should return the most recently inserted node (the head of the chain)"
    );

    clear_nodes_by_key(&mut map, &node_1, 3);

    println!("SUCCESS: Collision chain handled and cleaned up correctly.");
}

/// Test deleting a node that is at the head of a collision chain.
#[test]
fn test_delete_chain_head() {
    let mut map = HMap::with_capacity(4);
    let key_a = "key_A";
    let key_b = "key_A";
    let key_c = "key_A";
    let node_1 = create_node(key_a, "value_1");
    let node_2 = create_node(key_b, "value_2");
    let node_3 = create_node(key_c, "value_3");

    map.insert(node_1.clone());
    map.insert(node_2.clone());
    map.insert(node_3.clone());

    println!(
        "LOG: Inserted 3 nodes with the next keys: {}, {}, {}",
        key_a, key_b, key_c
    );

    assert_eq!(map.current().size(), 3, "Table size should be exactly 3");

    println!("LOG: Removing head: {}", key_c);
    let deleted = map.delete(&node_3, LookUpFunction::EntryEq);
    if let Some(d) = deleted {
        println!("LOG: Freeing node with key:value: '{}':'{}'", d.key, d.val);
        free_entry(d);
    };

    assert_eq!(map.current().size(), 2, "Table size should be exactly 2");

    clear_nodes_by_key(&mut map, &node_1, 2);

    println!("SUCCESS: Delete chain head test succsesfull");
}

/// Test deleting a node from the middle or end of a collision chain.
#[test]
fn test_delete_chain_middle_and_tail() {
    let mut map = HMap::with_capacity(4);
    let key_a = "key_A";
    let key_b = "key_A";
    let key_c = "key_A";
    let node_1 = create_node(key_a, "value_1");
    let node_2 = create_node(key_b, "value_2");
    let node_3 = create_node(key_c, "value_3");

    map.insert(node_1.clone());
    map.insert(node_2.clone());
    map.insert(node_3.clone());

    println!(
        "LOG: Inserted 3 nodes with the next keys: {}, {}, {}",
        key_a, key_b, key_c
    );

    println!("LOG: Removing middle: {}", key_b);
    let deleted = map.delete(&node_2, LookUpFunction::EntryEqKv);
    if let Some(d) = deleted {
        println!("LOG: Freeing node with key:value: '{}':'{}'", d.key, d.val);
        free_entry(d);
    };

    assert_eq!(map.current().size(), 2, "Table size should be exactly 2");

    let c_node = map.lookup(&node_3, LookUpFunction::EntryEqKv);
    assert!(
        c_node.is_some(),
        "FAILED: Could not find any node with key '{}'",
        key_c,
    );

    if let Some(c) = c_node {
        let next = map.next_of(c);
        assert!(
            next.is_some(),
            "FAILED: Head should point to some valid tail, not none!"
        );
        let tail = map.get(next.unwrap());
        assert!(
            tail.key == node_1.key && tail.val == node_1.val,
            "FAILED: Head is not pointing at the expected tail; HEAD NEXT: {:?}, EXPECTED NEXT: {:?}",
            tail,
            node_1
        );
        println!("LOG: C node points to A node: {:?} == {:?}", tail, node_1)
    }

    println!("LOG: Removing middle: {}", key_a);
    let deleted = map.delete(&node_1, LookUpFunction::EntryEqKv);
    if let Some(d) = deleted {
        println!("LOG: Freeing node with key:value: '{}':'{}'", d.key, d.val);
        free_entry(d);
    };

    assert_eq!(map.current().size(), 1, "Table size should be exactly 2");

    let c_node = map.lookup(&node_3, LookUpFunction::EntryEqKv);
    assert!(
        c_node.is_some(),
        "FAILED: Could not find any node with key '{}'",
        key_c,
    );

    if let Some(c) = c_node {
        let next = map.next_of(c);
        assert!(!next.is_some(), "FAILED: Head should point to NONE!");
        println!("LOG: C node points to NONE node: {:?} == NONE", next)
    }

    clear_nodes_by_key(&mut map, &node_3, 1);

    println!("SUCCESS: Delete chain head test succsesfull");
}

/// Test lookup behavior when the key does not exist in the map.
#[test]
fn test_lookup_missing_key() {
    let mut map = HMap::with_capacity(4);
    let key_a = "key_A";
    let key_b = "key_A";
    let key_c = "key_A";
    let node_1 = create_node(key_a, "value_1");
    let node_2 = create_node(key_b, "value_2");
    let node_3 = create_node(key_c, "value_3");

    map.insert(node_1.clone());
    map.insert(node_2.clone());

    println!(
        "LOG: Inserted 3 nodes with the next keys: {}, {}, {}",
        key_a, key_b, key_c
    );

    let c_node = map.lookup(&node_3, LookUpFunction::EntryEqKv);
    assert!(
        c_node.is_none(),
        "FAILED: Find a node which wasnt inserted '{}'",
        key_c,
    );

    clear_nodes_by_key(&mut map, &node_1, 2);

    println!("SUCCESS: Lookup missing key");
}

/// Inserting the same entry twice keeps both copies: the map does not look
/// for duplicates, and the chain holds the second copy followed by the first.
#[test]
fn test_duplicate_node_pointer_naive() {
    let mut map = HMap::with_capacity(4);
    let key = "naive_loop_key";
    let node = create_node(key, "value_1");

    map.insert(node.clone());
    assert_eq!(map.current().size(), 1);

    map.insert(node.clone());
    assert_eq!(
        map.current().size(),
        2,
        "Map should naively increment size for duplicate pointers"
    );

    let pos = node.node.hcode & map.current().mask();
    let head = MapSlot { in_older: false, slot: Slot { bucket: pos, index: 0 } };
    let first_node = map.get(head);
    let second = map.next_of(head).expect("the chain should hold a second copy after the first");
    let second_node = map.get(second);

    println!("LOG: Entry 1: {:?}", first_node);
    println!("LOG: Entry 2: {:?}", second_node);

    assert!(
        first_node.key == second_node.key && first_node.val == second_node.val,
        "the second copy in the chain should equal the first"
    );

    clear_nodes_by_key(&mut map, &node, 2);
}

/// Stress test: many distinct keys in and out, through several resizes.
#[test]
fn test_stress_insert_delete() {
    let mut map = HMap::new();
    let nodes: Vec<Entry> = (0..1000)
        .map(|i| create_node(&format!("key_{}", i), &format!("value_{}", i)))
        .collect();
    for n in nodes.iter() {
        map.insert(n.clone());
    }
    assert_eq!(map.len(), 1000);
    for n in nodes.iter() {
        let found = map.lookup(n, LookUpFunction::EntryEq);
        let e = get_entry_from_dp(&map, found).expect("inserted key must be found");
        assert_eq!(e.val, n.val);
    }
    for n in nodes.iter() {
        let d = map.delete(n, LookUpFunction::EntryEq).expect("inserted key must be deleted");
        assert_eq!(d.key, n.key);
        free_entry(d);
    }
    assert_eq!(map.len(), 0);
    assert_eq!(map.current().size(), 0);
    assert_eq!(map.older().size(), 0);
}

/// A lookup finds entries still in the older table while it is drained.
#[test]
fn test_lookup_during_resizing() {
    let mut map = HMap::with_capacity(32);
    let threshold = 31 * 8;
    let nodes: Vec<Entry> = (0..threshold)
        .map(|i| create_node(&format!("k{}", i), &format!("v{}", i)))
        .collect();
    for n in nodes.iter() {
        map.insert(n.clone());
    }
    // the last insertion moved the table aside and drained one step of it
    assert_eq!(map.current().mask(), 63);
    assert_eq!(map.older().size(), threshold - 128);
    assert_eq!(map.current().size(), 128);
    let last = nodes.last().unwrap();
    let found = map.lookup(last, LookUpFunction::EntryEq);
    assert!(found.is_some());
    assert_eq!(map.get(found.unwrap()).val, last.val);
    for n in nodes.iter() {
        let found = map.lookup(n, LookUpFunction::EntryEq);
        assert_eq!(get_entry_from_dp(&map, found).unwrap().val, n.val);
    }
    assert_eq!(map.older().size(), 0);
    assert_eq!(map.len(), threshold);
}

#[test]
fn test_str_hash_values() {
    assert_eq!(str_hash(b""), 0x811C9DC5);
    let mut h: usize = 0x811C9DC5;
    h = h.wrapping_add(b'a' as usize).wrapping_mul(0x01000193);
    assert_eq!(str_hash(b"a"), h);
    assert_eq!(str_hash(b"a"), 0x0081_1d69_660c_f5d2usize);
}

#[test]
fn test_entry_comparisons() {
    let a = create_node("k", "1");
    let b = create_node("k", "2");
    let c = create_node("j", "1");
    assert!(entry_eq(&a, &b));
    assert!(!entry_eq(&a, &c));
    assert!(!entry_eq_kv(&a, &b));
    assert!(entry_eq_kv(&a, &a.clone()));
    assert!(LookUpFunction::EntryEq.call(&a, &b));
    assert!(!LookUpFunction::EntryEqKv.call(&a, &b));
}

#[test]
fn test_create_node_hashes_key() {
    let e = create_node("hello", "world");
    assert_eq!(e.key, "hello");
    assert_eq!(e.val, "world");
    assert_eq!(e.node.hcode, str_hash("hello".as_bytes()));
}

#[test]
fn test_htable_operations() {
    let mut t = HTable::new();
    assert_eq!(t.mask(), DEFAULT_HASH_SIZE - 1);
    let e = create_node("x", "1");
    t.insert(e.clone());
    t.insert(create_node("x", "2"));
    assert_eq!(t.size(), 2);
    let s = t.lookup(&e, LookUpFunction::EntryEq).unwrap();
    assert_eq!(s.index, 0);
    assert_eq!(t.get(s).val, "2");
    let s2 = t.lookup(&e, LookUpFunction::EntryEqKv).unwrap();
    assert_eq!(s2.index, 1);
    t.set_val(s2, "3".to_string());
    assert_eq!(t.get(s2).val, "3");
    let d = t.detach(s);
    assert_eq!(d.val, "2");
    assert_eq!(t.size(), 1);
    assert!(t.lookup(&create_node("y", ""), LookUpFunction::EntryEq).is_none());
}

#[test]
fn test_insert_then_lookup_finds_it() {
    let mut map = HMap::new();
    for i in 0..50 {
        map.insert(create_node(&format!("a{}", i), "x"));
    }
    let e = create_node("target", "value");
    map.insert(e.clone());
    let s = map.lookup(&e, LookUpFunction::EntryEq).unwrap();
    assert_eq!(map.get(s).key, "target");
    assert_eq!(map.get(s).val, "value");
}

#[test]
fn test_delete_missing_keeps_entries() {
    let mut map = HMap::new();
    map.insert(create_node("a", "1"));
    assert!(map.delete(&create_node("b", ""), LookUpFunction::EntryEq).is_none());
    assert_eq!(map.len(), 1);
}

#[test]
fn test_set_val_in_place() {
    let mut map = HMap::new();
    let e = create_node("a", "1");
    map.insert(e.clone());
    let s = map.lookup(&e, LookUpFunction::EntryEq).unwrap();
    map.set_val(s, "2".to_string());
    let s = map.lookup(&e, LookUpFunction::EntryEq).unwrap();
    assert_eq!(map.get(s).val, "2");
    assert_eq!(map.len(), 1);
    assert!(get_entry_from_dp(&map, None).is_none());
}
