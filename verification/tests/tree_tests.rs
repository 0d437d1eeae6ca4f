use aethelgard_avl::avl::SovereignAVL;
use aethelgard_avl::digest::{compute_node_digest, digest_word, node_message_bytes};
use aethelgard_avl::error::SovereignError;
use aethelgard_avl::keys::{compare_keys, KeyOrder};
use aethelgard_avl::storage::{NodeContainer, NodeIndex, NULL_INDEX};

fn b(s: &str) -> Vec<u8> {
    s.as_bytes().to_vec()
}

#[test]
fn test_basic_sovereign_operations() {
    let mut map = SovereignAVL::new();
    map.insert(b("key1"), b("value1")).unwrap();
    map.insert(b("key2"), b("value2")).unwrap();

    assert_eq!(map.get(&b("key1")).unwrap(), Some(b("value1")));
    assert_eq!(map.get(&b("key2")).unwrap(), Some(b("value2")));
    assert_eq!(map.get(&b("key3")).unwrap(), None);
}

#[test]
fn test_avl_balancing_simple() {
    let mut map = SovereignAVL::new();
    // LL Case (Sequential insertion should trigger rotations)
    map.insert(b("c"), b("3")).unwrap();
    map.insert(b("b"), b("2")).unwrap();
    map.insert(b("a"), b("1")).unwrap();

    assert_eq!(map.get(&b("a")).unwrap(), Some(b("1")));
    assert_eq!(map.get(&b("b")).unwrap(), Some(b("2")));
    assert_eq!(map.get(&b("c")).unwrap(), Some(b("3")));
}

#[test]
fn test_complex_balancing_scenarios() {
    let mut map = SovereignAVL::new();
    // Specific sequence that triggers multiple rotations and rebalancing
    let keys = vec![50, 30, 70, 20, 40, 60, 80, 10, 25, 35, 45, 55, 65, 75, 85];
    for k in keys {
        map.insert(b(&k.to_string()), b(&k.to_string())).unwrap();
    }

    map.full_audit().unwrap();

    // Balanced removal of intermediate nodes
    map.delete(&b("30")).unwrap();
    map.delete(&b("70")).unwrap();
    map.delete(&b("50")).unwrap();

    map.full_audit().expect("Integrity violation after complex deletions");
}

#[test]
fn test_generational_zombie_prevention() {
    let mut map = SovereignAVL::new();

    // 1. Insert and get key
    map.insert(b("A"), b("ValueA")).unwrap();
    assert!(map.get(&b("A")).is_ok());

    // 2. Delete key
    map.delete(&b("A")).unwrap();

    // 3. Verify it's gone
    assert_eq!(map.get(&b("A")).unwrap(), None);

    // 4. Stress the allocator to reuse the same RAW index but with different generation
    for i in 0..100 {
        let key = b(&format!("temp_{}", i));
        map.insert(key.clone(), b("temp")).unwrap();
        map.delete(&key).unwrap();
    }

    // 5. Final check: The system should be stable and invariants should hold
    map.validate_invariants().expect("Invariants violated after allocation stress");
}

#[test]
fn test_duplicate_key_prevention() {
    let mut map = SovereignAVL::new();
    map.insert(b("dup"), b("v1")).unwrap();

    let res = map.insert(b("dup"), b("v2"));
    assert!(matches!(res, Err(SovereignError::DuplicateKey)));
    // the first value stays
    assert_eq!(map.get(&b("dup")).unwrap(), Some(b("v1")));
}

fn collect(map: &SovereignAVL) -> Vec<(Vec<u8>, Vec<u8>)> {
    let mut it = map.iter();
    let mut out = Vec::new();
    while let Some((k, v)) = it.next() {
        out.push((k.clone(), v.clone()));
    }
    out
}

#[test]
fn iteration_is_sorted_and_complete() {
    let mut map = SovereignAVL::new();
    for k in ["m", "c", "x", "a", "e", "z", "b"] {
        map.insert(b(k), b(&k.to_uppercase())).unwrap();
    }
    let got = collect(&map);
    let want: Vec<(Vec<u8>, Vec<u8>)> = ["a", "b", "c", "e", "m", "x", "z"]
        .iter()
        .map(|k| (b(k), b(&k.to_uppercase())))
        .collect();
    assert_eq!(got, want);
}

#[test]
fn keys_order_bytewise_with_prefixes_first() {
    assert_eq!(compare_keys(&b("ab"), &b("abc")), KeyOrder::Less);
    assert_eq!(compare_keys(&b("abd"), &b("abc")), KeyOrder::Greater);
    assert_eq!(compare_keys(&b("abc"), &b("abc")), KeyOrder::Equal);
    assert_eq!(compare_keys(&b(""), &b("a")), KeyOrder::Less);
    assert_eq!(compare_keys(&b("B"), &b("a")), KeyOrder::Less);
}

#[test]
fn sequential_inserts_stay_balanced() {
    let mut map = SovereignAVL::new();
    for i in 0..1000 {
        map.insert(b(&format!("key_{:07}", i)), b(&format!("val_{}", i))).unwrap();
    }
    map.validate_invariants().unwrap();
    let dump = map.dump_tree().unwrap();
    assert_eq!(dump.len(), 1000);
    let max_depth = dump.iter().map(|l| l.depth).max().unwrap();
    // an AVL tree with 1000 nodes is at most 14 levels deep
    assert!(max_depth < 14);
    assert_eq!(dump[0].depth, 0);
    assert_eq!(dump[0].height as usize, max_depth + 1);
    for i in (0..1000).step_by(7) {
        assert_eq!(map.get(&b(&format!("key_{:07}", i))).unwrap(), Some(b(&format!("val_{}", i))));
    }
}

#[test]
fn delete_absent_key_changes_nothing() {
    let mut map = SovereignAVL::new();
    map.insert(b("a"), b("1")).unwrap();
    map.insert(b("b"), b("2")).unwrap();
    let before = collect(&map);
    map.delete(&b("zzz")).unwrap();
    assert_eq!(collect(&map), before);
    map.validate_invariants().unwrap();
}

#[test]
fn delete_then_reinsert_gives_new_value() {
    let mut map = SovereignAVL::new();
    for k in ["d", "b", "f", "a", "c", "e", "g"] {
        map.insert(b(k), b("old")).unwrap();
    }
    // a node with two children
    map.delete(&b("b")).unwrap();
    assert_eq!(map.get(&b("b")).unwrap(), None);
    map.insert(b("b"), b("new")).unwrap();
    assert_eq!(map.get(&b("b")).unwrap(), Some(b("new")));
    assert_eq!(map.get(&b("a")).unwrap(), Some(b("old")));
    map.full_audit().unwrap();
}

#[test]
fn random_mutations_match_a_model() {
    let mut map = SovereignAVL::new();
    let mut shadow = std::collections::BTreeMap::new();
    let mut seed: u64 = 12345;
    for _ in 0..3000 {
        seed = seed.wrapping_mul(6364136223846793005).wrapping_add(1442695040888963407);
        let op = (seed >> 33) % 3;
        let val = (seed >> 40) % 200;
        let key = b(&format!("key_{}", val));
        let value = b(&format!("val_{}", val));
        match op {
            0 => {
                let r = map.insert(key.clone(), value.clone());
                if shadow.contains_key(&key) {
                    assert_eq!(r, Err(SovereignError::DuplicateKey));
                } else {
                    assert_eq!(r, Ok(()));
                    shadow.insert(key, value);
                }
            }
            1 => {
                assert_eq!(map.get(&key).unwrap(), shadow.get(&key).cloned());
            }
            _ => {
                map.delete(&key).unwrap();
                shadow.remove(&key);
            }
        }
        map.validate_invariants().unwrap();
    }
    let want: Vec<(Vec<u8>, Vec<u8>)> = shadow.into_iter().collect();
    assert_eq!(collect(&map), want);
    map.full_audit().unwrap();
}

#[test]
fn bit_flip_is_detected() {
    let mut map = SovereignAVL::new();
    for k in ["50", "30", "70", "20", "40", "60", "80"] {
        map.insert(b(k), b(&format!("Val_{}", k))).unwrap();
    }
    map.validate_invariants().unwrap();
    // the root of this tree is "50"; "20" is a leaf under "30"
    let dump = map.dump_tree().unwrap();
    assert_eq!(dump[0].key, b("50"));
    map.internal_corrupt_node(&b("20")).unwrap();
    let err = map.full_audit().unwrap_err();
    assert!(matches!(err, SovereignError::IntegrityViolation(_)));
    assert_eq!(map.validate_invariants().unwrap_err(), err);
    // a search that passes the corrupted leaf stops there
    assert_eq!(map.get(&b("20")).unwrap_err(), err);
    // searches that do not pass it still work
    assert_eq!(map.get(&b("70")).unwrap(), Some(b("Val_70")));
}

#[test]
fn corrupting_a_missing_key_fails() {
    let mut map = SovereignAVL::new();
    map.insert(b("a"), b("1")).unwrap();
    assert_eq!(map.internal_corrupt_node(&b("q")), Err(SovereignError::NodeNotFound(0)));
    map.full_audit().unwrap();
}

#[test]
fn integrity_of_single_slots() {
    let mut map = SovereignAVL::new();
    map.insert(b("a"), b("1")).unwrap();
    map.insert(b("b"), b("2")).unwrap();
    assert_eq!(map.verify_integrity(0), Ok(()));
    assert_eq!(map.verify_integrity(1), Ok(()));
    assert_eq!(map.verify_integrity(2), Err(SovereignError::NodeNotFound(2)));
    assert_eq!(map.verify_integrity(NULL_INDEX), Err(SovereignError::NodeNotFound(NULL_INDEX)));
    map.delete(&b("a")).unwrap();
    assert_eq!(map.verify_integrity(0), Err(SovereignError::StaleIndex));
}

#[test]
fn node_digest_is_truncated_blake3_of_the_node_message() {
    let key = b("k");
    let value = b("v");
    let lh: u64 = 0x0102030405060708;
    let h = compute_node_digest(&key, &value, Some(lh), None);
    let mut msg = Vec::new();
    msg.extend_from_slice(&key);
    msg.extend_from_slice(&value);
    msg.extend_from_slice(&lh.to_le_bytes());
    let d = blake3::hash(&msg);
    let want = u64::from_le_bytes(d.as_bytes()[0..8].try_into().unwrap());
    assert_eq!(h, want);
    // the digest is not the message handed back
    assert_ne!(h, u64::from_le_bytes([b'k', b'v', 8, 7, 6, 5, 4, 3]));
    // the same bytes fed to a streaming hasher give the same digest
    let mut hasher = blake3::Hasher::new();
    hasher.update(&key);
    hasher.update(&value);
    hasher.update(&lh.to_le_bytes());
    assert_eq!(hasher.finalize(), d);
}

#[test]
fn leaf_digest_matches_its_contents() {
    let mut map = SovereignAVL::new();
    map.insert(b("only"), b("one")).unwrap();
    let dump = map.dump_tree().unwrap();
    assert_eq!(dump.len(), 1);
    assert_eq!(dump[0].hash, compute_node_digest(&b("only"), &b("one"), None, None));
    assert_eq!(dump[0].height, 1);
}

#[test]
fn arena_reuses_released_slots() {
    let mut c = NodeContainer::new();
    let a = c.allocate(b("a"), b("1")).unwrap();
    let bb = c.allocate(b("b"), b("2")).unwrap();
    assert_eq!((a, bb), (0, 1));
    assert_eq!(c.get(a).unwrap().generation, 1);
    c.deallocate(a).unwrap();
    assert_eq!(c.get(a).err(), Some(SovereignError::StaleIndex));
    assert_eq!(c.deallocate(a), Err(SovereignError::StaleIndex));
    assert_eq!(c.get(7).err(), Some(SovereignError::NodeNotFound(7)));
    let again = c.allocate(b("c"), b("3")).unwrap();
    assert_eq!(again, a);
    let n = c.get(again).unwrap();
    assert_eq!(n.generation, 2);
    assert_eq!(n.key, b("c"));
    assert!(n.is_active);
    assert_eq!(n.left, NULL_INDEX);
    c.get_mut(bb).unwrap().height = 5;
    assert_eq!(c.get(bb).unwrap().height, 5);
    assert_eq!(c.allocate(b("d"), b("4")).unwrap(), 2);
}

#[test]
fn exhausted_generation_refuses_reuse() {
    let mut c = NodeContainer::new();
    let a = c.allocate(b("a"), b("1")).unwrap();
    c.get_mut(a).unwrap().generation = u32::MAX;
    c.deallocate(a).unwrap();
    assert_eq!(c.allocate(b("b"), b("2")), Err(SovereignError::CapacityExceeded));
    // the exhausted slot is not offered again; a fresh slot is appended
    assert_eq!(c.allocate(b("c"), b("3")), Ok(1));
    assert_eq!(c.get(a).err(), Some(SovereignError::StaleIndex));
}

#[test]
fn delete_undoes_insert() {
    let mut map = SovereignAVL::new();
    for k in ["k1", "k5", "k3", "k9"] {
        map.insert(b(k), b(k)).unwrap();
    }
    let before = collect(&map);
    map.insert(b("k4"), b("four")).unwrap();
    assert_eq!(collect(&map).len(), before.len() + 1);
    map.delete(&b("k4")).unwrap();
    assert_eq!(collect(&map), before);
    map.validate_invariants().unwrap();
}

#[test]
fn empty_tree_behaviour() {
    let mut map = SovereignAVL::new();
    assert_eq!(map.get(&b("x")).unwrap(), None);
    map.delete(&b("x")).unwrap();
    map.full_audit().unwrap();
    map.validate_invariants().unwrap();
    assert!(map.dump_tree().unwrap().is_empty());
    assert!(map.iter().next().is_none());
    // empty keys and values are ordinary byte strings
    map.insert(Vec::new(), Vec::new()).unwrap();
    assert_eq!(map.get(&Vec::new()).unwrap(), Some(Vec::new()));
}

#[test]
fn digest_word_reads_little_endian() {
    let mut d = [0u8; 32];
    d[0] = 1;
    assert_eq!(digest_word(&d), 1);
    d[1] = 2;
    d[31] = 0xff;
    assert_eq!(digest_word(&d), 0x0201);
    let mut e = [0u8; 32];
    e[7] = 0x80;
    assert_eq!(digest_word(&e), 0x8000_0000_0000_0000);
    let f = [0xffu8; 32];
    assert_eq!(digest_word(&f), u64::MAX);
}

#[test]
fn node_message_layout() {
    let m = node_message_bytes(&b("ab"), &b("c"), None, Some(0x0102));
    assert_eq!(m, vec![b'a', b'b', b'c', 2, 1, 0, 0, 0, 0, 0, 0]);
    let m2 = node_message_bytes(&b("k"), &b(""), Some(1), Some(2));
    assert_eq!(m2, vec![b'k', 1, 0, 0, 0, 0, 0, 0, 0, 2, 0, 0, 0, 0, 0, 0, 0]);
}

#[test]
fn stale_handle_is_rejected() {
    let mut c = NodeContainer::new();
    let h1 = c.allocate_indexed(b("k1"), b("v1")).unwrap();
    assert_eq!((h1.id, h1.generation), (0, 1));
    assert_eq!(c.get_indexed(h1).unwrap().key, b("k1"));
    c.deallocate(h1.id).unwrap();
    assert_eq!(c.get_indexed(h1).err(), Some(SovereignError::StaleIndex));
    let h2 = c.allocate_indexed(b("k2"), b("v2")).unwrap();
    assert_eq!(h2.id, h1.id);
    assert_eq!(h2.generation, h1.generation + 1);
    // the old handle does not reach the node that now lives in its slot
    assert_eq!(c.get_indexed(h1).err(), Some(SovereignError::StaleIndex));
    assert_eq!(c.get_indexed(h2).unwrap().key, b("k2"));
    assert_eq!(
        c.get_indexed(NodeIndex { id: 9, generation: 1 }).err(),
        Some(SovereignError::NodeNotFound(9))
    );
}

fn corrupted_tree() -> SovereignAVL {
    let mut map = SovereignAVL::new();
    for k in ["50", "30", "70", "20", "40", "60", "80"] {
        map.insert(b(k), b(&format!("Val_{}", k))).unwrap();
    }
    map
}

#[test]
fn insert_and_delete_check_the_nodes_they_pass() {
    let mut map = corrupted_tree();
    map.internal_corrupt_node(&b("20")).unwrap();
    let err = map.full_audit().unwrap_err();
    let before: Vec<(usize, Vec<u8>, i32, u64)> =
        map.dump_tree().unwrap().into_iter().map(|l| (l.depth, l.key, l.height, l.hash)).collect();
    // "10" and "25" are searched for through the corrupted "20"
    assert_eq!(map.insert(b("10"), b("x")), Err(err));
    assert_eq!(map.delete(&b("25")), Err(err));
    assert_eq!(map.delete(&b("20")), Err(err));
    let after: Vec<(usize, Vec<u8>, i32, u64)> =
        map.dump_tree().unwrap().into_iter().map(|l| (l.depth, l.key, l.height, l.hash)).collect();
    assert_eq!(before, after);
    // paths that avoid it still work
    map.insert(b("90"), b("y")).unwrap();
    map.delete(&b("80")).unwrap();
    assert_eq!(map.get(&b("90")).unwrap(), Some(b("y")));
}

#[test]
fn delete_checks_the_way_to_the_successor() {
    let mut map = corrupted_tree();
    // "50" has two children; its successor is "60", the leftmost node under "70"
    map.internal_corrupt_node(&b("60")).unwrap();
    let err = map.full_audit().unwrap_err();
    assert_eq!(map.delete(&b("50")), Err(err));
    assert_eq!(map.get(&b("50")).unwrap(), Some(b("Val_50")));
}

#[test]
fn absent_key_delete_leaves_everything() {
    let mut map = corrupted_tree();
    let before: Vec<(usize, Vec<u8>, i32, u64)> =
        map.dump_tree().unwrap().into_iter().map(|l| (l.depth, l.key, l.height, l.hash)).collect();
    map.delete(&b("45")).unwrap();
    let after: Vec<(usize, Vec<u8>, i32, u64)> =
        map.dump_tree().unwrap().into_iter().map(|l| (l.depth, l.key, l.height, l.hash)).collect();
    assert_eq!(before, after);
}

#[test]
fn ll_rotation_shape() {
    let mut map = SovereignAVL::new();
    map.insert(b("c"), b("3")).unwrap();
    map.insert(b("b"), b("2")).unwrap();
    map.insert(b("a"), b("1")).unwrap();
    let d: Vec<(usize, Vec<u8>, i32)> =
        map.dump_tree().unwrap().into_iter().map(|l| (l.depth, l.key, l.height)).collect();
    assert_eq!(d, vec![(0, b("b"), 2), (1, b("a"), 1), (1, b("c"), 1)]);
}

#[test]
fn delete_rotation_shape() {
    let mut map = SovereignAVL::new();
    for k in ["7", "4", "8", "2", "5", "9", "1", "3", "6"] {
        map.insert(b(k), b(k)).unwrap();
    }
    map.delete(&b("9")).unwrap();
    let d: Vec<(usize, Vec<u8>, i32)> =
        map.dump_tree().unwrap().into_iter().map(|l| (l.depth, l.key, l.height)).collect();
    assert_eq!(
        d,
        vec![
            (0, b("4"), 4),
            (1, b("2"), 2),
            (2, b("1"), 1),
            (2, b("3"), 1),
            (1, b("7"), 3),
            (2, b("5"), 2),
            (3, b("6"), 1),
            (2, b("8"), 1),
        ]
    );
    map.validate_invariants().unwrap();
}

#[test]
fn corruption_stays_in_one_node() {
    let mut map = corrupted_tree();
    // slots are handed out in insertion order: "20" lives in slot 3
    map.internal_corrupt_node(&b("20")).unwrap();
    for i in 0..7u32 {
        if i == 3 {
            assert_eq!(map.verify_integrity(i), Err(SovereignError::IntegrityViolation(3)));
        } else {
            assert_eq!(map.verify_integrity(i), Ok(()));
        }
    }
    assert_eq!(map.full_audit(), Err(SovereignError::IntegrityViolation(3)));
    // a search whose path avoids slot 3 reports nothing
    assert_eq!(map.get(&b("65")).unwrap(), None);
}

#[test]
fn validation_reports_the_first_bad_node_in_pre_order() {
    let mut map = corrupted_tree();
    // "60" (slot 5) sits in the right subtree, "20" (slot 3) in the left one
    map.internal_corrupt_node(&b("60")).unwrap();
    map.internal_corrupt_node(&b("20")).unwrap();
    assert_eq!(map.validate_invariants(), Err(SovereignError::IntegrityViolation(3)));
    assert_eq!(map.full_audit(), Err(SovereignError::IntegrityViolation(3)));
}

#[test]
fn dump_has_one_line_per_pair() {
    let mut map = SovereignAVL::new();
    for k in ["m", "c", "x", "a", "e"] {
        map.insert(b(k), b(k)).unwrap();
    }
    let d = map.dump_tree().unwrap();
    let mut it = map.iter();
    let mut n: usize = 0;
    while let Some(_) = it.next() {
        n += 1;
    }
    assert_eq!(d.len(), n);
    assert_eq!(d.len(), 5);
    let keys: Vec<(usize, Vec<u8>)> = d.into_iter().map(|l| (l.depth, l.key)).collect();
    assert_eq!(keys, vec![(0, b("m")), (1, b("c")), (2, b("a")), (2, b("e")), (1, b("x"))]);
}
