use hash_ring::{binary_search_next_greatest, vnode_key_bytes, HashRing, VNODES_PER_SERVER};

fn keys(n: usize) -> Vec<Vec<u8>> {
    (0..n).map(|i| format!("key-{}", i).into_bytes()).collect()
}

fn ring_with(ids: &[u32]) -> HashRing {
    let mut r = HashRing::new();
    for &id in ids {
        r.add_server_with_id(id);
    }
    r
}

#[test]
fn search_finds_first_greater() {
    let v = vec![10u32, 20, 30];
    assert_eq!(binary_search_next_greatest(&v, 5), 0);
    assert_eq!(binary_search_next_greatest(&v, 10), 1);
    assert_eq!(binary_search_next_greatest(&v, 15), 1);
    assert_eq!(binary_search_next_greatest(&v, 20), 2);
    assert_eq!(binary_search_next_greatest(&v, 25), 2);
}

#[test]
fn search_wraps_at_and_past_last() {
    let v = vec![10u32, 20, 30];
    assert_eq!(binary_search_next_greatest(&v, 30), 0);
    assert_eq!(binary_search_next_greatest(&v, 31), 0);
    assert_eq!(binary_search_next_greatest(&v, u32::MAX), 0);
    let one = vec![7u32];
    assert_eq!(binary_search_next_greatest(&one, 0), 0);
    assert_eq!(binary_search_next_greatest(&one, 7), 0);
}

#[test]
fn vnode_key_text() {
    assert_eq!(vnode_key_bytes(42, 7), b"s:42:v:7".to_vec());
    assert_eq!(vnode_key_bytes(0, 0), b"s:0:v:0".to_vec());
    assert_eq!(vnode_key_bytes(u32::MAX, 99), b"s:4294967295:v:99".to_vec());
    assert_eq!(vnode_key_bytes(1000, 10), b"s:1000:v:10".to_vec());
}

#[test]
fn vnode_id_is_checksum_of_key_on_empty_ring() {
    let r = HashRing::new();
    assert_eq!(r.generate_vnode_id(42, 7), crc32fast::hash(b"s:42:v:7"));
    assert_eq!(r.generate_vnode_id(1, 0), crc32fast::hash(b"s:1:v:0"));
}

#[test]
fn vnode_id_probes_past_taken_position() {
    let r = ring_with(&[7]);
    let first = crc32fast::hash(b"s:7:v:0");
    assert_eq!(r.owner_of(first), Some(7));
    let next = r.generate_vnode_id(7, 0);
    assert_ne!(next, first);
    assert_eq!(r.owner_of(next), None);
    let mut expected = first;
    while r.owner_of(expected).is_some() {
        expected = expected.wrapping_add(1);
    }
    assert_eq!(next, expected);
}

#[test]
fn empty_ring() {
    let r = HashRing::new();
    assert!(r.physical_ids().is_empty());
    assert!(r.virtual_ids().is_empty());
    assert!(r.distribution().is_empty());
}

#[test]
fn seeded_ring_has_no_virtual_nodes_yet() {
    let r = HashRing::new_with_servers(4);
    assert_eq!(r.physical_ids().len(), 4);
    assert!(r.virtual_ids().is_empty());
    let d = r.distribution();
    assert_eq!(d.len(), 4);
    assert!(d.iter().all(|(_, c)| c.is_none()));
}

#[test]
fn materialization_covers_every_server() {
    let mut r = HashRing::new_with_servers(4);
    r.init_all_servers();
    let ids = r.virtual_ids().clone();
    assert_eq!(ids.len(), 4 * VNODES_PER_SERVER as usize);
    assert!(ids.windows(2).all(|w| w[0] < w[1]));
    for &p in r.physical_ids() {
        let owned = ids.iter().filter(|&&v| r.owner_of(v) == Some(p)).count();
        assert_eq!(owned, VNODES_PER_SERVER as usize);
    }
}

#[test]
fn add_server_returns_new_member() {
    let mut r = HashRing::new_with_servers(2);
    r.init_all_servers();
    let id = r.add_server();
    assert_eq!(r.physical_ids().len(), 3);
    assert_eq!(*r.physical_ids().last().unwrap(), id);
    assert_eq!(r.virtual_ids().len(), 3 * VNODES_PER_SERVER as usize);
    let owned = r.virtual_ids().iter().filter(|&&v| r.owner_of(v) == Some(id)).count();
    assert_eq!(owned, VNODES_PER_SERVER as usize);
}

#[test]
fn placement_is_deterministic() {
    let a = ring_with(&[11, 22, 33]);
    let b = ring_with(&[11, 22, 33]);
    assert_eq!(a.virtual_ids(), b.virtual_ids());
}

#[test]
fn repeated_lookup_same_node() {
    let mut r = ring_with(&[1, 2, 3, 4]);
    for k in keys(200) {
        let a = r.pick_server_on_ring(&k);
        let b = r.pick_server_on_ring(&k);
        assert_eq!(a, b);
    }
}

#[test]
fn lookup_is_owner_of_next_vnode() {
    let mut r = ring_with(&[1, 2, 3]);
    let ids = r.virtual_ids().clone();
    for k in keys(100) {
        let h = crc32fast::hash(&k);
        let next = ids.iter().copied().find(|&v| v > h).unwrap_or(ids[0]);
        assert_eq!(r.pick_server_on_ring(&k), r.owner_of(next).unwrap());
    }
}

#[test]
fn add_then_remove_restores_lookups() {
    let mut r = ring_with(&[5, 6, 7, 8]);
    let before_ids = r.virtual_ids().clone();
    let ks = keys(1000);
    let before: Vec<u32> = ks.iter().map(|k| r.pick_server_on_ring(k)).collect();
    let added = r.add_server();
    r.remove_server(added);
    assert_eq!(r.physical_ids(), &vec![5, 6, 7, 8]);
    assert_eq!(r.virtual_ids(), &before_ids);
    let after: Vec<u32> = ks.iter().map(|k| r.pick_server_on_ring(k)).collect();
    assert_eq!(before, after);
}

#[test]
fn hash_above_every_vnode_wraps_to_smallest() {
    let mut r = ring_with(&[1, 2]);
    let ids = r.virtual_ids().clone();
    let smallest_owner = r.owner_of(ids[0]).unwrap();
    assert_eq!(r.pick_server_for_hash(u32::MAX), smallest_owner);
    let last = *ids.last().unwrap();
    assert_eq!(r.pick_server_for_hash(last), smallest_owner);
    if last < u32::MAX {
        assert_eq!(r.pick_server_for_hash(last + 1), smallest_owner);
    }
}

#[test]
fn hash_exactly_on_vnode_goes_to_next() {
    let mut r = ring_with(&[1, 2]);
    let ids = r.virtual_ids().clone();
    let owner_of_second = r.owner_of(ids[1]).unwrap();
    assert_eq!(r.pick_server_for_hash(ids[0]), owner_of_second);
    let owner_of_first = r.owner_of(ids[0]).unwrap();
    assert_eq!(r.pick_server_for_hash(ids[0] - 1), owner_of_first);
}

#[test]
fn every_server_gets_load() {
    let mut r = ring_with(&[101, 202, 303, 404]);
    for k in keys(10_000) {
        r.pick_server_on_ring(&k);
    }
    let d = r.distribution();
    assert_eq!(d.len(), 4);
    let mut total = 0u32;
    for (_, c) in &d {
        let c = c.expect("every server is hit");
        assert!(c > 0);
        total += c;
    }
    assert_eq!(total, 10_000);
}

#[test]
fn removing_other_server_keeps_key() {
    let mut r = HashRing::new_with_servers(2);
    r.init_all_servers();
    let n = r.pick_server_on_ring(b"x");
    let other = *r.physical_ids().iter().find(|&&p| p != n).unwrap();
    r.remove_server(other);
    assert_eq!(r.pick_server_on_ring(b"x"), n);
    assert_eq!(r.physical_ids(), &vec![n]);
}

#[test]
fn removing_unknown_server_changes_nothing() {
    let mut r = ring_with(&[1, 2]);
    let ids = r.virtual_ids().clone();
    r.remove_server(99);
    assert_eq!(r.physical_ids(), &vec![1, 2]);
    assert_eq!(r.virtual_ids(), &ids);
}

#[test]
fn removing_unmaterialized_server_drops_it() {
    let mut r = HashRing::new_with_servers(3);
    let victim = r.physical_ids()[1];
    r.remove_server(victim);
    assert_eq!(r.physical_ids().len(), 2);
    assert!(!r.physical_ids().contains(&victim));
    assert!(r.virtual_ids().is_empty());
}

#[test]
fn counters_count_and_clear() {
    let mut r = ring_with(&[1, 2]);
    let n = r.pick_server_on_ring(b"abc");
    r.pick_server_on_ring(b"abc");
    r.pick_server_on_ring(b"abc");
    let d = r.distribution();
    for (p, c) in &d {
        if *p == n {
            assert_eq!(*c, Some(3));
        } else {
            assert_eq!(*c, None);
        }
    }
    r.clear_counters();
    assert!(r.distribution().iter().all(|(_, c)| c.is_none()));
}

#[test]
fn duplicate_server_id_gets_fresh_positions() {
    let r = ring_with(&[9, 9]);
    let ids = r.virtual_ids();
    assert_eq!(ids.len(), 2 * VNODES_PER_SERVER as usize);
    assert!(ids.windows(2).all(|w| w[0] < w[1]));
    assert!(ids.iter().all(|&v| r.owner_of(v) == Some(9)));
}
