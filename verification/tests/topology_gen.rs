use rust_distributed_sys_challenge::numset::{contains_u64, diff_vec, insert_new, merge_into};
use rust_distributed_sys_challenge::rng::Lcg64;
use rust_distributed_sys_challenge::text::node_name;
use rust_distributed_sys_challenge::topology::generate_small_world_topology;

#[test]
fn generator_is_deterministic() {
    let a = generate_small_world_topology(9, 4, 300);
    let b = generate_small_world_topology(9, 4, 300);
    assert_eq!(a.len(), 9);
    for i in 0..9 {
        assert_eq!(a[i].0, b[i].0);
        assert_eq!(a[i].1, b[i].1);
    }
}

#[test]
fn generator_is_symmetric() {
    let map = generate_small_world_topology(7, 4, 300);
    for a in 0..7 {
        for b in 0..7 {
            if a == b {
                continue;
            }
            let a_has_b = map[a].1.contains(&map[b].0);
            let b_has_a = map[b].1.contains(&map[a].0);
            assert_eq!(a_has_b, b_has_a, "asymmetry between {} and {}", a, b);
        }
    }
}

#[test]
fn generator_names_nodes_in_order() {
    let map = generate_small_world_topology(12, 4, 0);
    for (i, entry) in map.iter().enumerate() {
        assert_eq!(entry.0, format!("n{}", i));
        assert!(!entry.1.contains(&entry.0));
    }
}

#[test]
fn ring_lattice_without_rewiring() {
    // With rewiring probability zero, node 0 of a 6-node cluster with
    // cluster count 4 (one clockwise successor) neighbors exactly n1 and n5.
    let map = generate_small_world_topology(6, 4, 0);
    let mut nbrs = map[0].1.clone();
    nbrs.sort();
    assert_eq!(nbrs, vec!["n1".to_string(), "n5".to_string()]);
}

#[test]
fn node_names_render_decimals() {
    assert_eq!(node_name(0), "n0");
    assert_eq!(node_name(7), "n7");
    assert_eq!(node_name(10), "n10");
    assert_eq!(node_name(1234), "n1234");
    assert_eq!(node_name(u64::MAX), format!("n{}", u64::MAX));
}

#[test]
fn lcg_sequence_from_seed_one() {
    let mut rng = Lcg64::seed_from_u64(1);
    assert_eq!(rng.next_u64(), 7806831264735756412);
    assert_eq!(rng.next_u64(), 9396908728118811419);
}

#[test]
fn numeric_set_operations() {
    let mut v: Vec<u64> = Vec::new();
    insert_new(&mut v, 3);
    insert_new(&mut v, 1);
    insert_new(&mut v, 3);
    assert_eq!(v, vec![3, 1]);
    assert!(contains_u64(&v, 1));
    assert!(!contains_u64(&v, 2));

    let mut w: Vec<u64> = vec![1, 9];
    merge_into(&mut w, &v);
    assert_eq!(w, vec![1, 9, 3]);

    let d = diff_vec(&w, &v);
    assert_eq!(d, vec![9]);
    let none = diff_vec(&v, &w);
    assert!(none.is_empty());
}
