use spatial_hash::cell::GridCell;
use spatial_hash::hashing::{PartialSpatialHash, SpatialHash};
use spatial_hash::index::SpatialHashMap;
use spatial_hash::queries::cube;

const ROOT_FRAME: u64 = 1;
const CHILD_FRAME: u64 = 2;

#[test]
fn get_hash() {
    let a: u64 = 10;
    let b: u64 = 11;
    let c: u64 = 12;
    let x: u64 = 20;
    let y: u64 = 21;
    let z: u64 = 22;

    let mut map = SpatialHashMap::new();
    let hash_a = SpatialHash::new(ROOT_FRAME, &GridCell::new(0, 1, 2));
    let hash_b = SpatialHash::new(ROOT_FRAME, &GridCell::new(0, 1, 2));
    let hash_c = SpatialHash::new(ROOT_FRAME, &GridCell::new(5, 5, 5));
    let hash_x = SpatialHash::new(CHILD_FRAME, &GridCell::new(0, 1, 2));
    let hash_y = SpatialHash::new(CHILD_FRAME, &GridCell::new(0, 1, 2));
    let hash_z = SpatialHash::new(CHILD_FRAME, &GridCell::new(5, 5, 5));
    map.upsert(a, hash_a);
    map.upsert(b, hash_b);
    map.upsert(c, hash_c);
    map.upsert(x, hash_x);
    map.upsert(y, hash_y);
    map.upsert(z, hash_z);

    assert_eq!(hash_a, hash_b, "Same parent, same cell");
    assert_ne!(hash_a, hash_c, "Same parent, different cell");
    assert_eq!(hash_x, hash_y, "Same parent, same cell");
    assert_ne!(hash_x, hash_z, "Same parent, different cell");
    assert_ne!(hash_a, hash_x, "Same cell, different parent");

    let entities = map.get(&hash_a).unwrap();
    assert!(entities.contains(&a));
    assert!(entities.contains(&b));
    assert!(!entities.contains(&c));
    assert!(!entities.contains(&x));
    assert!(!entities.contains(&y));
    assert!(!entities.contains(&z));
}

#[test]
fn neighbors() {
    let a: u64 = 1;
    let b: u64 = 2;
    let c: u64 = 3;

    let mut map = SpatialHashMap::new();
    map.upsert(a, SpatialHash::new(ROOT_FRAME, &GridCell::new(0, 0, 0)));
    map.upsert(b, SpatialHash::new(ROOT_FRAME, &GridCell::new(1, 1, 1)));
    map.upsert(c, SpatialHash::new(ROOT_FRAME, &GridCell::new(2, 2, 2)));

    let near = map.neighbors_flattened(1, ROOT_FRAME, &GridCell::new(0, 0, 0));
    assert!(near.contains(&a));
    assert!(near.contains(&b));
    assert!(!near.contains(&c));

    let flooded = map.neighbors_flood(1, ROOT_FRAME, &GridCell::new(0, 0, 0));
    let flooded_entities: Vec<u64> = flooded.values().flat_map(|v| v.iter().copied()).collect();
    assert!(flooded_entities.contains(&a));
    assert!(flooded_entities.contains(&b));
    assert!(flooded_entities.contains(&c));
}

#[test]
fn digest_deterministic_same_frame_same_cell() {
    let h1 = SpatialHash::new(7, &GridCell::new(-3, 0, 9));
    let h2 = SpatialHash::new(7, &GridCell::new(-3, 0, 9));
    assert_eq!(h1, h2);
    let partial = PartialSpatialHash::new(7);
    assert_eq!(partial.generate(&GridCell::new(-3, 0, 9)), h1);
    assert_eq!(partial.generate(&GridCell::new(-3, 0, 9)), h1);
}

#[test]
fn digest_differs_across_cells() {
    // A battery of distinct adjacent and non-adjacent cells under one frame:
    // all digests pairwise distinct.
    let mut digests: Vec<u64> = Vec::new();
    let partial = PartialSpatialHash::new(ROOT_FRAME);
    for cell in cube(&GridCell::new(0, 0, 0), 1) {
        digests.push(partial.generate(&cell).bits());
    }
    digests.push(partial.generate(&GridCell::new(100, -200, 300)).bits());
    // No structural cancellation: permuted components must not collide.
    digests.push(partial.generate(&GridCell::new(1, 2, 3)).bits());
    digests.push(partial.generate(&GridCell::new(2, 1, 3)).bits());
    digests.push(partial.generate(&GridCell::new(3, 2, 1)).bits());
    for i in 0..digests.len() {
        for j in 0..i {
            assert_ne!(digests[i], digests[j]);
        }
    }
}

#[test]
fn digest_differs_across_frames() {
    let cell = GridCell::new(4, -4, 4);
    let mut digests: Vec<u64> = Vec::new();
    for frame in 0..16u64 {
        digests.push(SpatialHash::new(frame, &cell).bits());
    }
    for i in 0..digests.len() {
        for j in 0..i {
            assert_ne!(digests[i], digests[j]);
        }
    }
}

#[test]
fn upsert_idempotent() {
    let mut once = SpatialHashMap::new();
    let d = SpatialHash::new(ROOT_FRAME, &GridCell::new(1, 2, 3));
    once.upsert(5, SpatialHash::new(ROOT_FRAME, &GridCell::new(9, 9, 9)));
    once.upsert(7, d);

    let mut twice = SpatialHashMap::new();
    twice.upsert(5, SpatialHash::new(ROOT_FRAME, &GridCell::new(9, 9, 9)));
    twice.upsert(7, d);
    twice.upsert(7, d);

    let mut snapshot_once = once.iter();
    let mut snapshot_twice = twice.iter();
    snapshot_once.sort();
    snapshot_twice.sort();
    for pair in snapshot_once.iter_mut() {
        pair.1.sort();
    }
    for pair in snapshot_twice.iter_mut() {
        pair.1.sort();
    }
    assert_eq!(snapshot_once, snapshot_twice);
}

#[test]
fn upsert_moves_entity() {
    let mut map = SpatialHashMap::new();
    let d1 = SpatialHash::new(ROOT_FRAME, &GridCell::new(0, 0, 0));
    let d2 = SpatialHash::new(ROOT_FRAME, &GridCell::new(8, 8, 8));
    map.upsert(41, d2);
    map.upsert(40, d1);
    map.upsert(40, d2);
    assert!(map.get(&d1).is_none());
    let bucket = map.get(&d2).unwrap();
    assert!(bucket.contains(&40));
    assert!(bucket.contains(&41));
    assert_eq!(bucket.len(), 2);
}

#[test]
fn remove_then_reinsert() {
    let mut map = SpatialHashMap::new();
    let d = SpatialHash::new(ROOT_FRAME, &GridCell::new(2, 4, 6));
    map.upsert(9, d);
    map.remove(9);
    for (_digest, entities) in map.iter() {
        assert!(!entities.contains(&9));
    }
    assert!(map.get(&d).is_none());
    map.remove(9);
    map.upsert(9, d);
    assert_eq!(map.get(&d).unwrap().as_slice(), &[9]);
}

#[test]
fn neighbors_radius_zero() {
    let mut map = SpatialHashMap::new();
    let origin = GridCell::new(3, 3, 3);
    map.upsert(1, SpatialHash::new(ROOT_FRAME, &origin));
    map.upsert(2, SpatialHash::new(ROOT_FRAME, &GridCell::new(3, 3, 4)));
    let found = map.neighbors(0, ROOT_FRAME, &origin);
    assert_eq!(found.len(), 1);
    assert_eq!(found[0].1, origin);
    assert_eq!(found[0].2.as_slice(), &[1]);
    let none = map.neighbors(0, ROOT_FRAME, &GridCell::new(9, 9, 9));
    assert!(none.is_empty());
}

#[test]
fn cube_radius_one_has_27_cells() {
    let cells = cube(&GridCell::new(0, 1, 2), 1);
    assert_eq!(cells.len(), 27);
    let origin_only = cube(&GridCell::new(0, 1, 2), 0);
    assert_eq!(origin_only.len(), 1);
    assert_eq!(origin_only[0], GridCell::new(0, 1, 2));
}

#[test]
fn flood_reaches_chain_but_not_isolated() {
    let mut map = SpatialHashMap::new();
    map.upsert(1, SpatialHash::new(ROOT_FRAME, &GridCell::new(0, 0, 0)));
    map.upsert(2, SpatialHash::new(ROOT_FRAME, &GridCell::new(1, 1, 1)));
    map.upsert(3, SpatialHash::new(ROOT_FRAME, &GridCell::new(2, 2, 2)));
    map.upsert(4, SpatialHash::new(ROOT_FRAME, &GridCell::new(50, 50, 50)));
    let flooded = map.neighbors_flood(1, ROOT_FRAME, &GridCell::new(0, 0, 0));
    let entities: Vec<u64> = flooded.values().flat_map(|v| v.iter().copied()).collect();
    assert!(entities.contains(&1));
    assert!(entities.contains(&2));
    assert!(entities.contains(&3));
    assert!(!entities.contains(&4));
}

#[test]
fn update_applies_batch_in_order() {
    let mut map = SpatialHashMap::new();
    let cell_a = GridCell::new(0, 0, 0);
    let cell_b = GridCell::new(5, 5, 5);
    let changes = vec![
        (1u64, ROOT_FRAME, cell_a),
        (2u64, ROOT_FRAME, cell_a),
        (1u64, ROOT_FRAME, cell_b),
    ];
    map.update(&changes);
    let at_a = map.get(&SpatialHash::new(ROOT_FRAME, &cell_a)).unwrap();
    assert_eq!(at_a.as_slice(), &[2]);
    let at_b = map.get(&SpatialHash::new(ROOT_FRAME, &cell_b)).unwrap();
    assert_eq!(at_b.as_slice(), &[1]);
}

#[test]
fn iter_lists_every_bucket() {
    let mut map = SpatialHashMap::new();
    let d1 = SpatialHash::new(ROOT_FRAME, &GridCell::new(0, 0, 0));
    let d2 = SpatialHash::new(CHILD_FRAME, &GridCell::new(0, 0, 0));
    map.upsert(1, d1);
    map.upsert(2, d1);
    map.upsert(3, d2);
    let snapshot = map.iter();
    assert_eq!(snapshot.len(), 2);
    for (digest, entities) in snapshot {
        if digest == d1.bits() {
            assert_eq!(entities.len(), 2);
            assert!(entities.contains(&1) && entities.contains(&2));
        } else {
            assert_eq!(digest, d2.bits());
            assert_eq!(entities.as_slice(), &[3]);
        }
    }
}

#[test]
fn offset_adds_componentwise() {
    let cell = GridCell::new(1, 2, 3);
    let moved = cell.offset(1, 0, -1);
    assert_eq!(moved, GridCell::new(2, 2, 2));
}
