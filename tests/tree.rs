use lod_terrain::lod_tree::{ChunkId, Decision, LODLeaf, LODTree};
use lod_terrain::policy::LODSettings;
use lod_terrain::region::{Point, Region};

fn square(size: i32) -> Region {
    Region::new(0, 0, size, size)
}

fn near_settings() -> LODSettings {
    LODSettings { max: 2000, layer_penalty: 1000, min: 0 }
}

#[test]
fn new_tree_is_pending_root() {
    let t = LODTree::new(3, square(100));
    assert_eq!(t.depth, 0);
    assert_eq!(t.max_depth, 3);
    assert_eq!(t.boundary, square(100));
    assert!(matches!(t.leaf, LODLeaf::Pending));
}

#[test]
fn collapse_splits_into_quadrants() {
    let mut t = LODTree::new(2, square(1000));
    assert!(t.can_collapse());
    assert!(t.collapse());
    match &t.leaf {
        LODLeaf::Children(q) => {
            let kids = [&q.min_min, &q.max_min, &q.min_max, &q.max_max];
            let expected = [
                Region::new(0, 0, 500, 500),
                Region::new(500, 0, 1000, 500),
                Region::new(0, 500, 500, 1000),
                Region::new(500, 500, 1000, 1000),
            ];
            for (k, e) in kids.iter().zip(expected.iter()) {
                assert_eq!(k.boundary, *e);
                assert_eq!(k.depth, 1);
                assert_eq!(k.max_depth, 2);
                assert!(matches!(k.leaf, LODLeaf::Pending));
            }
        }
        _ => panic!("expected children"),
    }
    assert!(!t.can_collapse());
    assert!(!t.collapse());
}

#[test]
fn collapse_refused_at_depth_limit() {
    let mut t = LODTree::new(0, square(1000));
    assert!(!t.can_collapse());
    assert!(!t.collapse());
    assert!(matches!(t.leaf, LODLeaf::Pending));
}

#[test]
fn collapse_refused_on_degenerate_region() {
    let mut flat = LODTree::new(4, Region::new(0, 0, 100, 0));
    assert!(!flat.collapse());
    assert!(matches!(flat.leaf, LODLeaf::Pending));
    let mut thin = LODTree::new(4, Region::new(0, 0, 1, 100));
    assert!(!thin.collapse());
}

#[test]
fn collapse_from_chunk_state() {
    let mut t = LODTree::new(1, square(10));
    t.leaf = LODLeaf::Chunk(ChunkId(7));
    assert!(t.collapse());
    assert!(matches!(t.leaf, LODLeaf::Children(_)));
}

#[test]
fn reset_returns_to_pending() {
    let mut t = LODTree::new(2, square(8));
    assert!(!t.reset());
    t.collapse();
    assert!(t.reset());
    assert!(matches!(t.leaf, LODLeaf::Pending));
    t.leaf = LODLeaf::Chunk(ChunkId(1));
    assert!(t.reset());
    assert!(matches!(t.leaf, LODLeaf::Pending));
}

#[test]
fn child_chunks_depth_first() {
    let mut t = LODTree::new(2, square(16));
    t.collapse();
    if let LODLeaf::Children(q) = &mut t.leaf {
        q.min_min.leaf = LODLeaf::Chunk(ChunkId(1));
        q.max_min.collapse();
        if let LODLeaf::Children(inner) = &mut q.max_min.leaf {
            inner.min_max.leaf = LODLeaf::Chunk(ChunkId(2));
            inner.max_max.leaf = LODLeaf::Chunk(ChunkId(3));
        }
        q.max_max.leaf = LODLeaf::Chunk(ChunkId(4));
    }
    let mut out = vec![ChunkId(0)];
    t.get_child_chunks_recursive(&mut out);
    assert_eq!(out, vec![ChunkId(0), ChunkId(1), ChunkId(2), ChunkId(3), ChunkId(4)]);
}

#[test]
fn should_collapse_follows_distance() {
    let t = LODTree::new(2, square(1000));
    assert!(t.should_collapse(&near_settings(), Point::new(500, 500)));
    assert!(!t.should_collapse(&near_settings(), Point::new(50000, 50000)));
}

#[test]
fn decisions_for_each_state() {
    let s = near_settings();
    let near = Point::new(500, 500);
    let far = Point::new(50000, 50000);
    let mut t = LODTree::new(2, square(1000));
    assert_eq!(t.refinement_decision(near, &s), Decision::Subdivide);
    assert_eq!(t.refinement_decision(far, &s), Decision::SpawnChunk);
    t.leaf = LODLeaf::Chunk(ChunkId(3));
    assert_eq!(t.refinement_decision(near, &s), Decision::Subdivide);
    assert_eq!(t.refinement_decision(far, &s), Decision::Keep);
    t.leaf = LODLeaf::Pending;
    t.collapse();
    assert_eq!(t.refinement_decision(near, &s), Decision::Keep);
    assert_eq!(t.refinement_decision(far, &s), Decision::Collapse);
    let bottom = LODTree::new(0, square(1000));
    assert_eq!(bottom.refinement_decision(near, &s), Decision::SpawnChunk);
}

#[test]
fn refine_numbers_new_chunks_in_order() {
    let s = near_settings();
    let mut t = LODTree::new(1, square(1000));
    let mut next = 10u64;
    let mut retired = Vec::new();
    let mut spawned = Vec::new();
    t.refine(Point::new(500, 500), &s, &mut next, &mut retired, &mut spawned);
    assert_eq!(next, 14);
    assert!(retired.is_empty());
    let ids: Vec<ChunkId> = spawned.iter().map(|s| s.0).collect();
    assert_eq!(ids, vec![ChunkId(10), ChunkId(11), ChunkId(12), ChunkId(13)]);
    assert_eq!(spawned[1].1, Region::new(500, 0, 1000, 500));
}
