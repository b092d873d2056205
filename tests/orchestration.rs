use lod_terrain::lod_tree::{ChunkId, LODLeaf, LODTree};
use lod_terrain::policy::LODSettings;
use lod_terrain::region::{Point, Region};
use lod_terrain::terrain::Terrain;

fn close_settings() -> LODSettings {
    LODSettings { max: 2000, layer_penalty: 1000, min: 0 }
}

fn thousand_square_terrain() -> Terrain {
    Terrain::new(2, Region::new(0, 0, 1000, 1000))
}

fn count_chunks(t: &LODTree) -> usize {
    let mut out = Vec::new();
    t.get_child_chunks_recursive(&mut out);
    out.len()
}

#[test]
fn root_subdivides_and_partitions() {
    let mut terrain = thousand_square_terrain();
    let spawned = terrain.refresh(Point::new(500, 500), &close_settings());
    let q = match &terrain.lod_tree.leaf {
        LODLeaf::Children(q) => q,
        _ => panic!("root must subdivide"),
    };
    assert_eq!(q.min_min.boundary, Region::new(0, 0, 500, 500));
    assert_eq!(q.max_min.boundary, Region::new(500, 0, 1000, 500));
    assert_eq!(q.min_max.boundary, Region::new(0, 500, 500, 1000));
    assert_eq!(q.max_max.boundary, Region::new(500, 500, 1000, 1000));
    for child in [&q.min_min, &q.max_min, &q.min_max, &q.max_max] {
        assert_eq!(child.depth, 1);
    }
    // every depth-1 quadrant is near enough too; depth 2 is the limit
    assert_eq!(spawned.len(), 16);
    assert_eq!(count_chunks(&terrain.lod_tree), 16);
    for (id, region) in &spawned {
        assert!(terrain.has_pending_task(*id));
        assert!(!terrain.is_marked_for_deletion(*id));
        assert_eq!(region.max.x - region.min.x, 250);
    }
}

#[test]
fn observer_leaving_bounds_collapses_tree() {
    let s = close_settings();
    let mut terrain = thousand_square_terrain();
    let spawned = terrain.refresh(Point::new(500, 500), &s);
    let again = terrain.refresh(Point::new(50000, 50000), &s);
    assert!(again.is_empty());
    assert!(matches!(terrain.lod_tree.leaf, LODLeaf::Pending));
    for (id, _) in &spawned {
        assert!(terrain.is_marked_for_deletion(*id));
    }
    // the following refresh gives the root a chunk of its own
    let third = terrain.refresh(Point::new(50000, 50000), &s);
    assert_eq!(third.len(), 1);
    assert_eq!(third[0].1, Region::new(0, 0, 1000, 1000));
    assert!(matches!(terrain.lod_tree.leaf, LODLeaf::Chunk(_)));
}

#[test]
fn refresh_on_refined_tree_changes_nothing() {
    let s = close_settings();
    let mut terrain = thousand_square_terrain();
    terrain.refresh(Point::new(500, 500), &s);
    let next = terrain.next_chunk;
    let records = terrain.chunks.clone();
    let again = terrain.refresh(Point::new(500, 500), &s);
    assert!(again.is_empty());
    assert_eq!(terrain.next_chunk, next);
    assert_eq!(terrain.chunks, records);
}

#[test]
fn garbage_waits_for_pending_generation() {
    let s = close_settings();
    let mut terrain = thousand_square_terrain();
    let spawned = terrain.refresh(Point::new(500, 500), &s);
    terrain.refresh(Point::new(50000, 50000), &s);
    // all retired, none generated yet: nothing may go
    assert!(terrain.collect_garbage().is_empty());
    assert_eq!(terrain.chunks.len(), 16);
    // a late result for a retired chunk is not attached, but frees it
    let first = spawned[0].0;
    assert!(!terrain.finish_generation(first));
    assert!(!terrain.has_pending_task(first));
    assert_eq!(terrain.collect_garbage(), vec![first]);
    assert_eq!(terrain.chunks.len(), 15);
    assert!(!terrain.is_marked_for_deletion(first));
}

#[test]
fn finished_live_chunk_is_attached_and_kept() {
    let s = close_settings();
    let mut terrain = thousand_square_terrain();
    let spawned = terrain.refresh(Point::new(500, 500), &s);
    let id = spawned[3].0;
    assert!(terrain.finish_generation(id));
    assert!(!terrain.has_pending_task(id));
    // a second report attaches nothing
    assert!(!terrain.finish_generation(id));
    assert!(!terrain.finish_generation(ChunkId(999)));
    assert!(terrain.collect_garbage().is_empty());
    assert_eq!(terrain.chunks.len(), 16);
}

#[test]
fn regenerate_retires_everything() {
    let s = close_settings();
    let mut terrain = thousand_square_terrain();
    let spawned = terrain.refresh(Point::new(500, 500), &s);
    for (id, _) in &spawned {
        terrain.finish_generation(*id);
    }
    terrain.regenerate();
    assert!(matches!(terrain.lod_tree.leaf, LODLeaf::Pending));
    let removed = terrain.collect_garbage();
    let expected: Vec<ChunkId> = spawned.iter().map(|s| s.0).collect();
    assert_eq!(removed, expected);
    assert!(terrain.chunks.is_empty());
    let fresh = terrain.refresh(Point::new(500, 500), &s);
    assert_eq!(fresh.len(), 16);
    assert_eq!(fresh[0].0, ChunkId(16));
}

#[test]
fn chunk_numbers_exhausted_leave_nodes_pending() {
    let mut terrain = Terrain::new(0, Region::new(0, 0, 10, 10));
    terrain.next_chunk = u64::MAX;
    let spawned = terrain.refresh(Point::new(5, 5), &close_settings());
    assert!(spawned.is_empty());
    assert!(matches!(terrain.lod_tree.leaf, LODLeaf::Pending));
}

#[test]
fn two_refreshes_settle_after_observer_moves() {
    let s = close_settings();
    let mut terrain = thousand_square_terrain();
    terrain.refresh(Point::new(500, 500), &s);
    terrain.refresh(Point::new(900, 100), &s);
    terrain.refresh(Point::new(900, 100), &s);
    let next = terrain.next_chunk;
    let records = terrain.chunks.clone();
    assert!(terrain.refresh(Point::new(900, 100), &s).is_empty());
    assert_eq!(terrain.next_chunk, next);
    assert_eq!(terrain.chunks, records);
}
