use vstd::prelude::*;
use crate::lod_tree::{ChunkId, LODLeaf, LODTree};
use crate::policy::LODSettings;
use crate::refine::{lemma_pass, lemma_settled_fixed_point, numbered_from, pass, settled};
use crate::region::{Point, Region};

verus! {

/// The scene-side state of one spawned chunk.
#[derive(Clone, Copy, Debug, PartialEq, Eq, Structural)]
pub struct ChunkRecord {
    pub id: ChunkId,
    /// The region that the chunk's mesh covers.
    pub region: Region,
    /// Its generation task has not reported back yet.
    pub pending: bool,
    /// It has been retired and waits to be removed from the scene.
    pub marked: bool,
}

/// The terrain: the level-of-detail tree and every chunk that it has spawned
/// and that is still in the scene.
pub struct Terrain {
    pub lod_tree: LODTree,
    /// The number that the next spawned chunk gets.
    pub next_chunk: u64,
    /// One record per chunk in the scene, oldest first.
    pub chunks: Vec<ChunkRecord>,
}

impl ChunkRecord {
    pub open spec fn retired(self) -> ChunkRecord {
        ChunkRecord { id: self.id, region: self.region, pending: self.pending, marked: true }
    }

    pub open spec fn generated(self) -> ChunkRecord {
        ChunkRecord { id: self.id, region: self.region, pending: false, marked: self.marked }
    }

    /// Retired, and no generation task is outstanding for it any more.
    pub open spec fn removable(self) -> bool {
        self.marked && !self.pending
    }
}

/// A freshly spawned chunk: awaiting its mesh, not retired.
pub open spec fn new_record(s: (ChunkId, Region)) -> ChunkRecord {
    ChunkRecord { id: s.0, region: s.1, pending: true, marked: false }
}

/// The records with every chunk of `ids` marked for deletion.
pub open spec fn mark_retired(records: Seq<ChunkRecord>, ids: Seq<ChunkId>) -> Seq<ChunkRecord> {
    records.map_values(|r: ChunkRecord| if ids.contains(r.id) { r.retired() } else { r })
}

/// The records with the generation task of chunk `id` done.
pub open spec fn mark_generated(records: Seq<ChunkRecord>, id: ChunkId) -> Seq<ChunkRecord> {
    records.map_values(|r: ChunkRecord| if r.id == id { r.generated() } else { r })
}

pub open spec fn removable_ids(records: Seq<ChunkRecord>) -> Seq<ChunkId> {
    records.filter(|r: ChunkRecord| r.removable()).map_values(|r: ChunkRecord| r.id)
}

pub open spec fn not_removable(records: Seq<ChunkRecord>) -> Seq<ChunkRecord> {
    records.filter(|r: ChunkRecord| !r.removable())
}

pub open spec fn ids_unique(records: Seq<ChunkRecord>) -> bool {
    forall|i: int, j: int|
        0 <= i < records.len() && 0 <= j < records.len() && i != j ==> records[i].id != records[j].id
}

fn contains_id(ids: &Vec<ChunkId>, id: ChunkId) -> (r: bool)
    ensures
        r == ids@.contains(id),
{
    let mut j: usize = 0;
    while j < ids.len()
        invariant
            j <= ids@.len(),
            forall|k: int| 0 <= k < j ==> ids@[k] != id,
        decreases ids@.len() - j,
    {
        if ids[j] == id {
            return true;
        }
        j = j + 1;
    }
    false
}

impl Terrain {
    pub open spec fn records(self) -> Seq<ChunkRecord> {
        self.chunks@
    }

    /// The tree is well formed; each chunk has one record; every record's
    /// number was handed out already.
    pub open spec fn wf(self) -> bool {
        &&& self.lod_tree.wf()
        &&& ids_unique(self.records())
        &&& forall|i: int| 0 <= i < self.records().len() ==> self.records()[i].id.0 < self.next_chunk
    }

    pub open spec fn pending_spec(self, id: ChunkId) -> bool {
        exists|i: int|
            0 <= i < self.records().len() && self.records()[i].id == id && self.records()[i].pending
    }

    pub open spec fn marked_spec(self, id: ChunkId) -> bool {
        exists|i: int|
            0 <= i < self.records().len() && self.records()[i].id == id && self.records()[i].marked
    }

    /// A terrain over `boundary` with nothing spawned yet.
    pub fn new(max_depth: usize, boundary: Region) -> (t: Terrain)
        ensures
            t.wf(),
            t.lod_tree == crate::lod_tree::pending_node(boundary, max_depth, 0),
            t.next_chunk == 0,
            t.records() == Seq::<ChunkRecord>::empty(),
    {
        Terrain { lod_tree: LODTree::new(max_depth, boundary), next_chunk: 0, chunks: Vec::new() }
    }

    fn mark_for_deletion(&mut self, ids: &Vec<ChunkId>)
        ensures
            final(self).lod_tree == old(self).lod_tree,
            final(self).next_chunk == old(self).next_chunk,
            final(self).records() == mark_retired(old(self).records(), ids@),
    {
        let ghost before = self.chunks@;
        let mut i: usize = 0;
        while i < self.chunks.len()
            invariant
                self.lod_tree == old(self).lod_tree,
                self.next_chunk == old(self).next_chunk,
                before == old(self).chunks@,
                self.chunks@.len() == before.len(),
                i <= before.len(),
                forall|k: int| 0 <= k < i ==> self.chunks@[k] == mark_retired(before, ids@)[k],
                forall|k: int| i <= k < before.len() ==> self.chunks@[k] == before[k],
            decreases before.len() - i,
        {
            let rec = self.chunks[i];
            if contains_id(ids, rec.id) {
                self.chunks.set(i, ChunkRecord { id: rec.id, region: rec.region, pending: rec.pending, marked: true });
            }
            i = i + 1;
        }
        assert(self.chunks@ =~= mark_retired(before, ids@));
    }

    /// Runs one refinement pass for an observer at `observer`: chunks that
    /// leave the tree are marked for deletion, and each new chunk is recorded
    /// as awaiting generation and returned with the region to generate.
    pub fn refresh(&mut self, observer: Point, settings: &LODSettings) -> (spawned: Vec<(ChunkId, Region)>)
        requires
            old(self).wf(),
        ensures
            final(self).wf(),
            ({
                let o = pass(old(self).lod_tree, observer, *settings, old(self).next_chunk);
                &&& final(self).lod_tree == o.tree
                &&& final(self).next_chunk == o.next
                &&& spawned@ == o.spawned
                &&& final(self).records() == mark_retired(old(self).records(), o.retired)
                    + o.spawned.map_values(|s: (ChunkId, Region)| new_record(s))
            }),
    {
        let ghost o = pass(self.lod_tree, observer, *settings, self.next_chunk);
        proof {
            lemma_pass(self.lod_tree, observer, *settings, self.next_chunk);
        }
        let mut retired: Vec<ChunkId> = Vec::new();
        let mut spawned: Vec<(ChunkId, Region)> = Vec::new();
        self.lod_tree.refine(observer, settings, &mut self.next_chunk, &mut retired, &mut spawned);
        assert(retired@ =~= o.retired);
        assert(spawned@ =~= o.spawned);
        self.mark_for_deletion(&retired);
        let ghost marked = self.chunks@;
        let ghost old_next = old(self).next_chunk;
        assert(forall|k: int| 0 <= k < marked.len() ==> marked[k].id == old(self).records()[k].id);
        let mut j: usize = 0;
        while j < spawned.len()
            invariant
                self.lod_tree == o.tree,
                self.next_chunk == o.next,
                spawned@ == o.spawned,
                numbered_from(o.spawned, old_next, o.next),
                j <= spawned@.len(),
                self.chunks@ == marked + o.spawned.take(j as int).map_values(
                    |s: (ChunkId, Region)| new_record(s),
                ),
                ids_unique(marked),
                forall|k: int| 0 <= k < marked.len() ==> marked[k].id.0 < old_next,
            decreases spawned@.len() - j,
        {
            let (id, region) = spawned[j];
            self.chunks.push(ChunkRecord { id, region, pending: true, marked: false });
            assert(o.spawned.take(j + 1) =~= o.spawned.take(j as int).push(o.spawned[j as int]));
            assert(self.chunks@ =~= marked + o.spawned.take(j + 1).map_values(
                |s: (ChunkId, Region)| new_record(s),
            ));
            j = j + 1;
        }
        assert(o.spawned.take(j as int) =~= o.spawned);
        let ghost fin = self.chunks@;
        assert forall|a: int, b: int|
            0 <= a < fin.len() && 0 <= b < fin.len() && a != b implies fin[a].id != fin[b].id by {
            if a >= marked.len() {
                assert(fin[a].id == o.spawned[a - marked.len()].0);
            }
            if b >= marked.len() {
                assert(fin[b].id == o.spawned[b - marked.len()].0);
            }
        }
        assert forall|a: int| 0 <= a < fin.len() implies fin[a].id.0 < self.next_chunk by {
            if a >= marked.len() {
                assert(fin[a].id == o.spawned[a - marked.len()].0);
            }
        }
        spawned
    }

    /// Drops every chunk below the root and returns the root to pending, so
    /// that the next refresh spawns everything anew (after a change of the
    /// generation parameters). The dropped chunks are marked for deletion.
    pub fn regenerate(&mut self)
        requires
            old(self).wf(),
        ensures
            final(self).wf(),
            final(self).lod_tree == old(self).lod_tree.with_leaf(LODLeaf::Pending),
            final(self).next_chunk == old(self).next_chunk,
            final(self).records() == mark_retired(old(self).records(), old(self).lod_tree.chunks()),
    {
        let mut all: Vec<ChunkId> = Vec::new();
        self.lod_tree.get_child_chunks_recursive(&mut all);
        assert(all@ =~= self.lod_tree.chunks());
        self.mark_for_deletion(&all);
        self.lod_tree.reset();
    }

    /// Records that the generation task of chunk `id` has reported. Returns
    /// whether its mesh should be attached: the chunk is known, was awaiting
    /// generation, and has not been retired meanwhile.
    pub fn finish_generation(&mut self, id: ChunkId) -> (attach: bool)
        requires
            old(self).wf(),
        ensures
            final(self).wf(),
            final(self).lod_tree == old(self).lod_tree,
            final(self).next_chunk == old(self).next_chunk,
            final(self).records() == mark_generated(old(self).records(), id),
            attach == exists|i: int|
                0 <= i < old(self).records().len() && old(self).records()[i].id == id
                    && old(self).records()[i].pending && !old(self).records()[i].marked,
    {
        let ghost before = self.chunks@;
        let mut attach = false;
        let mut i: usize = 0;
        while i < self.chunks.len()
            invariant
                self.lod_tree == old(self).lod_tree,
                self.next_chunk == old(self).next_chunk,
                before == old(self).chunks@,
                self.chunks@.len() == before.len(),
                i <= before.len(),
                forall|k: int| 0 <= k < i ==> self.chunks@[k] == mark_generated(before, id)[k],
                forall|k: int| i <= k < before.len() ==> self.chunks@[k] == before[k],
                attach == exists|k: int|
                    0 <= k < i && before[k].id == id && before[k].pending && !before[k].marked,
            decreases before.len() - i,
        {
            let rec = self.chunks[i];
            if rec.id == id {
                if rec.pending && !rec.marked {
                    attach = true;
                }
                self.chunks.set(i, ChunkRecord { id: rec.id, region: rec.region, pending: false, marked: rec.marked });
            }
            proof {
                if rec.id == id && rec.pending && !rec.marked {
                    assert(before[i as int].id == id && before[i as int].pending && !before[i as int].marked);
                }
            }
            i = i + 1;
        }
        assert(self.chunks@ =~= mark_generated(before, id));
        attach
    }

    /// Removes the records of every chunk that is marked for deletion and no
    /// longer awaits generation, and returns their numbers, oldest first, for
    /// removal from the scene. A chunk whose generation task is outstanding
    /// stays, marked or not.
    pub fn collect_garbage(&mut self) -> (removed: Vec<ChunkId>)
        requires
            old(self).wf(),
        ensures
            final(self).wf(),
            final(self).lod_tree == old(self).lod_tree,
            final(self).next_chunk == old(self).next_chunk,
            final(self).records() == not_removable(old(self).records()),
            removed@ == removable_ids(old(self).records()),
            forall|k: int|
                0 <= k < removed@.len() ==> !old(self).pending_spec(#[trigger] removed@[k])
                    && old(self).marked_spec(removed@[k]),
    {
        let ghost before = self.chunks@;
        let mut kept: Vec<ChunkRecord> = Vec::new();
        let mut removed: Vec<ChunkId> = Vec::new();
        let mut i: usize = 0;
        while i < self.chunks.len()
            invariant
                self.lod_tree == old(self).lod_tree,
                self.next_chunk == old(self).next_chunk,
                before == old(self).chunks@,
                self.chunks@ == before,
                old(self).wf(),
                i <= before.len(),
                kept@ == not_removable(before.take(i as int)),
                removed@ == removable_ids(before.take(i as int)),
                forall|k: int|
                    0 <= k < kept@.len() ==> exists|j: int| 0 <= j < i && #[trigger] kept@[k] == before[j],
                forall|k: int|
                    0 <= k < removed@.len() ==> exists|j: int|
                        0 <= j < i && #[trigger] removed@[k] == before[j].id && before[j].removable(),
                ids_unique(kept@),
            decreases before.len() - i,
        {
            let rec = self.chunks[i];
            proof {
                reveal(Seq::filter);
                assert(before.take(i + 1).drop_last() =~= before.take(i as int));
                assert(before.take(i + 1).last() == before[i as int]);
            }
            if rec.marked && !rec.pending {
                removed.push(rec.id);
                proof {
                    let f = before.take(i as int).filter(|r: ChunkRecord| r.removable());
                    assert(before.take(i + 1).filter(|r: ChunkRecord| r.removable()) == f.push(rec));
                    assert(f.push(rec).map_values(|r: ChunkRecord| r.id) =~= f.map_values(
                        |r: ChunkRecord| r.id,
                    ).push(rec.id));
                    assert(removed@[removed@.len() - 1] == before[i as int].id);
                }
            } else {
                let ghost prev = kept@;
                kept.push(rec);
                proof {
                    assert forall|a: int, b: int|
                        0 <= a < kept@.len() && 0 <= b < kept@.len() && a != b implies kept@[a].id
                        != kept@[b].id by {
                        if a == prev.len() {
                            let j = choose|j: int| 0 <= j < i && prev[b] == before[j];
                            assert(kept@[b] == before[j]);
                        } else if b == prev.len() {
                            let j = choose|j: int| 0 <= j < i && prev[a] == before[j];
                            assert(kept@[a] == before[j]);
                        }
                    }
                    assert(kept@[kept@.len() - 1] == before[i as int]);
                }
            }
            i = i + 1;
        }
        assert(before.take(i as int) =~= before);
        self.chunks = kept;
        proof {
            assert forall|a: int| 0 <= a < self.chunks@.len() implies self.chunks@[a].id.0
                < self.next_chunk by {
                let j = choose|j: int| 0 <= j < before.len() && self.chunks@[a] == before[j];
            }
            assert forall|k: int| 0 <= k < removed@.len() implies !old(self).pending_spec(
                #[trigger] removed@[k],
            ) && old(self).marked_spec(removed@[k]) by {
                let j = choose|j: int|
                    0 <= j < before.len() && removed@[k] == before[j].id && before[j].removable();
                if old(self).pending_spec(removed@[k]) {
                    let m = choose|m: int|
                        0 <= m < before.len() && before[m].id == removed@[k] && before[m].pending;
                    assert(m == j);
                }
            }
        }
        removed
    }

    /// Whether chunk `id` still awaits its generation task.
    pub fn has_pending_task(&self, id: ChunkId) -> (r: bool)
        ensures
            r == self.pending_spec(id),
    {
        let mut i: usize = 0;
        while i < self.chunks.len()
            invariant
                i <= self.chunks@.len(),
                forall|k: int| 0 <= k < i ==> !(self.chunks@[k].id == id && self.chunks@[k].pending),
            decreases self.chunks@.len() - i,
        {
            if self.chunks[i].id == id && self.chunks[i].pending {
                assert(self.records()[i as int].id == id && self.records()[i as int].pending);
                return true;
            }
            i = i + 1;
        }
        false
    }

    /// Whether chunk `id` is marked for deletion.
    pub fn is_marked_for_deletion(&self, id: ChunkId) -> (r: bool)
        ensures
            r == self.marked_spec(id),
    {
        let mut i: usize = 0;
        while i < self.chunks.len()
            invariant
                i <= self.chunks@.len(),
                forall|k: int| 0 <= k < i ==> !(self.chunks@[k].id == id && self.chunks@[k].marked),
            decreases self.chunks@.len() - i,
        {
            if self.chunks[i].id == id && self.chunks[i].marked {
                assert(self.records()[i as int].id == id && self.records()[i as int].marked);
                return true;
            }
            i = i + 1;
        }
        false
    }
}

/// Refreshing a terrain whose tree is already refined for the observer changes
/// nothing: the tree, the chunk numbering and every record stay as they are,
/// and no chunk is spawned or retired.
pub proof fn lemma_refresh_fixed_point(t: Terrain, observer: Point, settings: LODSettings)
    requires
        settled(t.lod_tree, observer, settings),
    ensures
        ({
            let o = pass(t.lod_tree, observer, settings, t.next_chunk);
            &&& o.tree == t.lod_tree
            &&& o.next == t.next_chunk
            &&& o.retired.len() == 0
            &&& o.spawned.len() == 0
            &&& mark_retired(t.records(), o.retired) + o.spawned.map_values(
                |s: (ChunkId, Region)| new_record(s),
            ) == t.records()
        }),
{
    lemma_settled_fixed_point(t.lod_tree, observer, settings, t.next_chunk);
    let o = pass(t.lod_tree, observer, settings, t.next_chunk);
    assert(mark_retired(t.records(), o.retired) + o.spawned.map_values(
        |s: (ChunkId, Region)| new_record(s),
    ) =~= t.records());
}

} // verus!
