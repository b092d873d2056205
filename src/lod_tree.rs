use vstd::prelude::*;
use crate::policy::{within_refinement_distance, wants_refinement, LODSettings};
use crate::region::{lemma_quadrants_tile, quadrants, subdivide_rect, tiles, Point, Region};

verus! {

/// Identifies one spawned terrain chunk in the scene.
#[derive(Clone, Copy, Debug, PartialEq, Eq, Hash, Structural)]
pub struct ChunkId(pub u64);

/// A node of the level-of-detail quadtree.
pub struct LODTree {
    pub depth: usize,
    pub boundary: Region,
    pub max_depth: usize,
    pub leaf: LODLeaf,
}

/// The four children of a subdivided node, in the order of `quadrants`.
pub struct Quadrants {
    pub min_min: LODTree,
    pub max_min: LODTree,
    pub min_max: LODTree,
    pub max_max: LODTree,
}

/// Exactly one state holds for a node at a time.
pub enum LODLeaf {
    /// Split into four quadrants.
    Children(Box<Quadrants>),
    /// Covered by one spawned chunk.
    Chunk(ChunkId),
    /// Neither split nor covered yet.
    Pending,
}

/// What one refinement step does to a node.
#[derive(Clone, Copy, Debug, PartialEq, Eq, Structural)]
pub enum Decision {
    /// A pending or chunk node splits into four pending quadrants (a chunk is
    /// retired first).
    Subdivide,
    /// A subdivided node returns to pending; every chunk below it is retired.
    Collapse,
    /// A pending node gets a chunk of its own.
    SpawnChunk,
    /// The node stays as it is.
    Keep,
}

pub open spec fn pending_node(boundary: Region, max_depth: usize, depth: usize) -> LODTree {
    LODTree { depth, boundary, max_depth, leaf: LODLeaf::Pending }
}

/// The four pending children that splitting a node creates.
pub open spec fn split_children(boundary: Region, max_depth: usize, depth: usize) -> Quadrants {
    let (a, b, c, d) = quadrants(boundary);
    let cd = (depth + 1) as usize;
    Quadrants {
        min_min: pending_node(a, max_depth, cd),
        max_min: pending_node(b, max_depth, cd),
        min_max: pending_node(c, max_depth, cd),
        max_max: pending_node(d, max_depth, cd),
    }
}

impl LODTree {
    pub open spec fn with_leaf(self, leaf: LODLeaf) -> LODTree {
        LODTree { depth: self.depth, boundary: self.boundary, max_depth: self.max_depth, leaf }
    }

    pub open spec fn is_subdivided(self) -> bool {
        self.leaf is Children
    }

    /// Every subdivided node sits above `max_depth`, has a region that can be
    /// split, and has as children exactly the quadrants of its region, one
    /// level deeper, with the same depth limit.
    pub open spec fn wf(self) -> bool
        decreases self,
    {
        &&& self.depth <= self.max_depth
        &&& match self.leaf {
            LODLeaf::Children(q) => {
                let (a, b, c, d) = quadrants(self.boundary);
                &&& self.depth < self.max_depth
                &&& self.boundary.splittable()
                &&& q.min_min.boundary == a && q.max_min.boundary == b
                &&& q.min_max.boundary == c && q.max_max.boundary == d
                &&& q.min_min.depth == self.depth + 1 && q.max_min.depth == self.depth + 1
                &&& q.min_max.depth == self.depth + 1 && q.max_max.depth == self.depth + 1
                &&& q.min_min.max_depth == self.max_depth && q.max_min.max_depth == self.max_depth
                &&& q.min_max.max_depth == self.max_depth && q.max_max.max_depth == self.max_depth
                &&& q.min_min.wf() && q.max_min.wf() && q.min_max.wf() && q.max_max.wf()
            },
            _ => true,
        }
    }

    /// The number of nodes in the subtree.
    pub open spec fn size(self) -> nat
        decreases self,
    {
        match self.leaf {
            LODLeaf::Children(q) => 1 + q.min_min.size() + q.max_min.size() + q.min_max.size()
                + q.max_max.size(),
            _ => 1,
        }
    }

    /// Every chunk of the subtree, depth first, children in quadrant order.
    pub open spec fn chunks(self) -> Seq<ChunkId>
        decreases self,
    {
        match self.leaf {
            LODLeaf::Children(q) => q.min_min.chunks() + q.max_min.chunks() + q.min_max.chunks()
                + q.max_max.chunks(),
            LODLeaf::Chunk(id) => seq![id],
            LODLeaf::Pending => seq![],
        }
    }

    /// Subdividing is allowed: below the depth limit, not subdivided already,
    /// and over a region large enough to halve on both axes.
    pub open spec fn can_split(self) -> bool {
        &&& self.depth < self.max_depth
        &&& !self.is_subdivided()
        &&& self.boundary.splittable()
    }

    /// The node split into four pending quadrants.
    pub open spec fn split(self) -> LODTree {
        self.with_leaf(LODLeaf::Children(Box::new(split_children(self.boundary, self.max_depth, self.depth))))
    }

    pub open spec fn wants(self, observer: Point, settings: LODSettings) -> bool {
        wants_refinement(self.boundary, self.depth as int, observer, settings)
    }

    pub open spec fn decision(self, observer: Point, settings: LODSettings) -> Decision {
        let near = self.wants(observer, settings);
        match self.leaf {
            LODLeaf::Children(_) => if near {
                Decision::Keep
            } else {
                Decision::Collapse
            },
            LODLeaf::Chunk(_) => if near && self.can_split() {
                Decision::Subdivide
            } else {
                Decision::Keep
            },
            LODLeaf::Pending => if near && self.can_split() {
                Decision::Subdivide
            } else {
                Decision::SpawnChunk
            },
        }
    }

    /// A root node over `boundary`, pending.
    pub fn new(max_depth: usize, boundary: Region) -> (t: LODTree)
        ensures
            t == pending_node(boundary, max_depth, 0),
            t.wf(),
    {
        LODTree { depth: 0, max_depth, boundary, leaf: LODLeaf::Pending }
    }

    fn new_child(boundary: Region, max_depth: usize, depth: usize) -> (t: LODTree)
        ensures
            t == pending_node(boundary, max_depth, depth),
    {
        LODTree { boundary, depth, max_depth, leaf: LODLeaf::Pending }
    }

    /// Splits the node into four pending quadrants one level deeper. Refused,
    /// with the node left as it was, at the depth limit, when already split,
    /// or when the region is too small to halve.
    pub fn collapse(&mut self) -> (done: bool)
        ensures
            done == old(self).can_split(),
            old(self).depth >= old(self).max_depth ==> !done,
            done ==> *final(self) == old(self).split(),
            !done ==> *final(self) == *old(self),
            old(self).wf() ==> final(self).wf(),
    {
        if !self.can_collapse() {
            return false;
        }
        let rects = subdivide_rect(self.boundary);
        let d: usize = self.depth + 1;
        proof {
            lemma_split_wf(*self);
        }
        self.leaf = LODLeaf::Children(
            Box::new(
                Quadrants {
                    min_min: LODTree::new_child(rects.0, self.max_depth, d),
                    max_min: LODTree::new_child(rects.1, self.max_depth, d),
                    min_max: LODTree::new_child(rects.2, self.max_depth, d),
                    max_max: LODTree::new_child(rects.3, self.max_depth, d),
                },
            ),
        );
        true
    }

    /// Whether the node lies close enough to `point` to want finer detail.
    pub fn should_collapse(&self, settings: &LODSettings, point: Point) -> (near: bool)
        ensures
            near == self.wants(point, *settings),
    {
        within_refinement_distance(self.boundary, self.depth, point, settings)
    }

    /// Whether `collapse` would split the node.
    pub fn can_collapse(&self) -> (r: bool)
        ensures
            r == self.can_split(),
    {
        if self.depth >= self.max_depth {
            return false;
        }
        if let LODLeaf::Children(_) = self.leaf {
            return false;
        }
        self.boundary.is_splittable()
    }

    /// Returns a subdivided or chunk node to pending. Does not retire any
    /// chunk: collect them first. A pending node is left as it is.
    pub fn reset(&mut self) -> (done: bool)
        ensures
            done == !(old(self).leaf is Pending),
            *final(self) == old(self).with_leaf(LODLeaf::Pending),
            old(self).wf() ==> final(self).wf(),
    {
        let done = match self.leaf {
            LODLeaf::Pending => false,
            _ => true,
        };
        self.leaf = LODLeaf::Pending;
        done
    }

    /// Appends every chunk below this node to `out`.
    pub fn get_child_chunks_recursive(&self, out: &mut Vec<ChunkId>)
        ensures
            final(out)@ == old(out)@ + self.chunks(),
        decreases self.size(),
    {
        match &self.leaf {
            LODLeaf::Children(children) => {
                children.min_min.get_child_chunks_recursive(out);
                children.max_min.get_child_chunks_recursive(out);
                children.min_max.get_child_chunks_recursive(out);
                children.max_max.get_child_chunks_recursive(out);
                assert(final(out)@ =~= old(out)@ + self.chunks());
            },
            LODLeaf::Chunk(entity) => {
                out.push(*entity);
                assert(final(out)@ =~= old(out)@ + self.chunks());
            },
            LODLeaf::Pending => {
                assert(final(out)@ =~= old(out)@ + self.chunks());
            },
        }
    }

    /// What a refinement step does to this node for an observer at `point`.
    pub fn refinement_decision(&self, point: Point, settings: &LODSettings) -> (d: Decision)
        ensures
            d == self.decision(point, *settings),
    {
        let near = self.should_collapse(settings, point);
        match self.leaf {
            LODLeaf::Children(_) => if near {
                Decision::Keep
            } else {
                Decision::Collapse
            },
            LODLeaf::Chunk(_) => if near && self.can_collapse() {
                Decision::Subdivide
            } else {
                Decision::Keep
            },
            LODLeaf::Pending => if near && self.can_collapse() {
                Decision::Subdivide
            } else {
                Decision::SpawnChunk
            },
        }
    }
}

/// Splitting a well-formed node that may split keeps it well formed.
pub proof fn lemma_split_wf(t: LODTree)
    requires
        t.wf(),
        t.can_split(),
    ensures
        t.split().wf(),
{
    let q = split_children(t.boundary, t.max_depth, t.depth);
    assert(q.min_min.wf() && q.max_min.wf() && q.min_max.wf() && q.max_max.wf());
}

/// Splitting a node yields four pending children whose regions tile the
/// node's region exactly, none of them degenerate, each one level deeper than
/// the node and with its depth limit.
pub proof fn lemma_subdivision_invariant(t: LODTree)
    requires
        t.wf(),
        t.can_split(),
    ensures
        match t.split().leaf {
            LODLeaf::Children(q) => {
                &&& tiles(
                    t.boundary,
                    q.min_min.boundary,
                    q.max_min.boundary,
                    q.min_max.boundary,
                    q.max_max.boundary,
                )
                &&& !q.min_min.boundary.degenerate() && !q.max_min.boundary.degenerate()
                &&& !q.min_max.boundary.degenerate() && !q.max_max.boundary.degenerate()
                &&& q.min_min.depth == t.depth + 1 && q.max_min.depth == t.depth + 1
                &&& q.min_max.depth == t.depth + 1 && q.max_max.depth == t.depth + 1
                &&& q.min_min.max_depth == t.max_depth && q.max_min.max_depth == t.max_depth
                &&& q.min_max.max_depth == t.max_depth && q.max_max.max_depth == t.max_depth
                &&& q.min_min.leaf is Pending && q.max_min.leaf is Pending
                &&& q.min_max.leaf is Pending && q.max_max.leaf is Pending
            },
            _ => false,
        },
{
    lemma_quadrants_tile(t.boundary);
}

} // verus!
