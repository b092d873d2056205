use vstd::prelude::*;
use crate::lod_tree::{pending_node, split_children, ChunkId, Decision, LODLeaf, LODTree, Quadrants};
use crate::policy::LODSettings;
use crate::region::{Point, Region};

verus! {

/// What a refinement pass over a subtree leaves behind.
pub struct PassOutcome {
    /// The subtree afterwards.
    pub tree: LODTree,
    /// The next unused chunk number.
    pub next: u64,
    /// The chunks that left the subtree, to be deleted.
    pub retired: Seq<ChunkId>,
    /// The chunks placed in the subtree, each with the region to generate.
    pub spawned: Seq<(ChunkId, Region)>,
}

/// Refines a fresh pending node top-down: it splits while the observer is near
/// enough and splitting is allowed, and every node that does not split gets a
/// chunk numbered from `next` on, in depth-first quadrant order. Once the
/// numbers run out a node that would get a chunk stays pending.
pub open spec fn grow(
    boundary: Region,
    max_depth: usize,
    depth: usize,
    observer: Point,
    settings: LODSettings,
    next: u64,
) -> PassOutcome
    decreases max_depth - depth,
{
    let node = pending_node(boundary, max_depth, depth);
    if node.wants(observer, settings) && node.can_split() {
        let q = split_children(boundary, max_depth, depth);
        let cd = (depth + 1) as usize;
        let a = grow(q.min_min.boundary, max_depth, cd, observer, settings, next);
        let b = grow(q.max_min.boundary, max_depth, cd, observer, settings, a.next);
        let c = grow(q.min_max.boundary, max_depth, cd, observer, settings, b.next);
        let d = grow(q.max_max.boundary, max_depth, cd, observer, settings, c.next);
        PassOutcome {
            tree: node.with_leaf(
                LODLeaf::Children(
                    Box::new(
                        Quadrants {
                            min_min: a.tree,
                            max_min: b.tree,
                            min_max: c.tree,
                            max_max: d.tree,
                        },
                    ),
                ),
            ),
            next: d.next,
            retired: seq![],
            spawned: a.spawned + b.spawned + c.spawned + d.spawned,
        }
    } else if next < u64::MAX {
        PassOutcome {
            tree: node.with_leaf(LODLeaf::Chunk(ChunkId(next))),
            next: (next + 1) as u64,
            retired: seq![],
            spawned: seq![(ChunkId(next), boundary)],
        }
    } else {
        PassOutcome { tree: node, next, retired: seq![], spawned: seq![] }
    }
}

/// One top-down refinement pass. A subdivided node that is no longer near
/// enough collapses at once, retiring every chunk below it, and its children
/// are not visited; one that stays subdivided passes the visit on to its
/// children. A pending node, or a chunk node that should split, is refined as
/// by `grow`; the chunk is retired.
pub open spec fn pass(t: LODTree, observer: Point, settings: LODSettings, next: u64) -> PassOutcome
    decreases t,
{
    match t.decision(observer, settings) {
        Decision::Collapse => PassOutcome {
            tree: t.with_leaf(LODLeaf::Pending),
            next,
            retired: t.chunks(),
            spawned: seq![],
        },
        Decision::Keep => match t.leaf {
            LODLeaf::Children(q) => {
                let a = pass(q.min_min, observer, settings, next);
                let b = pass(q.max_min, observer, settings, a.next);
                let c = pass(q.min_max, observer, settings, b.next);
                let d = pass(q.max_max, observer, settings, c.next);
                PassOutcome {
                    tree: t.with_leaf(
                        LODLeaf::Children(
                            Box::new(
                                Quadrants {
                                    min_min: a.tree,
                                    max_min: b.tree,
                                    min_max: c.tree,
                                    max_max: d.tree,
                                },
                            ),
                        ),
                    ),
                    next: d.next,
                    retired: a.retired + b.retired + c.retired + d.retired,
                    spawned: a.spawned + b.spawned + c.spawned + d.spawned,
                }
            },
            _ => PassOutcome { tree: t, next, retired: seq![], spawned: seq![] },
        },
        _ => {
            let g = grow(t.boundary, t.max_depth, t.depth, observer, settings, next);
            PassOutcome {
                tree: g.tree,
                next: g.next,
                retired: match t.leaf {
                    LODLeaf::Chunk(id) => seq![id],
                    _ => seq![],
                },
                spawned: g.spawned,
            }
        },
    }
}

impl LODTree {
    fn grow(
        &mut self,
        observer: Point,
        settings: &LODSettings,
        next: &mut u64,
        spawned: &mut Vec<(ChunkId, Region)>,
    )
        requires
            old(self).leaf is Pending,
        ensures
            ({
                let g = grow(
                    old(self).boundary,
                    old(self).max_depth,
                    old(self).depth,
                    observer,
                    *settings,
                    *old(next),
                );
                &&& *final(self) == g.tree
                &&& *final(next) == g.next
                &&& final(spawned)@ == old(spawned)@ + g.spawned
            }),
        decreases old(self).max_depth - old(self).depth,
    {
        if self.should_collapse(settings, observer) && self.can_collapse() {
            self.collapse();
            match &mut self.leaf {
                LODLeaf::Children(q) => {
                    q.min_min.grow(observer, settings, next, spawned);
                    q.max_min.grow(observer, settings, next, spawned);
                    q.min_max.grow(observer, settings, next, spawned);
                    q.max_max.grow(observer, settings, next, spawned);
                },
                _ => {},
            }
        } else if *next < u64::MAX {
            let id = ChunkId(*next);
            *next = *next + 1;
            self.leaf = LODLeaf::Chunk(id);
            spawned.push((id, self.boundary));
        }
    }

    /// Runs one refinement pass over this subtree for an observer at
    /// `observer`. Retired chunks are appended to `retired`, new chunks with
    /// their regions to `spawned`; new chunks are numbered from `*next` on.
    #[verifier::rlimit(40)]
    pub fn refine(
        &mut self,
        observer: Point,
        settings: &LODSettings,
        next: &mut u64,
        retired: &mut Vec<ChunkId>,
        spawned: &mut Vec<(ChunkId, Region)>,
    )
        ensures
            ({
                let o = pass(*old(self), observer, *settings, *old(next));
                &&& *final(self) == o.tree
                &&& *final(next) == o.next
                &&& final(retired)@ == old(retired)@ + o.retired
                &&& final(spawned)@ == old(spawned)@ + o.spawned
            }),
        decreases old(self).size(),
    {
        match self.refinement_decision(observer, settings) {
            Decision::Collapse => {
                self.get_child_chunks_recursive(retired);
                self.leaf = LODLeaf::Pending;
            },
            Decision::Keep => {
                match &mut self.leaf {
                    LODLeaf::Children(q) => {
                        q.min_min.refine(observer, settings, next, retired, spawned);
                        q.max_min.refine(observer, settings, next, retired, spawned);
                        q.min_max.refine(observer, settings, next, retired, spawned);
                        q.max_max.refine(observer, settings, next, retired, spawned);
                    },
                    _ => {},
                }
            },
            _ => {
                if let LODLeaf::Chunk(id) = self.leaf {
                    retired.push(id);
                }
                self.leaf = LODLeaf::Pending;
                self.grow(observer, settings, next, spawned);
            },
        }
    }
}

/// The chunks spawned from `next` on are numbered consecutively and use up
/// exactly the numbers up to `upto`.
pub open spec fn numbered_from(spawned: Seq<(ChunkId, Region)>, next: u64, upto: u64) -> bool {
    &&& next <= upto
    &&& spawned.len() == upto - next
    &&& forall|i: int| 0 <= i < spawned.len() ==> spawned[i].0 == ChunkId((next + i) as u64)
}

proof fn lemma_numbered_concat(
    a: Seq<(ChunkId, Region)>,
    b: Seq<(ChunkId, Region)>,
    n0: u64,
    n1: u64,
    n2: u64,
)
    requires
        numbered_from(a, n0, n1),
        numbered_from(b, n1, n2),
    ensures
        numbered_from(a + b, n0, n2),
{
    assert forall|i: int| 0 <= i < (a + b).len() implies (a + b)[i].0 == ChunkId((n0 + i) as u64) by {
        if i >= a.len() {
            assert((a + b)[i] == b[i - a.len()]);
        }
    }
}

/// `grow` yields a well-formed subtree over the same region, and numbers its
/// chunks consecutively.
pub proof fn lemma_grow(
    boundary: Region,
    max_depth: usize,
    depth: usize,
    observer: Point,
    settings: LODSettings,
    next: u64,
)
    requires
        depth <= max_depth,
    ensures
        ({
            let g = grow(boundary, max_depth, depth, observer, settings, next);
            &&& g.tree.wf()
            &&& g.tree.boundary == boundary
            &&& g.tree.depth == depth
            &&& g.tree.max_depth == max_depth
            &&& g.retired == Seq::<ChunkId>::empty()
            &&& numbered_from(g.spawned, next, g.next)
        }),
    decreases max_depth - depth,
{
    let node = pending_node(boundary, max_depth, depth);
    if node.wants(observer, settings) && node.can_split() {
        let q = split_children(boundary, max_depth, depth);
        let cd = (depth + 1) as usize;
        lemma_grow(q.min_min.boundary, max_depth, cd, observer, settings, next);
        let a = grow(q.min_min.boundary, max_depth, cd, observer, settings, next);
        lemma_grow(q.max_min.boundary, max_depth, cd, observer, settings, a.next);
        let b = grow(q.max_min.boundary, max_depth, cd, observer, settings, a.next);
        lemma_grow(q.min_max.boundary, max_depth, cd, observer, settings, b.next);
        let c = grow(q.min_max.boundary, max_depth, cd, observer, settings, b.next);
        lemma_grow(q.max_max.boundary, max_depth, cd, observer, settings, c.next);
        let d = grow(q.max_max.boundary, max_depth, cd, observer, settings, c.next);
        lemma_numbered_concat(a.spawned, b.spawned, next, a.next, b.next);
        lemma_numbered_concat(a.spawned + b.spawned, c.spawned, next, b.next, c.next);
        lemma_numbered_concat(a.spawned + b.spawned + c.spawned, d.spawned, next, c.next, d.next);
    } else if next < u64::MAX {
        let g = grow(boundary, max_depth, depth, observer, settings, next);
        assert(g.spawned[0].0 == ChunkId((next + 0) as u64));
    }
}

/// A pass keeps a well-formed subtree well formed and over the same region,
/// and numbers the chunks it spawns consecutively.
pub proof fn lemma_pass(t: LODTree, observer: Point, settings: LODSettings, next: u64)
    requires
        t.wf(),
    ensures
        ({
            let o = pass(t, observer, settings, next);
            &&& o.tree.wf()
            &&& o.tree.boundary == t.boundary
            &&& o.tree.depth == t.depth
            &&& o.tree.max_depth == t.max_depth
            &&& numbered_from(o.spawned, next, o.next)
        }),
    decreases t,
{
    match t.decision(observer, settings) {
        Decision::Collapse => {},
        Decision::Keep => match t.leaf {
            LODLeaf::Children(q) => {
                lemma_pass(q.min_min, observer, settings, next);
                let a = pass(q.min_min, observer, settings, next);
                lemma_pass(q.max_min, observer, settings, a.next);
                let b = pass(q.max_min, observer, settings, a.next);
                lemma_pass(q.min_max, observer, settings, b.next);
                let c = pass(q.min_max, observer, settings, b.next);
                lemma_pass(q.max_max, observer, settings, c.next);
                let d = pass(q.max_max, observer, settings, c.next);
                lemma_numbered_concat(a.spawned, b.spawned, next, a.next, b.next);
                lemma_numbered_concat(a.spawned + b.spawned, c.spawned, next, b.next, c.next);
                lemma_numbered_concat(
                    a.spawned + b.spawned + c.spawned,
                    d.spawned,
                    next,
                    c.next,
                    d.next,
                );
            },
            _ => {},
        },
        _ => {
            lemma_grow(t.boundary, t.max_depth, t.depth, observer, settings, next);
        },
    }
}

/// The tree is refined as far as the observer asks: no node is pending, every
/// subdivided node is still near enough, and no chunk node should split.
pub open spec fn settled(t: LODTree, observer: Point, settings: LODSettings) -> bool
    decreases t,
{
    match t.leaf {
        LODLeaf::Children(q) => {
            &&& t.wants(observer, settings)
            &&& settled(q.min_min, observer, settings)
            &&& settled(q.max_min, observer, settings)
            &&& settled(q.min_max, observer, settings)
            &&& settled(q.max_max, observer, settings)
        },
        LODLeaf::Chunk(_) => !(t.wants(observer, settings) && t.can_split()),
        LODLeaf::Pending => false,
    }
}

/// A pass over a tree that is already refined for the observer changes
/// nothing: the tree and the chunk numbering stay as they are, and no chunk
/// is retired or spawned.
pub proof fn lemma_settled_fixed_point(
    t: LODTree,
    observer: Point,
    settings: LODSettings,
    next: u64,
)
    requires
        settled(t, observer, settings),
    ensures
        pass(t, observer, settings, next) == (PassOutcome {
            tree: t,
            next,
            retired: Seq::<ChunkId>::empty(),
            spawned: Seq::<(ChunkId, Region)>::empty(),
        }),
    decreases t,
{
    match t.leaf {
        LODLeaf::Children(q) => {
            lemma_settled_fixed_point(q.min_min, observer, settings, next);
            lemma_settled_fixed_point(q.max_min, observer, settings, next);
            lemma_settled_fixed_point(q.min_max, observer, settings, next);
            lemma_settled_fixed_point(q.max_max, observer, settings, next);
            let o = pass(t, observer, settings, next);
            assert(o.retired =~= Seq::<ChunkId>::empty());
            assert(o.spawned =~= Seq::<(ChunkId, Region)>::empty());
        },
        _ => {},
    }
}

/// Settled, except that a node may also be pending where the observer does
/// not want it refined: what a collapse leaves behind.
pub open spec fn nearly_settled(t: LODTree, observer: Point, settings: LODSettings) -> bool
    decreases t,
{
    match t.leaf {
        LODLeaf::Children(q) => {
            &&& t.wants(observer, settings)
            &&& nearly_settled(q.min_min, observer, settings)
            &&& nearly_settled(q.max_min, observer, settings)
            &&& nearly_settled(q.min_max, observer, settings)
            &&& nearly_settled(q.max_max, observer, settings)
        },
        LODLeaf::Chunk(_) => !(t.wants(observer, settings) && t.can_split()),
        LODLeaf::Pending => !t.wants(observer, settings),
    }
}

proof fn lemma_settled_nearly(t: LODTree, observer: Point, settings: LODSettings)
    requires
        settled(t, observer, settings),
    ensures
        nearly_settled(t, observer, settings),
    decreases t,
{
    if let LODLeaf::Children(q) = t.leaf {
        lemma_settled_nearly(q.min_min, observer, settings);
        lemma_settled_nearly(q.max_min, observer, settings);
        lemma_settled_nearly(q.min_max, observer, settings);
        lemma_settled_nearly(q.max_max, observer, settings);
    }
}

/// A subtree grown without running out of chunk numbers is settled.
proof fn lemma_grow_settled(
    boundary: Region,
    max_depth: usize,
    depth: usize,
    observer: Point,
    settings: LODSettings,
    next: u64,
)
    requires
        depth <= max_depth,
        grow(boundary, max_depth, depth, observer, settings, next).next < u64::MAX,
    ensures
        settled(grow(boundary, max_depth, depth, observer, settings, next).tree, observer, settings),
    decreases max_depth - depth,
{
    let node = pending_node(boundary, max_depth, depth);
    if node.wants(observer, settings) && node.can_split() {
        let q = split_children(boundary, max_depth, depth);
        let cd = (depth + 1) as usize;
        lemma_grow(q.min_min.boundary, max_depth, cd, observer, settings, next);
        let a = grow(q.min_min.boundary, max_depth, cd, observer, settings, next);
        lemma_grow(q.max_min.boundary, max_depth, cd, observer, settings, a.next);
        let b = grow(q.max_min.boundary, max_depth, cd, observer, settings, a.next);
        lemma_grow(q.min_max.boundary, max_depth, cd, observer, settings, b.next);
        let c = grow(q.min_max.boundary, max_depth, cd, observer, settings, b.next);
        lemma_grow(q.max_max.boundary, max_depth, cd, observer, settings, c.next);
        lemma_grow_settled(q.min_min.boundary, max_depth, cd, observer, settings, next);
        lemma_grow_settled(q.max_min.boundary, max_depth, cd, observer, settings, a.next);
        lemma_grow_settled(q.min_max.boundary, max_depth, cd, observer, settings, b.next);
        lemma_grow_settled(q.max_max.boundary, max_depth, cd, observer, settings, c.next);
    }
}

proof fn lemma_pass_nearly_settled(t: LODTree, observer: Point, settings: LODSettings, next: u64)
    requires
        t.wf(),
        pass(t, observer, settings, next).next < u64::MAX,
    ensures
        nearly_settled(pass(t, observer, settings, next).tree, observer, settings),
    decreases t,
{
    match t.decision(observer, settings) {
        Decision::Collapse => {},
        Decision::Keep => match t.leaf {
            LODLeaf::Children(q) => {
                lemma_pass(q.min_min, observer, settings, next);
                let a = pass(q.min_min, observer, settings, next);
                lemma_pass(q.max_min, observer, settings, a.next);
                let b = pass(q.max_min, observer, settings, a.next);
                lemma_pass(q.min_max, observer, settings, b.next);
                let c = pass(q.min_max, observer, settings, b.next);
                lemma_pass(q.max_max, observer, settings, c.next);
                lemma_pass_nearly_settled(q.min_min, observer, settings, next);
                lemma_pass_nearly_settled(q.max_min, observer, settings, a.next);
                lemma_pass_nearly_settled(q.min_max, observer, settings, b.next);
                lemma_pass_nearly_settled(q.max_max, observer, settings, c.next);
            },
            _ => {},
        },
        _ => {
            lemma_grow_settled(t.boundary, t.max_depth, t.depth, observer, settings, next);
            let g = grow(t.boundary, t.max_depth, t.depth, observer, settings, next);
            lemma_settled_nearly(g.tree, observer, settings);
        },
    }
}

proof fn lemma_pass_settles(t: LODTree, observer: Point, settings: LODSettings, next: u64)
    requires
        t.wf(),
        nearly_settled(t, observer, settings),
        pass(t, observer, settings, next).next < u64::MAX,
    ensures
        settled(pass(t, observer, settings, next).tree, observer, settings),
    decreases t,
{
    match t.leaf {
        LODLeaf::Children(q) => {
            lemma_pass(q.min_min, observer, settings, next);
            let a = pass(q.min_min, observer, settings, next);
            lemma_pass(q.max_min, observer, settings, a.next);
            let b = pass(q.max_min, observer, settings, a.next);
            lemma_pass(q.min_max, observer, settings, b.next);
            let c = pass(q.min_max, observer, settings, b.next);
            lemma_pass(q.max_max, observer, settings, c.next);
            lemma_pass_settles(q.min_min, observer, settings, next);
            lemma_pass_settles(q.max_min, observer, settings, a.next);
            lemma_pass_settles(q.min_max, observer, settings, b.next);
            lemma_pass_settles(q.max_max, observer, settings, c.next);
        },
        LODLeaf::Chunk(_) => {},
        LODLeaf::Pending => {
            lemma_grow_settled(t.boundary, t.max_depth, t.depth, observer, settings, next);
        },
    }
}

/// Refinement converges: for an observer that stays put, two passes leave the
/// tree settled (unless the chunk numbers ran out), so that every further pass
/// changes nothing.
pub proof fn lemma_two_passes_settle(t: LODTree, observer: Point, settings: LODSettings, next: u64)
    requires
        t.wf(),
        pass(
            pass(t, observer, settings, next).tree,
            observer,
            settings,
            pass(t, observer, settings, next).next,
        ).next < u64::MAX,
    ensures
        ({
            let first = pass(t, observer, settings, next);
            let second = pass(first.tree, observer, settings, first.next);
            &&& settled(second.tree, observer, settings)
            &&& forall|n: u64|
                #[trigger] pass(second.tree, observer, settings, n) == (PassOutcome {
                    tree: second.tree,
                    next: n,
                    retired: Seq::<ChunkId>::empty(),
                    spawned: Seq::<(ChunkId, Region)>::empty(),
                })
        }),
{
    let first = pass(t, observer, settings, next);
    lemma_pass(t, observer, settings, next);
    let second = pass(first.tree, observer, settings, first.next);
    lemma_pass(first.tree, observer, settings, first.next);
    lemma_pass_nearly_settled(t, observer, settings, next);
    lemma_pass_settles(first.tree, observer, settings, first.next);
    assert forall|n: u64|
        #[trigger] pass(second.tree, observer, settings, n) == (PassOutcome {
            tree: second.tree,
            next: n,
            retired: Seq::<ChunkId>::empty(),
            spawned: Seq::<(ChunkId, Region)>::empty(),
        }) by {
        lemma_settled_fixed_point(second.tree, observer, settings, n);
    }
}

} // verus!
