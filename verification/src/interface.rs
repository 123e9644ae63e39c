//! Core model: entities, resources, usages, and the finalized scheduler
//! input together with its dependency (reachability) relation.

use vstd::prelude::*;

verus! {

/// One schedulable unit of work, identified by its creation index.
pub type Entity = usize;

/// A dependency-tracked object (image, buffer or synchronization primitive),
/// identified by its creation index.
pub type Resource = usize;

/// Identifies one finalized render pass.
pub type PassId = usize;

/// Identifies one synchronization point registered with the builder.
pub type SyncPointId = usize;

/// Identifies one semaphore-equivalent synchronization primitive.
pub type SemaphoreId = usize;

/// What an entity is: a standalone operation scheduled on its own, or an
/// operation that may be merged with others into a render pass.
#[derive(Clone, Copy, PartialEq, Eq, Structural, Debug)]
pub enum EntityKind {
    Standalone,
    Pass,
}

/// How an entity touches a resource: as a render-pass attachment or as a
/// plain use, and whether it writes the resource.
#[derive(Clone, Copy, PartialEq, Eq, Structural, Debug)]
pub struct UsageKind {
    pub attachment: bool,
    pub write: bool,
}

impl UsageKind {
    pub fn is_attachment(&self) -> (r: bool)
        ensures
            r == self.attachment,
    {
        self.attachment
    }

    pub fn is_write(&self) -> (r: bool)
        ensures
            r == self.write,
    {
        self.write
    }
}

/// One recorded resource usage of an entity.
#[derive(Clone, Copy, PartialEq, Eq, Structural, Debug)]
pub struct Usage {
    pub resource: Resource,
    pub kind: UsageKind,
}

/// Per-entity record in the finalized input.
#[derive(Debug)]
pub struct EntityData {
    pub kind: EntityKind,
    pub usages: Vec<Usage>,
}

/// A request to merge every entity on a dependency path between `from` and
/// `to` (inclusive) into one render pass.
#[derive(Clone, Copy, PartialEq, Eq, Structural, Debug)]
pub struct RenderPassSpan {
    pub from: Entity,
    pub to: Entity,
}

/// One position of the final schedule.
#[derive(Clone, Copy, PartialEq, Eq, Structural, Debug)]
pub enum ScheduleEntry {
    /// A standalone entity, executed directly.
    General(Entity),
    /// An entity executed inside the render pass with the given id.
    PassEntity(Entity, PassId),
}

/// Validation failures discovered while planning. All indicate a malformed
/// graph handed over by the front end; no partial schedule is exposed.
#[derive(Clone, Copy, PartialEq, Eq, Structural, Debug)]
pub enum SchedulerError {
    /// A span's endpoints share no dependency path.
    DisconnectedSpan,
    /// A resource is used both as an attachment and plainly within one
    /// merged render pass.
    AttachmentUseConflict,
    /// A span covers an entity that is not of `Pass` kind.
    NonPassEntityInSpan,
    /// The reachability computation failed to reach a fixed point.
    CyclicDependency,
    /// A scheduler instance was asked to plan twice without a reset.
    DoublePlan,
}

/// Traversal direction over the global schedule order.
#[derive(Clone, Copy, PartialEq, Eq, Structural, Debug)]
pub enum Direction {
    Forward,
    Reverse,
}

/// The immutable description of one generation's work graph, as produced by
/// the builder's `postprocess`: per-entity kinds and usages, the number of
/// resources, the requested render-pass spans, and the registered
/// synchronization points (each naming the resource whose last writer gates
/// an external consumer).
pub struct SchedulerInput {
    pub entities: Vec<EntityData>,
    pub num_resources: usize,
    pub spans: Vec<RenderPassSpan>,
    pub sync_points: Vec<Resource>,
}

impl SchedulerInput {
    /// Number of entities.
    pub open spec fn n(self) -> int {
        self.entities@.len() as int
    }

    pub open spec fn valid_entity(self, e: int) -> bool {
        0 <= e < self.n()
    }

    pub open spec fn kind_of(self, e: int) -> EntityKind {
        self.entities@[e].kind
    }

    pub open spec fn usage_seq(self, e: int) -> Seq<Usage> {
        self.entities@[e].usages@
    }

    /// Entity `e` touches resource `r` in some way.
    pub open spec fn uses_resource(self, e: int, r: int) -> bool {
        exists|k: int|
            0 <= k < self.usage_seq(e).len() && self.usage_seq(e)[k].resource as int == r
    }

    /// Entity `e` uses resource `r` as an attachment.
    pub open spec fn att_use(self, e: int, r: int) -> bool {
        exists|k: int|
            0 <= k < self.usage_seq(e).len() && self.usage_seq(e)[k].resource as int == r
                && self.usage_seq(e)[k].kind.attachment
    }

    /// Entity `e` uses resource `r` plainly (not as an attachment).
    pub open spec fn plain_use(self, e: int, r: int) -> bool {
        exists|k: int|
            0 <= k < self.usage_seq(e).len() && self.usage_seq(e)[k].resource as int == r
                && !self.usage_seq(e)[k].kind.attachment
    }

    /// Entity `e` writes resource `r`.
    pub open spec fn write_use(self, e: int, r: int) -> bool {
        exists|k: int|
            0 <= k < self.usage_seq(e).len() && self.usage_seq(e)[k].resource as int == r
                && self.usage_seq(e)[k].kind.write
    }

    /// Entities `a` and `b` touch at least one common resource.
    pub open spec fn shares(self, a: int, b: int) -> bool {
        exists|r: int| self.uses_resource(a, r) && self.uses_resource(b, r)
    }

    /// A must-happen-before edge: the earlier-registered of two entities
    /// touching a common resource precedes the later one.
    pub open spec fn dep_edge(self, a: int, b: int) -> bool {
        self.valid_entity(a) && self.valid_entity(b) && a < b && self.shares(a, b)
    }

    /// Reachability along dependency edges, inclusive: `reaches(e, e)` holds
    /// for every valid entity. This is the "must happen before or equal"
    /// relation whose forward and reverse images are the cumulative
    /// dependency sets.
    pub open spec fn reaches(self, a: int, b: int) -> bool
        decreases b - a,
    {
        if !(self.valid_entity(a) && self.valid_entity(b) && a <= b) {
            false
        } else if a == b {
            true
        } else {
            exists|m: int| self.dep_edge(a, m) && m <= b && self.reaches(m, b)
        }
    }

    /// Every usage names a created resource, and every span and sync point
    /// names created entities/resources.
    pub open spec fn wf(self) -> bool {
        &&& forall|e: int, k: int|
            0 <= e < self.n() && 0 <= k < self.usage_seq(e).len()
                ==> #[trigger] self.usage_seq(e)[k].resource < self.num_resources
        &&& forall|i: int|
            0 <= i < self.spans@.len()
                ==> (#[trigger] self.spans@[i]).from < self.n() && self.spans@[i].to < self.n()
        &&& forall|s: int|
            0 <= s < self.sync_points@.len()
                ==> #[trigger] self.sync_points@[s] < self.num_resources
    }
}

impl SchedulerInput {
    /// Checks well-formedness at run time, for callers that did not obtain
    /// the input from the builder.
    pub fn is_well_formed(&self) -> (r: bool)
        ensures
            r == self.wf(),
    {
        let n = self.entities.len();
        let mut e: usize = 0;
        while e < n
            invariant
                n == self.n(),
                e <= n,
                forall|e2: int, k: int|
                    0 <= e2 < e && 0 <= k < self.usage_seq(e2).len()
                        ==> #[trigger] self.usage_seq(e2)[k].resource < self.num_resources,
            decreases n - e,
        {
            let us = &self.entities[e].usages;
            let mut k: usize = 0;
            while k < us.len()
                invariant
                    e < n,
                    n == self.n(),
                    k <= us@.len(),
                    us@ == self.usage_seq(e as int),
                    forall|kk: int|
                        0 <= kk < k ==> #[trigger] self.usage_seq(e as int)[kk].resource
                            < self.num_resources,
                decreases us@.len() - k,
            {
                if us[k].resource >= self.num_resources {
                    return false;
                }
                k += 1;
            }
            e += 1;
        }
        let mut i: usize = 0;
        while i < self.spans.len()
            invariant
                n == self.n(),
                i <= self.spans@.len(),
                forall|j: int|
                    0 <= j < i ==> (#[trigger] self.spans@[j]).from < n && self.spans@[j].to < n,
                forall|e2: int, k: int|
                    0 <= e2 < n && 0 <= k < self.usage_seq(e2).len()
                        ==> #[trigger] self.usage_seq(e2)[k].resource < self.num_resources,
            decreases self.spans@.len() - i,
        {
            if self.spans[i].from >= n || self.spans[i].to >= n {
                return false;
            }
            i += 1;
        }
        let mut s: usize = 0;
        while s < self.sync_points.len()
            invariant
                n == self.n(),
                s <= self.sync_points@.len(),
                forall|j: int|
                    0 <= j < s ==> #[trigger] self.sync_points@[j] < self.num_resources,
                forall|j: int|
                    0 <= j < self.spans@.len() ==> (#[trigger] self.spans@[j]).from < n
                        && self.spans@[j].to < n,
                forall|e2: int, k: int|
                    0 <= e2 < n && 0 <= k < self.usage_seq(e2).len()
                        ==> #[trigger] self.usage_seq(e2)[k].resource < self.num_resources,
            decreases self.sync_points@.len() - s,
        {
            if self.sync_points[s] >= self.num_resources {
                return false;
            }
            s += 1;
        }
        true
    }
}

/// Reachability only relates valid entities, in ascending index order.
pub proof fn lemma_reaches_bounds(inp: SchedulerInput, a: int, b: int)
    requires
        inp.reaches(a, b),
    ensures
        inp.valid_entity(a),
        inp.valid_entity(b),
        a <= b,
    decreases b - a,
{
}

/// Reachability is transitive.
pub proof fn lemma_reaches_trans(inp: SchedulerInput, a: int, m: int, b: int)
    requires
        inp.reaches(a, m),
        inp.reaches(m, b),
    ensures
        inp.reaches(a, b),
    decreases m - a,
{
    if a != m {
        let m1 = choose|m1: int| inp.dep_edge(a, m1) && m1 <= m && inp.reaches(m1, m);
        lemma_reaches_trans(inp, m1, m, b);
        lemma_reaches_bounds(inp, m1, b);
        assert(inp.reaches(a, b));
    }
}

/// A single dependency edge is a reachability step.
pub proof fn lemma_edge_reaches(inp: SchedulerInput, a: int, b: int)
    requires
        inp.dep_edge(a, b),
    ensures
        inp.reaches(a, b),
{
    assert(inp.reaches(b, b));
    assert(inp.reaches(a, b));
}

/// Peeling the last edge of a path: a strict reach decomposes into a reach
/// followed by one dependency edge ending at `b`.
pub proof fn lemma_reaches_last_edge(inp: SchedulerInput, a: int, b: int)
    requires
        inp.reaches(a, b),
        a != b,
    ensures
        exists|m: int| inp.reaches(a, m) && #[trigger] inp.dep_edge(m, b),
    decreases b - a,
{
    let m1 = choose|m1: int| inp.dep_edge(a, m1) && m1 <= b && inp.reaches(m1, b);
    if m1 == b {
        assert(inp.reaches(a, a));
        assert(inp.reaches(a, a) && inp.dep_edge(a, b));
    } else {
        lemma_reaches_last_edge(inp, m1, b);
        let m = choose|m: int| inp.reaches(m1, m) && #[trigger] inp.dep_edge(m, b);
        lemma_reaches_bounds(inp, m1, m);
        assert(inp.reaches(a, m));
        assert(inp.reaches(a, m) && inp.dep_edge(m, b));
    }
}

} // verus!
