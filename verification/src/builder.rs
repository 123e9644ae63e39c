//! The procedural front end: entities, resources, usages, span requests and
//! sync points are registered incrementally during graph construction;
//! `postprocess` locks them into the immutable [`SchedulerInput`].

use vstd::prelude::*;

use crate::interface::{
    Entity, EntityData, EntityKind, RenderPassSpan, Resource, SchedulerInput, SemaphoreId,
    SyncPointId, Usage, UsageKind,
};

verus! {

/// One usage registration, in registration order.
#[derive(Clone, Copy, PartialEq, Eq, Structural, Debug)]
pub struct FlatUsage {
    pub entity: Entity,
    pub usage: Usage,
}

/// The usages registered for entity `e`, in registration order.
pub open spec fn usages_of(flat: Seq<FlatUsage>, e: int) -> Seq<Usage>
    decreases flat.len(),
{
    if flat.len() == 0 {
        Seq::empty()
    } else if flat.last().entity == e {
        usages_of(flat.drop_last(), e).push(flat.last().usage)
    } else {
        usages_of(flat.drop_last(), e)
    }
}

/// The incremental builder. `T` is the per-entity committed payload (the
/// node value that the execution layer later consumes).
pub struct ProceduralBuilder<T> {
    pub kinds: Vec<EntityKind>,
    pub usages: Vec<FlatUsage>,
    pub num_resources: usize,
    pub spans: Vec<RenderPassSpan>,
    pub sync_points: Vec<Resource>,
    pub data: Vec<Option<T>>,
    pub input: SchedulerInput,
    pub finalized: bool,
}

impl<T> ProceduralBuilder<T> {
    /// Every registration names entities and resources that exist.
    pub open spec fn wf(self) -> bool {
        &&& self.data@.len() == self.kinds@.len()
        &&& forall|j: int|
            0 <= j < self.usages@.len() ==> (#[trigger] self.usages@[j]).entity < self.kinds@.len()
                && self.usages@[j].usage.resource < self.num_resources
        &&& forall|i: int|
            0 <= i < self.spans@.len() ==> (#[trigger] self.spans@[i]).from < self.kinds@.len()
                && self.spans@[i].to < self.kinds@.len()
        &&& forall|s: int|
            0 <= s < self.sync_points@.len() ==> #[trigger] self.sync_points@[s]
                < self.num_resources
    }

    pub fn new() -> (b: Self)
        ensures
            b.wf(),
            !b.finalized,
            b.kinds@.len() == 0,
            b.usages@.len() == 0,
            b.num_resources == 0,
            b.spans@.len() == 0,
            b.sync_points@.len() == 0,
            b.data@.len() == 0,
    {
        ProceduralBuilder {
            kinds: Vec::new(),
            usages: Vec::new(),
            num_resources: 0,
            spans: Vec::new(),
            sync_points: Vec::new(),
            data: Vec::new(),
            input: SchedulerInput {
                entities: Vec::new(),
                num_resources: 0,
                spans: Vec::new(),
                sync_points: Vec::new(),
            },
            finalized: false,
        }
    }

    /// Creates one schedulable entity of the given kind and returns its id.
    pub fn create_entity(&mut self, kind: EntityKind) -> (e: Entity)
        requires
            old(self).wf(),
            !old(self).finalized,
        ensures
            final(self).wf(),
            !final(self).finalized,
            e == old(self).kinds@.len(),
            final(self).kinds@ == old(self).kinds@.push(kind),
            final(self).data@ == old(self).data@.push(None::<T>),
            final(self).usages@ == old(self).usages@,
            final(self).num_resources == old(self).num_resources,
            final(self).spans@ == old(self).spans@,
            final(self).sync_points@ == old(self).sync_points@,
    {
        let e = self.kinds.len();
        self.kinds.push(kind);
        self.data.push(None);
        e
    }

    /// Creates one dependency-tracked resource and returns its id.
    pub fn create_resource(&mut self) -> (r: Resource)
        requires
            old(self).wf(),
            !old(self).finalized,
            old(self).num_resources < usize::MAX,
        ensures
            final(self).wf(),
            !final(self).finalized,
            r == old(self).num_resources,
            final(self).num_resources == old(self).num_resources + 1,
            final(self).kinds@ == old(self).kinds@,
            final(self).usages@ == old(self).usages@,
            final(self).data@ == old(self).data@,
            final(self).spans@ == old(self).spans@,
            final(self).sync_points@ == old(self).sync_points@,
    {
        let r = self.num_resources;
        self.num_resources = self.num_resources + 1;
        r
    }

    /// Records that entity `e` touches resource `r` in the given way.
    pub fn register_usage(&mut self, e: Entity, r: Resource, kind: UsageKind)
        requires
            old(self).wf(),
            !old(self).finalized,
            e < old(self).kinds@.len(),
            r < old(self).num_resources,
        ensures
            final(self).wf(),
            !final(self).finalized,
            final(self).usages@ == old(self).usages@.push(
                FlatUsage { entity: e, usage: Usage { resource: r, kind } },
            ),
            final(self).kinds@ == old(self).kinds@,
            final(self).num_resources == old(self).num_resources,
            final(self).data@ == old(self).data@,
            final(self).spans@ == old(self).spans@,
            final(self).sync_points@ == old(self).sync_points@,
    {
        self.usages.push(FlatUsage { entity: e, usage: Usage { resource: r, kind } });
    }

    /// Commits the payload of entity `e`.
    pub fn commit(&mut self, e: Entity, value: T)
        requires
            old(self).wf(),
            e < old(self).data@.len(),
        ensures
            final(self).wf(),
            final(self).finalized == old(self).finalized,
            final(self).data@ == old(self).data@.update(e as int, Some(value)),
            final(self).kinds@ == old(self).kinds@,
            final(self).usages@ == old(self).usages@,
            final(self).num_resources == old(self).num_resources,
            final(self).spans@ == old(self).spans@,
            final(self).sync_points@ == old(self).sync_points@,
    {
        self.data.set(e, Some(value));
    }

    /// Takes the committed payload of entity `e` out, leaving `None`.
    pub fn remove_data(&mut self, e: Entity) -> (v: Option<T>)
        requires
            old(self).wf(),
            e < old(self).data@.len(),
        ensures
            final(self).wf(),
            final(self).finalized == old(self).finalized,
            v == old(self).data@[e as int],
            final(self).data@ == old(self).data@.update(e as int, None::<T>),
            final(self).kinds@ == old(self).kinds@,
            final(self).usages@ == old(self).usages@,
            final(self).num_resources == old(self).num_resources,
            final(self).spans@ == old(self).spans@,
            final(self).sync_points@ == old(self).sync_points@,
            final(self).input == old(self).input,
    {
        let mut v: Option<T> = None;
        self.data.set_and_swap(e, &mut v);
        v
    }

    /// Requests that every entity dependency-bound between `from` and `to`
    /// be merged into one render pass.
    pub fn request_render_pass_span(&mut self, from: Entity, to: Entity)
        requires
            old(self).wf(),
            !old(self).finalized,
            from < old(self).kinds@.len(),
            to < old(self).kinds@.len(),
        ensures
            final(self).wf(),
            !final(self).finalized,
            final(self).spans@ == old(self).spans@.push(RenderPassSpan { from, to }),
            final(self).kinds@ == old(self).kinds@,
            final(self).usages@ == old(self).usages@,
            final(self).num_resources == old(self).num_resources,
            final(self).data@ == old(self).data@,
            final(self).sync_points@ == old(self).sync_points@,
    {
        self.spans.push(RenderPassSpan { from, to });
    }

    /// Registers a synchronization point on a resource: an external consumer
    /// will wait on the resource's last writer.
    pub fn sync_point_get(&mut self, r: Resource) -> (sp: SyncPointId)
        requires
            old(self).wf(),
            r < old(self).num_resources,
        ensures
            final(self).wf(),
            final(self).finalized == old(self).finalized,
            sp == old(self).sync_points@.len(),
            final(self).sync_points@ == old(self).sync_points@.push(r),
            final(self).kinds@ == old(self).kinds@,
            final(self).usages@ == old(self).usages@,
            final(self).num_resources == old(self).num_resources,
            final(self).data@ == old(self).data@,
            final(self).spans@ == old(self).spans@,
    {
        let sp = self.sync_points.len();
        self.sync_points.push(r);
        sp
    }

    /// The semaphore bound to a synchronization point (one each).
    pub fn sync_point_to_semaphore(&self, sp: SyncPointId) -> (s: SemaphoreId)
        requires
            sp < self.sync_points@.len(),
        ensures
            s == sp,
    {
        sp
    }

    /// Locks the accumulated registrations into the immutable input consumed
    /// by the scheduler. After this, the builder is finalized.
    pub fn postprocess(&mut self)
        requires
            old(self).wf(),
            !old(self).finalized,
        ensures
            final(self).wf(),
            final(self).finalized,
            final(self).kinds@ == old(self).kinds@,
            final(self).usages@ == old(self).usages@,
            final(self).num_resources == old(self).num_resources,
            final(self).data@ == old(self).data@,
            final(self).spans@ == old(self).spans@,
            final(self).sync_points@ == old(self).sync_points@,
            final(self).input.wf(),
            final(self).input.entities@.len() == old(self).kinds@.len(),
            forall|e: int|
                0 <= e < old(self).kinds@.len() ==> final(self).input.kind_of(e) == old(
                    self,
                ).kinds@[e],
            forall|e: int|
                0 <= e < old(self).kinds@.len() ==> final(self).input.usage_seq(e) == usages_of(
                    old(self).usages@,
                    e,
                ),
            final(self).input.spans@ == old(self).spans@,
            final(self).input.sync_points@ == old(self).sync_points@,
            final(self).input.num_resources == old(self).num_resources,
    {
        let n = self.kinds.len();
        let mut entities: Vec<EntityData> = Vec::new();
        let mut e: usize = 0;
        while e < n
            invariant
                self.wf(),
                n == self.kinds@.len(),
                e <= n,
                entities@.len() == e,
                forall|j: int| 0 <= j < e ==> (#[trigger] entities@[j]).kind == self.kinds@[j],
                forall|j: int|
                    0 <= j < e ==> (#[trigger] entities@[j]).usages@ == usages_of(self.usages@, j),
                forall|j: int, k: int|
                    0 <= j < e && 0 <= k < entities@[j].usages@.len()
                        ==> (#[trigger] entities@[j].usages@[k]).resource < self.num_resources,
            decreases n - e,
        {
            let mut us: Vec<Usage> = Vec::new();
            let mut j: usize = 0;
            while j < self.usages.len()
                invariant
                    self.wf(),
                    e < n,
                    n == self.kinds@.len(),
                    j <= self.usages@.len(),
                    us@ == usages_of(self.usages@.take(j as int), e as int),
                    forall|k: int|
                        0 <= k < us@.len() ==> (#[trigger] us@[k]).resource < self.num_resources,
                decreases self.usages@.len() - j,
            {
                let fu = self.usages[j];
                proof {
                    assert(self.usages@.take(j as int + 1).drop_last() =~= self.usages@.take(
                        j as int,
                    ));
                    assert(self.usages@.take(j as int + 1).last() == self.usages@[j as int]);
                }
                if fu.entity == e {
                    us.push(fu.usage);
                }
                j += 1;
            }
            proof {
                assert(self.usages@.take(self.usages@.len() as int) =~= self.usages@);
            }
            entities.push(EntityData { kind: self.kinds[e], usages: us });
            e += 1;
        }
        let spans = copy_spans(&self.spans);
        let sync_points = copy_ids(&self.sync_points);
        let input = SchedulerInput {
            entities,
            num_resources: self.num_resources,
            spans,
            sync_points,
        };
        proof {
            assert forall|e2: int, k: int|
                0 <= e2 < input.n() && 0 <= k < input.usage_seq(e2).len() implies #[trigger] input
                .usage_seq(e2)[k].resource < input.num_resources by {
                assert(input.usage_seq(e2)[k] == input.entities@[e2].usages@[k]);
            }
            assert(input.wf());
        }
        self.input = input;
        self.finalized = true;
    }

    /// The finalized input.
    pub fn scheduler_input(&self) -> (r: &SchedulerInput)
        requires
            self.finalized,
        ensures
            *r == self.input,
    {
        &self.input
    }
}

/// An element-for-element copy.
fn copy_spans(v: &Vec<RenderPassSpan>) -> (r: Vec<RenderPassSpan>)
    ensures
        r@ == v@,
{
    let mut r: Vec<RenderPassSpan> = Vec::new();
    let mut j: usize = 0;
    while j < v.len()
        invariant
            j <= v@.len(),
            r@ == v@.take(j as int),
        decreases v@.len() - j,
    {
        r.push(v[j]);
        proof {
            assert(r@ =~= v@.take(j + 1 as int));
        }
        j += 1;
    }
    proof {
        assert(r@ =~= v@);
    }
    r
}

/// An element-for-element copy.
fn copy_ids(v: &Vec<usize>) -> (r: Vec<usize>)
    ensures
        r@ == v@,
{
    let mut r: Vec<usize> = Vec::new();
    let mut j: usize = 0;
    while j < v.len()
        invariant
            j <= v@.len(),
            r@ == v@.take(j as int),
        decreases v@.len() - j,
    {
        r.push(v[j]);
        proof {
            assert(r@ =~= v@.take(j + 1 as int));
        }
        j += 1;
    }
    proof {
        assert(r@ =~= v@);
    }
    r
}

} // verus!
