//! The orchestrator: plans a finalized input into render passes, a
//! synchronization assignment and the final `scheduled_order`.

use vstd::prelude::*;

use crate::identify::{
    identify_render_passes, passes_match, spec_identify, PassSchedule, RenderPassData,
};
use crate::interface::{PassId, ScheduleEntry, SchedulerError, SchedulerInput};
use crate::resource_schedule::ResourceSchedule;
use crate::sync::SyncStrategy;

verus! {

/// One scheduler instance plans one generation: `new` gives an empty
/// instance, a successful `plan` fills it and makes it read-only, and a
/// second `plan` is refused.
pub struct Scheduler {
    pub planned: bool,
    pub scheduled_order: Vec<ScheduleEntry>,
    pub passes: Vec<RenderPassData>,
    pub passes_back: Vec<Option<PassId>>,
    pub sync_strategy: SyncStrategy,
}

/// The schedule lists every entity once, in the global order: pass members
/// as `PassEntity` entries carrying their finalized pass id, everything else
/// as `General` entries.
pub open spec fn order_matches(
    inp: SchedulerInput,
    pb: Seq<Option<usize>>,
    order: Seq<ScheduleEntry>,
) -> bool {
    &&& order.len() == inp.n()
    &&& forall|e: int|
        #![trigger order[e]]
        0 <= e < inp.n() ==> order[e] == (match pb[e] {
            Some(p) => ScheduleEntry::PassEntity(e as usize, p),
            None => ScheduleEntry::General(e as usize),
        })
}

impl Scheduler {
    pub fn new() -> (s: Self)
        ensures
            !s.planned,
            s.scheduled_order@.len() == 0,
            s.passes@.len() == 0,
            s.passes_back@.len() == 0,
            s.sync_strategy.slots@.len() == 0,
    {
        Scheduler {
            planned: false,
            scheduled_order: Vec::new(),
            passes: Vec::new(),
            passes_back: Vec::new(),
            sync_strategy: SyncStrategy { slots: Vec::new() },
        }
    }

    /// Plans one generation: derives the dependency closures, identifies the
    /// render passes, assigns synchronization slots and produces the final
    /// schedule. On a validation failure the instance is left untouched and
    /// the typed error is surfaced; planning twice is refused.
    pub fn plan(&mut self, inp: &SchedulerInput) -> (r: Result<(), SchedulerError>)
        requires
            inp.wf(),
        ensures
            match r {
                Ok(()) => {
                    &&& !old(self).planned
                    &&& final(self).planned
                    &&& spec_identify(*inp) matches Ok(fs) && passes_match(
                        *inp,
                        fs,
                        (PassSchedule {
                            passes: final(self).passes,
                            passes_back: final(self).passes_back,
                        }),
                    )
                    &&& order_matches(*inp, final(self).passes_back@, final(self).scheduled_order@)
                    &&& final(self).sync_strategy.matches(*inp)
                },
                Err(e) => {
                    &&& *final(self) == *old(self)
                    &&& if old(self).planned {
                        e == SchedulerError::DoublePlan
                    } else {
                        spec_identify(*inp) == Err::<Seq<Set<int>>, SchedulerError>(e)
                    }
                },
            },
    {
        if self.planned {
            return Err(SchedulerError::DoublePlan);
        }
        let rs = ResourceSchedule::compute(inp);
        let ps = match identify_render_passes(inp, &rs) {
            Ok(ps) => ps,
            Err(e) => {
                return Err(e);
            },
        };
        let sync_strategy = SyncStrategy::assign(inp);
        let n = inp.entities.len();
        let mut order: Vec<ScheduleEntry> = Vec::new();
        let mut e: usize = 0;
        while e < n
            invariant
                n == inp.n(),
                e <= n,
                ps.passes_back@.len() == n,
                order@.len() == e,
                forall|j: int|
                    0 <= j < e ==> #[trigger] order@[j] == (match ps.passes_back@[j] {
                        Some(p) => ScheduleEntry::PassEntity(j as usize, p),
                        None => ScheduleEntry::General(j as usize),
                    }),
            decreases n - e,
        {
            match ps.passes_back[e] {
                Some(p) => {
                    order.push(ScheduleEntry::PassEntity(e, p));
                },
                None => {
                    order.push(ScheduleEntry::General(e));
                },
            }
            e += 1;
        }
        let PassSchedule { passes, passes_back } = ps;
        self.passes = passes;
        self.passes_back = passes_back;
        self.scheduled_order = order;
        self.sync_strategy = sync_strategy;
        self.planned = true;
        Ok(())
    }
}

} // verus!
