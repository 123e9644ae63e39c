//! End-to-end scenarios for the scheduling engine.

use frame_sched::builder::ProceduralBuilder;
use frame_sched::interface::{EntityKind, ScheduleEntry, SchedulerError, UsageKind};
use frame_sched::scheduler::Scheduler;

const PLAIN_READ: UsageKind = UsageKind { attachment: false, write: false };
const PLAIN_WRITE: UsageKind = UsageKind { attachment: false, write: true };
const ATT_WRITE: UsageKind = UsageKind { attachment: true, write: true };

#[test]
fn disconnected_span_is_rejected() {
    // Two entities with no shared resource and a span between them.
    let mut b: ProceduralBuilder<u32> = ProceduralBuilder::new();
    let a = b.create_entity(EntityKind::Pass);
    let c = b.create_entity(EntityKind::Pass);
    let r1 = b.create_resource();
    let r2 = b.create_resource();
    b.register_usage(a, r1, PLAIN_WRITE);
    b.register_usage(c, r2, PLAIN_READ);
    b.request_render_pass_span(a, c);
    b.postprocess();
    let mut s = Scheduler::new();
    assert_eq!(s.plan(b.scheduler_input()), Err(SchedulerError::DisconnectedSpan));
}

#[test]
fn chain_span_merges_into_one_pass() {
    // Three entities A -> B -> C sharing resource R, all Pass kind, plain
    // use only; span (A, C) gives one merged pass holding {A, B, C}.
    let mut b: ProceduralBuilder<u32> = ProceduralBuilder::new();
    let a = b.create_entity(EntityKind::Pass);
    let e_b = b.create_entity(EntityKind::Pass);
    let c = b.create_entity(EntityKind::Pass);
    let r = b.create_resource();
    b.register_usage(a, r, PLAIN_WRITE);
    b.register_usage(e_b, r, PLAIN_WRITE);
    b.register_usage(c, r, PLAIN_READ);
    b.request_render_pass_span(a, c);
    b.postprocess();
    let mut s = Scheduler::new();
    assert_eq!(s.plan(b.scheduler_input()), Ok(()));
    assert_eq!(s.passes.len(), 1);
    assert_eq!(s.passes[0].entities, vec![a, e_b, c]);
    assert!(s.passes[0].members.contains(a));
    assert!(s.passes[0].members.contains(e_b));
    assert!(s.passes[0].members.contains(c));
    assert_eq!(s.passes_back, vec![Some(0), Some(0), Some(0)]);
    assert_eq!(
        s.scheduled_order,
        vec![
            ScheduleEntry::PassEntity(a, 0),
            ScheduleEntry::PassEntity(e_b, 0),
            ScheduleEntry::PassEntity(c, 0),
        ]
    );
}

#[test]
fn attachment_use_conflict_is_rejected() {
    // A writes X as an attachment, B reads X plainly; span (A, B).
    let mut b: ProceduralBuilder<u32> = ProceduralBuilder::new();
    let a = b.create_entity(EntityKind::Pass);
    let e_b = b.create_entity(EntityKind::Pass);
    let x = b.create_resource();
    b.register_usage(a, x, ATT_WRITE);
    b.register_usage(e_b, x, PLAIN_READ);
    b.request_render_pass_span(a, e_b);
    b.postprocess();
    let mut s = Scheduler::new();
    assert_eq!(s.plan(b.scheduler_input()), Err(SchedulerError::AttachmentUseConflict));
}

#[test]
fn non_pass_entity_in_span_is_rejected() {
    let mut b: ProceduralBuilder<u32> = ProceduralBuilder::new();
    let a = b.create_entity(EntityKind::Pass);
    let mid = b.create_entity(EntityKind::Standalone);
    let c = b.create_entity(EntityKind::Pass);
    let r = b.create_resource();
    b.register_usage(a, r, PLAIN_WRITE);
    b.register_usage(mid, r, PLAIN_WRITE);
    b.register_usage(c, r, PLAIN_READ);
    b.request_render_pass_span(a, c);
    b.postprocess();
    let mut s = Scheduler::new();
    assert_eq!(s.plan(b.scheduler_input()), Err(SchedulerError::NonPassEntityInSpan));
}

#[test]
fn double_plan_is_rejected() {
    let mut b: ProceduralBuilder<u32> = ProceduralBuilder::new();
    b.create_entity(EntityKind::Standalone);
    b.postprocess();
    let mut s = Scheduler::new();
    assert_eq!(s.plan(b.scheduler_input()), Ok(()));
    assert_eq!(s.plan(b.scheduler_input()), Err(SchedulerError::DoublePlan));
}

#[test]
fn present_registration_gets_one_slot_at_last_writer() {
    // A present registration on image I whose last writer is W: exactly one
    // sync slot, at W's schedule position.
    let mut b: ProceduralBuilder<u32> = ProceduralBuilder::new();
    let early = b.create_entity(EntityKind::Standalone);
    let w = b.create_entity(EntityKind::Standalone);
    let late = b.create_entity(EntityKind::Standalone);
    let i = b.create_resource();
    b.register_usage(early, i, PLAIN_WRITE);
    b.register_usage(w, i, PLAIN_WRITE);
    b.register_usage(late, i, PLAIN_READ);
    let sp = b.sync_point_get(i);
    let sem = b.sync_point_to_semaphore(sp);
    b.postprocess();
    let mut s = Scheduler::new();
    assert_eq!(s.plan(b.scheduler_input()), Ok(()));
    let slots = &s.sync_strategy.slots;
    assert_eq!(slots.len(), 3);
    assert_eq!(slots[early], Vec::<usize>::new());
    assert_eq!(slots[w], vec![sem]);
    assert_eq!(slots[late], Vec::<usize>::new());
}

#[test]
fn unclaimed_pass_entities_become_single_entity_passes() {
    // No spans: each Pass-kind entity gets its own pass, Standalone entities
    // become General entries.
    let mut b: ProceduralBuilder<u32> = ProceduralBuilder::new();
    let p0 = b.create_entity(EntityKind::Pass);
    let g = b.create_entity(EntityKind::Standalone);
    let p1 = b.create_entity(EntityKind::Pass);
    b.postprocess();
    let mut s = Scheduler::new();
    assert_eq!(s.plan(b.scheduler_input()), Ok(()));
    assert_eq!(s.passes.len(), 2);
    assert_eq!(s.passes[0].entities, vec![p0]);
    assert_eq!(s.passes[1].entities, vec![p1]);
    assert_eq!(s.passes_back, vec![Some(0), None, Some(1)]);
    assert_eq!(
        s.scheduled_order,
        vec![
            ScheduleEntry::PassEntity(p0, 0),
            ScheduleEntry::General(g),
            ScheduleEntry::PassEntity(p1, 1),
        ]
    );
}

#[test]
fn single_entity_conflict_is_rejected_at_finalization() {
    // One Pass-kind entity that touches the same resource both as an
    // attachment and plainly is itself an invalid render pass.
    let mut b: ProceduralBuilder<u32> = ProceduralBuilder::new();
    let a = b.create_entity(EntityKind::Pass);
    let r = b.create_resource();
    b.register_usage(a, r, ATT_WRITE);
    b.register_usage(a, r, PLAIN_READ);
    b.postprocess();
    let mut s = Scheduler::new();
    assert_eq!(s.plan(b.scheduler_input()), Err(SchedulerError::AttachmentUseConflict));
}

#[test]
fn replanning_same_input_is_deterministic() {
    let mut b: ProceduralBuilder<u32> = ProceduralBuilder::new();
    let a = b.create_entity(EntityKind::Pass);
    let e_b = b.create_entity(EntityKind::Pass);
    let c = b.create_entity(EntityKind::Standalone);
    let r = b.create_resource();
    let r2 = b.create_resource();
    b.register_usage(a, r, ATT_WRITE);
    b.register_usage(e_b, r, ATT_WRITE);
    b.register_usage(c, r2, PLAIN_WRITE);
    b.request_render_pass_span(a, e_b);
    b.postprocess();
    let mut s1 = Scheduler::new();
    let mut s2 = Scheduler::new();
    assert_eq!(s1.plan(b.scheduler_input()), Ok(()));
    assert_eq!(s2.plan(b.scheduler_input()), Ok(()));
    assert_eq!(s1.passes.len(), s2.passes.len());
    for q in 0..s1.passes.len() {
        assert_eq!(s1.passes[q].entities, s2.passes[q].entities);
        assert_eq!(s1.passes[q].members.bits, s2.passes[q].members.bits);
        assert_eq!(s1.passes[q].attachments.bits, s2.passes[q].attachments.bits);
        assert_eq!(s1.passes[q].uses.bits, s2.passes[q].uses.bits);
        assert_eq!(s1.passes[q].writes.bits, s2.passes[q].writes.bits);
        assert_eq!(s1.passes[q].for_cum.bits, s2.passes[q].for_cum.bits);
        assert_eq!(s1.passes[q].rev_cum.bits, s2.passes[q].rev_cum.bits);
    }
    assert_eq!(s1.passes_back, s2.passes_back);
    assert_eq!(s1.scheduled_order, s2.scheduled_order);
}

#[test]
fn pass_resource_sets_are_exact() {
    let mut b: ProceduralBuilder<u32> = ProceduralBuilder::new();
    let a = b.create_entity(EntityKind::Pass);
    let e_b = b.create_entity(EntityKind::Pass);
    let att = b.create_resource();
    let plain = b.create_resource();
    let unused = b.create_resource();
    b.register_usage(a, att, ATT_WRITE);
    b.register_usage(e_b, att, UsageKind { attachment: true, write: false });
    b.register_usage(e_b, plain, PLAIN_READ);
    b.request_render_pass_span(a, e_b);
    b.postprocess();
    let mut s = Scheduler::new();
    assert_eq!(s.plan(b.scheduler_input()), Ok(()));
    assert_eq!(s.passes.len(), 1);
    let p = &s.passes[0];
    assert!(p.attachments.contains(att));
    assert!(!p.attachments.contains(plain));
    assert!(!p.attachments.contains(unused));
    assert!(p.uses.contains(plain));
    assert!(!p.uses.contains(att));
    assert!(p.writes.contains(att));
    assert!(!p.writes.contains(plain));
    // Attachment exclusivity on the finalized pass.
    for r in 0..3 {
        assert!(!(p.attachments.contains(r) && p.uses.contains(r)));
    }
}

#[test]
fn scheduled_order_is_a_linear_extension() {
    // Dependencies run from lower to higher registration index; the final
    // order must respect every shared-resource edge.
    let mut b: ProceduralBuilder<u32> = ProceduralBuilder::new();
    let mut ents = Vec::new();
    for _ in 0..4 {
        ents.push(b.create_entity(EntityKind::Standalone));
    }
    let r = b.create_resource();
    b.register_usage(ents[0], r, PLAIN_WRITE);
    b.register_usage(ents[2], r, PLAIN_READ);
    b.postprocess();
    let mut s = Scheduler::new();
    assert_eq!(s.plan(b.scheduler_input()), Ok(()));
    let pos = |e: usize| {
        s.scheduled_order
            .iter()
            .position(|entry| match entry {
                ScheduleEntry::General(x) => *x == e,
                ScheduleEntry::PassEntity(x, _) => *x == e,
            })
            .unwrap()
    };
    assert!(pos(ents[0]) < pos(ents[2]));
    assert_eq!(s.scheduled_order.len(), 4);
}

#[test]
fn committed_payload_round_trip() {
    let mut b: ProceduralBuilder<&'static str> = ProceduralBuilder::new();
    let a = b.create_entity(EntityKind::Standalone);
    b.commit(a, "draw");
    b.postprocess();
    assert_eq!(b.remove_data(a), Some("draw"));
    assert_eq!(b.remove_data(a), None);
}

#[test]
fn empty_generation_plans_to_empty_schedule() {
    let mut b: ProceduralBuilder<u32> = ProceduralBuilder::new();
    b.postprocess();
    let mut s = Scheduler::new();
    assert_eq!(s.plan(b.scheduler_input()), Ok(()));
    assert!(s.scheduled_order.is_empty());
    assert!(s.passes.is_empty());
    assert!(s.sync_strategy.slots.is_empty());
}

#[test]
fn span_on_one_entity_makes_a_singleton_pass() {
    let mut b: ProceduralBuilder<u32> = ProceduralBuilder::new();
    let a = b.create_entity(EntityKind::Pass);
    b.request_render_pass_span(a, a);
    b.postprocess();
    let mut s = Scheduler::new();
    assert_eq!(s.plan(b.scheduler_input()), Ok(()));
    assert_eq!(s.passes.len(), 1);
    assert_eq!(s.passes[0].entities, vec![a]);
}
