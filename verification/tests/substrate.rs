//! Unit tests for the entity sets and the dependency substrate.

use frame_sched::builder::ProceduralBuilder;
use frame_sched::entity_set::EntitySet;
use frame_sched::interface::{Direction, EntityKind, UsageKind};
use frame_sched::resource_schedule::ResourceSchedule;

const PLAIN_WRITE: UsageKind = UsageKind { attachment: false, write: true };
const PLAIN_READ: UsageKind = UsageKind { attachment: false, write: false };

#[test]
fn entity_set_operations() {
    let mut a = EntitySet::new(5);
    let mut b = EntitySet::new(5);
    a.insert(1);
    a.insert(3);
    b.insert(3);
    b.insert(4);
    assert!(a.contains(1) && a.contains(3) && !a.contains(0) && !a.contains(7));
    let i = a.intersection(&b);
    assert!(i.contains(3) && !i.contains(1) && !i.contains(4));
    let u = a.union(&b);
    assert!(u.contains(1) && u.contains(3) && u.contains(4) && !u.contains(0));
    assert_eq!(u.members(), vec![1, 3, 4]);
    let mut c = a.copy();
    c.union_into(&b);
    assert_eq!(c.members(), vec![1, 3, 4]);
    let mut d = EntitySet::new(5);
    d.insert(0);
    assert!(d.is_disjoint(&a));
    assert!(!a.is_disjoint(&b));
}

fn chain_input() -> frame_sched::interface::SchedulerInput {
    // 0 -> 1 -> 2 through one shared resource, 3 isolated.
    let mut b: ProceduralBuilder<u32> = ProceduralBuilder::new();
    for _ in 0..4 {
        b.create_entity(EntityKind::Standalone);
    }
    let r = b.create_resource();
    b.register_usage(0, r, PLAIN_WRITE);
    b.register_usage(1, r, PLAIN_WRITE);
    b.register_usage(2, r, PLAIN_READ);
    b.postprocess();
    let ProceduralBuilder { input, .. } = b;
    input
}

#[test]
fn cumulative_sets_are_reachability_closures() {
    let input = chain_input();
    assert!(input.is_well_formed());
    let rs = ResourceSchedule::compute(&input);
    // forward closure of 0 is {0, 1, 2}
    assert!(rs.for_cum[0].contains(0) && rs.for_cum[0].contains(1) && rs.for_cum[0].contains(2));
    assert!(!rs.for_cum[0].contains(3));
    // reverse closure of 2 is {0, 1, 2}
    assert!(rs.rev_cum[2].contains(0) && rs.rev_cum[2].contains(1) && rs.rev_cum[2].contains(2));
    assert!(!rs.rev_cum[2].contains(3));
    // closure consistency: e is in its own closures
    for e in 0..4 {
        assert!(rs.for_cum[e].contains(e));
        assert!(rs.rev_cum[e].contains(e));
    }
    // the isolated entity reaches only itself
    assert_eq!(rs.for_cum[3].members(), vec![3]);
    assert_eq!(rs.rev_cum[3].members(), vec![3]);
}

#[test]
fn first_entity_finds_topological_extremes() {
    let input = chain_input();
    let rs = ResourceSchedule::compute(&input);
    let mut set = EntitySet::new(4);
    set.insert(1);
    set.insert(3);
    assert_eq!(rs.first_entity(&set, Direction::Forward), Some(1));
    assert_eq!(rs.first_entity(&set, Direction::Reverse), Some(3));
    let empty = EntitySet::new(4);
    assert_eq!(rs.first_entity(&empty, Direction::Forward), None);
    assert_eq!(rs.first_entity(&empty, Direction::Reverse), None);
    assert_eq!(rs.iter_in_order_boundset(&set), vec![1, 3]);
}

#[test]
fn usages_are_kept_in_registration_order() {
    let mut b: ProceduralBuilder<u32> = ProceduralBuilder::new();
    let e = b.create_entity(EntityKind::Pass);
    let r0 = b.create_resource();
    let r1 = b.create_resource();
    b.register_usage(e, r1, PLAIN_READ);
    b.register_usage(e, r0, PLAIN_WRITE);
    b.postprocess();
    let input = b.scheduler_input();
    let rs = ResourceSchedule::compute(input);
    let us = rs.usages_by(input, e);
    assert_eq!(us.len(), 2);
    assert_eq!(us[0].resource, r1);
    assert_eq!(us[1].resource, r0);
    assert!(!us[0].kind.is_write());
    assert!(us[1].kind.is_write());
}

#[test]
fn span_set_is_the_closure_intersection_of_its_extremes() {
    // The merged span set of a span over the whole chain equals the
    // intersection of the first member's forward closure with the last
    // member's reverse closure.
    let mut b: ProceduralBuilder<u32> = ProceduralBuilder::new();
    for _ in 0..4 {
        b.create_entity(EntityKind::Pass);
    }
    let r = b.create_resource();
    b.register_usage(0, r, PLAIN_WRITE);
    b.register_usage(1, r, PLAIN_WRITE);
    b.register_usage(2, r, PLAIN_READ);
    b.request_render_pass_span(0, 2);
    b.postprocess();
    let input = b.scheduler_input();
    let rs = ResourceSchedule::compute(input);
    let mut s = frame_sched::scheduler::Scheduler::new();
    assert_eq!(s.plan(input), Ok(()));
    assert_eq!(s.passes.len(), 2);
    let members = &s.passes[0].members;
    let first = rs.first_entity(members, Direction::Forward).unwrap();
    let last = rs.first_entity(members, Direction::Reverse).unwrap();
    assert_eq!((first, last), (0, 2));
    let intersection = rs.for_cum[first].intersection(&rs.rev_cum[last]);
    assert_eq!(intersection.members(), members.members());
}
