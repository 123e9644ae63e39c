//! The graph-construction surface: node ids, callbacks and the node trait.

use frame_sched::builder::ProceduralBuilder;
use frame_sched::graph::{Callback, GraphGenerationNodeId, Node};
use frame_sched::interface::{EntityKind, UsageKind};
use frame_sched::scheduler::Scheduler;

#[test]
fn callback_defaults_to_empty() {
    let c: Callback<u32> = Default::default();
    assert!(matches!(c, Callback::Empty));
}

#[test]
fn node_id_round_trip() {
    let id = GraphGenerationNodeId::new(7);
    assert_eq!(id.index(), 7);
    assert_eq!(id, GraphGenerationNodeId(7));
}

struct ClearNode;

impl Node<Callback<u32>> for ClearNode {
    type Argument = u32;
    type Output = usize;

    fn construct(
        &mut self,
        ctx: &mut ProceduralBuilder<Callback<u32>>,
        node: GraphGenerationNodeId,
        arg: Self::Argument,
    ) -> Result<Self::Output, ()> {
        let e = ctx.create_entity(EntityKind::Standalone);
        let r = ctx.create_resource();
        ctx.register_usage(e, r, UsageKind { attachment: false, write: true });
        ctx.commit(e, Callback::Standalone(node, arg));
        Ok(e)
    }
}

#[test]
fn node_construction_drives_the_builder() {
    let mut b: ProceduralBuilder<Callback<u32>> = ProceduralBuilder::new();
    let mut node = ClearNode;
    let e = node.construct(&mut b, GraphGenerationNodeId::new(0), 42).unwrap();
    b.postprocess();
    let mut s = Scheduler::new();
    assert_eq!(s.plan(b.scheduler_input()), Ok(()));
    assert_eq!(s.scheduled_order.len(), 1);
    match b.remove_data(e) {
        Some(Callback::Standalone(node_id, arg)) => {
            assert_eq!(node_id.index(), 0);
            assert_eq!(arg, 42);
        },
        _ => panic!("expected a committed standalone callback"),
    }
}
