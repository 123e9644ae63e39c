//! The graph-construction surface the front end sees: per-generation node
//! ids, the committed per-entity callback payload, and the node trait the
//! front end implements.

use vstd::prelude::*;

use crate::builder::ProceduralBuilder;

verus! {

/// Identifies one node within one graph generation.
#[derive(Clone, Copy, PartialEq, Eq, Structural, Debug)]
pub struct GraphGenerationNodeId(pub u32);

impl GraphGenerationNodeId {
    pub fn new(index: u32) -> (r: Self)
        ensures
            r.0 == index,
    {
        GraphGenerationNodeId(index)
    }

    pub fn index(&self) -> (r: u32)
        ensures
            r == self.0,
    {
        self.0
    }
}

/// The committed payload of one entity: nothing yet, a standalone operation
/// with its owning node and callback value, or a render-pass operation with
/// its owning node.
pub enum Callback<T> {
    Empty,
    Standalone(GraphGenerationNodeId, T),
    Pass(GraphGenerationNodeId),
}

impl<T> core::default::Default for Callback<T> {
    fn default() -> (r: Self)
        ensures
            r == Callback::<T>::Empty,
    {
        Callback::Empty
    }
}

/// One node of the declarative graph: `construct` is invoked once per
/// generation with the builder handle and registers the node's entities,
/// resources and usages. `T` is the graph-wide committed payload type.
pub trait Node<T>: Sized {
    type Argument;
    type Output;

    fn construct(
        &mut self,
        ctx: &mut ProceduralBuilder<T>,
        node: GraphGenerationNodeId,
        arg: Self::Argument,
    ) -> Result<Self::Output, ()>;
}

} // verus!
