//! A frame-graph scheduling engine.
//!
//! The library turns an unordered graph of GPU work items (entities) and the
//! resources they touch into a single linear, dependency-correct execution
//! order.  Compatible entities are merged into render passes, and
//! synchronization slots are assigned to the schedule positions that external
//! consumers (such as a present operation) wait on.
//!
//! Data flows one direction: a [`builder::ProceduralBuilder`] accumulates
//! entities, resources, usages and span requests; `postprocess` locks them
//! into a [`interface::SchedulerInput`]; a [`scheduler::Scheduler`] plans the
//! input into a `scheduled_order` that the execution layer walks.

pub mod builder;
pub mod entity_set;
pub mod graph;
pub mod identify;
pub mod interface;
pub mod laws;
pub mod resource_schedule;
pub mod scheduler;
pub mod sync;
