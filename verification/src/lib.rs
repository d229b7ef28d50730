//! The verified core of a coordination service that turns a stateless
//! cluster into a stateful one: tasks are split into slots, the nodes that
//! join a task share its slots, and the slots are rebalanced whenever a node
//! joins, leaves or disappears.

pub mod entity;
pub mod exit;
pub mod ids;
pub mod lock;
pub mod middles;
pub mod proto;
pub mod rebalance;
pub mod rebalance_laws;
pub mod reply;
pub mod service;
pub mod store;
