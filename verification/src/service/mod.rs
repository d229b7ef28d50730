//! The decisions of the services: what a request asks of the store, and
//! what it is answered.

pub mod auto_scan;
pub mod node_service;
pub mod task_service;
