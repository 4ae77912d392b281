//! A small MapReduce execution framework.
//!
//! A coordinator hands out Map and Reduce tasks to stateless workers,
//! tracks progress, reassigns tasks whose workers appear to have failed,
//! and drives the job from input files to per-reducer output files.
//! This crate holds the verified core: the coordinator's scheduling state
//! machine and the worker's partition/shuffle/reduce pipeline. Process
//! entry points, the RPC transport and all file handling live outside.

pub mod codec;
pub mod coordinator;
pub mod hash;
pub mod indexer;
pub mod models;
pub mod rpc;
pub mod scheduler_laws;
pub mod strings;
pub mod wc;
pub mod worker;

pub use models::KeyValue;
pub use coordinator::{TaskService, TaskType, TaskStatus, JobPhase, TaskMeta, Coordinator};
