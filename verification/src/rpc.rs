//! The messages of the coordinator's task interface. The transport that
//! carries them lives outside the library; these are the plain values the
//! two sides exchange.

use vstd::prelude::*;
use crate::coordinator::TaskType;

verus! {

/// The empty request and the empty acknowledgement.
pub struct Empty {}

/// Everything a worker needs to run one task: the files to read, the
/// task's id, the global reducer count, and the job's output directory.
pub struct TaskData {
    pub input_files: Vec<String>,
    pub task_id: u32,
    pub n_reduce: u32,
    pub output_path: String,
}

/// The coordinator's answer to `GetTask`.
pub struct TaskResponse {
    pub task_type: TaskType,
    pub data: Option<TaskData>,
}

/// A map task's completion report: for each reducer that received at least
/// one record, the final path of the intermediate file written for it.
/// The pairs carry distinct reducer ids below the job's reducer count.
pub struct MapTaskCompleteRequest {
    pub task_id: u32,
    pub files: Vec<(u32, String)>,
}

/// A reduce task's completion report.
pub struct ReduceTaskCompleteRequest {
    pub task_id: u32,
}

/// The view of a completion report's file list: reducer ids paired with
/// path contents.
pub open spec fn files_view(v: Seq<(u32, String)>) -> Seq<(u32, Seq<char>)> {
    v.map_values(|p: (u32, String)| (p.0, p.1@))
}

} // verus!
