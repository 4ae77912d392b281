use map_reduce::coordinator::{TaskService, TaskType};
use map_reduce::rpc::{MapTaskCompleteRequest, ReduceTaskCompleteRequest};

fn service(inputs: &[&str], n_reduce: u32) -> TaskService {
    let files: Vec<String> = inputs.iter().map(|s| s.to_string()).collect();
    TaskService::new(files, n_reduce, "out".to_string())
}

#[test]
fn dispenses_map_tasks_then_idle() {
    let mut s = service(&["a.txt", "b.txt"], 2);
    let (d0, t0) = s.get_task_for_worker(0);
    assert_eq!(t0, TaskType::MapTask);
    let d0 = d0.unwrap();
    assert_eq!(d0.input_files, vec!["a.txt".to_string()]);
    assert_eq!(d0.n_reduce, 2);
    assert_eq!(d0.output_path, "out".to_string());
    let (d1, t1) = s.get_task_for_worker(0);
    assert_eq!(t1, TaskType::MapTask);
    assert_eq!(d1.unwrap().task_id, 1);
    let (d2, t2) = s.get_task_for_worker(0);
    assert_eq!(t2, TaskType::Idle);
    assert!(d2.is_none());
}

#[test]
fn straggler_is_reassigned_after_timeout() {
    // one worker claims map task 0 and stalls; a second worker first sees
    // nothing, and after the sweep's timeout reset receives task 0 itself
    let mut s = service(&["a.txt"], 1);
    let (d, t) = s.get_task_for_worker(0);
    assert_eq!(t, TaskType::MapTask);
    assert_eq!(d.unwrap().task_id, 0);
    let (d2, t2) = s.get_task_for_worker(1000);
    assert_eq!(t2, TaskType::Idle);
    assert!(d2.is_none());
    // a sweep before the timeout changes nothing
    s.sweep(5000);
    let (_, t3) = s.get_task_for_worker(5001);
    assert_eq!(t3, TaskType::Idle);
    // past ten seconds the claim is dropped
    s.sweep(11001);
    let (d4, t4) = s.get_task_for_worker(11002);
    assert_eq!(t4, TaskType::MapTask);
    assert_eq!(d4.unwrap().task_id, 0);
}

#[test]
fn duplicate_map_completion_is_ignored() {
    // two identical completion reports leave the path once in the reduce
    // task's inputs: the second sees a completed task and returns
    let mut s = service(&["a.txt"], 1);
    let (_, t) = s.get_task_for_worker(0);
    assert_eq!(t, TaskType::MapTask);
    let req = MapTaskCompleteRequest { task_id: 0, files: vec![(0, "p".to_string())] };
    s.mark_map_task_complete(req);
    let req_again = MapTaskCompleteRequest { task_id: 0, files: vec![(0, "p".to_string())] };
    s.mark_map_task_complete(req_again);
    s.sweep(1);
    let (d, t) = s.get_task_for_worker(2);
    assert_eq!(t, TaskType::ReduceTask);
    assert_eq!(d.unwrap().input_files, vec!["p".to_string()]);
}

#[test]
fn phase_advances_when_all_maps_complete() {
    // with two map tasks and two reducers, after both completions are
    // acknowledged the next sweep opens the reduce phase
    let mut s = service(&["a.txt", "b.txt"], 2);
    let (_, _) = s.get_task_for_worker(0);
    let (_, _) = s.get_task_for_worker(0);
    s.mark_map_task_complete(MapTaskCompleteRequest {
        task_id: 0,
        files: vec![(0, "i00".to_string()), (1, "i01".to_string())],
    });
    let (_, between) = s.get_task_for_worker(1);
    assert_eq!(between, TaskType::Idle);
    s.mark_map_task_complete(MapTaskCompleteRequest {
        task_id: 1,
        files: vec![(1, "i11".to_string())],
    });
    s.sweep(2);
    let (d, t) = s.get_task_for_worker(3);
    assert_eq!(t, TaskType::ReduceTask);
    let d = d.unwrap();
    assert_eq!(d.task_id, 0);
    assert_eq!(d.input_files, vec!["i00".to_string()]);
    let (d2, t2) = s.get_task_for_worker(3);
    assert_eq!(t2, TaskType::ReduceTask);
    let d2 = d2.unwrap();
    assert_eq!(d2.task_id, 1);
    assert_eq!(d2.input_files, vec!["i01".to_string(), "i11".to_string()]);
}

#[test]
fn termination_after_all_reduces_complete() {
    let mut s = service(&["a.txt"], 1);
    let (_, _) = s.get_task_for_worker(0);
    s.mark_map_task_complete(MapTaskCompleteRequest {
        task_id: 0,
        files: vec![(0, "p".to_string())],
    });
    s.sweep(1);
    assert!(!s.is_job_complete());
    let (_, t) = s.get_task_for_worker(2);
    assert_eq!(t, TaskType::ReduceTask);
    s.mark_reduce_task_complete(ReduceTaskCompleteRequest { task_id: 0 });
    // duplicate reduce completion is accepted and ignored
    s.mark_reduce_task_complete(ReduceTaskCompleteRequest { task_id: 0 });
    s.sweep(3);
    assert!(s.is_job_complete());
    let (d, t) = s.get_task_for_worker(4);
    assert_eq!(t, TaskType::Exit);
    assert!(d.is_none());
}

#[test]
fn empty_map_output_does_not_block_the_job() {
    // a map that produced no records reports no files: no reduce task ever
    // exists, and the job still runs to completion
    let mut s = service(&["empty.txt"], 3);
    let (_, _) = s.get_task_for_worker(0);
    s.mark_map_task_complete(MapTaskCompleteRequest { task_id: 0, files: vec![] });
    s.sweep(1);
    let (d, t) = s.get_task_for_worker(2);
    assert_eq!(t, TaskType::Idle);
    assert!(d.is_none());
    s.sweep(2);
    assert!(s.is_job_complete());
    let (_, t) = s.get_task_for_worker(3);
    assert_eq!(t, TaskType::Exit);
}

#[test]
fn unknown_task_ids_are_ignored() {
    let mut s = service(&["a.txt"], 1);
    s.mark_map_task_complete(MapTaskCompleteRequest { task_id: 9, files: vec![] });
    s.mark_reduce_task_complete(ReduceTaskCompleteRequest { task_id: 9 });
    let (d, t) = s.get_task_for_worker(0);
    assert_eq!(t, TaskType::MapTask);
    assert_eq!(d.unwrap().task_id, 0);
}
