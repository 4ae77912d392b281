//! Laws of the scheduling state machine, stated and proved over the
//! scheduler's mathematical image and its transition functions.

use vstd::prelude::*;
use crate::coordinator::{
    ServiceView, TaskView, TaskStatus, TaskType, JobPhase, sv_wf, sv_new, sv_get_task,
    sv_map_complete, sv_reduce_complete, sv_sweep, sv_expired, first_idle_map,
    first_idle_reduce, all_map_completed, all_reduce_completed, sweep_map_tasks,
    sweep_reduce_tasks, merge_files, lemma_first_idle_map_bounds,
    lemma_first_idle_reduce_bounds, lemma_first_idle_map_skip, lemma_merge_files_shape,
};

verus! {

/// Phase consistency: a job in or past the reduce phase has every map task
/// completed; a complete job also has every reduce task completed; and the
/// job-complete flag is only raised once the phase is `Complete`.
pub open spec fn phase_inv(s: ServiceView) -> bool {
    &&& (s.phase is Reducing || s.phase is Complete) ==> all_map_completed(s.map_tasks)
    &&& s.phase is Complete ==> all_reduce_completed(s.reduce_tasks)
    &&& s.job_complete ==> s.phase is Complete
}

/// A fresh job satisfies the phase invariant.
pub proof fn lemma_new_phase_inv(files: Seq<Seq<char>>, n_reduce: nat)
    ensures
        phase_inv(sv_new(files, n_reduce)),
{
}

/// Dispensing a task preserves the phase invariant, and a task completed
/// before the call is completed after it — dispensing neither completes
/// nor un-completes anything.
pub proof fn lemma_get_task_preserves(s: ServiceView, now: u64)
    ensures
        phase_inv(s) ==> phase_inv(sv_get_task(s, now).0),
        forall|i: int|
            0 <= i < s.map_tasks.len() ==> ((#[trigger] sv_get_task(s, now).0.map_tasks[i]).status
                is Completed <==> s.map_tasks[i].status is Completed),
        forall|i: int|
            0 <= i < s.reduce_tasks.len() ==> (((#[trigger] sv_get_task(
                s,
                now,
            ).0.reduce_tasks[i]) matches Some(t) && t.status is Completed) <==> (
            s.reduce_tasks[i] matches Some(t) && t.status is Completed)),
{
    match s.phase {
        JobPhase::Mapping => {
            if first_idle_map(s.map_tasks, 0) is Some {
                lemma_first_idle_map_bounds(s.map_tasks, 0);
            }
        },
        JobPhase::Reducing => {
            if first_idle_reduce(s.reduce_tasks, 0) is Some {
                lemma_first_idle_reduce_bounds(s.reduce_tasks, 0);
            }
        },
        JobPhase::Complete => {},
    }
}

/// A map completion report preserves the phase invariant, keeps every
/// completed map task completed, and never changes any reduce task's
/// status — merging only appends input files.
pub proof fn lemma_map_complete_preserves(
    s: ServiceView,
    task_id: u32,
    files: Seq<(u32, Seq<char>)>,
)
    requires
        sv_wf(s),
    ensures
        phase_inv(s) ==> phase_inv(sv_map_complete(s, task_id, files)),
        forall|i: int|
            0 <= i < s.map_tasks.len() && (#[trigger] s.map_tasks[i]).status is Completed
                ==> sv_map_complete(s, task_id, files).map_tasks[i].status is Completed,
        forall|i: int|
            0 <= i < s.reduce_tasks.len() && (#[trigger] s.reduce_tasks[i]) is Some
                ==> sv_map_complete(s, task_id, files).reduce_tasks[i] is Some && sv_map_complete(
                s,
                task_id,
                files,
            ).reduce_tasks[i]->Some_0.status == s.reduce_tasks[i]->Some_0.status,
{
    lemma_merge_files_shape(s.reduce_tasks, files);
    if phase_inv(s) && task_id < s.map_tasks.len() && !(s.map_tasks[
        task_id as int
    ].status is Completed) {
        // past the map phase every map task is completed, so the report is
        // fresh only while the phase is still `Mapping`
        assert(s.phase is Mapping);
    }
}

/// A reduce completion report preserves the phase invariant and keeps
/// every completed task (map or reduce) completed.
pub proof fn lemma_reduce_complete_preserves(s: ServiceView, task_id: u32)
    ensures
        phase_inv(s) ==> phase_inv(sv_reduce_complete(s, task_id)),
        sv_reduce_complete(s, task_id).map_tasks == s.map_tasks,
        forall|i: int|
            (0 <= i < s.reduce_tasks.len() && ((#[trigger] s.reduce_tasks[i]) matches Some(t)
                && t.status is Completed)) ==> (sv_reduce_complete(s, task_id).reduce_tasks[i]
                matches Some(t2) && t2.status is Completed),
{
}

/// The sweep preserves the phase invariant, and a completed task stays
/// completed: the sweep only resets expired in-progress claims.
pub proof fn lemma_sweep_preserves(s: ServiceView, now: u64)
    ensures
        phase_inv(s) ==> phase_inv(sv_sweep(s, now)),
        forall|i: int|
            0 <= i < s.map_tasks.len() ==> ((#[trigger] sv_sweep(s, now).map_tasks[i]).status
                is Completed <==> s.map_tasks[i].status is Completed),
        forall|i: int|
            0 <= i < s.reduce_tasks.len() ==> (((#[trigger] sv_sweep(s, now).reduce_tasks[i])
                matches Some(t) && t.status is Completed) <==> (s.reduce_tasks[i] matches Some(t)
                && t.status is Completed)),
{
}

/// Once a task is completed, no transition of the scheduler ever moves it
/// out of `Completed`, and none of the transitions completes a task except
/// the two completion reports themselves.
pub proof fn lemma_completed_is_terminal(
    s: ServiceView,
    now: u64,
    task_id: u32,
    files: Seq<(u32, Seq<char>)>,
    i: int,
)
    requires
        sv_wf(s),
        0 <= i < s.map_tasks.len(),
        s.map_tasks[i].status is Completed,
    ensures
        sv_get_task(s, now).0.map_tasks[i].status is Completed,
        sv_map_complete(s, task_id, files).map_tasks[i].status is Completed,
        sv_reduce_complete(s, task_id).map_tasks[i].status is Completed,
        sv_sweep(s, now).map_tasks[i].status is Completed,
{
    lemma_get_task_preserves(s, now);
    lemma_map_complete_preserves(s, task_id, files);
    lemma_reduce_complete_preserves(s, task_id);
    lemma_sweep_preserves(s, now);
}

/// The same, for a completed reduce task.
pub proof fn lemma_completed_reduce_is_terminal(
    s: ServiceView,
    now: u64,
    task_id: u32,
    files: Seq<(u32, Seq<char>)>,
    i: int,
)
    requires
        sv_wf(s),
        0 <= i < s.reduce_tasks.len(),
        s.reduce_tasks[i] is Some,
        s.reduce_tasks[i]->Some_0.status is Completed,
    ensures
        sv_get_task(s, now).0.reduce_tasks[i] matches Some(t) && t.status is Completed,
        sv_map_complete(s, task_id, files).reduce_tasks[i] matches Some(t) && t.status
            is Completed,
        sv_reduce_complete(s, task_id).reduce_tasks[i] matches Some(t) && t.status is Completed,
        sv_sweep(s, now).reduce_tasks[i] matches Some(t) && t.status is Completed,
{
    lemma_get_task_preserves(s, now);
    lemma_map_complete_preserves(s, task_id, files);
    lemma_reduce_complete_preserves(s, task_id);
    lemma_sweep_preserves(s, now);
}

/// Reporting the same map completion twice leaves exactly the state of
/// reporting it once: the duplicate sees a completed task and is dropped.
pub proof fn lemma_map_complete_idempotent(
    s: ServiceView,
    task_id: u32,
    files: Seq<(u32, Seq<char>)>,
)
    ensures
        sv_map_complete(sv_map_complete(s, task_id, files), task_id, files) == sv_map_complete(
            s,
            task_id,
            files,
        ),
{
}

/// Reporting the same reduce completion twice leaves the state of
/// reporting it once.
pub proof fn lemma_reduce_complete_idempotent(s: ServiceView, task_id: u32)
    ensures
        sv_reduce_complete(sv_reduce_complete(s, task_id), task_id) == sv_reduce_complete(
            s,
            task_id,
        ),
{
    let s1 = sv_reduce_complete(s, task_id);
    if task_id < s.reduce_tasks.len() && s.reduce_tasks[task_id as int] is Some {
        assert(sv_reduce_complete(s1, task_id).reduce_tasks =~= s1.reduce_tasks);
        assert(sv_reduce_complete(s1, task_id) =~= s1);
    }
}

/// The job reaches `Complete` only when every map task and every existing
/// reduce task is completed.
pub proof fn lemma_complete_means_all_done(s: ServiceView)
    requires
        phase_inv(s),
        s.phase is Complete,
    ensures
        all_map_completed(s.map_tasks),
        all_reduce_completed(s.reduce_tasks),
{
}

/// And conversely: a sweep in the reduce phase with every reduce task
/// completed moves the job to `Complete` and raises the job-complete flag,
/// after which workers are told to exit.
pub proof fn lemma_all_done_drives_completion(s: ServiceView, now: u64, later: u64)
    requires
        s.phase is Reducing,
        all_reduce_completed(s.reduce_tasks),
    ensures
        sv_sweep(s, now).phase is Complete,
        sv_sweep(s, now).job_complete,
        sv_get_task(sv_sweep(s, now), later).1 == TaskType::Exit,
{
    assert forall|i: int|
        0 <= i < sweep_reduce_tasks(s.reduce_tasks, now).len() && (#[trigger] sweep_reduce_tasks(
            s.reduce_tasks,
            now,
        )[i]) is Some implies sweep_reduce_tasks(s.reduce_tasks, now)[i]->Some_0.status
        is Completed by {
        assert(s.reduce_tasks[i] is Some);
    }
}

/// A sweep in the map phase with every map task completed advances the
/// phase to `Reducing`.
pub proof fn lemma_map_phase_advances(s: ServiceView, now: u64)
    requires
        s.phase is Mapping,
        all_map_completed(s.map_tasks),
    ensures
        sv_sweep(s, now).phase is Reducing,
        sv_sweep(s, now).reduce_tasks == s.reduce_tasks,
{
    assert forall|i: int|
        0 <= i < sweep_map_tasks(s.map_tasks, now).len() implies (#[trigger] sweep_map_tasks(
        s.map_tasks,
        now,
    )[i]).status is Completed by {
        assert(s.map_tasks[i].status is Completed);
    }
    assert(sweep_map_tasks(s.map_tasks, now) =~= s.map_tasks);
}

/// A map task whose worker stalled past the timeout is reset to idle by
/// the sweep, and the phase stays `Mapping`, so the task will be dispensed
/// again.
pub proof fn lemma_straggler_is_reset(s: ServiceView, now: u64, i: int)
    requires
        s.phase is Mapping,
        0 <= i < s.map_tasks.len(),
        s.map_tasks[i].status matches TaskStatus::InProgress(t0) && sv_expired(t0, now),
    ensures
        sv_sweep(s, now).map_tasks[i].status is Idle,
        sv_sweep(s, now).phase is Mapping,
{
    assert(!(sweep_map_tasks(s.map_tasks, now)[i].status is Completed));
}

/// An idle map task with no idle task before it is exactly the one the
/// next `GetTask` call dispenses, claimed as of that call's time.
pub proof fn lemma_idle_task_is_dispensed(s: ServiceView, now: u64, i: int)
    requires
        s.phase is Mapping,
        0 <= i < s.map_tasks.len(),
        s.map_tasks[i].status is Idle,
        forall|j: int| 0 <= j < i ==> !((#[trigger] s.map_tasks[j]).status is Idle),
    ensures
        sv_get_task(s, now).1 == TaskType::MapTask,
        sv_get_task(s, now).2 matches Some(t) && t.task_id == s.map_tasks[i].task_id
            && t.input_files == s.map_tasks[i].input_files,
        sv_get_task(s, now).0.map_tasks[i].status == TaskStatus::InProgress(now),
{
    lemma_first_idle_map_skip(s.map_tasks, i);
}

/// The paths a single completion report contributes to reducer `r`.
pub open spec fn paths_for(files: Seq<(u32, Seq<char>)>, r: u32) -> Seq<Seq<char>>
    decreases files.len(),
{
    if files.len() == 0 {
        Seq::empty()
    } else {
        paths_for(files.drop_last(), r) + (if files.last().0 == r {
            seq![files.last().1]
        } else {
            Seq::empty()
        })
    }
}

/// The paths a run of completion reports contributes to reducer `r`.
pub open spec fn files_for(reqs: Seq<(u32, Seq<(u32, Seq<char>)>)>, r: u32) -> Seq<Seq<char>>
    decreases reqs.len(),
{
    if reqs.len() == 0 {
        Seq::empty()
    } else {
        files_for(reqs.drop_last(), r) + paths_for(reqs.last().1, r)
    }
}

/// A run of map completion reports, applied in order.
pub open spec fn apply_map_completions(
    s: ServiceView,
    reqs: Seq<(u32, Seq<(u32, Seq<char>)>)>,
) -> ServiceView
    decreases reqs.len(),
{
    if reqs.len() == 0 {
        s
    } else {
        sv_map_complete(apply_map_completions(s, reqs.drop_last()), reqs.last().0, reqs.last().1)
    }
}

/// What one merge does to one reduce slot: an existing task gains exactly
/// the paths reported for it, in report order, keeping its status; an
/// absent slot becomes an idle task holding exactly those paths, or stays
/// absent if there are none.
pub proof fn lemma_merge_files_entry(
    rt: Seq<Option<TaskView>>,
    files: Seq<(u32, Seq<char>)>,
    r: u32,
)
    requires
        0 <= r < rt.len(),
    ensures
        merge_files(rt, files).len() == rt.len(),
        (match rt[r as int] {
            Some(t) => merge_files(rt, files)[r as int] matches Some(t2) && t2.input_files
                == t.input_files + paths_for(files, r) && t2.status == t.status && t2.task_id
                == t.task_id,
            None => if paths_for(files, r).len() == 0 {
                merge_files(rt, files)[r as int] is None
            } else {
                merge_files(rt, files)[r as int] matches Some(t2) && t2.input_files == paths_for(
                    files,
                    r,
                ) && t2.status is Idle && t2.task_id == r
            },
        }),
    decreases files.len(),
{
    if files.len() == 0 {
        match rt[r as int] {
            Some(t) => {
                assert(t.input_files + paths_for(files, r) =~= t.input_files);
            },
            None => {},
        }
    } else {
        lemma_merge_files_entry(rt, files.drop_last(), r);
        let prev = merge_files(rt, files.drop_last());
        let last = files.last();
        if last.0 == r {
            match rt[r as int] {
                Some(t) => {
                    assert(t.input_files + paths_for(files.drop_last(), r) + seq![last.1]
                        =~= t.input_files + paths_for(files, r));
                },
                None => {
                    if paths_for(files.drop_last(), r).len() == 0 {
                        assert(paths_for(files, r) =~= seq![last.1]);
                    } else {
                        assert(paths_for(files.drop_last(), r) + seq![last.1] =~= paths_for(
                            files,
                            r,
                        ));
                    }
                },
            }
        } else {
            assert(paths_for(files, r) =~= paths_for(files.drop_last(), r));
        }
    }
}

/// Whether some report in the run is for map task `id`.
pub open spec fn has_req_id(reqs: Seq<(u32, Seq<(u32, Seq<char>)>)>, id: u32) -> bool {
    exists|k: int| 0 <= k < reqs.len() && (#[trigger] reqs[k]).0 == id
}

/// A well-formed run of reports against a starting state: every report
/// names a distinct, not-yet-completed map task, and only reducers the
/// table has slots for.
pub open spec fn reqs_wf(s: ServiceView, reqs: Seq<(u32, Seq<(u32, Seq<char>)>)>) -> bool {
    &&& forall|k: int|
        0 <= k < reqs.len() ==> (#[trigger] reqs[k]).0 < s.map_tasks.len() && !(s.map_tasks[
            reqs[k].0 as int
        ].status is Completed)
    &&& forall|k1: int, k2: int|
        0 <= k1 < k2 < reqs.len() ==> (#[trigger] reqs[k1]).0 != (#[trigger] reqs[k2]).0
}

/// After a run of distinct map completion reports, each reduce slot `r`
/// holds exactly what it held before followed by the one path per report
/// that mentioned `r`, in report order — one intermediate file per map
/// task that produced a non-empty bucket `r`. Map tasks not reported keep
/// their status, and the reported ones are completed.
pub proof fn lemma_reduce_table_after_completions(
    s: ServiceView,
    reqs: Seq<(u32, Seq<(u32, Seq<char>)>)>,
    r: u32,
)
    requires
        sv_wf(s),
        reqs_wf(s, reqs),
        0 <= r < s.reduce_tasks.len(),
    ensures
        apply_map_completions(s, reqs).map_tasks.len() == s.map_tasks.len(),
        apply_map_completions(s, reqs).reduce_tasks.len() == s.reduce_tasks.len(),
        sv_wf(apply_map_completions(s, reqs)),
        forall|i: int|
            0 <= i < s.map_tasks.len() && !has_req_id(reqs, s.map_tasks[i].task_id) ==> (
            #[trigger] apply_map_completions(s, reqs).map_tasks[i]).status == s.map_tasks[i].status,
        forall|k: int|
            0 <= k < reqs.len() ==> apply_map_completions(s, reqs).map_tasks[(
            #[trigger] reqs[k]).0 as int].status is Completed,
        (match s.reduce_tasks[r as int] {
            Some(t) => apply_map_completions(s, reqs).reduce_tasks[r as int] matches Some(t2)
                && t2.input_files == t.input_files + files_for(reqs, r) && t2.task_id == t.task_id,
            None => if files_for(reqs, r).len() == 0 {
                apply_map_completions(s, reqs).reduce_tasks[r as int] is None
            } else {
                apply_map_completions(s, reqs).reduce_tasks[r as int] matches Some(t2)
                    && t2.input_files == files_for(reqs, r) && t2.task_id == r
            },
        }),
    decreases reqs.len(),
{
    if reqs.len() == 0 {
        match s.reduce_tasks[r as int] {
            Some(t) => {
                assert(t.input_files + files_for(reqs, r) =~= t.input_files);
            },
            None => {},
        }
    } else {
        let dl = reqs.drop_last();
        let last = reqs.last();
        assert forall|k: int| 0 <= k < dl.len() implies (#[trigger] dl[k]) == reqs[k] by {}
        assert(reqs_wf(s, dl));
        lemma_reduce_table_after_completions(s, dl, r);
        let sp = apply_map_completions(s, dl);
        // the last report's task was not completed by the earlier,
        // distinct reports
        assert(!has_req_id(dl, last.0)) by {
            if has_req_id(dl, last.0) {
                let k = choose|k: int| 0 <= k < dl.len() && (#[trigger] dl[k]).0 == last.0;
                assert(reqs[k].0 == reqs[reqs.len() - 1].0);
            }
        }
        assert(s.map_tasks[last.0 as int].task_id == last.0);
        assert(!(sp.map_tasks[last.0 as int].status is Completed));
        lemma_merge_files_entry(sp.reduce_tasks, last.1, r);
        lemma_merge_files_shape(sp.reduce_tasks, last.1);
        // completed statuses: the final update completes the last report's
        // task and leaves the rest
        assert forall|k: int|
            0 <= k < reqs.len() implies apply_map_completions(s, reqs).map_tasks[(
            #[trigger] reqs[k]).0 as int].status is Completed by {
            if k < reqs.len() - 1 {
                assert(dl[k] == reqs[k]);
                assert(sp.map_tasks[reqs[k].0 as int].status is Completed);
                assert(reqs[k].0 != last.0);
            }
        }
        assert forall|i: int|
            0 <= i < s.map_tasks.len() && !has_req_id(reqs, s.map_tasks[i].task_id) implies (
        #[trigger] apply_map_completions(s, reqs).map_tasks[i]).status == s.map_tasks[i].status by {
            assert(!has_req_id(dl, s.map_tasks[i].task_id)) by {
                if has_req_id(dl, s.map_tasks[i].task_id) {
                    let k = choose|k: int|
                        0 <= k < dl.len() && (#[trigger] dl[k]).0 == s.map_tasks[i].task_id;
                    assert(reqs[k].0 == s.map_tasks[i].task_id);
                }
            }
            assert(s.map_tasks[i].task_id != last.0) by {
                if s.map_tasks[i].task_id == last.0 {
                    assert(reqs[reqs.len() - 1].0 == s.map_tasks[i].task_id);
                }
            }
            assert(i != last.0 as int);
        }
        // the reduce slot: what the earlier run built, plus this report's
        // paths for `r`
        match s.reduce_tasks[r as int] {
            Some(t) => {
                assert(t.input_files + files_for(dl, r) + paths_for(last.1, r) =~= t.input_files
                    + files_for(reqs, r));
            },
            None => {
                if files_for(dl, r).len() == 0 {
                    assert(files_for(reqs, r) =~= paths_for(last.1, r));
                } else {
                    assert(files_for(dl, r) + paths_for(last.1, r) =~= files_for(reqs, r));
                }
            },
        }
    }
}

} // verus!
