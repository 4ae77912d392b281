//! The coordinator's task scheduler: the map-task table, the reduce-task
//! table that map completions populate, the job phase, and the liveness
//! sweep that resets stalled tasks and advances the phase.
//!
//! The scheduler here is a sequential state machine over an explicit clock:
//! every operation that reads time takes the current time in milliseconds as
//! an argument. The surrounding process supplies the clock, the locking and
//! the RPC transport, and calls one operation at a time.

use vstd::prelude::*;
use crate::rpc::{MapTaskCompleteRequest, ReduceTaskCompleteRequest, TaskData, files_view};

verus! {

/// A task claimed longer ago than this (in milliseconds) is considered
/// abandoned by its worker and is reset to idle by the sweep.
pub const TASK_TIMEOUT_MS: u64 = 10000;

/// What the coordinator answers to a worker asking for work.
#[derive(Clone, Copy, Debug, PartialEq, Eq, Structural)]
pub enum TaskType {
    Idle,
    Exit,
    MapTask,
    ReduceTask,
}

/// The lifecycle of one task. `InProgress` records the claim time in
/// milliseconds; `Completed` is terminal.
#[derive(Clone, Copy, Debug, PartialEq, Eq, Structural)]
pub enum TaskStatus {
    Idle,
    InProgress(u64),
    Completed,
}

/// The coarse state of the whole job; it only ever moves forward.
#[derive(Clone, Copy, Debug, PartialEq, Eq, Structural)]
pub enum JobPhase {
    Mapping,
    Reducing,
    Complete,
}

/// One unit of work: its id, the files it reads, and its lifecycle state.
pub struct TaskMeta {
    pub task_id: u32,
    pub input_files: Vec<String>,
    pub status: TaskStatus,
}

/// The mathematical image of a task.
#[verifier::ext_equal]
pub ghost struct TaskView {
    pub task_id: u32,
    pub input_files: Seq<Seq<char>>,
    pub status: TaskStatus,
}

impl View for TaskMeta {
    type V = TaskView;

    open spec fn view(&self) -> TaskView {
        TaskView {
            task_id: self.task_id,
            input_files: self.input_files.deep_view(),
            status: self.status,
        }
    }
}

/// The mathematical image of the whole scheduler: both task tables, the
/// phase, and the completion flag the server's shutdown path watches.
/// The reduce table has one slot per reducer; a slot is `None` until some
/// map completion first mentions that reducer.
#[verifier::ext_equal]
pub ghost struct ServiceView {
    pub map_tasks: Seq<TaskView>,
    pub reduce_tasks: Seq<Option<TaskView>>,
    pub phase: JobPhase,
    pub job_complete: bool,
}

pub open spec fn opt_task_view(t: Option<TaskMeta>) -> Option<TaskView> {
    match t {
        Some(m) => Some(m@),
        None => None,
    }
}

/// Table well-formedness: each task sits in the slot named by its id.
pub open spec fn sv_wf(s: ServiceView) -> bool {
    &&& forall|i: int| 0 <= i < s.map_tasks.len() ==> (#[trigger] s.map_tasks[i]).task_id == i
    &&& forall|i: int|
        0 <= i < s.reduce_tasks.len() && s.reduce_tasks[i] is Some
            ==> (#[trigger] s.reduce_tasks[i])->Some_0.task_id == i
}

/// The scheduler as built at coordinator start: one idle map task per input
/// file, in input order; no reduce task yet; the map phase.
pub open spec fn sv_new(files: Seq<Seq<char>>, n_reduce: nat) -> ServiceView {
    ServiceView {
        map_tasks: Seq::new(
            files.len(),
            |i: int| TaskView { task_id: i as u32, input_files: seq![files[i]], status: TaskStatus::Idle },
        ),
        reduce_tasks: Seq::new(n_reduce, |i: int| None),
        phase: JobPhase::Mapping,
        job_complete: false,
    }
}

/// The lowest index at or after `k` holding an idle map task.
pub open spec fn first_idle_map(tasks: Seq<TaskView>, k: int) -> Option<int>
    decreases tasks.len() - k,
{
    if k < 0 || k >= tasks.len() {
        None
    } else if tasks[k].status is Idle {
        Some(k)
    } else {
        first_idle_map(tasks, k + 1)
    }
}

/// The lowest index at or after `k` holding a present, idle reduce task.
pub open spec fn first_idle_reduce(tasks: Seq<Option<TaskView>>, k: int) -> Option<int>
    decreases tasks.len() - k,
{
    if k < 0 || k >= tasks.len() {
        None
    } else if tasks[k] is Some && tasks[k]->Some_0.status is Idle {
        Some(k)
    } else {
        first_idle_reduce(tasks, k + 1)
    }
}

/// Dispensing policy: in the map (reduce) phase, claim the first idle task
/// of that table, stamping it with the claim time; with no idle task answer
/// `Idle`; once the job is complete answer `Exit`.
pub open spec fn sv_get_task(s: ServiceView, now: u64) -> (ServiceView, TaskType, Option<TaskView>) {
    match s.phase {
        JobPhase::Mapping => match first_idle_map(s.map_tasks, 0) {
            Some(i) => {
                let t = TaskView { status: TaskStatus::InProgress(now), ..s.map_tasks[i] };
                (ServiceView { map_tasks: s.map_tasks.update(i, t), ..s }, TaskType::MapTask, Some(t))
            },
            None => (s, TaskType::Idle, None),
        },
        JobPhase::Reducing => match first_idle_reduce(s.reduce_tasks, 0) {
            Some(i) => {
                let t = TaskView {
                    status: TaskStatus::InProgress(now),
                    ..s.reduce_tasks[i]->Some_0
                };
                (
                    ServiceView { reduce_tasks: s.reduce_tasks.update(i, Some(t)), ..s },
                    TaskType::ReduceTask,
                    Some(t),
                )
            },
            None => (s, TaskType::Idle, None),
        },
        JobPhase::Complete => (s, TaskType::Exit, None),
    }
}

/// One reported intermediate file joins reduce task `r`: appended to the
/// task's inputs if the task exists, otherwise the task is created idle
/// with that single input.
pub open spec fn merge_one(
    rt: Seq<Option<TaskView>>,
    r: u32,
    path: Seq<char>,
) -> Seq<Option<TaskView>> {
    if r < rt.len() {
        let t = match rt[r as int] {
            Some(t) => TaskView { input_files: t.input_files.push(path), ..t },
            None => TaskView { task_id: r, input_files: seq![path], status: TaskStatus::Idle },
        };
        rt.update(r as int, Some(t))
    } else {
        rt
    }
}

/// All files of one map completion merged into the reduce table, in order.
pub open spec fn merge_files(
    rt: Seq<Option<TaskView>>,
    files: Seq<(u32, Seq<char>)>,
) -> Seq<Option<TaskView>>
    decreases files.len(),
{
    if files.len() == 0 {
        rt
    } else {
        merge_one(merge_files(rt, files.drop_last()), files.last().0, files.last().1)
    }
}

/// A map completion report: ignored if the task id is unknown or the task
/// is already completed (a duplicate from a reassigned straggler);
/// otherwise the reported files join the reduce table and the map task
/// becomes completed, atomically.
pub open spec fn sv_map_complete(
    s: ServiceView,
    task_id: u32,
    files: Seq<(u32, Seq<char>)>,
) -> ServiceView {
    if task_id < s.map_tasks.len() {
        if s.map_tasks[task_id as int].status is Completed {
            s
        } else {
            ServiceView {
                map_tasks: s.map_tasks.update(
                    task_id as int,
                    TaskView { status: TaskStatus::Completed, ..s.map_tasks[task_id as int] },
                ),
                reduce_tasks: merge_files(s.reduce_tasks, files),
                ..s
            }
        }
    } else {
        s
    }
}

/// A reduce completion report: the named task, if present, becomes
/// completed; anything else is ignored. Idempotent.
pub open spec fn sv_reduce_complete(s: ServiceView, task_id: u32) -> ServiceView {
    if task_id < s.reduce_tasks.len() && s.reduce_tasks[task_id as int] is Some {
        ServiceView {
            reduce_tasks: s.reduce_tasks.update(
                task_id as int,
                Some(
                    TaskView {
                        status: TaskStatus::Completed,
                        ..s.reduce_tasks[task_id as int]->Some_0
                    },
                ),
            ),
            ..s
        }
    } else {
        s
    }
}

/// Whether a task claimed at `started` counts as abandoned at `now`.
pub open spec fn sv_expired(started: u64, now: u64) -> bool {
    now >= started && now - started > TASK_TIMEOUT_MS
}

/// What the sweep leaves of one task's status: an expired claim is reset
/// to idle; everything else is untouched.
pub open spec fn swept_status(st: TaskStatus, now: u64) -> TaskStatus {
    match st {
        TaskStatus::InProgress(t) => if sv_expired(t, now) {
            TaskStatus::Idle
        } else {
            st
        },
        _ => st,
    }
}

pub open spec fn sweep_map_tasks(tasks: Seq<TaskView>, now: u64) -> Seq<TaskView> {
    tasks.map_values(|t: TaskView| TaskView { status: swept_status(t.status, now), ..t })
}

pub open spec fn sweep_reduce_tasks(
    tasks: Seq<Option<TaskView>>,
    now: u64,
) -> Seq<Option<TaskView>> {
    tasks.map_values(
        |o: Option<TaskView>| match o {
            Some(t) => Some(TaskView { status: swept_status(t.status, now), ..t }),
            None => None,
        },
    )
}

pub open spec fn all_map_completed(tasks: Seq<TaskView>) -> bool {
    forall|i: int| 0 <= i < tasks.len() ==> (#[trigger] tasks[i]).status is Completed
}

/// Every reduce task that exists is completed; absent slots (buckets no map
/// ever filled) do not hold the job up.
pub open spec fn all_reduce_completed(tasks: Seq<Option<TaskView>>) -> bool {
    forall|i: int|
        0 <= i < tasks.len() && (#[trigger] tasks[i]) is Some ==> tasks[i]->Some_0.status is Completed
}

/// One liveness tick: reset expired claims in the active phase's table,
/// then advance the phase if that table is entirely completed. Reaching
/// `Complete` raises the job-complete flag; a tick in `Complete` only
/// re-raises it.
pub open spec fn sv_sweep(s: ServiceView, now: u64) -> ServiceView {
    match s.phase {
        JobPhase::Mapping => {
            let mt = sweep_map_tasks(s.map_tasks, now);
            ServiceView {
                map_tasks: mt,
                phase: if all_map_completed(mt) {
                    JobPhase::Reducing
                } else {
                    JobPhase::Mapping
                },
                ..s
            }
        },
        JobPhase::Reducing => {
            let rt = sweep_reduce_tasks(s.reduce_tasks, now);
            let done = all_reduce_completed(rt);
            ServiceView {
                reduce_tasks: rt,
                phase: if done {
                    JobPhase::Complete
                } else {
                    JobPhase::Reducing
                },
                job_complete: s.job_complete || done,
                ..s
            }
        },
        JobPhase::Complete => ServiceView { job_complete: true, ..s },
    }
}

pub open spec fn tasks_view(v: Seq<TaskMeta>) -> Seq<TaskView> {
    v.map_values(|t: TaskMeta| t@)
}

pub open spec fn ropt_view(v: Seq<Option<TaskMeta>>) -> Seq<Option<TaskView>> {
    v.map_values(|o: Option<TaskMeta>| opt_task_view(o))
}

/// A scan that saw no idle task up to `k` has not passed the first one.
pub proof fn lemma_first_idle_map_skip(tasks: Seq<TaskView>, k: int)
    requires
        0 <= k <= tasks.len(),
        forall|j: int| 0 <= j < k ==> !((#[trigger] tasks[j]).status is Idle),
    ensures
        first_idle_map(tasks, 0) == first_idle_map(tasks, k),
    decreases k,
{
    if k > 0 {
        lemma_first_idle_map_skip(tasks, k - 1);
    }
}

proof fn lemma_first_idle_reduce_skip(tasks: Seq<Option<TaskView>>, k: int)
    requires
        0 <= k <= tasks.len(),
        forall|j: int|
            0 <= j < k ==> !((#[trigger] tasks[j]) is Some && tasks[j]->Some_0.status is Idle),
    ensures
        first_idle_reduce(tasks, 0) == first_idle_reduce(tasks, k),
    decreases k,
{
    if k > 0 {
        lemma_first_idle_reduce_skip(tasks, k - 1);
    }
}

/// Merging files never changes the table's length, keeps every task in the
/// slot named by its id, and never completes or un-completes a task.
pub proof fn lemma_merge_files_shape(rt: Seq<Option<TaskView>>, files: Seq<(u32, Seq<char>)>)
    requires
        forall|i: int| 0 <= i < rt.len() && rt[i] is Some ==> (#[trigger] rt[i])->Some_0.task_id == i,
    ensures
        merge_files(rt, files).len() == rt.len(),
        forall|i: int|
            0 <= i < rt.len() && (#[trigger] merge_files(rt, files)[i]) is Some ==> merge_files(
                rt,
                files,
            )[i]->Some_0.task_id == i,
        forall|i: int|
            0 <= i < rt.len() && rt[i] is Some ==> (#[trigger] merge_files(rt, files)[i]) is Some
                && merge_files(rt, files)[i]->Some_0.status == rt[i]->Some_0.status,
        forall|i: int|
            0 <= i < rt.len() && (#[trigger] merge_files(rt, files)[i]) is Some && rt[i] is None
                ==> merge_files(rt, files)[i]->Some_0.status is Idle,
    decreases files.len(),
{
    if files.len() > 0 {
        lemma_merge_files_shape(rt, files.drop_last());
    }
}

/// The coordinator's scheduling state: the two task tables and the phase,
/// together with the liveness sweep over them. One instance is shared by
/// the request handlers and the sweeper outside the library.
pub struct TaskServiceInner {
    map_tasks: Vec<TaskMeta>,
    reduce_tasks: Vec<Option<TaskMeta>>,
    phase: JobPhase,
    job_complete: bool,
}

impl View for TaskServiceInner {
    type V = ServiceView;

    closed spec fn view(&self) -> ServiceView {
        ServiceView {
            map_tasks: tasks_view(self.map_tasks@),
            reduce_tasks: ropt_view(self.reduce_tasks@),
            phase: self.phase,
            job_complete: self.job_complete,
        }
    }
}

impl TaskServiceInner {
    pub open spec fn wf(&self) -> bool {
        sv_wf(self@)
    }

    /// One idle map task per input file, in input order; no reduce task
    /// yet; phase `Mapping`.
    pub fn new(input_files: Vec<String>, n_reduce: u32) -> (s: Self)
        requires
            input_files@.len() <= u32::MAX,
        ensures
            s@ == sv_new(input_files.deep_view(), n_reduce as nat),
            s.wf(),
    {
        let n = input_files.len();
        let mut map_tasks: Vec<TaskMeta> = Vec::new();
        let mut i: usize = 0;
        while i < n
            invariant
                n == input_files@.len() <= u32::MAX,
                i <= n,
                map_tasks@.len() == i,
                forall|j: int|
                    0 <= j < i ==> (#[trigger] map_tasks@[j])@ == (TaskView {
                        task_id: j as u32,
                        input_files: seq![input_files@[j]@],
                        status: TaskStatus::Idle,
                    }),
            decreases n - i,
        {
            let mut fs: Vec<String> = Vec::new();
            fs.push(input_files[i].clone());
            map_tasks.push(TaskMeta { task_id: i as u32, input_files: fs, status: TaskStatus::Idle });
            i += 1;
        }
        let mut reduce_tasks: Vec<Option<TaskMeta>> = Vec::new();
        let mut k: usize = 0;
        while k < n_reduce as usize
            invariant
                k <= n_reduce as usize,
                reduce_tasks@.len() == k,
                forall|j: int| 0 <= j < k ==> (#[trigger] reduce_tasks@[j]) is None,
            decreases n_reduce as usize - k,
        {
            reduce_tasks.push(None);
            k += 1;
        }
        let s = TaskServiceInner {
            map_tasks,
            reduce_tasks,
            phase: JobPhase::Mapping,
            job_complete: false,
        };
        proof {
            assert(s@.map_tasks =~= sv_new(input_files.deep_view(), n_reduce as nat).map_tasks);
            assert(s@.reduce_tasks =~= sv_new(
                input_files.deep_view(),
                n_reduce as nat,
            ).reduce_tasks);
            assert(s@ =~= sv_new(input_files.deep_view(), n_reduce as nat));
        }
        s
    }

    fn find_idle_map(tasks: &Vec<TaskMeta>) -> (r: Option<usize>)
        ensures
            match r {
                Some(i) => i < tasks@.len() && first_idle_map(tasks_view(tasks@), 0) == Some(
                    i as int,
                ) && tasks@[i as int].status is Idle,
                None => first_idle_map(tasks_view(tasks@), 0) is None,
            },
    {
        let mut i: usize = 0;
        while i < tasks.len()
            invariant
                i <= tasks@.len(),
                forall|j: int|
                    0 <= j < i ==> !((#[trigger] tasks_view(tasks@)[j]).status is Idle),
            decreases tasks@.len() - i,
        {
            if matches!(tasks[i].status, TaskStatus::Idle) {
                proof {
                    lemma_first_idle_map_skip(tasks_view(tasks@), i as int);
                }
                return Some(i);
            }
            i += 1;
        }
        proof {
            lemma_first_idle_map_skip(tasks_view(tasks@), tasks@.len() as int);
        }
        None
    }

    fn find_idle_reduce(tasks: &Vec<Option<TaskMeta>>) -> (r: Option<usize>)
        ensures
            match r {
                Some(i) => i < tasks@.len() && first_idle_reduce(ropt_view(tasks@), 0) == Some(
                    i as int,
                ) && tasks@[i as int] is Some && tasks@[i as int]->Some_0.status is Idle,
                None => first_idle_reduce(ropt_view(tasks@), 0) is None,
            },
    {
        let mut i: usize = 0;
        while i < tasks.len()
            invariant
                i <= tasks@.len(),
                forall|j: int|
                    0 <= j < i ==> !((#[trigger] ropt_view(tasks@)[j]) is Some && ropt_view(
                        tasks@,
                    )[j]->Some_0.status is Idle),
            decreases tasks@.len() - i,
        {
            let idle = match &tasks[i] {
                Some(t) => matches!(t.status, TaskStatus::Idle),
                None => false,
            };
            if idle {
                proof {
                    lemma_first_idle_reduce_skip(ropt_view(tasks@), i as int);
                }
                return Some(i);
            }
            i += 1;
        }
        proof {
            lemma_first_idle_reduce_skip(ropt_view(tasks@), tasks@.len() as int);
        }
        None
    }

    /// Dispense the next action to a worker asking at time `now`: the first
    /// idle task of the active phase (claimed as of `now`), or `Idle`, or
    /// `Exit` once the job is complete. Returns a copy of the claimed task.
    pub fn get_task_for_worker(&mut self, now: u64) -> (r: (Option<TaskMeta>, TaskType))
        requires
            old(self).wf(),
        ensures
            final(self).wf(),
            final(self)@ == sv_get_task(old(self)@, now).0,
            r.1 == sv_get_task(old(self)@, now).1,
            opt_task_view(r.0) == sv_get_task(old(self)@, now).2,
    {
        match self.phase {
            JobPhase::Mapping => {
                match Self::find_idle_map(&self.map_tasks) {
                    Some(i) => {
                        let t = &self.map_tasks[i];
                        let copy = TaskMeta {
                            task_id: t.task_id,
                            input_files: crate::models::clone_strings(&t.input_files),
                            status: TaskStatus::InProgress(now),
                        };
                        let replacement = TaskMeta {
                            task_id: copy.task_id,
                            input_files: crate::models::clone_strings(&copy.input_files),
                            status: TaskStatus::InProgress(now),
                        };
                        self.map_tasks[i] = replacement;
                        proof {
                            assert(tasks_view(self.map_tasks@) =~= sv_get_task(
                                old(self)@,
                                now,
                            ).0.map_tasks);
                            assert(self@ =~= sv_get_task(old(self)@, now).0);
                        }
                        (Some(copy), TaskType::MapTask)
                    },
                    None => (None, TaskType::Idle),
                }
            },
            JobPhase::Reducing => {
                match Self::find_idle_reduce(&self.reduce_tasks) {
                    Some(i) => {
                        let copy = match &self.reduce_tasks[i] {
                            Some(t) => TaskMeta {
                                task_id: t.task_id,
                                input_files: crate::models::clone_strings(&t.input_files),
                                status: TaskStatus::InProgress(now),
                            },
                            None => {
                                proof {
                                    assert(false);
                                }
                                TaskMeta {
                                    task_id: 0,
                                    input_files: Vec::new(),
                                    status: TaskStatus::Idle,
                                }
                            },
                        };
                        let replacement = TaskMeta {
                            task_id: copy.task_id,
                            input_files: crate::models::clone_strings(&copy.input_files),
                            status: TaskStatus::InProgress(now),
                        };
                        self.reduce_tasks[i] = Some(replacement);
                        proof {
                            assert(ropt_view(self.reduce_tasks@) =~= sv_get_task(
                                old(self)@,
                                now,
                            ).0.reduce_tasks);
                            assert(self@ =~= sv_get_task(old(self)@, now).0);
                        }
                        (Some(copy), TaskType::ReduceTask)
                    },
                    None => (None, TaskType::Idle),
                }
            },
            JobPhase::Complete => (None, TaskType::Exit),
        }
    }

    /// Record a map task's completion report, folding its intermediate
    /// files into the reduce table; duplicates are ignored.
    pub fn mark_map_task_complete(&mut self, request: MapTaskCompleteRequest)
        requires
            old(self).wf(),
            forall|k: int|
                0 <= k < request.files@.len() ==> (#[trigger] request.files@[k]).0 < old(
                    self,
                )@.reduce_tasks.len(),
        ensures
            final(self).wf(),
            final(self)@ == sv_map_complete(old(self)@, request.task_id, files_view(request.files@)),
    {
        let ghost fv = files_view(request.files@);
        let id = request.task_id;
        if (id as usize) < self.map_tasks.len() {
            if matches!(self.map_tasks[id as usize].status, TaskStatus::Completed) {
                return ;
            }
            let mut k: usize = 0;
            while k < request.files.len()
                invariant
                    old(self).wf(),
                    k <= request.files@.len(),
                    fv == files_view(request.files@),
                    fv.len() == request.files@.len(),
                    forall|j: int| 0 <= j < fv.len() ==> (#[trigger] fv[j]).0 < old(
                        self,
                    )@.reduce_tasks.len(),
                    self.map_tasks == old(self).map_tasks,
                    self.phase == old(self).phase,
                    self.job_complete == old(self).job_complete,
                    ropt_view(self.reduce_tasks@) == merge_files(
                        old(self)@.reduce_tasks,
                        fv.take(k as int),
                    ),
                decreases request.files@.len() - k,
            {
                proof {
                    lemma_merge_files_shape(old(self)@.reduce_tasks, fv.take(k as int));
                    assert(fv.take(k as int + 1).drop_last() =~= fv.take(k as int));
                }
                let pair = &request.files[k];
                let r = pair.0;
                let path = pair.1.clone();
                let ru = r as usize;
                proof {
                    assert(fv[k as int] == (request.files@[k as int].0, request.files@[k as int].1@));
                    lemma_merge_files_shape(old(self)@.reduce_tasks, fv.take(k as int));
                    assert(ru < self.reduce_tasks@.len());
                }
                let newmeta = match &self.reduce_tasks[ru] {
                    Some(t) => {
                        let mut fs = crate::models::clone_strings(&t.input_files);
                        fs.push(path);
                        TaskMeta { task_id: r, input_files: fs, status: t.status }
                    },
                    None => {
                        let mut fs: Vec<String> = Vec::new();
                        fs.push(path);
                        TaskMeta { task_id: r, input_files: fs, status: TaskStatus::Idle }
                    },
                };
                proof {
                    let rt_before = merge_files(old(self)@.reduce_tasks, fv.take(k as int));
                    assert(fv[k as int] == (pair.0, pair.1@));
                    assert(newmeta@.input_files =~= match rt_before[ru as int] {
                        Some(t) => t.input_files.push(pair.1@),
                        None => seq![pair.1@],
                    });
                }
                self.reduce_tasks[ru] = Some(newmeta);
                proof {
                    let rt_before = merge_files(old(self)@.reduce_tasks, fv.take(k as int));
                    assert(ropt_view(self.reduce_tasks@)[ru as int]->Some_0 =~= merge_one(
                        rt_before,
                        r,
                        pair.1@,
                    )[ru as int]->Some_0);
                    assert(ropt_view(self.reduce_tasks@) =~= merge_one(rt_before, r, pair.1@));
                    assert(fv.take(k as int + 1).last() == fv[k as int]);
                    assert(ropt_view(self.reduce_tasks@) == merge_files(
                        old(self)@.reduce_tasks,
                        fv.take(k as int + 1),
                    ));
                }
                k += 1;
            }
            proof {
                assert(fv.take(fv.len() as int) =~= fv);
                lemma_merge_files_shape(old(self)@.reduce_tasks, fv);
            }
            let t = &self.map_tasks[id as usize];
            let done = TaskMeta {
                task_id: t.task_id,
                input_files: crate::models::clone_strings(&t.input_files),
                status: TaskStatus::Completed,
            };
            self.map_tasks[id as usize] = done;
            proof {
                assert(tasks_view(self.map_tasks@) =~= sv_map_complete(
                    old(self)@,
                    id,
                    fv,
                ).map_tasks);
                assert(self@ =~= sv_map_complete(old(self)@, id, fv));
            }
        }
    }

    /// Record a reduce task's completion; unknown ids and duplicates are
    /// ignored.
    pub fn mark_reduce_task_complete(&mut self, request: ReduceTaskCompleteRequest)
        requires
            old(self).wf(),
        ensures
            final(self).wf(),
            final(self)@ == sv_reduce_complete(old(self)@, request.task_id),
    {
        let id = request.task_id;
        if (id as usize) < self.reduce_tasks.len() {
            let newmeta = match &self.reduce_tasks[id as usize] {
                Some(t) => Some(
                    TaskMeta {
                        task_id: t.task_id,
                        input_files: crate::models::clone_strings(&t.input_files),
                        status: TaskStatus::Completed,
                    },
                ),
                None => None,
            };
            match newmeta {
                Some(m) => {
                    self.reduce_tasks[id as usize] = Some(m);
                    proof {
                        assert(ropt_view(self.reduce_tasks@) =~= sv_reduce_complete(
                            old(self)@,
                            id,
                        ).reduce_tasks);
                        assert(self@ =~= sv_reduce_complete(old(self)@, id));
                    }
                },
                None => {},
            }
        }
    }

    fn map_health_check(tasks: &mut Vec<TaskMeta>, now: u64) -> (done: bool)
        ensures
            tasks_view(final(tasks)@) == sweep_map_tasks(tasks_view(old(tasks)@), now),
            done == all_map_completed(tasks_view(final(tasks)@)),
    {
        let ghost swept = sweep_map_tasks(tasks_view(old(tasks)@), now);
        let mut all_done = true;
        let mut i: usize = 0;
        while i < tasks.len()
            invariant
                i <= tasks@.len(),
                tasks@.len() == old(tasks)@.len(),
                swept == sweep_map_tasks(tasks_view(old(tasks)@), now),
                forall|j: int| 0 <= j < i ==> tasks@[j]@ == #[trigger] swept[j],
                forall|j: int| i <= j < tasks@.len() ==> tasks@[j] == old(tasks)@[j],
                all_done == (forall|j: int|
                    0 <= j < i ==> (#[trigger] swept[j]).status is Completed),
            decreases tasks@.len() - i,
        {
            let st = tasks[i].status;
            match st {
                TaskStatus::InProgress(t) => {
                    if now >= t && now - t > TASK_TIMEOUT_MS {
                        let m = &tasks[i];
                        let reset = TaskMeta {
                            task_id: m.task_id,
                            input_files: crate::models::clone_strings(&m.input_files),
                            status: TaskStatus::Idle,
                        };
                        tasks[i] = reset;
                    }
                    all_done = false;
                },
                TaskStatus::Idle => {
                    all_done = false;
                },
                TaskStatus::Completed => {},
            }
            proof {
                assert(tasks@[i as int]@ =~= swept[i as int]);
            }
            i += 1;
        }
        proof {
            assert(tasks_view(tasks@) =~= swept);
        }
        all_done
    }

    fn reduce_health_check(tasks: &mut Vec<Option<TaskMeta>>, now: u64) -> (done: bool)
        ensures
            ropt_view(final(tasks)@) == sweep_reduce_tasks(ropt_view(old(tasks)@), now),
            done == all_reduce_completed(ropt_view(final(tasks)@)),
    {
        let ghost swept = sweep_reduce_tasks(ropt_view(old(tasks)@), now);
        let mut all_done = true;
        let mut i: usize = 0;
        while i < tasks.len()
            invariant
                i <= tasks@.len(),
                tasks@.len() == old(tasks)@.len(),
                swept == sweep_reduce_tasks(ropt_view(old(tasks)@), now),
                forall|j: int| 0 <= j < i ==> opt_task_view(tasks@[j]) == #[trigger] swept[j],
                forall|j: int| i <= j < tasks@.len() ==> tasks@[j] == old(tasks)@[j],
                all_done == (forall|j: int|
                    0 <= j < i && (#[trigger] swept[j]) is Some ==> swept[j]->Some_0.status
                        is Completed),
            decreases tasks@.len() - i,
        {
            let st = match &tasks[i] {
                Some(t) => Some(t.status),
                None => None,
            };
            match st {
                Some(TaskStatus::InProgress(t)) => {
                    if now >= t && now - t > TASK_TIMEOUT_MS {
                        let reset = match &tasks[i] {
                            Some(m) => Some(
                                TaskMeta {
                                    task_id: m.task_id,
                                    input_files: crate::models::clone_strings(&m.input_files),
                                    status: TaskStatus::Idle,
                                },
                            ),
                            None => None,
                        };
                        tasks[i] = reset;
                    }
                    all_done = false;
                },
                Some(TaskStatus::Idle) => {
                    all_done = false;
                },
                Some(TaskStatus::Completed) => {},
                None => {},
            }
            proof {
                if opt_task_view(tasks@[i as int]) is Some {
                    assert(opt_task_view(tasks@[i as int])->Some_0 =~= swept[i as int]->Some_0);
                }
                assert(opt_task_view(tasks@[i as int]) == swept[i as int]);
            }
            i += 1;
        }
        proof {
            assert(ropt_view(tasks@) =~= swept);
        }
        all_done
    }

    /// One liveness tick at time `now`: reset abandoned claims, advance the
    /// phase when the active table is entirely completed, and raise the
    /// job-complete flag on reaching (or sitting in) `Complete`.
    pub fn sweep(&mut self, now: u64)
        requires
            old(self).wf(),
        ensures
            final(self).wf(),
            final(self)@ == sv_sweep(old(self)@, now),
    {
        match self.phase {
            JobPhase::Mapping => {
                let done = Self::map_health_check(&mut self.map_tasks, now);
                if done {
                    self.phase = JobPhase::Reducing;
                }
                proof {
                    assert(self@ =~= sv_sweep(old(self)@, now));
                }
            },
            JobPhase::Reducing => {
                let done = Self::reduce_health_check(&mut self.reduce_tasks, now);
                if done {
                    self.phase = JobPhase::Complete;
                    self.job_complete = true;
                }
                proof {
                    assert(self@ =~= sv_sweep(old(self)@, now));
                }
            },
            JobPhase::Complete => {
                self.job_complete = true;
                proof {
                    assert(self@ =~= sv_sweep(old(self)@, now));
                }
            },
        }
    }

    /// Whether the sweeper has declared the whole job finished.
    pub fn is_job_complete(&self) -> (r: bool)
        ensures
            r == self@.job_complete,
    {
        self.job_complete
    }
}

/// The job driver. Its construction of the service and the serving loop
/// around it are process work outside the library; completion is observed
/// through `TaskService::is_job_complete`.
pub struct Coordinator;

/// The coordinator's RPC-facing service: the scheduling state plus the
/// job-wide constants a worker needs alongside a task.
pub struct TaskService {
    service: TaskServiceInner,
    output_path: String,
    n_reduce: u32,
}

impl View for TaskService {
    type V = ServiceView;

    closed spec fn view(&self) -> ServiceView {
        self.service@
    }
}

impl TaskService {
    pub open spec fn wf(&self) -> bool {
        &&& sv_wf(self@)
        &&& self@.reduce_tasks.len() == self.n_reduce_spec()
    }

    pub closed spec fn n_reduce_spec(&self) -> u32 {
        self.n_reduce
    }

    pub closed spec fn output_path_spec(&self) -> Seq<char> {
        self.output_path@
    }

    /// A fresh job over the given input files, with `n_reduce` reducers and
    /// the given output directory.
    pub fn new(input_files: Vec<String>, n_reduce: u32, output_path: String) -> (s: Self)
        requires
            input_files@.len() <= u32::MAX,
        ensures
            s@ == sv_new(input_files.deep_view(), n_reduce as nat),
            s.wf(),
            s.n_reduce_spec() == n_reduce,
            s.output_path_spec() == output_path@,
    {
        let service = TaskServiceInner::new(input_files, n_reduce);
        TaskService { service, output_path, n_reduce }
    }

    /// Answer one `GetTask` call made at time `now`: the claimed task's
    /// data (inputs, id, reducer count, output directory), or nothing.
    pub fn get_task_for_worker(&mut self, now: u64) -> (r: (Option<TaskData>, TaskType))
        requires
            old(self).wf(),
        ensures
            final(self).wf(),
            final(self)@ == sv_get_task(old(self)@, now).0,
            final(self).n_reduce_spec() == old(self).n_reduce_spec(),
            final(self).output_path_spec() == old(self).output_path_spec(),
            r.1 == sv_get_task(old(self)@, now).1,
            match (r.0, sv_get_task(old(self)@, now).2) {
                (Some(d), Some(t)) => d.task_id == t.task_id && d.input_files.deep_view()
                    == t.input_files && d.n_reduce == old(self).n_reduce_spec() && d.output_path@
                    == old(self).output_path_spec(),
                (None, None) => true,
                _ => false,
            },
    {
        let (task, task_type) = self.service.get_task_for_worker(now);
        let data = match task {
            Some(task) => Some(
                TaskData {
                    input_files: task.input_files,
                    task_id: task.task_id,
                    n_reduce: self.n_reduce,
                    output_path: self.output_path.clone(),
                },
            ),
            None => None,
        };
        proof {
            lemma_sv_get_task_wf(old(self)@, now);
        }
        (data, task_type)
    }

    /// Record a map task's completion report.
    pub fn mark_map_task_complete(&mut self, request: MapTaskCompleteRequest)
        requires
            old(self).wf(),
            forall|k: int|
                0 <= k < request.files@.len() ==> (#[trigger] request.files@[k]).0 < old(
                    self,
                ).n_reduce_spec(),
        ensures
            final(self).wf(),
            final(self)@ == sv_map_complete(old(self)@, request.task_id, files_view(request.files@)),
            final(self).n_reduce_spec() == old(self).n_reduce_spec(),
            final(self).output_path_spec() == old(self).output_path_spec(),
    {
        self.service.mark_map_task_complete(request);
        proof {
            lemma_merge_files_shape(old(self)@.reduce_tasks, files_view(request.files@));
        }
    }

    /// Record a reduce task's completion report.
    pub fn mark_reduce_task_complete(&mut self, request: ReduceTaskCompleteRequest)
        requires
            old(self).wf(),
        ensures
            final(self).wf(),
            final(self)@ == sv_reduce_complete(old(self)@, request.task_id),
            final(self).n_reduce_spec() == old(self).n_reduce_spec(),
            final(self).output_path_spec() == old(self).output_path_spec(),
    {
        self.service.mark_reduce_task_complete(request);
    }

    /// One liveness tick at time `now`.
    pub fn sweep(&mut self, now: u64)
        requires
            old(self).wf(),
        ensures
            final(self).wf(),
            final(self)@ == sv_sweep(old(self)@, now),
            final(self).n_reduce_spec() == old(self).n_reduce_spec(),
            final(self).output_path_spec() == old(self).output_path_spec(),
    {
        self.service.sweep(now);
    }

    /// Whether the sweeper has declared the whole job finished; the server's
    /// shutdown path polls this.
    pub fn is_job_complete(&self) -> (r: bool)
        ensures
            r == self@.job_complete,
    {
        self.service.is_job_complete()
    }

    /// The job's reducer count.
    pub fn n_reduce(&self) -> (r: u32)
        ensures
            r == self.n_reduce_spec(),
    {
        self.n_reduce
    }
}

/// A successful scan result indexes a present idle task.
pub proof fn lemma_first_idle_map_bounds(tasks: Seq<TaskView>, k: int)
    requires
        first_idle_map(tasks, k) is Some,
    ensures
        k <= first_idle_map(tasks, k)->Some_0 < tasks.len(),
        tasks[first_idle_map(tasks, k)->Some_0].status is Idle,
    decreases tasks.len() - k,
{
    if !(k < 0 || k >= tasks.len()) && !(tasks[k].status is Idle) {
        lemma_first_idle_map_bounds(tasks, k + 1);
    }
}

pub proof fn lemma_first_idle_reduce_bounds(tasks: Seq<Option<TaskView>>, k: int)
    requires
        first_idle_reduce(tasks, k) is Some,
    ensures
        k <= first_idle_reduce(tasks, k)->Some_0 < tasks.len(),
        tasks[first_idle_reduce(tasks, k)->Some_0] is Some,
        tasks[first_idle_reduce(tasks, k)->Some_0]->Some_0.status is Idle,
    decreases tasks.len() - k,
{
    if !(k < 0 || k >= tasks.len()) && !(tasks[k] is Some && tasks[k]->Some_0.status is Idle) {
        lemma_first_idle_reduce_bounds(tasks, k + 1);
    }
}

/// Claiming a task preserves well-formedness of the tables.
pub proof fn lemma_sv_get_task_wf(s: ServiceView, now: u64)
    requires
        sv_wf(s),
    ensures
        sv_wf(sv_get_task(s, now).0),
        sv_get_task(s, now).0.map_tasks.len() == s.map_tasks.len(),
        sv_get_task(s, now).0.reduce_tasks.len() == s.reduce_tasks.len(),
{
    match s.phase {
        JobPhase::Mapping => {
            if first_idle_map(s.map_tasks, 0) is Some {
                lemma_first_idle_map_bounds(s.map_tasks, 0);
            }
        },
        JobPhase::Reducing => {
            if first_idle_reduce(s.reduce_tasks, 0) is Some {
                lemma_first_idle_reduce_bounds(s.reduce_tasks, 0);
            }
        },
        JobPhase::Complete => {},
    }
}

} // verus!

