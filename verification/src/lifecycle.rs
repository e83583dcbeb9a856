//! The task lifecycle: a finite-state record per task, holding the saved
//! execution context, a start timestamp that is stamped exactly once, and a
//! fixed-width table of per-syscall invocation counters.

use vstd::prelude::*;

verus! {

/// Number of distinct syscall identifiers whose invocations are counted.
pub const MAX_SYSCALL_NUM: usize = 500;

/// A saved execution context.  This core never inspects it; the
/// context-switch mechanism swaps it in and out as one opaque unit.
#[derive(Clone, Copy, PartialEq, Eq, Structural, Debug)]
pub struct TaskContext {
    /// Saved return address.
    pub ra: usize,
    /// Saved stack pointer.
    pub sp: usize,
}

/// The status of a task.
#[derive(Clone, Copy, PartialEq, Eq, Structural, Debug)]
pub enum TaskStatus {
    /// The task is uninitialized: the pre-scheduling placeholder state.
    UnInit,
    /// The task is ready to run.
    Ready,
    /// The task is running.
    Running,
    /// The task has exited.  Terminal: no transition leaves it.
    Exited,
}

/// The transition relation of the task lifecycle.  Every mutation of a
/// task's status performed by this module satisfies it: a status either
/// stays put, moves between `Ready` and `Running`, or falls into the
/// terminal `Exited` state.
pub open spec fn lifecycle_step(pre: TaskStatus, post: TaskStatus) -> bool {
    ||| pre == post
    ||| (pre == TaskStatus::Ready && post == TaskStatus::Running)
    ||| (pre == TaskStatus::Running && post == TaskStatus::Ready)
    ||| post == TaskStatus::Exited
}

/// What the start timestamp becomes when a task enters `Running` at time
/// `now`: it is stamped once, on the first entry (a zero timestamp means
/// "not yet stamped"), and kept forever after.
pub open spec fn stamped(start_time: usize, now: usize) -> usize {
    if start_time == 0 {
        now
    } else {
        start_time
    }
}

/// Once a nonzero start timestamp has been stamped, no later entry into
/// `Running` changes it: across `Ready -> Running -> Ready -> Running`
/// cycles that first stamp `t1` and then re-enter at any `t2`, the recorded
/// timestamp stays `t1`.  (A first entry at wall-clock time zero is
/// indistinguishable from "not yet stamped" and is excluded.)
pub proof fn lemma_start_time_stamped_once(t1: usize, t2: usize)
    requires
        t1 != 0,
    ensures
        stamped(stamped(0, t1), t2) == t1,
        forall|s: usize| s != 0 ==> stamped(s, t2) == s,
{
}

/// From `Exited` no state is reachable; from `Ready` only `Ready`,
/// `Running` and `Exited` are; from `Running` only `Running`, `Ready` and
/// `Exited` are.
pub proof fn lemma_lifecycle_exhaustive(pre: TaskStatus, post: TaskStatus)
    requires
        lifecycle_step(pre, post),
    ensures
        pre == TaskStatus::Exited ==> post == TaskStatus::Exited,
        pre == TaskStatus::Ready ==> (post == TaskStatus::Ready || post == TaskStatus::Running
            || post == TaskStatus::Exited),
        pre == TaskStatus::Running ==> (post == TaskStatus::Running || post == TaskStatus::Ready
            || post == TaskStatus::Exited),
{
}

/// The accumulated information of one task: its saved context, the time of
/// its first entry into `Running` (zero while unset), and how many times it
/// has issued each syscall.
#[derive(Clone, Copy, Debug)]
pub struct TaskInfo {
    /// The saved execution context.
    pub task_cx: TaskContext,
    /// The start time of the task; zero until first scheduled.
    pub start_time: usize,
    /// The number of invocations of each syscall, by syscall identifier.
    pub syscall_times: [u32; MAX_SYSCALL_NUM],
}

impl TaskInfo {
    /// A fresh record: the given context and start time, all counters zero.
    pub fn new(task_cx: TaskContext, start_time: usize) -> (r: Self)
        ensures
            r.task_cx == task_cx,
            r.start_time == start_time,
            r.syscall_times@.len() == MAX_SYSCALL_NUM,
            forall|i: int| 0 <= i < MAX_SYSCALL_NUM ==> r.syscall_times@[i] == 0u32,
    {
        Self { task_cx, start_time, syscall_times: [0u32; MAX_SYSCALL_NUM] }
    }

    /// Increase the invocation counter of syscall `syscall_id` by one,
    /// leaving every other counter and field unchanged.
    pub fn sys_call_inc(&mut self, syscall_id: usize)
        requires
            syscall_id < MAX_SYSCALL_NUM,
            old(self).syscall_times@[syscall_id as int] < u32::MAX,
        ensures
            final(self).syscall_times@ == old(self).syscall_times@.update(
                syscall_id as int,
                (old(self).syscall_times@[syscall_id as int] + 1) as u32,
            ),
            final(self).task_cx == old(self).task_cx,
            final(self).start_time == old(self).start_time,
    {
        self.syscall_times[syscall_id] = self.syscall_times[syscall_id] + 1;
    }
}

/// The task control block: the task's current phase and its accumulated
/// information, updated atomically as one unit.
#[derive(Clone, Copy)]
pub struct TaskControlBlock {
    /// The status of the task.
    pub status: TaskStatus,
    /// The task information.
    pub info: TaskInfo,
}

impl TaskControlBlock {
    /// Guarded transition into `Running`, entered at wall-clock time `now`
    /// (milliseconds; the clock itself is a collaborator of this core).
    /// Fails, mutating nothing, unless the task is exactly `Ready`.  On the
    /// first entry into `Running` the start timestamp is stamped with `now`;
    /// on every later entry it is left alone.
    pub fn try_turn_to_running(&mut self, now: usize) -> (r: Result<(), &'static str>)
        ensures
            r is Ok <==> old(self).status == TaskStatus::Ready,
            r is Err ==> *final(self) == *old(self),
            r is Ok ==> final(self).status == TaskStatus::Running,
            r is Ok ==> final(self).info.start_time == stamped(old(self).info.start_time, now),
            r is Ok ==> final(self).info.task_cx == old(self).info.task_cx,
            r is Ok ==> final(self).info.syscall_times == old(self).info.syscall_times,
            lifecycle_step(old(self).status, final(self).status),
    {
        if self.status != TaskStatus::Ready {
            return Err("TaskControlBlock::turn_to_running: not a Ready task");
        }
        if self.info.start_time == 0 {
            self.info.start_time = now;
        }
        self.status = TaskStatus::Running;
        Ok(())
    }

    /// Guarded transition into `Ready` (voluntary yield or preemption).
    /// Fails, mutating nothing, unless the task is exactly `Running`.
    pub fn try_turn_to_ready(&mut self) -> (r: Result<(), &'static str>)
        ensures
            r is Ok <==> old(self).status == TaskStatus::Running,
            r is Err ==> *final(self) == *old(self),
            r is Ok ==> final(self).status == TaskStatus::Ready,
            r is Ok ==> final(self).info == old(self).info,
            lifecycle_step(old(self).status, final(self).status),
    {
        if self.status != TaskStatus::Running {
            return Err("TaskControlBlock::turn_to_ready: not a Running task");
        }
        self.status = TaskStatus::Ready;
        Ok(())
    }

    /// Unconditional, terminal transition into `Exited`.  Calling it on a
    /// task that has already exited is a no-op (the status is simply set to
    /// `Exited` again); the accumulated information is kept.
    pub fn turn_to_exited(&mut self)
        ensures
            final(self).status == TaskStatus::Exited,
            final(self).info == old(self).info,
            lifecycle_step(old(self).status, final(self).status),
    {
        self.status = TaskStatus::Exited;
    }

    /// The saved execution context.
    pub fn cx(&self) -> (r: &TaskContext)
        ensures
            *r == self.info.task_cx,
    {
        &self.info.task_cx
    }

    /// Whether the task is ready to run.
    pub fn is_ready(&self) -> (r: bool)
        ensures
            r == (self.status == TaskStatus::Ready),
    {
        self.status == TaskStatus::Ready
    }

    /// The status of the task.
    pub fn status(&self) -> (r: TaskStatus)
        ensures
            r == self.status,
    {
        self.status
    }

    /// The task information.
    pub fn info(&self) -> (r: &TaskInfo)
        ensures
            *r == self.info,
    {
        &self.info
    }

    /// Increase the invocation counter of syscall `syscall_id`.  Only
    /// meaningful while the task is `Ready` or `Running`: in any other
    /// state the call is a no-op.
    pub fn sys_call_inc(&mut self, syscall_id: usize)
        requires
            syscall_id < MAX_SYSCALL_NUM,
            old(self).info.syscall_times@[syscall_id as int] < u32::MAX,
        ensures
            final(self).status == old(self).status,
            final(self).info.task_cx == old(self).info.task_cx,
            final(self).info.start_time == old(self).info.start_time,
            (old(self).status == TaskStatus::Ready || old(self).status == TaskStatus::Running)
                ==> final(self).info.syscall_times@ == old(self).info.syscall_times@.update(
                syscall_id as int,
                (old(self).info.syscall_times@[syscall_id as int] + 1) as u32,
            ),
            !(old(self).status == TaskStatus::Ready || old(self).status == TaskStatus::Running)
                ==> *final(self) == *old(self),
    {
        if self.status == TaskStatus::Ready || self.status == TaskStatus::Running {
            self.info.sys_call_inc(syscall_id);
        }
    }
}

} // verus!
