use banker::lifecycle::MAX_SYSCALL_NUM;
use banker::lifecycle::TaskContext;
use banker::lifecycle::TaskControlBlock;
use banker::lifecycle::TaskInfo;
use banker::lifecycle::TaskStatus;

fn fresh_tcb() -> TaskControlBlock {
    TaskControlBlock {
        status: TaskStatus::UnInit,
        info: TaskInfo::new(TaskContext { ra: 0, sp: 0 }, 0),
    }
}

#[test]
fn new_info_has_zero_counters() {
    let info = TaskInfo::new(TaskContext { ra: 3, sp: 4 }, 17);
    assert_eq!(info.start_time, 17);
    assert_eq!(info.task_cx.ra, 3);
    assert_eq!(info.task_cx.sp, 4);
    assert_eq!(info.syscall_times.len(), MAX_SYSCALL_NUM);
    assert!(info.syscall_times.iter().all(|c| *c == 0));
}

#[test]
fn uninit_task_cannot_run() {
    let mut tcb = fresh_tcb();
    assert!(tcb.try_turn_to_running(5).is_err());
    assert_eq!(tcb.status(), TaskStatus::UnInit);
    assert_eq!(tcb.info().start_time, 0);
}

#[test]
fn ready_task_runs_and_is_stamped() {
    let mut tcb = fresh_tcb();
    tcb.status = TaskStatus::Ready;
    assert!(tcb.is_ready());
    assert!(tcb.try_turn_to_running(5).is_ok());
    assert_eq!(tcb.status(), TaskStatus::Running);
    assert!(!tcb.is_ready());
    assert_eq!(tcb.info().start_time, 5);
}

#[test]
fn start_time_is_stamped_once() {
    let mut tcb = fresh_tcb();
    tcb.status = TaskStatus::Ready;
    assert!(tcb.try_turn_to_running(5).is_ok());
    assert!(tcb.try_turn_to_ready().is_ok());
    assert!(tcb.try_turn_to_running(9).is_ok());
    assert!(tcb.try_turn_to_ready().is_ok());
    assert!(tcb.try_turn_to_running(13).is_ok());
    assert_eq!(tcb.info().start_time, 5);
}

#[test]
fn running_to_running_fails_without_mutation() {
    let mut tcb = fresh_tcb();
    tcb.status = TaskStatus::Ready;
    assert!(tcb.try_turn_to_running(5).is_ok());
    assert!(tcb.try_turn_to_running(9).is_err());
    assert_eq!(tcb.status(), TaskStatus::Running);
    assert_eq!(tcb.info().start_time, 5);
}

#[test]
fn ready_to_ready_fails() {
    let mut tcb = fresh_tcb();
    tcb.status = TaskStatus::Ready;
    assert!(tcb.try_turn_to_ready().is_err());
    assert_eq!(tcb.status(), TaskStatus::Ready);
}

#[test]
fn exited_is_terminal() {
    let mut tcb = fresh_tcb();
    tcb.status = TaskStatus::Running;
    tcb.turn_to_exited();
    assert_eq!(tcb.status(), TaskStatus::Exited);
    assert!(tcb.try_turn_to_running(9).is_err());
    assert!(tcb.try_turn_to_ready().is_err());
    assert_eq!(tcb.status(), TaskStatus::Exited);
    // exiting again is a harmless no-op
    tcb.turn_to_exited();
    assert_eq!(tcb.status(), TaskStatus::Exited);
}

#[test]
fn every_state_can_exit() {
    for st in [TaskStatus::UnInit, TaskStatus::Ready, TaskStatus::Running] {
        let mut tcb = fresh_tcb();
        tcb.status = st;
        tcb.turn_to_exited();
        assert_eq!(tcb.status(), TaskStatus::Exited);
    }
}

#[test]
fn syscall_counter_increments_while_schedulable() {
    let mut tcb = fresh_tcb();
    tcb.status = TaskStatus::Ready;
    tcb.sys_call_inc(3);
    assert!(tcb.try_turn_to_running(5).is_ok());
    tcb.sys_call_inc(3);
    tcb.sys_call_inc(0);
    assert_eq!(tcb.info().syscall_times[3], 2);
    assert_eq!(tcb.info().syscall_times[0], 1);
    assert_eq!(tcb.info().syscall_times[1], 0);
}

#[test]
fn syscall_counter_frozen_after_exit() {
    let mut tcb = fresh_tcb();
    tcb.status = TaskStatus::Ready;
    tcb.sys_call_inc(2);
    tcb.turn_to_exited();
    tcb.sys_call_inc(2);
    assert_eq!(tcb.info().syscall_times[2], 1);
}

#[test]
fn context_is_kept_through_transitions() {
    let mut tcb = TaskControlBlock {
        status: TaskStatus::Ready,
        info: TaskInfo::new(TaskContext { ra: 11, sp: 22 }, 0),
    };
    assert!(tcb.try_turn_to_running(5).is_ok());
    assert_eq!(tcb.cx().ra, 11);
    assert_eq!(tcb.cx().sp, 22);
    tcb.turn_to_exited();
    assert_eq!(tcb.cx().ra, 11);
}
