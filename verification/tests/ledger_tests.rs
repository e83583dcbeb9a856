use banker::ledger::Banker;

#[test]
fn task_ids_are_one_based_and_grow() {
    let mut b = Banker::new();
    assert_eq!(b.add_task(), 1);
    assert_eq!(b.add_task(), 2);
    assert_eq!(b.add_task(), 3);
}

#[test]
fn remove_task_checks_range() {
    let mut b = Banker::new();
    let t = b.add_task();
    assert!(b.remove_task(t));
    assert!(b.remove_task(0));
    assert!(!b.remove_task(t + 1));
}

#[test]
fn resource_id_finds_registered_identities() {
    let mut b = Banker::new();
    assert_eq!(b.resource_id(7), None);
    let slot_a = b.add_resource(7, 5);
    let slot_b = b.add_resource(9, 3);
    assert_eq!(slot_a, 0);
    assert_eq!(slot_b, 1);
    assert_eq!(b.resource_id(7), Some(0));
    assert_eq!(b.resource_id(9), Some(1));
    assert_eq!(b.resource_id(8), None);
}

#[test]
fn slot_of_removed_resource_is_reused_fifo() {
    let mut b = Banker::new();
    let slot_a = b.add_resource(7, 5);
    assert!(b.remove_resource(7));
    assert!(!b.remove_resource(7));
    let slot_b = b.add_resource(9, 3);
    assert_eq!(slot_b, slot_a);
    assert_eq!(b.resource_id(9), Some(slot_a));
    assert_eq!(b.resource_id(7), None);
}

#[test]
fn reused_slot_starts_clean() {
    let mut b = Banker::new();
    let t = b.add_task();
    b.add_resource(7, 5);
    b.request(t, 7, 5);
    // the caller returns everything before unregistering
    assert!(b.release(t, 7, 5));
    assert!(b.remove_resource(7));
    let slot_b = b.add_resource(9, 2);
    assert_eq!(slot_b, 0);
    // the fresh registration carries no stale allocation: the full
    // capacity of 2 is free and nothing more
    assert!(b.try_request(t, 9, 2));
    assert!(!b.try_request(t, 9, 3));
}

#[test]
fn release_rejects_bad_arguments() {
    let mut b = Banker::new();
    let t = b.add_task();
    b.add_resource(7, 10);
    b.request(t, 7, 4);
    assert!(!b.release(t + 1, 7, 1));
    assert!(!b.release(t, 8, 1));
    assert!(!b.release(t, 7, 5));
    assert!(b.release(t, 7, 4));
    assert!(!b.release(t, 7, 1));
}

#[test]
fn declaration_and_grant_scenario() {
    // Two tasks, one resource of total 10.
    let mut b = Banker::new();
    let t1 = b.add_task();
    let t2 = b.add_task();
    b.add_resource(42, 10);
    // Task 1 declares a ceiling of 7 and is granted it at once.
    b.request(t1, 42, 7);
    // 5 units exceed the 3 still available.
    assert!(!b.try_request(t2, 42, 5));
    // 3 units fit and keep the system safe.
    assert!(b.try_request(t2, 42, 3));
    // Task 1 releases 4: the pool is back to 7 free units.
    assert!(b.release(t1, 42, 4));
    assert!(b.try_request(t2, 42, 7));
    assert!(!b.try_request(t2, 42, 8));
}

/// Raise a task's declared maximum (and so its need) by `amount` without
/// holding on to any units: grant and give straight back.
fn declare_need(b: &mut Banker, task: usize, resource: u64, amount: usize) {
    b.request(task, resource, amount);
    assert!(b.release(task, resource, amount));
}

/// The classical five-task, three-resource instance: available [3, 3, 2],
/// allocation and maximum as in the standard textbook example.
fn textbook_instance() -> (Banker, [usize; 5]) {
    let mut b = Banker::new();
    let tasks = [b.add_task(), b.add_task(), b.add_task(), b.add_task(), b.add_task()];
    // capacities chosen so that after the allocations below, [3, 3, 2] is free
    b.add_resource(0, 10);
    b.add_resource(1, 5);
    b.add_resource(2, 7);
    let alloc: [[usize; 3]; 5] = [[0, 1, 0], [2, 0, 0], [3, 0, 2], [2, 1, 1], [0, 0, 2]];
    let need: [[usize; 3]; 5] = [[7, 4, 3], [1, 2, 2], [6, 0, 0], [0, 1, 1], [4, 3, 1]];
    for i in 0..5 {
        for r in 0..3u64 {
            let n = need[i][r as usize];
            if n > 0 {
                declare_need(&mut b, tasks[i], r, n);
            }
        }
    }
    for i in 0..5 {
        for r in 0..3u64 {
            let a = alloc[i][r as usize];
            if a > 0 {
                b.request(tasks[i], r, a);
            }
        }
    }
    (b, tasks)
}

#[test]
fn textbook_instance_is_safe() {
    let (b, _) = textbook_instance();
    assert!(b.is_safe());
}

#[test]
fn overcommitted_variant_is_unsafe() {
    let (mut b, tasks) = textbook_instance();
    // Handing task 3 the last two units of the third resource leaves no
    // order in which every task can still reach its declared maximum.
    b.request(tasks[3], 2, 2);
    assert!(!b.is_safe());
}

#[test]
fn admission_checks_the_declared_state_only() {
    let (mut b, tasks) = textbook_instance();
    // The speculative check raises the task's declared need without
    // simulating the transfer of units, so it can admit a request whose
    // actual grant leaves the system unsafe.
    assert!(b.try_request(tasks[3], 2, 2));
    b.request(tasks[3], 2, 2);
    assert!(!b.is_safe());
}

#[test]
fn admission_rejects_unknown_task_and_resource() {
    let mut b = Banker::new();
    let t = b.add_task();
    b.add_resource(7, 4);
    assert!(!b.try_request(t + 1, 7, 1));
    assert!(!b.try_request(t, 8, 1));
    assert!(!b.try_request(t, 7, 5));
    assert!(b.try_request(t, 7, 4));
}

#[test]
fn admission_leaves_the_ledger_unchanged() {
    let mut b = Banker::new();
    let t = b.add_task();
    b.add_resource(7, 4);
    // whatever the answers, the declared state is rolled back: the full
    // capacity can still be requested afterwards
    assert!(b.try_request(t, 7, 2));
    assert!(b.try_request(t, 7, 4));
    b.request(t, 7, 4);
    assert!(b.is_safe());
}

#[test]
fn empty_ledger_is_safe() {
    let b = Banker::new();
    assert!(b.is_safe());
    let mut b2 = Banker::new();
    b2.add_task();
    b2.add_resource(1, 0);
    assert!(b2.is_safe());
}

#[test]
fn blocked_tasks_with_nothing_free_are_unsafe() {
    let mut b = Banker::new();
    let t1 = b.add_task();
    let t2 = b.add_task();
    b.add_resource(5, 2);
    declare_need(&mut b, t1, 5, 1);
    declare_need(&mut b, t2, 5, 1);
    b.request(t1, 5, 1);
    b.request(t2, 5, 1);
    // each task holds one unit and needs one more, with none free
    assert!(!b.is_safe());
    // releasing one unit lets the other task finish, then this one
    assert!(b.release(t1, 5, 1));
    assert!(b.is_safe());
}
