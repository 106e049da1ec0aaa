use os_kernel::sync::deadlock::{DeadlockDetector, DeadlockDetectorManager, ProcessDeadlockState, ResourceType};

fn two_resources() -> DeadlockDetector {
    let mut d = DeadlockDetector::new();
    d.add_res(0, 1);
    d.add_res(1, 1);
    d
}

#[test]
fn new_detector_is_empty() {
    let d = DeadlockDetector::new();
    assert!(d.inner.available.is_empty());
    assert!(d.inner.allocation.is_empty());
    assert!(d.inner.need.is_empty());
    assert!(!d.check_deadlock());
}

#[test]
fn add_task_adds_zero_rows_up_to_tid() {
    let mut d = two_resources();
    d.add_task(2);
    assert_eq!(d.inner.allocation, vec![vec![0, 0], vec![0, 0], vec![0, 0]]);
    assert_eq!(d.inner.need, vec![vec![0, 0], vec![0, 0], vec![0, 0]]);
    d.add_task(1);
    assert_eq!(d.inner.allocation.len(), 3);
}

#[test]
fn add_res_past_the_end_adds_one_resource() {
    let mut d = DeadlockDetector::new();
    d.add_task(0);
    d.add_res(5, 3);
    assert_eq!(d.inner.available, vec![3]);
    assert_eq!(d.inner.allocation, vec![vec![0]]);
    assert_eq!(d.inner.need, vec![vec![0]]);
}

#[test]
fn add_res_existing_id_resets_it() {
    let mut d = two_resources();
    d.need(0, 1);
    d.lock(0, 1);
    d.add_res(1, 4);
    assert_eq!(d.inner.available, vec![1, 4]);
    assert_eq!(d.inner.allocation, vec![vec![0, 0]]);
    assert_eq!(d.inner.need, vec![vec![0, 0]]);
}

#[test]
fn need_lock_unlock_move_units() {
    let mut d = two_resources();
    d.need(1, 0);
    assert_eq!(d.inner.need, vec![vec![0, 0], vec![1, 0]]);
    d.lock(1, 0);
    assert_eq!(d.inner.need, vec![vec![0, 0], vec![0, 0]]);
    assert_eq!(d.inner.allocation, vec![vec![0, 0], vec![1, 0]]);
    assert_eq!(d.inner.available, vec![0, 1]);
    d.unlock(1, 0);
    assert_eq!(d.inner.allocation, vec![vec![0, 0], vec![0, 0]]);
    assert_eq!(d.inner.available, vec![1, 1]);
    d.noneed(1, 1);
    assert_eq!(d.inner.need, vec![vec![0, 0], vec![0, -1]]);
}

#[test]
fn crossed_waits_are_a_deadlock() {
    let mut d = two_resources();
    d.need(0, 0);
    d.lock(0, 0);
    d.need(1, 1);
    d.lock(1, 1);
    d.need(0, 1);
    // task 1 can finish and hand resource 1 to task 0
    assert!(!d.check_deadlock());
    d.need(1, 0);
    assert!(d.check_deadlock());
}

#[test]
fn enough_units_is_safe() {
    let mut d = DeadlockDetector::new();
    d.add_res(0, 2);
    d.need(0, 0);
    d.lock(0, 0);
    d.need(1, 0);
    d.need(0, 0);
    assert!(!d.check_deadlock());
}

#[test]
fn finishing_in_a_later_pass_is_safe() {
    // Task 0 can only finish after task 2, which comes later in the table.
    let mut d = DeadlockDetector::new();
    d.add_res(0, 0);
    d.add_task(2);
    d.inner.allocation[2][0] = 1;
    d.inner.need[0][0] = 1;
    assert!(!d.check_deadlock());
    d.inner.need[2][0] = 1;
    assert!(d.check_deadlock());
}

#[test]
fn manager_routes_to_the_chosen_detector() {
    let mut st = ProcessDeadlockState::new();
    st.semaphore_deadlock_detector.add_res(0, 1);
    st.mutex_deadlock_detector.add_res(0, 1);
    let mut mgr = DeadlockDetectorManager::new();
    assert_eq!(mgr.res_type, ResourceType::Mutex);
    mgr.set_res_type(ResourceType::Semaphore);
    mgr.need(&mut st, 3, 0);
    assert_eq!(st.semaphore_deadlock_detector.inner.need[3], vec![1]);
    assert!(st.mutex_deadlock_detector.inner.need.is_empty());
    mgr.lock(&mut st, 3, 0);
    assert_eq!(st.semaphore_deadlock_detector.inner.allocation[3], vec![1]);
    mgr.unlock(&mut st, 3, 0);
    mgr.noneed(&mut st, 3, 0);
    assert_eq!(st.semaphore_deadlock_detector.inner.need[3], vec![-1]);
    assert_eq!(st.semaphore_deadlock_detector.inner.available, vec![1]);
}

#[test]
fn manager_reports_no_deadlock_while_detection_is_off() {
    let mut st = ProcessDeadlockState::new();
    st.mutex_deadlock_detector.add_res(0, 0);
    st.mutex_deadlock_detector.need(0, 0);
    let mgr = DeadlockDetectorManager::new();
    assert!(!mgr.check_deadlock(&st));
    st.enable_deadlock_detect = true;
    assert!(mgr.check_deadlock(&st));
}

#[test]
fn noneed_undoes_need() {
    let mut d = two_resources();
    d.need(1, 0);
    d.noneed(1, 0);
    let mut e = two_resources();
    e.add_task(1);
    assert_eq!(d.inner.available, e.inner.available);
    assert_eq!(d.inner.allocation, e.inner.allocation);
    assert_eq!(d.inner.need, e.inner.need);
}

#[test]
fn unlock_undoes_lock_but_uses_up_the_need() {
    let mut d = two_resources();
    d.need(0, 1);
    d.lock(0, 1);
    d.unlock(0, 1);
    assert_eq!(d.inner.available, vec![1, 1]);
    assert_eq!(d.inner.allocation, vec![vec![0, 0]]);
    assert_eq!(d.inner.need, vec![vec![0, 0]]);
}

#[test]
fn negative_holding_follows_table_order() {
    // A unit given back without having been taken leaves task 0 holding -1.
    // The check finishes task 0 first, which takes the free unit away from
    // task 1: reported as a deadlock although finishing task 1 first works.
    let mut d = DeadlockDetector::new();
    d.add_res(0, 0);
    d.unlock(0, 0);
    assert_eq!(d.inner.allocation, vec![vec![-1]]);
    assert_eq!(d.inner.available, vec![1]);
    d.need(1, 0);
    assert!(d.check_deadlock());
}

#[test]
fn check_adds_only_what_finished_tasks_hold() {
    let mut d = DeadlockDetector::new();
    d.inner.available = vec![isize::MAX - 1];
    d.inner.allocation = vec![vec![5]];
    d.inner.need = vec![vec![isize::MAX]];
    assert!(d.check_deadlock());
}
