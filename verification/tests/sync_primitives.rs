use os_kernel::sync::deadlock::{DeadlockDetectorManager, ProcessDeadlockState, ResourceType};
use os_kernel::sync::mutex::{LockStep, Mutex, MutexBlocking, MutexSpin};
use os_kernel::sync::semaphore::{DownStep, Semaphore};

fn state_with(ty: ResourceType, counts: &[usize]) -> ProcessDeadlockState {
    let mut st = ProcessDeadlockState::new();
    st.enable_deadlock_detect = true;
    for (rid, c) in counts.iter().enumerate() {
        match ty {
            ResourceType::Mutex => st.mutex_deadlock_detector.add_res(rid, *c),
            ResourceType::Semaphore => st.semaphore_deadlock_detector.add_res(rid, *c),
        }
    }
    st
}

#[test]
fn semaphore_new_and_rid() {
    let s = Semaphore::new(3, 2);
    assert_eq!(s.get_rid(), 3);
    assert_eq!(s.inner.count, 2);
    assert!(s.inner.wait_queue.is_empty());
}

#[test]
fn semaphore_down_blocks_then_up_wakes() {
    let mut st = state_with(ResourceType::Semaphore, &[1]);
    let mut mgr = DeadlockDetectorManager::new();
    let mut s = Semaphore::new(0, 1);
    assert_eq!(s.down(&mut mgr, &mut st, 0), DownStep::Done(true));
    assert_eq!(mgr.res_type, ResourceType::Semaphore);
    assert_eq!(s.inner.count, 0);
    assert_eq!(s.down(&mut mgr, &mut st, 1), DownStep::Block);
    assert_eq!(s.inner.count, -1);
    assert_eq!(s.inner.wait_queue.iter().copied().collect::<Vec<_>>(), vec![1]);
    assert_eq!(s.up(&mut mgr, &mut st, 0), Some(1));
    assert_eq!(s.inner.count, 0);
    assert!(s.finish_down(&mut mgr, &mut st, 1));
    assert_eq!(st.semaphore_deadlock_detector.inner.allocation, vec![vec![0], vec![1]]);
    assert_eq!(s.up(&mut mgr, &mut st, 1), None);
    assert_eq!(s.inner.count, 1);
}

#[test]
fn semaphore_down_refused_on_deadlock() {
    let mut st = state_with(ResourceType::Semaphore, &[1, 1]);
    let mut mgr = DeadlockDetectorManager::new();
    let mut a = Semaphore::new(0, 1);
    let mut b = Semaphore::new(1, 1);
    assert_eq!(a.down(&mut mgr, &mut st, 0), DownStep::Done(true));
    assert_eq!(b.down(&mut mgr, &mut st, 1), DownStep::Done(true));
    assert_eq!(b.down(&mut mgr, &mut st, 0), DownStep::Block);
    assert_eq!(a.down(&mut mgr, &mut st, 1), DownStep::Done(false));
    assert_eq!(a.inner.count, 0);
    assert_eq!(st.semaphore_deadlock_detector.inner.need, vec![vec![0, 1], vec![0, 0]]);
}

#[test]
fn spin_mutex_suspends_while_locked() {
    let mut st = state_with(ResourceType::Mutex, &[1]);
    let mut mgr = DeadlockDetectorManager::new();
    let mut m = MutexSpin::new(0);
    assert_eq!(m.get_rid(), 0);
    assert_eq!(m.lock(&mut mgr, &mut st, 0), LockStep::Done(true));
    assert!(m.locked);
    assert_eq!(m.lock(&mut mgr, &mut st, 1), LockStep::Suspend);
    assert_eq!(m.resume(&mut mgr, &mut st, 1), LockStep::Suspend);
    assert_eq!(m.unlock(&mut mgr, &mut st, 0), None);
    assert!(!m.locked);
    assert_eq!(m.resume(&mut mgr, &mut st, 1), LockStep::Done(true));
    assert_eq!(mgr.res_type, ResourceType::Mutex);
}

#[test]
fn blocking_mutex_hands_over_on_unlock() {
    let mut st = state_with(ResourceType::Mutex, &[1]);
    let mut mgr = DeadlockDetectorManager::new();
    let mut m = MutexBlocking::new(0);
    assert_eq!(m.lock(&mut mgr, &mut st, 0), LockStep::Done(true));
    assert_eq!(m.lock(&mut mgr, &mut st, 1), LockStep::Block);
    assert_eq!(m.unlock(&mut mgr, &mut st, 0), Some(1));
    assert!(m.inner.locked);
    assert_eq!(m.resume(&mut mgr, &mut st, 1), LockStep::Done(true));
    assert_eq!(m.unlock(&mut mgr, &mut st, 1), None);
    assert!(!m.inner.locked);
}

#[test]
fn blocking_mutex_refused_on_deadlock() {
    let mut st = state_with(ResourceType::Mutex, &[1, 1]);
    let mut mgr = DeadlockDetectorManager::new();
    let mut a = MutexBlocking::new(0);
    let mut b = MutexBlocking::new(1);
    assert_eq!(a.lock(&mut mgr, &mut st, 0), LockStep::Done(true));
    assert_eq!(b.lock(&mut mgr, &mut st, 1), LockStep::Done(true));
    assert_eq!(b.lock(&mut mgr, &mut st, 0), LockStep::Block);
    assert_eq!(a.lock(&mut mgr, &mut st, 1), LockStep::Done(false));
    assert!(a.inner.wait_queue.is_empty());
}

#[test]
fn semaphore_down_then_up_restores_everything() {
    let mut st = ProcessDeadlockState::new();
    st.semaphore_deadlock_detector.add_res(0, 2);
    st.semaphore_deadlock_detector.add_task(0);
    let mut mgr = DeadlockDetectorManager::new();
    let mut s = Semaphore::new(0, 2);
    let before = (
        st.semaphore_deadlock_detector.inner.available.clone(),
        st.semaphore_deadlock_detector.inner.allocation.clone(),
        st.semaphore_deadlock_detector.inner.need.clone(),
    );
    assert_eq!(s.down(&mut mgr, &mut st, 0), DownStep::Done(true));
    assert_eq!(s.up(&mut mgr, &mut st, 0), None);
    assert_eq!(s.inner.count, 2);
    assert!(s.inner.wait_queue.is_empty());
    let after = (
        st.semaphore_deadlock_detector.inner.available.clone(),
        st.semaphore_deadlock_detector.inner.allocation.clone(),
        st.semaphore_deadlock_detector.inner.need.clone(),
    );
    assert_eq!(before, after);
}

#[test]
fn mutexes_lock_then_unlock_restore_everything() {
    let mut st = ProcessDeadlockState::new();
    st.mutex_deadlock_detector.add_res(0, 1);
    st.mutex_deadlock_detector.add_res(1, 1);
    st.mutex_deadlock_detector.add_task(0);
    let mut mgr = DeadlockDetectorManager::new();
    let before = (
        st.mutex_deadlock_detector.inner.available.clone(),
        st.mutex_deadlock_detector.inner.allocation.clone(),
        st.mutex_deadlock_detector.inner.need.clone(),
    );
    let mut spin = MutexSpin::new(0);
    assert_eq!(spin.lock(&mut mgr, &mut st, 0), LockStep::Done(true));
    assert_eq!(spin.unlock(&mut mgr, &mut st, 0), None);
    assert!(!spin.locked);
    let mut blocking = MutexBlocking::new(1);
    assert_eq!(blocking.lock(&mut mgr, &mut st, 0), LockStep::Done(true));
    assert_eq!(blocking.unlock(&mut mgr, &mut st, 0), None);
    assert!(!blocking.inner.locked);
    assert!(blocking.inner.wait_queue.is_empty());
    let after = (
        st.mutex_deadlock_detector.inner.available.clone(),
        st.mutex_deadlock_detector.inner.allocation.clone(),
        st.mutex_deadlock_detector.inner.need.clone(),
    );
    assert_eq!(before, after);
}
