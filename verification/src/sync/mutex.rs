//! Mutex (spin-like and blocking(sleep)), with deadlock detection on every
//! lock.
//!
//! Locking may suspend or block the running task. The mutexes' decisions are
//! made here; suspending, blocking and waking tasks are left to the caller,
//! which hands the running task's id in and acts on what comes back.
use std::collections::VecDeque;
use vstd::prelude::*;
use crate::sync::deadlock::{DeadlockDetectorInner, DeadlockDetectorManager, ProcessDeadlockState,
    ResourceType, only_detector_changed, need_outcome, acquire_outcome, can_request, can_acquire,
    can_unlock, unlocked, need_unless_deadlock, lock_unless_deadlock, lemma_release_undoes_request};
use crate::sync::semaphore::pop_front_of;

verus! {

/// Where an attempt to lock a mutex stands.
#[derive(PartialEq, Eq, Structural, Clone, Copy, Debug)]
pub enum LockStep {
    /// The attempt is over: `true` when the task holds the mutex, `false`
    /// when it was refused to avoid a deadlock.
    Done(bool),
    /// The mutex is taken: yield the processor, then call `resume`.
    Suspend,
    /// The task is queued and must block; once woken, call `resume`.
    Block,
}

/// Mutex trait
pub trait Mutex {
    /// The resource id of the mutex.
    spec fn rid_spec(&self) -> usize;

    /// Whether the mutex may be unlocked now.
    spec fn may_unlock(&self) -> bool;

    /// What a lock by `tid` leads to: the mutex goes from `self` to `next`,
    /// the detector of mutexes from `d0` to `d`, with detection `enabled`.
    spec fn lock_outcome(self, next: Self, d0: DeadlockDetectorInner, d: DeadlockDetectorInner, enabled: bool, tid: int,
        step: LockStep) -> bool;

    /// What going on with a suspended or blocked lock by `tid` leads to.
    spec fn resume_outcome(self, next: Self, d0: DeadlockDetectorInner, d: DeadlockDetectorInner, enabled: bool,
        tid: int, step: LockStep) -> bool;

    /// What an unlock leads to: the mutex goes from `self` to `next`, and
    /// `woken` is the task to wake.
    spec fn unlock_outcome(self, next: Self, woken: Option<usize>) -> bool;

    /// Lock the mutex for the running task `tid`.
    fn lock(&mut self, mgr: &mut DeadlockDetectorManager, st: &mut ProcessDeadlockState, tid: usize) -> (step: LockStep)
        requires
            can_request(old(st).detector(ResourceType::Mutex), tid as int, old(self).rid_spec() as int),
        ensures
            final(mgr).res_type == ResourceType::Mutex,
            only_detector_changed(*old(st), *final(st), ResourceType::Mutex),
            final(self).rid_spec() == old(self).rid_spec(),
            old(self).lock_outcome(*final(self), old(st).detector(ResourceType::Mutex),
                final(st).detector(ResourceType::Mutex), old(st).enable_deadlock_detect, tid as int, step),
            step == LockStep::Suspend || step == LockStep::Block ==> can_acquire(final(st).detector(ResourceType::Mutex),
                tid as int, final(self).rid_spec() as int),
    ;

    /// Go on with a lock that suspended or blocked the running task `tid`.
    fn resume(&mut self, mgr: &mut DeadlockDetectorManager, st: &mut ProcessDeadlockState, tid: usize) -> (step: LockStep)
        requires
            can_acquire(old(st).detector(ResourceType::Mutex), tid as int, old(self).rid_spec() as int),
        ensures
            final(mgr).res_type == ResourceType::Mutex,
            only_detector_changed(*old(st), *final(st), ResourceType::Mutex),
            final(self).rid_spec() == old(self).rid_spec(),
            old(self).resume_outcome(*final(self), old(st).detector(ResourceType::Mutex),
                final(st).detector(ResourceType::Mutex), old(st).enable_deadlock_detect, tid as int, step),
            step == LockStep::Suspend || step == LockStep::Block ==> can_acquire(final(st).detector(ResourceType::Mutex),
                tid as int, final(self).rid_spec() as int),
    ;

    /// Unlock the mutex for the running task `tid`; returns the waiting task
    /// to wake, if any.
    fn unlock(&mut self, mgr: &mut DeadlockDetectorManager, st: &mut ProcessDeadlockState, tid: usize) -> (woken: Option<usize>)
        requires
            old(self).may_unlock(),
            can_unlock(old(st).detector(ResourceType::Mutex), tid as int, old(self).rid_spec() as int),
        ensures
            final(mgr).res_type == ResourceType::Mutex,
            only_detector_changed(*old(st), *final(st), ResourceType::Mutex),
            unlocked(old(st).detector(ResourceType::Mutex), final(st).detector(ResourceType::Mutex), tid as int,
                old(self).rid_spec() as int),
            final(self).rid_spec() == old(self).rid_spec(),
            old(self).unlock_outcome(*final(self), woken),
    ;

    /// Get the resource id of the mutex
    fn get_rid(&self) -> (r: usize)
        ensures
            r == self.rid_spec(),
    ;
}

/// One turn of a spin lock on a mutex that `was_locked`: wait while it is
/// taken, else take the unit and keep the mutex unless that deadlocks.
pub open spec fn spin_turn(d: DeadlockDetectorInner, e: DeadlockDetectorInner, tid: int, rid: int, enabled: bool,
    was_locked: bool, now_locked: bool, step: LockStep) -> bool {
    &&& was_locked ==> step == LockStep::Suspend && e == d && now_locked
    &&& !was_locked ==> exists|ok: bool| step == LockStep::Done(ok) && #[trigger] acquire_outcome(d, e, tid, rid, enabled, ok)
        && now_locked == ok
}

/// Spinlock Mutex struct
pub struct MutexSpin {
    pub rid: usize,
    pub locked: bool,
}

impl MutexSpin {
    /// Create a new spinlock mutex
    pub fn new(rid: usize) -> (r: Self)
        ensures
            r.rid == rid,
            !r.locked,
    {
        MutexSpin { rid, locked: false }
    }

    /// One turn of the spin loop.
    fn try_lock(&mut self, mgr: &mut DeadlockDetectorManager, st: &mut ProcessDeadlockState, tid: usize) -> (step: LockStep)
        requires
            can_acquire(old(st).detector(ResourceType::Mutex), tid as int, old(self).rid as int),
        ensures
            final(mgr).res_type == ResourceType::Mutex,
            only_detector_changed(*old(st), *final(st), ResourceType::Mutex),
            final(self).rid == old(self).rid,
            spin_turn(old(st).detector(ResourceType::Mutex), final(st).detector(ResourceType::Mutex), tid as int,
                old(self).rid as int, old(st).enable_deadlock_detect, old(self).locked, final(self).locked, step),
            step == LockStep::Suspend ==> can_acquire(final(st).detector(ResourceType::Mutex), tid as int, old(self).rid as int),
            step != LockStep::Block,
    {
        mgr.set_res_type(ResourceType::Mutex);
        if self.locked {
            return LockStep::Suspend;
        }
        let ok = lock_unless_deadlock(mgr, st, tid, self.rid);
        if ok {
            self.locked = true;
        }
        LockStep::Done(ok)
    }
}

impl Mutex for MutexSpin {
    open spec fn rid_spec(&self) -> usize {
        self.rid
    }

    open spec fn may_unlock(&self) -> bool {
        true
    }

    open spec fn lock_outcome(self, next: Self, d0: DeadlockDetectorInner, d: DeadlockDetectorInner, enabled: bool,
        tid: int, step: LockStep) -> bool {
        &&& next.rid == self.rid
        &&& {
            ||| step == LockStep::Done(false) && need_outcome(d0, d, tid, self.rid as int, enabled, false)
                && next.locked == self.locked
            ||| exists|d1: DeadlockDetectorInner| #[trigger] need_outcome(d0, d1, tid, self.rid as int, enabled, true)
                && spin_turn(d1, d, tid, self.rid as int, enabled, self.locked, next.locked, step)
        }
    }

    open spec fn resume_outcome(self, next: Self, d0: DeadlockDetectorInner, d: DeadlockDetectorInner, enabled: bool,
        tid: int, step: LockStep) -> bool {
        &&& next.rid == self.rid
        &&& spin_turn(d0, d, tid, self.rid as int, enabled, self.locked, next.locked, step)
    }

    open spec fn unlock_outcome(self, next: Self, woken: Option<usize>) -> bool {
        &&& next.rid == self.rid
        &&& woken.is_none()
        &&& !next.locked
    }

    /// Lock the spinlock mutex: refused when waiting would deadlock; else
    /// take it if free, or suspend and retry.
    fn lock(&mut self, mgr: &mut DeadlockDetectorManager, st: &mut ProcessDeadlockState, tid: usize) -> (step: LockStep)
    {
        mgr.set_res_type(ResourceType::Mutex);
        let ghost d0 = st.detector(ResourceType::Mutex);
        if !need_unless_deadlock(mgr, st, tid, self.rid) {
            return LockStep::Done(false);
        }
        let ghost d1 = st.detector(ResourceType::Mutex);
        let step = self.try_lock(mgr, st, tid);
        proof {
            assert(need_outcome(d0, d1, tid as int, self.rid as int, old(st).enable_deadlock_detect, true));
        }
        step
    }

    /// Another turn of the spin loop.
    fn resume(&mut self, mgr: &mut DeadlockDetectorManager, st: &mut ProcessDeadlockState, tid: usize) -> (step: LockStep)
    {
        self.try_lock(mgr, st, tid)
    }

    /// Unlock the spinlock mutex; no task waits in a queue for it.
    fn unlock(&mut self, mgr: &mut DeadlockDetectorManager, st: &mut ProcessDeadlockState, tid: usize) -> (woken: Option<usize>)
    {
        mgr.set_res_type(ResourceType::Mutex);
        mgr.unlock(st, tid, self.rid);
        self.locked = false;
        None
    }

    fn get_rid(&self) -> (r: usize) {
        self.rid
    }
}

/// Whether a blocking mutex is held, and the tasks waiting for it.
pub struct MutexBlockingInner {
    pub locked: bool,
    pub wait_queue: VecDeque<usize>,
}

/// Blocking Mutex struct
pub struct MutexBlocking {
    pub rid: usize,
    pub inner: MutexBlockingInner,
}

impl MutexBlocking {
    /// Create a new blocking mutex
    pub fn new(rid: usize) -> (r: Self)
        ensures
            r.rid == rid,
            !r.inner.locked,
            r.inner.wait_queue@ == Seq::<usize>::empty(),
    {
        MutexBlocking { rid, inner: MutexBlockingInner { locked: false, wait_queue: VecDeque::new() } }
    }
}

impl Mutex for MutexBlocking {
    open spec fn rid_spec(&self) -> usize {
        self.rid
    }

    open spec fn may_unlock(&self) -> bool {
        self.inner.locked
    }

    open spec fn lock_outcome(self, next: Self, d0: DeadlockDetectorInner, d: DeadlockDetectorInner, enabled: bool,
        tid: int, step: LockStep) -> bool {
        let rid = self.rid as int;
        let q = self.inner.wait_queue@;
        &&& next.rid == self.rid
        &&& {
            ||| step == LockStep::Done(false) && need_outcome(d0, d, tid, rid, enabled, false)
                && next.inner.locked == self.inner.locked && next.inner.wait_queue@ == q
            ||| exists|d1: DeadlockDetectorInner| {
                &&& #[trigger] need_outcome(d0, d1, tid, rid, enabled, true)
                &&& self.inner.locked ==> step == LockStep::Block && d == d1 && next.inner.locked
                    && next.inner.wait_queue@ == q.push(tid as usize)
                &&& !self.inner.locked ==> next.inner.wait_queue@ == q && exists|ok: bool|
                    step == LockStep::Done(ok) && #[trigger] acquire_outcome(d1, d, tid, rid, enabled, ok)
                    && next.inner.locked == ok
            }
        }
    }

    open spec fn resume_outcome(self, next: Self, d0: DeadlockDetectorInner, d: DeadlockDetectorInner, enabled: bool,
        tid: int, step: LockStep) -> bool {
        &&& next.rid == self.rid
        &&& next.inner.wait_queue@ == self.inner.wait_queue@
        &&& exists|ok: bool| {
            &&& step == LockStep::Done(ok)
            &&& #[trigger] acquire_outcome(d0, d, tid, self.rid as int, enabled, ok)
            &&& next.inner.locked == (ok && self.inner.locked)
        }
    }

    open spec fn unlock_outcome(self, next: Self, woken: Option<usize>) -> bool {
        &&& next.rid == self.rid
        &&& (woken, next.inner.wait_queue@) == pop_front_of(self.inner.wait_queue@)
        &&& next.inner.locked == woken.is_some()
    }

    /// lock the blocking mutex: refused when waiting would deadlock; else
    /// take it if free, or queue the task to block until it is handed over.
    fn lock(&mut self, mgr: &mut DeadlockDetectorManager, st: &mut ProcessDeadlockState, tid: usize) -> (step: LockStep)
    {
        mgr.set_res_type(ResourceType::Mutex);
        let ghost d0 = st.detector(ResourceType::Mutex);
        if !need_unless_deadlock(mgr, st, tid, self.rid) {
            return LockStep::Done(false);
        }
        let ghost d1 = st.detector(ResourceType::Mutex);
        proof {
            assert(need_outcome(d0, d1, tid as int, self.rid as int, old(st).enable_deadlock_detect, true));
        }
        if self.inner.locked {
            self.inner.wait_queue.push_back(tid);
            return LockStep::Block;
        }
        mgr.set_res_type(ResourceType::Mutex);
        let ok = lock_unless_deadlock(mgr, st, tid, self.rid);
        if ok {
            self.inner.locked = true;
        }
        LockStep::Done(ok)
    }

    /// Once woken with the mutex handed over: take the unit, and release the
    /// mutex with `false` if that makes a deadlock.
    fn resume(&mut self, mgr: &mut DeadlockDetectorManager, st: &mut ProcessDeadlockState, tid: usize) -> (step: LockStep)
    {
        mgr.set_res_type(ResourceType::Mutex);
        let ok = lock_unless_deadlock(mgr, st, tid, self.rid);
        if !ok {
            self.inner.locked = false;
        }
        LockStep::Done(ok)
    }

    /// unlock the blocking mutex: hand it to the first waiting task, which
    /// is returned to be woken, or mark it free.
    fn unlock(&mut self, mgr: &mut DeadlockDetectorManager, st: &mut ProcessDeadlockState, tid: usize) -> (woken: Option<usize>)
    {
        mgr.set_res_type(ResourceType::Mutex);
        mgr.unlock(st, tid, self.rid);
        let woken = self.inner.wait_queue.pop_front();
        match woken {
            Some(t) => {
                assert(self.inner.wait_queue@ =~= old(self).inner.wait_queue@.drop_first());
                Some(t)
            },
            None => {
                self.inner.locked = false;
                None
            },
        }
    }

    fn get_rid(&self) -> (r: usize) {
        self.rid
    }
}

/// A blocking lock that finds the mutex taken queues the task at the back:
/// waiters are served in the order they came.
pub proof fn lemma_blocking_lock_queues_at_back(m0: MutexBlocking, m1: MutexBlocking, d0: DeadlockDetectorInner,
    d: DeadlockDetectorInner, en: bool, tid: int)
    requires
        m0.lock_outcome(m1, d0, d, en, tid, LockStep::Block),
    ensures
        m0.inner.locked,
        m1.inner.locked,
        m1.inner.wait_queue@.len() == m0.inner.wait_queue@.len() + 1,
        m1.inner.wait_queue@.last() == tid as usize,
        forall|i: int| 0 <= i < m0.inner.wait_queue@.len() ==> m1.inner.wait_queue@[i] == m0.inner.wait_queue@[i],
{
}

/// A blocking lock on a free mutex either takes it at once, with the queue
/// unchanged, or is refused and leaves the mutex free; it never blocks.
pub proof fn lemma_blocking_lock_on_free_mutex(m0: MutexBlocking, m1: MutexBlocking, d0: DeadlockDetectorInner,
    d: DeadlockDetectorInner, en: bool, tid: int, step: LockStep)
    requires
        !m0.inner.locked,
        m0.lock_outcome(m1, d0, d, en, tid, step),
    ensures
        step != LockStep::Block && step != LockStep::Suspend,
        m1.inner.wait_queue@ == m0.inner.wait_queue@,
        step == LockStep::Done(true) ==> m1.inner.locked,
        step == LockStep::Done(false) ==> !m1.inner.locked,
{
}

/// Unlocking a blocking mutex hands it to the task at the front of the
/// queue, the one that has waited longest, and leaves the rest in order;
/// with nobody waiting the mutex becomes free.
pub proof fn lemma_blocking_unlock_wakes_front(m0: MutexBlocking, m1: MutexBlocking, woken: Option<usize>)
    requires
        m0.unlock_outcome(m1, woken),
    ensures
        m0.inner.wait_queue@.len() > 0 ==> woken == Some(m0.inner.wait_queue@[0]) && m1.inner.locked
            && m1.inner.wait_queue@.len() == m0.inner.wait_queue@.len() - 1
            && forall|i: int| 0 <= i < m1.inner.wait_queue@.len() ==> m1.inner.wait_queue@[i] == m0.inner.wait_queue@[i + 1],
        m0.inner.wait_queue@.len() == 0 ==> woken.is_none() && !m1.inner.locked && m1.inner.wait_queue@.len() == 0,
{
}

/// A spin lock taken at once and then released by the same task leaves the
/// mutex free, and the detector as it was when the task already had its
/// rows in it.
pub proof fn lemma_spin_unlock_undoes_lock(m0: MutexSpin, m1: MutexSpin, m2: MutexSpin, d0: DeadlockDetectorInner,
    d1: DeadlockDetectorInner, d2: DeadlockDetectorInner, en: bool, tid: int, woken: Option<usize>)
    requires
        can_request(d0, tid, m0.rid as int),
        tid < d0.task_count(),
        m0.lock_outcome(m1, d0, d1, en, tid, LockStep::Done(true)),
        unlocked(d1, d2, tid, m1.rid as int),
        m1.unlock_outcome(m2, woken),
    ensures
        m2.rid == m0.rid,
        !m2.locked,
        woken.is_none(),
        d2.available@ == d0.available@,
        d2.alloc_rows() == d0.alloc_rows(),
        d2.need_rows() == d0.need_rows(),
{
    let rid = m0.rid as int;
    let dm = choose|dm: DeadlockDetectorInner| #[trigger] need_outcome(d0, dm, tid, rid, en, true)
        && spin_turn(dm, d1, tid, rid, en, m0.locked, m1.locked, LockStep::Done(true));
    assert(acquire_outcome(dm, d1, tid, rid, en, true));
    lemma_release_undoes_request(d0, dm, d1, d2, tid, rid);
}

/// A blocking mutex taken at once and then released by the same task leaves
/// the detector as it was when the task already had its rows in it; the
/// mutex goes to the first task that queued meanwhile, or is free again.
pub proof fn lemma_blocking_unlock_undoes_lock(m0: MutexBlocking, m1: MutexBlocking, m2: MutexBlocking,
    d0: DeadlockDetectorInner, d1: DeadlockDetectorInner, d2: DeadlockDetectorInner, en: bool, tid: int,
    woken: Option<usize>)
    requires
        can_request(d0, tid, m0.rid as int),
        tid < d0.task_count(),
        m0.lock_outcome(m1, d0, d1, en, tid, LockStep::Done(true)),
        unlocked(d1, d2, tid, m1.rid as int),
        m1.unlock_outcome(m2, woken),
    ensures
        m2.rid == m0.rid,
        (woken, m2.inner.wait_queue@) == pop_front_of(m0.inner.wait_queue@),
        m0.inner.wait_queue@.len() == 0 ==> !m2.inner.locked && woken.is_none(),
        d2.available@ == d0.available@,
        d2.alloc_rows() == d0.alloc_rows(),
        d2.need_rows() == d0.need_rows(),
{
    let rid = m0.rid as int;
    assert(!m0.inner.locked);
    let dm = choose|dm: DeadlockDetectorInner| #[trigger] need_outcome(d0, dm, tid, rid, en, true)
        && m1.inner.wait_queue@ == m0.inner.wait_queue@ && acquire_outcome(dm, d1, tid, rid, en, true);
    lemma_release_undoes_request(d0, dm, d1, d2, tid, rid);
}

} // verus!
