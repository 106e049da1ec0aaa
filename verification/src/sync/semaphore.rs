//! Semaphore, with deadlock detection on every wait.
//!
//! Waiting may block the running task. The semaphore's decisions are made
//! here; blocking, waking and switching tasks are left to the caller, which
//! hands the running task's id in and acts on what comes back.
use std::collections::VecDeque;
use vstd::prelude::*;
use crate::sync::deadlock::{DeadlockDetectorInner, DeadlockDetectorManager, ProcessDeadlockState,
    ResourceType, only_detector_changed, need_outcome, acquire_outcome, can_request, can_acquire,
    can_unlock, unlocked, need_unless_deadlock, lock_unless_deadlock,
    lemma_release_undoes_request};

verus! {

/// The waiting task woken from the front of `q`, and the queue left.
pub open spec fn pop_front_of(q: Seq<usize>) -> (Option<usize>, Seq<usize>) {
    if q.len() > 0 {
        (Some(q[0]), q.drop_first())
    } else {
        (None, q)
    }
}

/// The count and the queue of waiting tasks.
pub struct SemaphoreInner {
    pub count: isize,
    pub wait_queue: VecDeque<usize>,
}

/// semaphore structure
pub struct Semaphore {
    /// resource id of the semaphore
    pub rid: usize,
    /// semaphore inner
    pub inner: SemaphoreInner,
}

/// Where a wait on a semaphore stands.
#[derive(PartialEq, Eq, Structural, Clone, Copy, Debug)]
pub enum DownStep {
    /// The wait is over: `true` when the task holds a unit, `false` when it
    /// was refused to avoid a deadlock.
    Done(bool),
    /// The task is queued and must block; once woken, finish with
    /// `Semaphore::finish_down`.
    Block,
}

/// What taking a unit leaves of the semaphore (`c` before, `c2` after) and
/// of the detector: the unit stays only when no deadlock shows.
pub open spec fn acquired(d: DeadlockDetectorInner, e: DeadlockDetectorInner, tid: int, rid: int, enabled: bool,
    c: isize, c2: isize, ok: bool) -> bool {
    &&& acquire_outcome(d, e, tid, rid, enabled, ok)
    &&& c2 == if ok { c as int } else { c + 1 }
}

/// What a wait by `tid` leads to, from detector `d0`, count `c` and queue
/// `q` to detector `d`, count `c2` and queue `q2`: refused with nothing
/// changed but the detector's rows when the wish would deadlock; otherwise
/// the wish is kept, and the task either queues and blocks (no unit free) or
/// takes a unit at once.
pub open spec fn waited(d0: DeadlockDetectorInner, d: DeadlockDetectorInner, tid: int, rid: int, en: bool, c: isize,
    q: Seq<usize>, step: DownStep, c2: isize, q2: Seq<usize>) -> bool {
    ||| step == DownStep::Done(false) && need_outcome(d0, d, tid, rid, en, false) && c2 == c && q2 == q
    ||| exists|d1: DeadlockDetectorInner| {
        &&& #[trigger] need_outcome(d0, d1, tid, rid, en, true)
        &&& c - 1 < 0 ==> step == DownStep::Block && d == d1 && c2 == c - 1 && q2 == q.push(tid as usize)
        &&& c - 1 >= 0 ==> q2 == q && (exists|ok: bool| step == DownStep::Done(ok)
            && acquired(d1, d, tid, rid, en, (c - 1) as isize, c2, ok))
    }
}

/// What a signal by `tid` leads to: the unit is given back, the count
/// rises by one, and while tasks still wait the one at the front is woken.
pub open spec fn signalled(d: DeadlockDetectorInner, e: DeadlockDetectorInner, tid: int, rid: int, c: isize,
    q: Seq<usize>, woken: Option<usize>, c2: isize, q2: Seq<usize>) -> bool {
    &&& unlocked(d, e, tid, rid)
    &&& c2 == c + 1
    &&& c2 <= 0 ==> (woken, q2) == pop_front_of(q)
    &&& c2 > 0 ==> woken.is_none() && q2 == q
}

/// A wait that finds no unit free queues the task at the back, with the
/// count one lower; a signal that leaves the count at zero or below wakes
/// the task at the front, the one that has waited longest, and keeps the
/// rest in order.
pub proof fn lemma_semaphore_queue_is_fifo(d0: DeadlockDetectorInner, d1: DeadlockDetectorInner, d2: DeadlockDetectorInner,
    tid: int, rid: int, en: bool, c: isize, q: Seq<usize>, step: DownStep, c1: isize, q1: Seq<usize>,
    woken: Option<usize>, c2: isize, q2: Seq<usize>)
    ensures
        waited(d0, d1, tid, rid, en, c, q, step, c1, q1) && step == DownStep::Block ==> c1 == c - 1 && c1 < 0
            && q1.len() == q.len() + 1 && q1.last() == tid as usize && forall|i: int| 0 <= i < q.len() ==> q1[i] == q[i],
        waited(d0, d1, tid, rid, en, c, q, step, c1, q1) && step == DownStep::Done(true) ==> c >= 1 && c1 == c - 1
            && q1 == q,
        waited(d0, d1, tid, rid, en, c, q, step, c1, q1) && step == DownStep::Done(false) ==> c1 == c && q1 == q,
        signalled(d0, d2, tid, rid, c, q, woken, c2, q2) ==> c2 == c + 1,
        signalled(d0, d2, tid, rid, c, q, woken, c2, q2) && c2 <= 0 && q.len() > 0 ==> woken == Some(q[0])
            && q2.len() == q.len() - 1 && forall|i: int| 0 <= i < q2.len() ==> q2[i] == q[i + 1],
        signalled(d0, d2, tid, rid, c, q, woken, c2, q2) && c2 > 0 ==> woken.is_none() && q2 == q,
{
}

/// A wait that took a unit at once, then a signal by the same task, leave
/// the count and the queue as they were, and the detector too when the task
/// already had its rows in it.
pub proof fn lemma_up_undoes_down(d0: DeadlockDetectorInner, d1: DeadlockDetectorInner, d2: DeadlockDetectorInner,
    tid: int, rid: int, en: bool, c: isize, q: Seq<usize>, c1: isize, q1: Seq<usize>, woken: Option<usize>,
    c2: isize, q2: Seq<usize>)
    requires
        can_request(d0, tid, rid),
        tid < d0.task_count(),
        waited(d0, d1, tid, rid, en, c, q, DownStep::Done(true), c1, q1),
        signalled(d1, d2, tid, rid, c1, q1, woken, c2, q2),
    ensures
        c2 == c,
        q2 == q,
        woken.is_none(),
        d2.available@ == d0.available@,
        d2.alloc_rows() == d0.alloc_rows(),
        d2.need_rows() == d0.need_rows(),
{
    assert(c - 1 >= 0);
    let dm = choose|dm: DeadlockDetectorInner| #[trigger] need_outcome(d0, dm, tid, rid, en, true)
        && acquired(dm, d1, tid, rid, en, (c - 1) as isize, c1, true);
    lemma_release_undoes_request(d0, dm, d1, d2, tid, rid);
}

impl Semaphore {
    /// Create a new semaphore with `res_count` units.
    pub fn new(rid: usize, res_count: usize) -> (r: Self)
        ensures
            r.rid == rid,
            r.inner.count == res_count as isize,
            r.inner.wait_queue@ == Seq::<usize>::empty(),
    {
        Semaphore {
            rid,
            inner: SemaphoreInner {
                count: #[verifier::truncate] (res_count as isize),
                wait_queue: VecDeque::new(),
            },
        }
    }

    /// get resource id of the semaphore
    pub fn get_rid(&self) -> (r: usize)
        ensures
            r == self.rid,
    {
        self.rid
    }

    /// up operation of semaphore, by the running task `tid`: gives back a
    /// unit and returns the waiting task to wake, if one is owed it.
    pub fn up(&mut self, mgr: &mut DeadlockDetectorManager, st: &mut ProcessDeadlockState, tid: usize) -> (woken: Option<usize>)
        requires
            can_unlock(old(st).detector(ResourceType::Semaphore), tid as int, old(self).rid as int),
            old(self).inner.count < isize::MAX,
        ensures
            final(mgr).res_type == ResourceType::Semaphore,
            only_detector_changed(*old(st), *final(st), ResourceType::Semaphore),
            final(self).rid == old(self).rid,
            signalled(old(st).detector(ResourceType::Semaphore), final(st).detector(ResourceType::Semaphore), tid as int,
                old(self).rid as int, old(self).inner.count, old(self).inner.wait_queue@, woken, final(self).inner.count,
                final(self).inner.wait_queue@),
    {
        mgr.set_res_type(ResourceType::Semaphore);
        mgr.unlock(st, tid, self.rid);
        self.inner.count = self.inner.count + 1;
        if self.inner.count <= 0 {
            let woken = self.inner.wait_queue.pop_front();
            proof {
                if woken.is_some() {
                    assert(self.inner.wait_queue@ =~= old(self).inner.wait_queue@.drop_first());
                }
            }
            woken
        } else {
            None
        }
    }

    /// down operation of semaphore, by the running task `tid`. Refused when
    /// waiting would deadlock; otherwise takes a unit, after queueing and
    /// blocking the task when none is free.
    pub fn down(&mut self, mgr: &mut DeadlockDetectorManager, st: &mut ProcessDeadlockState, tid: usize) -> (step: DownStep)
        requires
            can_request(old(st).detector(ResourceType::Semaphore), tid as int, old(self).rid as int),
            old(self).inner.count > isize::MIN,
        ensures
            final(mgr).res_type == ResourceType::Semaphore,
            only_detector_changed(*old(st), *final(st), ResourceType::Semaphore),
            final(self).rid == old(self).rid,
            step == DownStep::Block ==> can_acquire(final(st).detector(ResourceType::Semaphore), tid as int,
                old(self).rid as int) && final(self).inner.count < isize::MAX,
            waited(old(st).detector(ResourceType::Semaphore), final(st).detector(ResourceType::Semaphore), tid as int,
                old(self).rid as int, old(st).enable_deadlock_detect, old(self).inner.count, old(self).inner.wait_queue@, step,
                final(self).inner.count, final(self).inner.wait_queue@),
    {
        mgr.set_res_type(ResourceType::Semaphore);
        let ghost d0 = st.detector(ResourceType::Semaphore);
        if !need_unless_deadlock(mgr, st, tid, self.rid) {
            return DownStep::Done(false);
        }
        let ghost d1 = st.detector(ResourceType::Semaphore);
        self.inner.count = self.inner.count - 1;
        if self.inner.count < 0 {
            self.inner.wait_queue.push_back(tid);
            proof {
                assert(need_outcome(d0, d1, tid as int, self.rid as int, old(st).enable_deadlock_detect, true));
            }
            return DownStep::Block;
        }
        let ok = self.finish_down(mgr, st, tid);
        proof {
            assert(need_outcome(d0, d1, tid as int, self.rid as int, old(st).enable_deadlock_detect, true));
        }
        DownStep::Done(ok)
    }

    /// The second half of a wait, once a unit is free for the running task
    /// `tid` (at once, or after being woken): takes it, and gives it back
    /// with `false` if that makes a deadlock.
    pub fn finish_down(&mut self, mgr: &mut DeadlockDetectorManager, st: &mut ProcessDeadlockState, tid: usize) -> (ok: bool)
        requires
            can_acquire(old(st).detector(ResourceType::Semaphore), tid as int, old(self).rid as int),
            old(self).inner.count < isize::MAX,
        ensures
            final(mgr).res_type == ResourceType::Semaphore,
            only_detector_changed(*old(st), *final(st), ResourceType::Semaphore),
            final(self).rid == old(self).rid,
            final(self).inner.wait_queue@ == old(self).inner.wait_queue@,
            acquired(old(st).detector(ResourceType::Semaphore), final(st).detector(ResourceType::Semaphore), tid as int,
                old(self).rid as int, old(st).enable_deadlock_detect, old(self).inner.count, final(self).inner.count, ok),
    {
        mgr.set_res_type(ResourceType::Semaphore);
        let ok = lock_unless_deadlock(mgr, st, tid, self.rid);
        if !ok {
            self.inner.count = self.inner.count + 1;
        }
        ok
    }
}

} // verus!
