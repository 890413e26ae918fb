//! The pool: owner of the worker set and of the queue's sending endpoint.
//!
//! The pool is a state machine over plain values. Jobs carry no identity
//! beyond their position in the queue, so a job is modelled by its submission
//! index; the shared channel is modelled by the FIFO `pending` queue together
//! with the optional sending endpoint; and the observable effect of running a
//! job is modelled by appending its index to the completion log `executed`.
//! Each method below is one atomic step of the machine: a submission, one
//! worker's turn at the shared queue, the completion of a job, or one step of
//! teardown. The well-formedness predicate `wf` is the pool's invariant; it
//! pins down the exactly-once discipline and every method preserves it.

use vstd::prelude::*;

use crate::worker::Worker;
use crate::worker::WorkerState;
use crate::worker::ThreadHandle;
use crate::worker::count_running;
use crate::worker::lemma_count_running_push;
use crate::worker::lemma_count_running_update;
use crate::worker::lemma_count_running_zero;
use crate::worker::lemma_running_update;
use crate::worker::running_in;

verus! {

/// The sending endpoint of the pool's queue. It exists from construction
/// until teardown relinquishes it; submission is possible exactly while the
/// pool still holds it.
pub struct Sender {}

/// The error surfaced when a job is submitted after teardown has begun:
/// the work is refused, never silently dropped.
#[derive(Clone, Copy, PartialEq, Eq, Structural, Debug)]
pub struct PoolClosed {}

/// What one worker's turn at the shared queue comes back with.
#[derive(Clone, Copy, PartialEq, Eq, Structural, Debug)]
pub enum RecvOutcome {
    /// The queue held a job; the worker took it and is now running it.
    Job(u64),
    /// The queue is empty but still open: the worker keeps waiting.
    Blocked,
    /// The queue is closed and drained: the worker's loop exits.
    Disconnected,
}

/// How many times job `j` occurs in the log `log`.
pub open spec fn count_in(log: Seq<u64>, j: u64) -> nat
    decreases log.len(),
{
    if log.len() == 0 {
        0
    } else {
        count_in(log.drop_last(), j) + if log.last() == j {
            1nat
        } else {
            0nat
        }
    }
}

pub proof fn lemma_count_in_push(log: Seq<u64>, x: u64, j: u64)
    ensures
        count_in(log.push(x), j) == count_in(log, j) + if x == j {
            1nat
        } else {
            0nat
        },
{
    assert(log.push(x).drop_last() =~= log);
}

/// A fixed-size worker pool: the workers (order = ascending id), the sending
/// endpoint of the shared queue, the queue of pending job indices, the count
/// of jobs submitted so far, and the completion log.
pub struct ThreadPool {
    pub workers: Vec<Worker>,
    pub sender: Option<Sender>,
    pub pending: Vec<u64>,
    pub next_job: u64,
    pub executed: Vec<u64>,
}

impl ThreadPool {
    /// The fixed number of workers.
    pub open spec fn size(self) -> int {
        self.workers@.len() as int
    }

    /// How many jobs have been submitted so far. Job indices are
    /// `0 .. submitted()`, in submission order.
    pub open spec fn submitted(self) -> int {
        self.next_job as int
    }

    /// How many jobs have been taken off the queue so far. The queue is FIFO,
    /// so these are exactly the indices `0 .. dequeued()`.
    pub open spec fn dequeued(self) -> int {
        self.next_job - self.pending@.len()
    }

    /// Whether the sending endpoint still exists, i.e. teardown has not begun.
    pub open spec fn channel_open(self) -> bool {
        self.sender is Some
    }

    /// How many times job `j` has been executed to completion.
    pub open spec fn exec_count(self, j: u64) -> nat {
        count_in(self.executed@, j)
    }

    /// Whether some worker is currently running job `j`.
    pub open spec fn running(self, j: u64) -> bool {
        running_in(self.workers@, j)
    }

    /// How many places job `j` currently occupies: completed executions plus
    /// one if it is running right now. The invariant keeps this at exactly 1
    /// for every dequeued job — dequeued jobs are never lost and never run
    /// twice — and at 0 for every other job.
    pub open spec fn occurrences(self, j: u64) -> nat {
        self.exec_count(j) + if self.running(j) {
            1nat
        } else {
            0nat
        }
    }

    /// The pool's invariant. Established by construction and preserved by
    /// every step.
    pub open spec fn wf(self) -> bool {
        // The worker set is non-empty and never resized; ids are the slots.
        &&& self.workers@.len() > 0
        &&& forall|i: int|
            0 <= i < self.workers@.len() ==> (#[trigger] self.workers@[i]).id == i
        // A missing join handle means the worker has already terminated and
        // been joined.
        &&& forall|i: int|
            0 <= i < self.workers@.len() ==> ((#[trigger] self.workers@[i]).thread is None
                ==> self.workers@[i].state is Terminated)
        // A worker terminates only once the queue is closed and drained.
        &&& forall|i: int|
            0 <= i < self.workers@.len() ==> ((#[trigger] self.workers@[i]).state is Terminated
                ==> !self.channel_open() && self.pending@.len() == 0)
        // No two workers run the same job at the same time.
        &&& forall|i1: int, i2: int|
            #![trigger self.workers@[i1], self.workers@[i2]]
            0 <= i1 < self.workers@.len() && 0 <= i2 < self.workers@.len()
                && self.workers@[i1].state is Running && self.workers@[i1].state
                == self.workers@[i2].state ==> i1 == i2
        // The queue holds exactly the submitted-but-not-yet-dequeued indices,
        // in FIFO order.
        &&& self.pending@.len() <= self.next_job
        &&& forall|k: int|
            0 <= k < self.pending@.len() ==> (#[trigger] self.pending@[k]) as int == self.dequeued()
                + k
        // Every dequeued job occupies exactly one place (running or logged);
        // no other job occupies any.
        &&& forall|j: u64| (j as int) < self.dequeued() ==> #[trigger] self.occurrences(j) == 1
        &&& forall|j: u64| (j as int) >= self.dequeued() ==> #[trigger] self.occurrences(j) == 0
        // Job accounting: completions plus jobs in flight equal dequeues.
        &&& self.executed@.len() + count_running(self.workers@) == self.dequeued()
    }

    /// Teardown has fully happened: the queue is closed and drained, every
    /// worker has exited, and every join handle has been taken.
    pub open spec fn torn_down(self) -> bool {
        &&& !self.channel_open()
        &&& self.pending@.len() == 0
        &&& forall|i: int|
            0 <= i < self.workers@.len() ==> (#[trigger] self.workers@[i]).state is Terminated
        &&& forall|i: int|
            0 <= i < self.workers@.len() ==> (#[trigger] self.workers@[i]).thread is None
    }

    /// Create a new pool with `size` workers, ids `0 .. size` in order, all
    /// idle, each holding its join handle, with an open, empty queue.
    ///
    /// A pool of zero workers is a programming error, not a runtime
    /// condition, so `size > 0` is demanded of the caller outright.
    pub fn new(size: usize) -> (pool: ThreadPool)
        requires
            size > 0,
        ensures
            pool.wf(),
            pool.size() == size,
            pool.channel_open(),
            pool.submitted() == 0,
            pool.pending@.len() == 0,
            pool.executed@.len() == 0,
            forall|i: int|
                0 <= i < size ==> (#[trigger] pool.workers@[i]).state is Idle
                    && pool.workers@[i].thread is Some,
    {
        let mut workers: Vec<Worker> = Vec::new();
        let mut id: usize = 0;
        while id < size
            invariant
                id <= size,
                workers@.len() == id,
                forall|i: int|
                    0 <= i < id ==> (#[trigger] workers@[i]).id == i && workers@[i].state is Idle
                        && workers@[i].thread is Some,
                count_running(workers@) == 0,
            decreases size - id,
        {
            let w = Worker { id, state: WorkerState::Idle, thread: Some(ThreadHandle {}) };
            proof {
                lemma_count_running_push(workers@, w);
            }
            workers.push(w);
            id = id + 1;
        }
        let pool = ThreadPool {
            workers,
            sender: Some(Sender {}),
            pending: Vec::new(),
            next_job: 0,
            executed: Vec::new(),
        };
        proof {
            assert forall|j: u64| !pool.running(j) by {
                if running_in(pool.workers@, j) {
                    let i = choose|i: int|
                        0 <= i < pool.workers@.len() && (#[trigger] pool.workers@[i]).state
                            == WorkerState::Running(j);
                    assert(pool.workers@[i].state is Idle);
                }
            }
            assert forall|j: u64| #[trigger] pool.occurrences(j) == 0 by {
                assert(count_in(pool.executed@, j) == 0);
                assert(!pool.running(j));
            }
        }
        pool
    }

    /// Submit one job. While the pool holds the sending endpoint the job is
    /// enqueued at the back of the queue under the next submission index,
    /// which is returned; the call never waits for the job to start or
    /// finish. Once teardown has begun the submission is refused.
    pub fn execute(&mut self) -> (r: Result<u64, PoolClosed>)
        requires
            old(self).wf(),
            old(self).submitted() < u64::MAX,
        ensures
            final(self).wf(),
            final(self).workers == old(self).workers,
            final(self).executed == old(self).executed,
            final(self).sender == old(self).sender,
            old(self).channel_open() ==> {
                &&& r == Result::<u64, PoolClosed>::Ok(old(self).next_job)
                &&& final(self).pending@ == old(self).pending@.push(old(self).next_job)
                &&& final(self).submitted() == old(self).submitted() + 1
            },
            !old(self).channel_open() ==> r is Err && *final(self) == *old(self),
    {
        if self.sender.is_some() {
            let j = self.next_job;
            self.pending.push(j);
            self.next_job = self.next_job + 1;
            proof {
                let prev = *old(self);
                assert forall|k: int|
                    0 <= k < self.pending@.len() implies (#[trigger] self.pending@[k]) as int
                    == self.dequeued() + k by {
                    if k < prev.pending@.len() {
                        assert(self.pending@[k] == prev.pending@[k]);
                    } else {
                        assert(self.pending@[k] == prev.next_job);
                    }
                }
                assert forall|i: int|
                    0 <= i < self.workers@.len() implies !((#[trigger] self.workers@[i]).state
                    is Terminated) by {
                    assert(prev.workers@[i].state is Terminated ==> !prev.channel_open());
                }
                assert forall|j2: u64| #[trigger] self.occurrences(j2) == prev.occurrences(j2) by {
                    assert(self.executed@ == prev.executed@);
                    assert(self.running(j2) == prev.running(j2));
                }
            }
            Ok(j)
        } else {
            Err(PoolClosed {})
        }
    }

    /// One worker's turn at the shared queue: the single step that the
    /// queue's lock serializes. If a job is pending, the idle worker at slot
    /// `wid` takes the front of the queue — the oldest submission — and moves
    /// to `Running`; the FIFO discipline means the job taken is exactly the
    /// `dequeued()`-th submission. If the queue is empty and closed, the
    /// worker's loop exits and it terminates. If the queue is empty but still
    /// open, the worker stays put, blocked until work arrives. No other
    /// worker is touched, so jobs already running elsewhere keep running.
    pub fn worker_step(&mut self, wid: usize) -> (outcome: RecvOutcome)
        requires
            old(self).wf(),
            wid < old(self).size(),
            old(self).workers@[wid as int].state is Idle,
        ensures
            final(self).wf(),
            final(self).size() == old(self).size(),
            final(self).submitted() == old(self).submitted(),
            final(self).sender == old(self).sender,
            final(self).executed == old(self).executed,
            forall|i: int|
                0 <= i < old(self).size() && i != wid ==> final(self).workers@[i] == old(self).workers@[i],
            final(self).workers@[wid as int].id == wid,
            final(self).workers@[wid as int].thread == old(self).workers@[wid as int].thread,
            old(self).pending@.len() > 0 ==> {
                &&& outcome == RecvOutcome::Job(old(self).pending@[0])
                &&& old(self).pending@[0] as int == old(self).dequeued()
                &&& final(self).workers@[wid as int].state == WorkerState::Running(
                    old(self).pending@[0],
                )
                &&& final(self).pending@ == old(self).pending@.drop_first()
            },
            old(self).pending@.len() == 0 && !old(self).channel_open() ==> {
                &&& outcome == RecvOutcome::Disconnected
                &&& final(self).workers@[wid as int].state is Terminated
                &&& final(self).pending == old(self).pending
            },
            old(self).pending@.len() == 0 && old(self).channel_open() ==> outcome
                == RecvOutcome::Blocked && *final(self) == *old(self),
    {
        let prev_w = self.workers[wid];
        if self.pending.len() > 0 {
            let j = self.pending.remove(0);
            let w = Worker { id: wid, state: WorkerState::Running(j), thread: prev_w.thread };
            self.workers[wid] = w;
            proof {
                self.lemma_step_wf_dequeue(*old(self), wid, j, w);
            }
            RecvOutcome::Job(j)
        } else if self.sender.is_none() {
            let w = Worker { id: wid, state: WorkerState::Terminated, thread: prev_w.thread };
            self.workers[wid] = w;
            proof {
                self.lemma_step_wf_terminate(*old(self), wid, w);
            }
            RecvOutcome::Disconnected
        } else {
            RecvOutcome::Blocked
        }
    }

    /// The part of `worker_step`'s proof for the dequeue outcome.
    proof fn lemma_step_wf_dequeue(self, prev: ThreadPool, wid: usize, j: u64, w: Worker)
        requires
            prev.wf(),
            wid < prev.size(),
            prev.workers@[wid as int].state is Idle,
            prev.pending@.len() > 0,
            j == prev.pending@[0],
            w == (Worker { id: wid, state: WorkerState::Running(j), thread: prev.workers@[wid as int].thread }),
            self.workers@ == prev.workers@.update(wid as int, w),
            self.pending@ == prev.pending@.drop_first(),
            self.sender == prev.sender,
            self.next_job == prev.next_job,
            self.executed == prev.executed,
        ensures
            self.wf(),
    {
        let wi = wid as int;
        lemma_running_update(prev.workers@, wi, w);
        lemma_count_running_update(prev.workers@, wi, w);
        assert(j as int == prev.dequeued());
        assert(self.dequeued() == prev.dequeued() + 1);
        // FIFO: the queue still holds consecutive indices.
        assert forall|k: int|
            0 <= k < self.pending@.len() implies (#[trigger] self.pending@[k]) as int
            == self.dequeued() + k by {
            assert(self.pending@[k] == prev.pending@[k + 1]);
        }
        // Job j was nowhere before the step, and other jobs are untouched.
        assert(prev.occurrences(j) == 0);
        assert(!prev.running(j));
        assert(count_in(prev.executed@, j) == 0);
        assert forall|j2: u64| j2 != j implies self.running(j2) == prev.running(j2) by {
            assert(running_in(self.workers@, j2) <==> (w.state == WorkerState::Running(j2)
                || exists|k: int|
                0 <= k < prev.workers@.len() && k != wi && (#[trigger] prev.workers@[k]).state
                    == WorkerState::Running(j2)));
            if prev.running(j2) {
                let k = choose|k: int|
                    0 <= k < prev.workers@.len() && (#[trigger] prev.workers@[k]).state
                        == WorkerState::Running(j2);
                assert(k != wi);
            }
        }
        assert(self.running(j));
        assert forall|j2: u64| (j2 as int) < self.dequeued() implies #[trigger] self.occurrences(
            j2,
        ) == 1 by {
            if j2 == j {
                assert(self.occurrences(j) == 1);
            } else {
                assert(prev.occurrences(j2) == 1);
            }
        }
        assert forall|j2: u64| (j2 as int) >= self.dequeued() implies #[trigger] self.occurrences(
            j2,
        ) == 0 by {
            assert(j2 != j);
            assert(prev.occurrences(j2) == 0);
        }
        // No worker was terminated before the step: the queue was non-empty.
        assert forall|i: int|
            0 <= i < self.workers@.len() implies !((#[trigger] self.workers@[i]).state
            is Terminated) by {
            if i != wi {
                assert(prev.workers@[i].state is Terminated ==> prev.pending@.len() == 0);
            }
        }
        // Distinctness: the new runner holds a job no one else holds.
        assert forall|i1: int, i2: int|
            #![trigger self.workers@[i1], self.workers@[i2]]
            0 <= i1 < self.workers@.len() && 0 <= i2 < self.workers@.len()
                && self.workers@[i1].state is Running && self.workers@[i1].state
                == self.workers@[i2].state implies i1 == i2 by {
            if i1 != i2 {
                if i1 == wi {
                    assert(prev.workers@[i2].state == WorkerState::Running(j));
                    assert(prev.running(j));
                } else if i2 == wi {
                    assert(prev.workers@[i1].state == WorkerState::Running(j));
                    assert(prev.running(j));
                } else {
                    assert(prev.workers@[i1] == self.workers@[i1]);
                    assert(prev.workers@[i2] == self.workers@[i2]);
                }
            }
        }
    }

    /// The part of `worker_step`'s proof for the termination outcome.
    proof fn lemma_step_wf_terminate(self, prev: ThreadPool, wid: usize, w: Worker)
        requires
            prev.wf(),
            wid < prev.size(),
            prev.workers@[wid as int].state is Idle,
            prev.pending@.len() == 0,
            !prev.channel_open(),
            w == (Worker { id: wid, state: WorkerState::Terminated, thread: prev.workers@[wid as int].thread }),
            self.workers@ == prev.workers@.update(wid as int, w),
            self.pending == prev.pending,
            self.sender == prev.sender,
            self.next_job == prev.next_job,
            self.executed == prev.executed,
        ensures
            self.wf(),
    {
        let wi = wid as int;
        lemma_running_update(prev.workers@, wi, w);
        lemma_count_running_update(prev.workers@, wi, w);
        assert(self.dequeued() == prev.dequeued());
        assert forall|j2: u64| self.running(j2) == prev.running(j2) by {
            if prev.running(j2) {
                let k = choose|k: int|
                    0 <= k < prev.workers@.len() && (#[trigger] prev.workers@[k]).state
                        == WorkerState::Running(j2);
                assert(k != wi);
            }
        }
        assert forall|j2: u64| #[trigger] self.occurrences(j2) == prev.occurrences(j2) by {
            assert(self.executed@ == prev.executed@);
        }
    }

    /// Completion of the job that the worker at slot `wid` is running: the
    /// job's index is appended to the completion log — its one and only
    /// appearance there — and the worker goes back to waiting at the queue.
    /// No other worker and no queued job is touched.
    pub fn worker_finish(&mut self, wid: usize)
        requires
            old(self).wf(),
            wid < old(self).size(),
            old(self).workers@[wid as int].state is Running,
        ensures
            final(self).wf(),
            final(self).size() == old(self).size(),
            final(self).submitted() == old(self).submitted(),
            final(self).sender == old(self).sender,
            final(self).pending == old(self).pending,
            forall|i: int|
                0 <= i < old(self).size() && i != wid ==> final(self).workers@[i] == old(self).workers@[i],
            final(self).workers@[wid as int].id == wid,
            final(self).workers@[wid as int].thread == old(self).workers@[wid as int].thread,
            final(self).workers@[wid as int].state is Idle,
            old(self).workers@[wid as int].state matches WorkerState::Running(j) ==> final(self).executed@ == old(self).executed@.push(j),
    {
        let prev_w = self.workers[wid];
        let j: u64 = match prev_w.state {
            WorkerState::Running(job) => job,
            _ => unreached(),
        };
        self.executed.push(j);
        let w = Worker { id: wid, state: WorkerState::Idle, thread: prev_w.thread };
        self.workers[wid] = w;
        proof {
            let prev = *old(self);
            let wi = wid as int;
            lemma_running_update(prev.workers@, wi, w);
            lemma_count_running_update(prev.workers@, wi, w);
            assert(self.dequeued() == prev.dequeued());
            // The finished job stops being "running": no other slot held it.
            assert(prev.running(j));
            assert(prev.occurrences(j) == 1);
            assert(count_in(prev.executed@, j) == 0);
            assert(!self.running(j)) by {
                if running_in(self.workers@, j) {
                    let k = choose|k: int|
                        0 <= k < prev.workers@.len() && k != wi && (#[trigger] prev.workers@[
                            k
                        ]).state == WorkerState::Running(j);
                    assert(prev.workers@[k].state == prev.workers@[wi].state);
                }
            }
            assert forall|j2: u64| j2 != j implies self.running(j2) == prev.running(j2) by {
                if prev.running(j2) {
                    let k = choose|k: int|
                        0 <= k < prev.workers@.len() && (#[trigger] prev.workers@[k]).state
                            == WorkerState::Running(j2);
                    assert(k != wi);
                }
            }
            assert forall|j2: u64| #[trigger] self.exec_count(j2) == prev.exec_count(j2) + (if j2
                == j {
                1nat
            } else {
                0nat
            }) by {
                lemma_count_in_push(prev.executed@, j, j2);
            }
            assert forall|j2: u64| (j2 as int) < self.dequeued() implies #[trigger] self
                .occurrences(j2) == 1 by {
                assert(prev.occurrences(j2) == 1);
            }
            assert forall|j2: u64| (j2 as int) >= self.dequeued() implies #[trigger] self
                .occurrences(j2) == 0 by {
                assert(prev.occurrences(j2) == 0);
                assert(j2 != j);
            }
        }
    }

    /// The first step of teardown: relinquish the sending endpoint, closing
    /// the queue. Jobs already queued or running are untouched; once the
    /// queue drains, every worker's next turn at it observes `Disconnected`
    /// instead of blocking forever. Closing an already closed queue changes
    /// nothing.
    pub fn close_channel(&mut self)
        requires
            old(self).wf(),
        ensures
            final(self).wf(),
            !final(self).channel_open(),
            final(self).workers == old(self).workers,
            final(self).pending == old(self).pending,
            final(self).next_job == old(self).next_job,
            final(self).executed == old(self).executed,
            !old(self).channel_open() ==> *final(self) == *old(self),
    {
        self.sender = None;
        proof {
            let prev = *old(self);
            assert forall|j2: u64| #[trigger] self.occurrences(j2) == prev.occurrences(j2) by {
                assert(self.executed@ == prev.executed@);
                assert(self.running(j2) == prev.running(j2));
            }
        }
    }

    /// The second step of teardown, for one worker: take the worker's join
    /// handle — exactly once; if it was already taken this is a no-op — and
    /// block until the thread has exited. Blocking until exit is what the
    /// precondition states: a handle is only taken from a worker that has
    /// terminated.
    pub fn join_worker(&mut self, wid: usize)
        requires
            old(self).wf(),
            wid < old(self).size(),
            old(self).workers@[wid as int].thread is Some ==> old(self).workers@[wid as int].state
                is Terminated,
        ensures
            final(self).wf(),
            final(self).size() == old(self).size(),
            final(self).sender == old(self).sender,
            final(self).pending == old(self).pending,
            final(self).next_job == old(self).next_job,
            final(self).executed == old(self).executed,
            forall|i: int|
                0 <= i < old(self).size() && i != wid ==> final(self).workers@[i] == old(self).workers@[i],
            final(self).workers@[wid as int].id == wid,
            final(self).workers@[wid as int].thread is None,
            final(self).workers@[wid as int].state is Terminated,
            old(self).workers@[wid as int].thread is None ==> *final(self) == *old(self),
    {
        let prev_w = self.workers[wid];
        if prev_w.thread.is_some() {
            let w = Worker { id: wid, state: prev_w.state, thread: None };
            self.workers[wid] = w;
            proof {
                let prev = *old(self);
                let wi = wid as int;
                lemma_running_update(prev.workers@, wi, w);
                lemma_count_running_update(prev.workers@, wi, w);
                assert forall|j2: u64| self.running(j2) == prev.running(j2) by {
                    if prev.running(j2) {
                        let k = choose|k: int|
                            0 <= k < prev.workers@.len() && (#[trigger] prev.workers@[k]).state
                                == WorkerState::Running(j2);
                        assert(prev.workers@[k].state == w.state || k != wi);
                    }
                }
                assert forall|j2: u64| #[trigger] self.occurrences(j2) == prev.occurrences(
                    j2,
                ) by {
                    assert(self.executed@ == prev.executed@);
                }
            }
        }
    }

    /// Teardown, as it runs when the pool is discarded: first relinquish the
    /// sending endpoint, then — in ascending id order — let every worker
    /// drain the queue, observe the closed channel, exit, and be joined,
    /// taking each join handle exactly once. It returns only once every
    /// queued job has been executed and every worker has exited, so no job
    /// submitted before teardown is lost, and the completion log ends up
    /// holding every submitted job exactly once. Tearing down an already
    /// torn-down pool changes nothing.
    pub fn shutdown(&mut self)
        requires
            old(self).wf(),
        ensures
            final(self).wf(),
            final(self).torn_down(),
            final(self).size() == old(self).size(),
            final(self).submitted() == old(self).submitted(),
            final(self).executed@.len() == old(self).submitted(),
            old(self).executed@.is_prefix_of(final(self).executed@),
            forall|j: u64|
                (j as int) < old(self).submitted() ==> #[trigger] final(self).exec_count(j) == 1,
            forall|j: u64|
                (j as int) >= old(self).submitted() ==> #[trigger] final(self).exec_count(j) == 0,
            old(self).torn_down() ==> *final(self) == *old(self),
    {
        self.close_channel();
        let n = self.workers.len();
        // Every job already running is allowed to run to completion first.
        let mut wid: usize = 0;
        while wid < n
            invariant
                self.wf(),
                !self.channel_open(),
                n == self.size(),
                wid <= n,
                self.submitted() == old(self).submitted(),
                old(self).executed@.is_prefix_of(self.executed@),
                forall|i: int| 0 <= i < wid ==> !((#[trigger] self.workers@[i]).state is Running),
                old(self).torn_down() ==> *self == *old(self),
            decreases n - wid,
        {
            let st = self.workers[wid].state;
            if let WorkerState::Running(_) = st {
                let ghost mid = self.executed@;
                self.worker_finish(wid);
                proof {
                    lemma_prefix_push(old(self).executed@, mid, self.executed@.last());
                    assert(self.executed@ == mid.push(self.executed@.last()));
                }
            }
            wid = wid + 1;
        }
        // The queue is drained: each remaining job is taken and executed.
        while self.pending.len() > 0
            invariant
                self.wf(),
                !self.channel_open(),
                n == self.size(),
                self.submitted() == old(self).submitted(),
                old(self).executed@.is_prefix_of(self.executed@),
                forall|i: int| 0 <= i < n ==> !((#[trigger] self.workers@[i]).state is Running),
                old(self).torn_down() ==> *self == *old(self),
            decreases self.pending@.len(),
        {
            proof {
                assert(!(self.workers@[0].state is Terminated));
                assert(self.workers@[0].state is Idle);
            }
            let ghost mid = self.executed@;
            self.worker_step(0);
            self.worker_finish(0);
            proof {
                lemma_prefix_push(old(self).executed@, mid, self.executed@.last());
                assert(self.executed@ == mid.push(self.executed@.last()));
            }
        }
        // Every worker observes the closed, empty queue, exits, and is
        // joined, in ascending id order.
        let mut wid: usize = 0;
        while wid < n
            invariant
                self.wf(),
                !self.channel_open(),
                self.pending@.len() == 0,
                n == self.size(),
                wid <= n,
                self.submitted() == old(self).submitted(),
                old(self).executed@.is_prefix_of(self.executed@),
                forall|i: int| 0 <= i < n ==> !((#[trigger] self.workers@[i]).state is Running),
                forall|i: int|
                    0 <= i < wid ==> (#[trigger] self.workers@[i]).state is Terminated
                        && self.workers@[i].thread is None,
                old(self).torn_down() ==> *self == *old(self),
            decreases n - wid,
        {
            let st = self.workers[wid].state;
            if let WorkerState::Idle = st {
                self.worker_step(wid);
            }
            self.join_worker(wid);
            wid = wid + 1;
        }
        proof {
            assert forall|i: int|
                0 <= i < self.workers@.len() implies !((#[trigger] self.workers@[i]).state
                is Running) by {
                assert(self.workers@[i].state is Terminated);
            }
            lemma_count_running_zero(self.workers@);
            assert forall|j: u64| !self.running(j) by {
                if running_in(self.workers@, j) {
                    let k = choose|k: int|
                        0 <= k < self.workers@.len() && (#[trigger] self.workers@[k]).state
                            == WorkerState::Running(j);
                    assert(self.workers@[k].state is Terminated);
                }
            }
            assert forall|j: u64| (j as int) < self.submitted() implies #[trigger] self.exec_count(
                j,
            ) == 1 by {
                assert(self.occurrences(j) == 1);
            }
            assert forall|j: u64| (j as int) >= self.submitted() implies #[trigger] self
                .exec_count(j) == 0 by {
                assert(self.occurrences(j) == 0);
            }
        }
    }
}

/// A prefix of a log is still a prefix after the log grows by one entry.
proof fn lemma_prefix_push(a: Seq<u64>, b: Seq<u64>, x: u64)
    requires
        a.is_prefix_of(b),
    ensures
        a.is_prefix_of(b.push(x)),
{
    assert(a =~= b.push(x).subrange(0, a.len() as int));
}

} // verus!
