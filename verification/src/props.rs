//! The pool's laws, stated once over the model and proved for every
//! reachable state.

use vstd::prelude::*;

use crate::pool::ThreadPool;
use crate::worker::WorkerState;
use crate::worker::lemma_count_running_zero;
use crate::worker::running_in;

verus! {

/// Exactly-once execution. In any well-formed pool state in which the queue
/// is empty and no worker holds a job — the state reached after waiting for
/// all submitted jobs to finish — the completion log holds every submitted
/// job exactly once and holds nothing else, whatever the pool's size and in
/// whatever order the workers took their turns.
pub proof fn lemma_exactly_once(pool: ThreadPool)
    requires
        pool.wf(),
        pool.pending@.len() == 0,
        forall|i: int|
            0 <= i < pool.workers@.len() ==> !((#[trigger] pool.workers@[i]).state is Running),
    ensures
        pool.executed@.len() == pool.submitted(),
        forall|j: u64| (j as int) < pool.submitted() ==> #[trigger] pool.exec_count(j) == 1,
        forall|j: u64| (j as int) >= pool.submitted() ==> #[trigger] pool.exec_count(j) == 0,
{
    lemma_count_running_zero(pool.workers@);
    assert forall|j: u64| !pool.running(j) by {
        if running_in(pool.workers@, j) {
            let k = choose|k: int|
                0 <= k < pool.workers@.len() && (#[trigger] pool.workers@[k]).state
                    == WorkerState::Running(j);
            assert(!(pool.workers@[k].state is Running));
        }
    }
    assert forall|j: u64| (j as int) < pool.submitted() implies #[trigger] pool.exec_count(j)
        == 1 by {
        assert(pool.occurrences(j) == 1);
    }
    assert forall|j: u64| (j as int) >= pool.submitted() implies #[trigger] pool.exec_count(j)
        == 0 by {
        assert(pool.occurrences(j) == 0);
    }
}

/// Parallelism without duplication. Two distinct workers may hold jobs at
/// the same time — a worker's turn at the queue leaves every other worker
/// untouched, which is what the frame conditions of `worker_step` and
/// `worker_finish` state — and whenever they do, the jobs they hold are
/// distinct submissions: the shared queue hands each job out once.
pub proof fn lemma_concurrent_jobs_distinct(pool: ThreadPool, i1: int, i2: int)
    requires
        pool.wf(),
        0 <= i1 < pool.size(),
        0 <= i2 < pool.size(),
        i1 != i2,
        pool.workers@[i1].state is Running,
        pool.workers@[i2].state is Running,
    ensures
        pool.workers@[i1].state != pool.workers@[i2].state,
{
}

} // verus!
