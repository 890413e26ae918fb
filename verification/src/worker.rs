//! Workers and their life cycle.
//!
//! A worker is a pool slot bound to a stable integer identity. Its loop is
//! the state machine `Idle -> Running -> Idle`, looping, until the queue is
//! closed and drained, at which point it takes the absorbing step
//! `Idle -> Terminated` and its thread can be joined. The join handle is a
//! take-once resource: teardown removes it, and a second teardown attempt
//! finds it gone and does nothing.

use vstd::prelude::*;

verus! {

/// What a worker is doing at a given moment.
#[derive(Clone, Copy, PartialEq, Eq, Structural, Debug)]
pub enum WorkerState {
    /// Blocked on the shared queue, waiting for the next job.
    Idle,
    /// Executing the job with the given identity.
    Running(u64),
    /// The queue was closed and drained; the worker's loop has exited.
    /// This state is absorbing.
    Terminated,
}

/// The join handle of a worker's thread: a single-owner resource that is
/// taken exactly once, when the pool joins the worker during teardown.
#[derive(Clone, Copy, PartialEq, Eq, Structural, Debug)]
pub struct ThreadHandle {}

/// One slot of the pool: an identity, the slot's current activity, and the
/// thread handle while it has not yet been taken for joining.
#[derive(Clone, Copy, Debug)]
pub struct Worker {
    pub id: usize,
    pub state: WorkerState,
    pub thread: Option<ThreadHandle>,
}

/// Whether some worker in `ws` is currently running job `j`.
pub open spec fn running_in(ws: Seq<Worker>, j: u64) -> bool {
    exists|i: int| 0 <= i < ws.len() && (#[trigger] ws[i]).state == WorkerState::Running(j)
}

/// How many workers in `ws` are currently running a job.
pub open spec fn count_running(ws: Seq<Worker>) -> nat
    decreases ws.len(),
{
    if ws.len() == 0 {
        0
    } else {
        count_running(ws.drop_last()) + if ws.last().state is Running {
            1nat
        } else {
            0nat
        }
    }
}

pub proof fn lemma_count_running_push(ws: Seq<Worker>, w: Worker)
    ensures
        count_running(ws.push(w)) == count_running(ws) + if w.state is Running {
            1nat
        } else {
            0nat
        },
{
    assert(ws.push(w).drop_last() =~= ws);
}

pub proof fn lemma_count_running_update(ws: Seq<Worker>, i: int, w: Worker)
    requires
        0 <= i < ws.len(),
    ensures
        count_running(ws.update(i, w)) + (if ws[i].state is Running {
            1nat
        } else {
            0nat
        }) == count_running(ws) + (if w.state is Running {
            1nat
        } else {
            0nat
        }),
    decreases ws.len(),
{
    let upd = ws.update(i, w);
    if i == ws.len() - 1 {
        assert(upd.drop_last() =~= ws.drop_last());
    } else {
        assert(upd.drop_last() =~= ws.drop_last().update(i, w));
        assert(upd.last() == ws.last());
        lemma_count_running_update(ws.drop_last(), i, w);
    }
}

pub proof fn lemma_count_running_zero(ws: Seq<Worker>)
    requires
        forall|i: int| 0 <= i < ws.len() ==> !((#[trigger] ws[i]).state is Running),
    ensures
        count_running(ws) == 0,
    decreases ws.len(),
{
    if ws.len() > 0 {
        assert(!(ws[ws.len() - 1].state is Running));
        lemma_count_running_zero(ws.drop_last());
    }
}

/// Replacing the worker at slot `i` changes which jobs are being run in the
/// way one expects: job `j` is run afterwards exactly when the new occupant
/// runs it or some other slot already ran it.
pub proof fn lemma_running_update(ws: Seq<Worker>, i: int, w: Worker)
    requires
        0 <= i < ws.len(),
    ensures
        forall|j: u64|
            #[trigger] running_in(ws.update(i, w), j) <==> (w.state == WorkerState::Running(j)
                || exists|k: int|
                0 <= k < ws.len() && k != i && (#[trigger] ws[k]).state == WorkerState::Running(
                    j,
                )),
{
    let upd = ws.update(i, w);
    assert forall|j: u64| #[trigger] running_in(upd, j) implies (w.state == WorkerState::Running(j)
        || exists|k: int|
        0 <= k < ws.len() && k != i && (#[trigger] ws[k]).state == WorkerState::Running(j)) by {
        let k = choose|k: int|
            0 <= k < upd.len() && (#[trigger] upd[k]).state == WorkerState::Running(j);
        if k != i {
            assert(ws[k].state == WorkerState::Running(j));
        }
    }
    assert forall|j: u64|
        (w.state == WorkerState::Running(j) || exists|k: int|
            0 <= k < ws.len() && k != i && (#[trigger] ws[k]).state == WorkerState::Running(
                j,
            )) implies #[trigger] running_in(upd, j) by {
        if w.state == WorkerState::Running(j) {
            assert((upd[i]).state == WorkerState::Running(j));
        } else {
            let k = choose|k: int|
                0 <= k < ws.len() && k != i && (#[trigger] ws[k]).state == WorkerState::Running(j);
            assert((upd[k]).state == WorkerState::Running(j));
        }
    }
}

} // verus!
