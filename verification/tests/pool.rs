use threadpool::pool::PoolClosed;
use threadpool::pool::RecvOutcome;
use threadpool::pool::ThreadPool;
use threadpool::worker::WorkerState;

/// How many times job `j` occurs in the completion log.
fn times_executed(pool: &ThreadPool, j: u64) -> usize {
    pool.executed.iter().filter(|&&x| x == j).count()
}

/// Run the pool dry sequentially: hand out turns round-robin until the queue
/// is empty and no worker is running. Returns the number of rounds in which
/// at least one job was taken — with enough workers, one round stands for
/// one stretch of jobs running simultaneously.
fn run_until_drained(pool: &mut ThreadPool) -> usize {
    let size = pool.workers.len();
    let mut rounds: usize = 0;
    while !pool.pending.is_empty() {
        let mut took_one = false;
        for wid in 0..size {
            if pool.pending.is_empty() {
                break;
            }
            if pool.workers[wid].state == WorkerState::Idle {
                match pool.worker_step(wid) {
                    RecvOutcome::Job(_) => took_one = true,
                    other => panic!("expected a job, got {:?}", other),
                }
            }
        }
        for wid in 0..size {
            if matches!(pool.workers[wid].state, WorkerState::Running(_)) {
                pool.worker_finish(wid);
            }
        }
        if took_one {
            rounds += 1;
        }
    }
    rounds
}

#[test]
fn new_pool_has_idle_workers_and_open_queue() {
    let pool = ThreadPool::new(4);
    assert_eq!(pool.workers.len(), 4);
    for (i, w) in pool.workers.iter().enumerate() {
        assert_eq!(w.id, i);
        assert_eq!(w.state, WorkerState::Idle);
        assert!(w.thread.is_some());
    }
    assert!(pool.sender.is_some());
    assert!(pool.pending.is_empty());
    assert!(pool.executed.is_empty());
    assert_eq!(pool.next_job, 0);
}

#[test]
fn execute_assigns_indices_in_submission_order() {
    let mut pool = ThreadPool::new(2);
    assert_eq!(pool.execute(), Ok(0));
    assert_eq!(pool.execute(), Ok(1));
    assert_eq!(pool.execute(), Ok(2));
    assert_eq!(pool.pending, vec![0, 1, 2]);
    pool.shutdown();
}

#[test]
fn workers_dequeue_in_fifo_order() {
    let mut pool = ThreadPool::new(2);
    for _ in 0..3 {
        pool.execute().unwrap();
    }
    assert_eq!(pool.worker_step(0), RecvOutcome::Job(0));
    assert_eq!(pool.worker_step(1), RecvOutcome::Job(1));
    pool.worker_finish(0);
    assert_eq!(pool.worker_step(0), RecvOutcome::Job(2));
    pool.worker_finish(0);
    pool.worker_finish(1);
    pool.shutdown();
}

#[test]
fn exactly_once_for_every_pool_size() {
    for size in [1, 2, 8] {
        let mut pool = ThreadPool::new(size);
        for _ in 0..20 {
            pool.execute().unwrap();
        }
        run_until_drained(&mut pool);
        pool.shutdown();
        for j in 0..20 {
            assert_eq!(times_executed(&pool, j), 1, "job {} with size {}", j, size);
        }
        assert_eq!(pool.executed.len(), 20);
    }
}

#[test]
fn two_workers_hold_distinct_jobs_at_the_same_time() {
    let mut pool = ThreadPool::new(2);
    pool.execute().unwrap();
    pool.execute().unwrap();
    assert_eq!(pool.worker_step(0), RecvOutcome::Job(0));
    assert_eq!(pool.worker_step(1), RecvOutcome::Job(1));
    assert_eq!(pool.workers[0].state, WorkerState::Running(0));
    assert_eq!(pool.workers[1].state, WorkerState::Running(1));
    assert_ne!(pool.workers[0].state, pool.workers[1].state);
    pool.worker_finish(0);
    pool.worker_finish(1);
    pool.shutdown();
}

#[test]
fn shutdown_drains_every_pending_job() {
    let mut pool = ThreadPool::new(2);
    let k: u64 = 5;
    for _ in 0..k {
        pool.execute().unwrap();
    }
    pool.shutdown();
    assert_eq!(pool.executed.len() as u64, k);
    for j in 0..k {
        assert_eq!(times_executed(&pool, j), 1);
    }
}

#[test]
fn shutdown_joins_every_worker_and_is_idempotent() {
    let mut pool = ThreadPool::new(3);
    pool.execute().unwrap();
    pool.shutdown();
    for w in &pool.workers {
        assert_eq!(w.state, WorkerState::Terminated);
        assert!(w.thread.is_none());
    }
    assert!(pool.sender.is_none());
    let log_before: Vec<u64> = pool.executed.clone();
    pool.shutdown();
    for w in &pool.workers {
        assert_eq!(w.state, WorkerState::Terminated);
        assert!(w.thread.is_none());
    }
    assert_eq!(pool.executed, log_before);
    assert!(pool.pending.is_empty());
}

#[test]
fn submission_after_shutdown_is_rejected_and_not_run() {
    let mut pool = ThreadPool::new(1);
    pool.shutdown();
    let log_len: usize = pool.executed.len();
    assert_eq!(pool.execute(), Err(PoolClosed {}));
    assert_eq!(pool.executed.len(), log_len);
    assert!(pool.pending.is_empty());
    assert_eq!(pool.next_job, 0);
}

#[test]
fn idle_worker_blocks_while_queue_is_open_and_empty() {
    let mut pool = ThreadPool::new(1);
    assert_eq!(pool.worker_step(0), RecvOutcome::Blocked);
    assert_eq!(pool.workers[0].state, WorkerState::Idle);
    pool.shutdown();
}

#[test]
fn worker_terminates_once_queue_is_closed_and_drained() {
    let mut pool = ThreadPool::new(1);
    pool.close_channel();
    assert!(pool.sender.is_none());
    assert_eq!(pool.worker_step(0), RecvOutcome::Disconnected);
    assert_eq!(pool.workers[0].state, WorkerState::Terminated);
    pool.join_worker(0);
    assert!(pool.workers[0].thread.is_none());
}

#[test]
fn join_is_a_no_op_the_second_time() {
    let mut pool = ThreadPool::new(1);
    pool.close_channel();
    pool.worker_step(0);
    pool.join_worker(0);
    assert!(pool.workers[0].thread.is_none());
    pool.join_worker(0);
    assert!(pool.workers[0].thread.is_none());
    assert_eq!(pool.workers[0].state, WorkerState::Terminated);
}

#[test]
fn ten_jobs_on_four_workers_run_in_three_rounds() {
    let mut pool = ThreadPool::new(4);
    for _ in 0..10 {
        pool.execute().unwrap();
    }
    let rounds = run_until_drained(&mut pool);
    // ceil(10 / 4) rounds of simultaneous execution, not 10 sequential ones.
    assert_eq!(rounds, 3);
    pool.shutdown();
    assert_eq!(pool.executed.len(), 10);
    for j in 0..10 {
        assert_eq!(times_executed(&pool, j), 1);
    }
}
