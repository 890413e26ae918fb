//! A fixed-size worker pool, modelled as a verified state machine.
//!
//! A pool owns a fixed set of workers and the sending endpoint of one shared
//! FIFO queue of jobs. Submitters enqueue jobs; each idle worker repeatedly
//! takes the next job off the queue and runs it; discarding the pool closes
//! the queue, lets every queued job finish, and joins every worker exactly
//! once. The modules below state and prove that discipline: every submitted
//! job is executed by exactly one worker, no job is lost while the queue is
//! open, and teardown is ordered and idempotent.

pub mod pool;
pub mod props;
pub mod worker;

pub use crate::pool::ThreadPool;
