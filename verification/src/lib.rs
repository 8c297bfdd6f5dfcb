//! A minimal cooperative task runtime: tasks are polled on one thread, suspend
//! voluntarily, and are resumed when a waker marks them runnable again.

pub mod action;
pub mod driver;
pub mod executor;
pub mod ids;
pub mod interest;
pub mod io;
pub mod laws;
pub mod model;
pub mod outcome;
pub mod reactor;
pub mod run_queue;
pub mod seqs;
pub mod sleep;
pub mod task;
pub mod timer;
pub mod waker;
