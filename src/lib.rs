//! A dashboard that runs puzzle solvers on a fixed pool of workers.
//!
//! `threadpool` schedules jobs onto workers with a FIFO backlog and
//! `pool_laws` states what holds of it across operations; `day1`, `day2`
//! and `day3` are the solvers, `catalog` says which days have one, and
//! `dashboard` keeps what the screen shows.
pub mod catalog;
pub mod dashboard;
pub mod day1;
pub mod day2;
pub mod day3;
pub mod pool_laws;
pub mod puzzle;
pub mod threadpool;
