//! Core library of `keepalive`, which babysits one process: it restarts the
//! process on a crash with exponential backoff and captures its output in a log
//! file.
//!
//! What is decided and computed stands here, verified; whoever runs the loop
//! spawns the process, waits, sleeps and writes the log.
//!
//! - [`duration`] reads duration strings such as `500ms`;
//! - [`backoff`] computes the delay before a restart;
//! - [`restart`] decides whether to stop, give up or restart;
//! - [`supervisor`] is the run loop's state and its log messages;
//! - [`logfile`] formats the lines of the log;
//! - [`signal`] says what a signal does to the child;
//! - [`laws`] states what holds of all duration strings, and of numbers as text.
//!
//! The delays and durations are those of double-precision arithmetic. The
//! modules [`rounding`], [`binary64`], [`squaring`], [`decimal`], [`time`] and
//! [`bignat`] give that arithmetic an exact meaning and compute it with integers.

pub mod backoff;
pub mod bignat;
pub mod binary64;
pub mod decimal;
pub mod duration;
pub mod laws;
pub mod logfile;
pub mod restart;
pub mod rounding;
pub mod signal;
pub mod squaring;
pub mod supervisor;
pub mod text;
pub mod time;
