//! Resource-safety and task-lifecycle core of a small kernel.
//!
//! The crate has two tightly coupled components:
//!
//! * [`ledger`] — a deadlock-avoidance ledger in the style of the Banker's
//!   algorithm.  It tracks, per task and per registered resource, how many
//!   units are held (`allocated`), how many may ever be held (`max`), the gap
//!   between the two (`need`), and how many units are free (`available`).
//!   Its safety checker decides whether the whole system can still finish.
//! * [`lifecycle`] — the finite-state record that governs a task's
//!   progression from creation to termination, together with its start
//!   timestamp and per-syscall invocation counters.
//!
//! [`syscall`] holds the plain value types that cross the syscall boundary
//! and the pure computations behind the process-management syscalls.
#![verifier::loop_isolation(false)]

pub mod ledger;
pub mod lifecycle;
pub mod syscall;
