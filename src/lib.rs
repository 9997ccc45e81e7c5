//! Deadlock detection for the mutexes and semaphores of one process, the
//! decisions of the synchronization system calls around it, and the argument
//! checks of the process and file system calls.
//!
//! - `ledger`: what is free, held and wanted of each resource of a class,
//!   and the request-time deadlock check.
//! - `detector`: one ledger for mutexes and one for semaphores.
//! - `sync`: the system call decisions, in two steps around each blocking
//!   acquire.
//! - `laws`: properties that hold across the ledger's operations.
//! - `process`, `fs`: argument checks and arithmetic of the other calls.

pub mod detector;
pub mod fs;
pub mod laws;
pub mod ledger;
pub mod process;
pub mod sync;
