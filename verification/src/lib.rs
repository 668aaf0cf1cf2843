//! A fair, first-come-first-served mutual-exclusion lock in the style of the
//! MCS queue lock.
//!
//! Each acquisition owns a queue node; a releasing holder hands the lock to
//! the node enqueued immediately after it.  The protocol is modelled over an
//! arena of index-addressed nodes, and every shared-memory operation of the
//! real lock (the tail swap, the flag store, the successor publish, the spin
//! load, the tail compare-and-swap, the handoff store) is one step function,
//! so that any interleaving of threads corresponds to a sequence of step
//! calls.

pub mod counter;
pub mod laws;
pub mod lock;
