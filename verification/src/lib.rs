//! Incremental, resumable sorting engines for a bar-graph animation.
//!
//! Each engine advances one bounded unit of work per `update` call (a
//! "tick"), keeps explicit cursor state instead of a call stack, and
//! maintains three instrumentation counters (element reads, writes and
//! comparisons).  A host schedules batches of ticks, redraws the bars
//! through the highlight classifier, and retunes a tone generator from
//! the last touched value.
//!
//! Every engine's tick is specified as a pure transition function on a
//! ghost image of its state, so batching is provably irrelevant, a done
//! engine provably never moves again, and the counters provably never
//! decrease.  Every engine is proved to finish within a stated number of
//! ticks.  The in-place engines keep the array a permutation of the
//! start after every single tick, and the bubble, insertion, selection,
//! quick, heap and counting engines are proved to leave a sorted
//! permutation behind whenever they report done.

pub mod base;
pub mod bubble;
pub mod counting;
pub mod heap;
pub mod insertion;
pub mod merge;
pub mod quick;
pub mod radix;
pub mod routes;
pub mod selection;
pub mod sort;
