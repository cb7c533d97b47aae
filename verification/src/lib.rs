//! Time-bucketed aggregation of recorded video segments.
//!
//! Short, timestamped video clips are discovered under an input tree,
//! grouped into hour or day buckets, and each completed bucket is merged
//! into one output file.  This crate holds the verified core: timestamp
//! reconstruction, grouping, idempotent merge planning, ordered merge
//! step construction, and the scheduler's trigger arithmetic.  The thin
//! unverified shell around it performs the actual file-system walks,
//! copies, and subprocess invocations.

pub mod clock;
pub mod exec;
pub mod group;
pub mod plan;
pub mod scan;
pub mod sched;
pub mod time;
