//! Brute-force preimage search for a 32-bit checksum.
//!
//! The crate enumerates every string of a fixed length over a fixed
//! alphabet, computes the checksum of each candidate, and reports the
//! candidates whose checksum lies in a caller-supplied target set.  The
//! search space is split into independent work units (one per prefix of a
//! chosen length) so that a caller may run the units in parallel; the set
//! of matches is proved independent of how the units are scheduled.

pub mod checksum;
pub mod hex;
pub mod search;
pub mod target;
