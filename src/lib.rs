//! Temporarily move files out of their working locations into a
//! time-stamped archive, list what was put away, and restore or discard it.
//!
//! The library decides everything that does not touch the disk: how stash
//! entries are named and ordered, which entry an index selects, where each
//! file is stored and where it is restored to.
pub mod decimal;
pub mod path;
pub mod stash;
pub mod lemmas;
