//! In-memory classification and lifecycle management of proof-of-work
//! announcement buffers.
//!
//! Announcements are grouped into classes sharing a block height and a
//! minimum-work bucket. Each class owns a pool of fixed-capacity buffers:
//! new announcements are absorbed into the single active buffer, full
//! buffers are frozen, and frozen buffers are released one at a time to the
//! mining pipeline under a mutual-exclusion latch. Whenever a frozen buffer
//! leaves a class, every externally cached proof structure built over the
//! class's announcements is invalidated.

pub mod ann_buf;
pub mod ann_class;
pub mod prooftree;
