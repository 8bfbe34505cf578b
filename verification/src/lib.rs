//! Non-destructive block device speed testing: what is measured and how, which
//! devices there are, and what the screens and reports say of them.
//!
//! Reads go straight to the raw device, which is only ever opened read-only.
//! Writes go to a temporary file on a mounted filesystem. The library decides and
//! computes; opening files, asking the system and drawing is its caller's.

pub mod aligned;
pub mod app;
pub mod bench;
pub mod device;
pub mod diskutil;
pub mod double;
pub mod format;
pub mod meter;
pub mod mounts;
pub mod number;
pub mod options;
pub mod pass;
pub mod path;
mod ratio;
pub mod report;
pub mod rng;
pub mod scene;
pub mod scratch;
pub mod sysfs;
pub mod text;
pub mod theme;
pub mod time;
pub mod ui;
pub mod worker;
