//! Verified checking and repair of FAT32 volumes.
//!
//! The crate holds the part of a FAT32 driver that puts a volume back in order after an interrupted write: a torn FAT
//! sector, a half-written directory entry, a stale free-cluster count. Every function states what it does to the bytes
//! of the device, and the statements are proved.

pub mod advance;
pub mod again;
pub mod boot;
pub mod boot_laws;
pub mod bounded;
pub mod bytes;
pub mod cache_laws;
pub mod chain;
pub mod chain_laws;
pub mod confined;
pub mod counts;
pub mod dir;
pub mod dir_laws;
pub mod dirent;
pub mod dry_laws;
pub mod dry_walk;
pub mod entry;
pub mod error;
pub mod fat;
pub mod fat_laws;
pub mod fatcache;
pub mod flag_laws;
pub mod fs;
pub mod geometry;
pub mod halting;
pub mod home_laws;
pub mod image_laws;
pub mod interrupted;
pub mod kept;
pub mod kept_walk;
pub mod laws;
pub mod meaning;
pub mod mode;
pub mod mode_laws;
pub mod model;
pub mod name_laws;
pub mod owned;
pub mod pass_laws;
pub mod passes;
pub mod phases;
pub mod progress;
pub mod repair;
pub mod repeat_laws;
pub mod run_laws;
pub mod scratch;
pub mod sound;
pub mod stale;
pub mod state_laws;
pub mod stats;
pub mod step_laws;
pub mod storage;
pub mod twice;
pub mod visits;
pub mod volume;
pub mod walk;
pub mod walk_laws;

pub use boot::FatType;
pub use error::Error;
pub use fs::{FileSystem, FsStatusFlags};
pub use mode::RepairMode;
pub use scratch::{scratch_size_for_depth, RepairScratch, REPAIR_FRAME_SIZE};
pub use stats::RepairStats;
pub use storage::{MemDisk, Storage};
