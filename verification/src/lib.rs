//! Library for finding groups of byte-identical files among directory trees,
//! together with the small decision procedures of the surrounding clean-up
//! helpers.  Directory walking, file reading and every other form of I/O stay
//! with the caller; the functions here work on plain values and carry proofs.

pub mod c_project;
pub mod disk_usage;
pub mod duplicates;
pub mod find_project_files;
pub mod names;
pub mod recursive_cleaner;
pub mod template;
