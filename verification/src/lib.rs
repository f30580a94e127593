//! Verified core of a disk-usage browser: the scanned file tree, the entries
//! shown for a folder, and the choice and ordering of disks.

pub mod order;
pub mod text;
pub mod scan;
pub mod viewmodel;
pub mod disks;
pub mod tree_laws;
pub mod scanner;
