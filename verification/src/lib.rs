//! Finding duplicated files: listing rules, grouping candidates by size,
//! comparing their contents by CRC-32 checksum, and arranging the duplicates
//! in a tree of directories with a summary for each folder.

pub mod path;
pub mod listing;
pub mod sizes;
pub mod duplicates;
pub mod tree;
pub mod overview;

pub mod laws;
