//! Sizes of files and directories in a tree that was walked, filtered and
//! ranked, with the totals proved.

pub mod analysis;
pub mod item;
pub mod order;
pub mod paths;
pub mod report;
pub mod scan;
pub mod size_spec;
