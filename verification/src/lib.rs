//! The file-tree model of a disk usage viewer: building, editing and measuring
//! a tree of files and directories, with the rules that keep a scan from
//! counting one directory twice.

pub mod extension;
pub mod firmlinks;
pub mod fspath;
pub mod laws;
pub mod listing;
pub mod model;
pub mod order;
pub mod scan;
pub mod scan_laws;
pub mod stats;
pub mod strmap;
pub mod text;
pub mod totals;
pub mod tree;
pub mod whole_scan;
