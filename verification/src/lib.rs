//! Directory listing: from what a scan of one directory reported to the
//! ordered entries that a file browser shows.

pub mod entry;
pub mod error;
pub mod laws;
pub mod lister;
pub mod order;
pub mod sort;
pub mod text;
