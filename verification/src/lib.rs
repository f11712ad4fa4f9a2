//! Read-only decoder and lookup engine for the twoskip single-file
//! skip-list database format: a 64-byte checksummed header followed by
//! variably framed records, each carrying a table of forward pointers
//! that together form an on-disk skip list.

pub mod model;
pub mod text;
pub mod twoskip;
