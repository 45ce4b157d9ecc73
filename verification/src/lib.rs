//! Local media cache library: HTTP range parsing, request routing with a
//! directory allow-list, cache-file name resolution, cache analysis, and
//! the eviction and auto-cleanup policies, all with verified contracts.

pub mod analyze;
pub mod cleanup;
pub mod evict;
pub mod model;
pub mod range;
pub mod resolve;
pub mod server;
pub mod textfmt;
