//! Instant file search.
//!
//! A scan of a directory tree makes an index file; a query is answered from the index
//! file, or from a resident service that keeps the index up to date as the file system
//! changes. Both give the same answer.
//!
//! * `query`, `glob`, `words`: what a query means and what it accepts.
//! * `scan`, `ffi`: reading directory listings, and the tables that a scan fills.
//! * `index`, `writer`: the index file.
//! * `search`: searching an index file. `search_laws`: what a search is for.
//! * `live`, `live_search`, `plan`, `update`, `batch`, `reader`: the index of the service,
//!   and how events change it. `tree` is its model.
//! * `laws`, `listing_laws`, `update_laws`, `tidy`: what holds of the service's index as a
//!   whole.
//! * `daemon`, `cli`: the service's protocol and the command line. `service_laws`: what holds
//!   between the service and its clients.
//! * `text`, `bytes`, `number`, `order`, `pick`, `bitset`, `groups`, `names`: what the
//!   others are built from.
//!
//! Nothing here touches the file system, the network or the clock; what does stands in the
//! program around this library.

pub mod batch;
pub mod bitset;
pub mod bytes;
pub mod cli;
pub mod daemon;
pub mod ffi;
pub mod fsevents;
pub mod glob;
pub mod groups;
pub mod index;
pub mod laws;
pub mod listing_laws;
pub mod live;
pub mod live_search;
pub mod names;
pub mod number;
pub mod order;
pub mod pick;
pub mod plan;
pub mod query;
pub mod reader;
pub mod scan;
pub mod search;
pub mod search_laws;
pub mod service_laws;
pub mod text;
pub mod tidy;
pub mod tree;
pub mod update;
pub mod update_laws;
pub mod words;
pub mod writer;
