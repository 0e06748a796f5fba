//! Paginated, resumable history queries over a commit graph.
//!
//! A walk takes the commits of a repository latest first, from any number of roots, and hands
//! them out a page at a time. Where a page is cut, a session keeps what the walk has examined
//! and what waits, so that the next page goes on where the last one stopped, and no commit is
//! shown twice.

pub mod commits;
pub mod diff;
pub mod digest;
pub mod error;
pub mod fixed_graph;
pub mod frontier;
pub mod graph;
pub mod hex;
pub mod id_set;
pub mod meta;
pub mod page;
pub mod process_commits;
pub mod repo;
pub mod sessions;
pub mod settings;
pub mod snapshot;
