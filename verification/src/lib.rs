//! Size-ranked summaries of directory trees.
//!
//! A directory is read into a plain listing (`listing`). The traversal
//! (`traverse`) turns a listing into a tree of nodes (`node`): it drops what
//! the policies (`options`) rule out, sums bytes, files and directories
//! bottom-up (`aggregate`) and puts siblings in order, biggest first
//! (`order`). The cache (`cache`) holds the tree of the last scan and serves
//! shallow views of it by identifier. What holds of every tree that a
//! traversal makes is proved in `laws`; `limits` bounds what a listing can
//! count, so that callers can tell beforehand that a walk stays within 64
//! bits.

pub mod aggregate;
pub mod cache;
pub mod laws;
pub mod limits;
pub mod listing;
pub mod node;
pub mod options;
pub mod order;
pub mod traverse;
