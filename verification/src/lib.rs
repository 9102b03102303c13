//! Keeps an encoded copy of a media library in step with its source.
//!
//! The heart of the crate is a reconciliation algorithm: given the set of
//! files in the source tree, the set of files in the destination tree, and a
//! persisted record of which source file produced which destination file, it
//! computes the minimal action plan (encode or copy, rename, delete) and the
//! repaired record, recovering from any out-of-band tampering with the
//! destination tree or the record.

pub mod actions;
pub mod config;
pub mod laws;
pub mod naming;
pub mod path_map;
pub mod path_set;
pub mod paths;
pub mod rclone_path;
pub mod reconcile;
