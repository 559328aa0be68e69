//! Directory-tree snapshotting and comparison.
//!
//! The library models a filesystem subtree as a [`scanner::Node`] tree of
//! named files (identified by a content digest) and directories, builds such
//! trees from an in-memory description of a subtree, diffs two trees under an
//! exclusion filter, and encodes / decodes trees to a portable byte format.

pub mod comparator;
pub mod deserializer;
pub mod errors;
pub mod filter;
pub mod scanner;
pub mod serializer;
