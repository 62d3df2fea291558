//! The core of a distributed version control system: a content-addressed
//! store of blobs, trees and commits, a branch namespace with a head, a
//! staging area, and the operations on them: commit, checkout, branching and
//! three-way merge. The library works on values; reading them from disk and
//! writing them back is left to its caller.

pub mod builder;
pub mod checkout;
pub mod commit;
pub mod directory;
pub mod error;
pub mod hash;
pub mod init;
pub mod inspect;
pub mod merge;
pub mod permissions;
pub mod persist;
pub mod repository;
pub mod serializer;
pub mod staging;
pub mod status;
pub mod sync;
pub mod table;
pub mod text;
pub mod worktree;
