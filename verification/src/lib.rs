//! A version manager for filesystem trees.
//!
//! Snapshots ("saves") of one or more tracked directory trees are grouped
//! into named categories, together with a single rolling autosave slot that
//! captures the pre-operation state whenever a version is restored or
//! refreshed.  This crate holds the verified core: the ledger of categories
//! and saves, the reference resolver, and the snapshot engine that plans the
//! disk operations realizing each command.  Executing those operations and
//! persisting the ledger are left to an unverified shell around the library.

pub mod nums;
pub mod types;
pub mod disk;
pub mod resolve;
pub mod functions;
pub mod laws;

pub use nums::Parsed;

use vstd::prelude::*;

verus! {

/// The closed taxonomy of user-facing failures.
#[derive(PartialEq, Eq, Structural, Clone, Copy, Debug)]
pub enum Error {
    CategoryNotFound,
    CategoryAlreadyExists,
    SaveNotFound,
    SaveAlreadyExists,
    InvalidSaveName,
    NoActiveCategory,
    NoSavesInCategory,
    NoAutosaveAvailable,
    SourcePathMissing,
    FilesystemOperationFailed,
}

impl Error {
    /// The short message printed for this failure.
    pub fn message(&self) -> &'static str {
        match self {
            Error::CategoryNotFound => "Category does not exist",
            Error::CategoryAlreadyExists => "Category already exists",
            Error::SaveNotFound => "Save with this name or index does not exist",
            Error::SaveAlreadyExists => "Save already exists",
            Error::InvalidSaveName => "Save name must not be numeric or `auto`",
            Error::NoActiveCategory => "No current category",
            Error::NoSavesInCategory => "No saves in current category",
            Error::NoAutosaveAvailable => "No autosave in current category",
            Error::SourcePathMissing => "Path does not exist",
            Error::FilesystemOperationFailed => "A filesystem operation failed",
        }
    }
}

} // verus!
