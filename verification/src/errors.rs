//! The error taxonomy of the library.
//!
//! Every fallible step of a checkout reports one of these variants.
//! The variants carry no payload so that contracts can speak of them
//! by value; the unverified shell around the library attaches paths
//! and system error text when it reports a failure to the user.

use vstd::prelude::*;

verus! {

/// One error of the checkout pipeline.
#[derive(Clone, Copy, Debug, PartialEq, Eq, Structural)]
pub enum Error {
    /// The ephemeral fetch workspace could not be created.
    TempDirError,
    /// The ephemeral fetch workspace could not be discarded.
    TempDirCloseError,
    /// The backend command could not be spawned.
    CommandSpawnError,
    /// The backend's shallow fetch exited with a failure.
    GitCloneError,
    /// Backend output was not valid text.
    Utf8Error,
    /// The store root directory could not be created.
    CreateDirError,
    /// No home location was available to place the store root in.
    HomeDirError,
    /// No row of the remote listing matched the requested reference.
    NoMatchingReferenceError,
    /// A store entry could not be written.
    WriteToStoreError,
    /// A directory inside the checkout target could not be created.
    CreateDirAllError,
    /// A hard link from the store into the target could not be made.
    HardLinkError,
    /// A cached tree listing could not be read back.
    ReadTreeError,
    /// A tree entry's permission field was not an octal mode.
    ParseModeError,
    /// A file could not be read.
    ReadFileError,
    /// A tree-listing row lacked its mode, kind or hash field.
    MalformedTreeRowError,
    /// A remote-listing row lacked its hash field.
    MalformedRemoteRowError,
}

impl Error {
    /// A short, fixed description of the error.
    pub fn describe(&self) -> &'static str {
        match self {
            Error::TempDirError => "failed to create the fetch workspace",
            Error::TempDirCloseError => "failed to discard the fetch workspace",
            Error::CommandSpawnError => "failed to spawn the backend command",
            Error::GitCloneError => "the shallow fetch failed",
            Error::Utf8Error => "backend output was not valid text",
            Error::CreateDirError => "failed to create the store root",
            Error::HomeDirError => "no home directory to place the store in",
            Error::NoMatchingReferenceError => "no matching reference found",
            Error::WriteToStoreError => "failed to write to the store",
            Error::CreateDirAllError => "failed to create a target directory",
            Error::HardLinkError => "failed to hard link from the store",
            Error::ReadTreeError => "failed to read a cached tree listing",
            Error::ParseModeError => "a tree row's mode was not octal",
            Error::ReadFileError => "failed to read a file",
            Error::MalformedTreeRowError => "a tree row was missing fields",
            Error::MalformedRemoteRowError => "a remote row was missing fields",
        }
    }
}

} // verus!
