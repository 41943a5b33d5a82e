//! The errors that vault operations report.

use vstd::prelude::*;
use vstd::string::*;

verus! {

/// Why an operation on the vault failed. Every variant but `VaultUnset`
/// carries the descriptive message that is shown to the caller.
#[derive(Debug, PartialEq, Eq)]
pub enum VaultError {
    /// No vault root has been configured.
    VaultUnset,
    /// A path or a directory entry is missing.
    NotFound(String),
    /// The destination of a rename is already taken.
    AlreadyExists(String),
    /// The file system refused a read, write, create or delete.
    IoFailure(String),
    /// The content of a file is not valid text.
    DecodeError(String),
    /// The order record could not be encoded.
    SerializationFailure(String),
}

/// A `VaultError` with its message as a sequence of characters.
pub ghost enum VaultErrorView {
    VaultUnset,
    NotFound(Seq<char>),
    AlreadyExists(Seq<char>),
    IoFailure(Seq<char>),
    DecodeError(Seq<char>),
    SerializationFailure(Seq<char>),
}

impl View for VaultError {
    type V = VaultErrorView;

    open spec fn view(&self) -> VaultErrorView {
        match self {
            VaultError::VaultUnset => VaultErrorView::VaultUnset,
            VaultError::NotFound(m) => VaultErrorView::NotFound(m@),
            VaultError::AlreadyExists(m) => VaultErrorView::AlreadyExists(m@),
            VaultError::IoFailure(m) => VaultErrorView::IoFailure(m@),
            VaultError::DecodeError(m) => VaultErrorView::DecodeError(m@),
            VaultError::SerializationFailure(m) => VaultErrorView::SerializationFailure(m@),
        }
    }
}

impl VaultErrorView {
    /// The message shown to the caller.
    pub open spec fn message(self) -> Seq<char> {
        match self {
            VaultErrorView::VaultUnset => "No vault set"@,
            VaultErrorView::NotFound(m) => m,
            VaultErrorView::AlreadyExists(m) => m,
            VaultErrorView::IoFailure(m) => m,
            VaultErrorView::DecodeError(m) => m,
            VaultErrorView::SerializationFailure(m) => m,
        }
    }
}

/// `subject` between a leading and a trailing phrase.
pub open spec fn framed(lead: Seq<char>, subject: Seq<char>, tail: Seq<char>) -> Seq<char> {
    lead + subject + tail
}

/// The text `lead`, `subject`, `tail` in a row.
pub fn frame(lead: &str, subject: &str, tail: &str) -> (s: String)
    ensures
        s@ == framed(lead@, subject@, tail@),
{
    let mut s = lead.to_owned();
    s.append(subject);
    s.append(tail);
    s
}

/// Message of a failure of the file system: what was attempted, then the
/// cause that the system gave.
pub open spec fn failure_text(attempt: Seq<char>, cause: Seq<char>) -> Seq<char> {
    framed(attempt, ": "@, cause)
}

impl VaultError {
    /// The message shown to the caller.
    pub fn message(&self) -> (s: String)
        ensures
            s@ == self@.message(),
    {
        match self {
            VaultError::VaultUnset => "No vault set".to_owned(),
            VaultError::NotFound(m) => m.clone(),
            VaultError::AlreadyExists(m) => m.clone(),
            VaultError::IoFailure(m) => m.clone(),
            VaultError::DecodeError(m) => m.clone(),
            VaultError::SerializationFailure(m) => m.clone(),
        }
    }

    /// A path that a command names does not exist.
    pub fn path_missing(path: &str) -> (e: VaultError)
        ensures
            e@ == VaultErrorView::NotFound(framed("Path '"@, path@, "' does not exist"@)),
    {
        VaultError::NotFound(frame("Path '", path, "' does not exist"))
    }

    /// A note that is to be read does not exist.
    pub fn file_missing(rel: &str) -> (e: VaultError)
        ensures
            e@ == VaultErrorView::NotFound(framed("File '"@, rel@, "' does not exist"@)),
    {
        VaultError::NotFound(frame("File '", rel, "' does not exist"))
    }

    /// The entry that is to be renamed does not exist.
    pub fn source_missing(from: &str) -> (e: VaultError)
        ensures
            e@ == VaultErrorView::NotFound(framed("Source path '"@, from@, "' does not exist"@)),
    {
        VaultError::NotFound(frame("Source path '", from, "' does not exist"))
    }

    /// The directory whose entries are to be reordered does not exist.
    pub fn directory_missing(dir: &str) -> (e: VaultError)
        ensures
            e@ == VaultErrorView::NotFound(framed("Directory '"@, dir@, "' does not exist"@)),
    {
        VaultError::NotFound(frame("Directory '", dir, "' does not exist"))
    }

    /// The new name of an entry is already taken.
    pub fn destination_taken(to: &str) -> (e: VaultError)
        ensures
            e@ == VaultErrorView::AlreadyExists(
                framed("Destination path '"@, to@, "' already exists"@),
            ),
    {
        VaultError::AlreadyExists(frame("Destination path '", to, "' already exists"))
    }

    /// The file system failed at `attempt` and gave `cause`.
    pub fn io_failure(attempt: &str, cause: &str) -> (e: VaultError)
        ensures
            e@ == VaultErrorView::IoFailure(failure_text(attempt@, cause@)),
    {
        VaultError::IoFailure(frame(attempt, ": ", cause))
    }

    /// A file that was read at `attempt` does not hold valid text.
    pub fn decode_error(attempt: &str, cause: &str) -> (e: VaultError)
        ensures
            e@ == VaultErrorView::DecodeError(failure_text(attempt@, cause@)),
    {
        VaultError::DecodeError(frame(attempt, ": ", cause))
    }

    /// The order record could not be encoded; the encoder gave `cause`.
    pub fn serialization_failure(cause: &str) -> (e: VaultError)
        ensures
            e@ == VaultErrorView::SerializationFailure(
                failure_text("Failed to serialize order"@, cause@),
            ),
    {
        VaultError::SerializationFailure(frame("Failed to serialize order", ": ", cause))
    }
}

} // verus!
