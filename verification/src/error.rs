//! Errors of trash operations.

use vstd::prelude::*;

use crate::path::PathBuf;
use crate::text::{self, to_lossy_text};

verus! {

/// What kind of failure the filesystem reported.
#[derive(Clone, Copy, Debug, PartialEq, Eq, Structural)]
pub enum ErrorKind {
    /// The entry does not exist.
    NotFound,
    /// The user may not do this.
    PermissionDenied,
    /// The entry exists already.
    AlreadyExists,
    /// An argument cannot be used.
    InvalidInput,
    /// Anything else.
    Other,
}

/// A failure that the filesystem reported, or one that stands for such a failure.
#[derive(Debug)]
pub struct IoError {
    /// The kind of the failure.
    pub kind: ErrorKind,
    /// The operating system's number for it, where it has one.
    pub code: Option<i32>,
    /// What went wrong, in words.
    pub message: String,
}

/// What an [`IoError`] says.
pub struct IoErrorView {
    pub kind: ErrorKind,
    pub code: Option<i32>,
    pub message: Seq<char>,
}

impl View for IoError {
    type V = IoErrorView;

    open spec fn view(&self) -> IoErrorView {
        IoErrorView { kind: self.kind, code: self.code, message: self.message@ }
    }
}

impl Clone for IoError {
    fn clone(&self) -> (copy: Self)
        ensures
            copy@ == self@,
    {
        IoError { kind: self.kind, code: self.code, message: self.message.clone() }
    }
}

/// The failure with this kind and these words, which no operating system call reported.
pub open spec fn own_failure(kind: ErrorKind, message: Seq<char>) -> IoErrorView {
    IoErrorView { kind, code: None, message }
}

impl IoError {
    /// A failure that no operating system call reported.
    pub fn new(kind: ErrorKind, message: &str) -> (error: Self)
        ensures
            error@ == own_failure(kind, message@),
    {
        IoError { kind, code: None, message: message.to_owned() }
    }
}

/// Errors returned by junkyard operations.
#[derive(Debug)]
#[non_exhaustive]
pub enum Error {
    /// The operation was requested on an empty path.
    EmptyPath,
    /// The path resolves to a filesystem root, which cannot be trashed.
    TargetedRoot { path: PathBuf },
    /// An I/O error occurred while preparing or moving the path to the trash.
    Io { path: PathBuf, source: IoError },
    /// The platform rejected the trash operation.
    Platform { path: PathBuf, message: String },
}

/// What an [`Error`] says.
pub enum ErrorView {
    EmptyPath,
    TargetedRoot { path: Seq<u8> },
    Io { path: Seq<u8>, source: IoErrorView },
    Platform { path: Seq<u8>, message: Seq<char> },
}

impl View for Error {
    type V = ErrorView;

    open spec fn view(&self) -> ErrorView {
        match self {
            Error::EmptyPath => ErrorView::EmptyPath,
            Error::TargetedRoot { path } => ErrorView::TargetedRoot { path: path@ },
            Error::Io { path, source } => ErrorView::Io { path: path@, source: source@ },
            Error::Platform { path, message } => ErrorView::Platform {
                path: path@,
                message: message@,
            },
        }
    }
}

/// The text that a user is shown for the error.
pub open spec fn error_text(error: ErrorView) -> Seq<char> {
    match error {
        ErrorView::EmptyPath => "Path is empty"@,
        ErrorView::TargetedRoot { path } => "Cannot move filesystem root to trash: "@
            + text::lossy_text(path),
        ErrorView::Io { path, .. } => "I/O failure for path: "@ + text::lossy_text(path),
        ErrorView::Platform { path, message } => "Trash operation failed for "@
            + text::lossy_text(path) + ": "@ + message,
    }
}

impl Error {
    /// The text that a user is shown for the error.
    pub fn to_text(&self) -> (text: String)
        ensures
            text@ == error_text(self@),
    {
        match self {
            Error::EmptyPath => "Path is empty".to_owned(),
            Error::TargetedRoot { path } => {
                "Cannot move filesystem root to trash: ".to_owned().concat(
                    to_lossy_text(path.as_bytes()).as_str(),
                )
            },
            Error::Io { path, .. } => {
                "I/O failure for path: ".to_owned().concat(
                    to_lossy_text(path.as_bytes()).as_str(),
                )
            },
            Error::Platform { path, message } => {
                "Trash operation failed for ".to_owned().concat(
                    to_lossy_text(path.as_bytes()).as_str(),
                ).concat(": ").concat(message.as_str())
            },
        }
    }
}

/// What a result says: the view of its value or of its error.
pub open spec fn result_view<T: View>(result: Result<T, Error>) -> Result<T::V, ErrorView> {
    match result {
        Ok(value) => Ok(value@),
        Err(error) => Err(error@),
    }
}

/// The text for an error tells the path that it is about, and why the platform rejected the
/// operation: texts for different paths that are shown differently differ, and so do those for
/// different reasons.
pub proof fn error_texts_tell_path_and_reason(
    path: Seq<u8>,
    source: IoErrorView,
    message: Seq<char>,
)
    ensures
        error_text(ErrorView::TargetedRoot { path }) == "Cannot move filesystem root to trash: "@
            + text::lossy_text(path),
        error_text(ErrorView::Io { path, source }) == "I/O failure for path: "@ + text::lossy_text(
            path,
        ),
        error_text(ErrorView::Platform { path, message }) == "Trash operation failed for "@
            + text::lossy_text(path) + ": "@ + message,
        error_text(ErrorView::EmptyPath) == "Path is empty"@,
{
}

} // verus!
