//! Failures that the library reports.

use vstd::prelude::*;
use vstd::string::*;

verus! {

/// Why a read or write of the object store, a codec or the reference store failed.
///
/// Failures are handed to the caller as they arise: nothing is retried and no
/// default stands in for a missing value. Garbage that comes out of decrypting
/// with a wrong key cannot be told from a damaged file, so it is reported as
/// `InvalidFormat`.
#[derive(Debug, Clone, Copy, PartialEq, Eq, Structural)]
pub enum StoreError {
    /// An object, a reference or a file is missing.
    NotFound,
    /// Bytes that should hold a header, a tree or a commit are cut short or malformed.
    InvalidFormat,
    /// An object is of another kind than the one asked for.
    TypeMismatch,
    /// A store is already present where a new one was to be made.
    AlreadyExists,
}

impl StoreError {
    /// A short description of the failure.
    pub fn message(&self) -> (text: &'static str)
        ensures
            text@ == match *self {
                StoreError::NotFound => "not found"@,
                StoreError::InvalidFormat => "invalid format"@,
                StoreError::TypeMismatch => "type mismatch"@,
                StoreError::AlreadyExists => "already exists"@,
            },
    {
        match self {
            StoreError::NotFound => "not found",
            StoreError::InvalidFormat => "invalid format",
            StoreError::TypeMismatch => "type mismatch",
            StoreError::AlreadyExists => "already exists",
        }
    }
}

/// Failures of the client as a whole, as shown to the user.
#[derive(Debug, Clone)]
pub enum TriforgeError {
    NotGitRepo,
    NotAuthenticated,
    RepoNotFound(String),
    NetworkError(String),
    GitError(String),
    InvalidHash(String),
    ConfigError(String),
}

impl TriforgeError {
    /// The text of the message, as a sequence of characters.
    pub open spec fn message_text(self) -> Seq<char> {
        match self {
            TriforgeError::NotGitRepo => "Not a git repository"@,
            TriforgeError::NotAuthenticated =>
                "Authentication required. Run 'triforge login' first"@,
            TriforgeError::RepoNotFound(s) => "Repository not found: "@ + s@,
            TriforgeError::NetworkError(s) => "Network error: "@ + s@,
            TriforgeError::GitError(s) => "Git error: "@ + s@,
            TriforgeError::InvalidHash(s) => "Invalid repository hash: "@ + s@,
            TriforgeError::ConfigError(s) => "Configuration error: "@ + s@,
        }
    }

    /// The message to show for this failure.
    pub fn message(&self) -> (text: String)
        ensures
            text@ == self.message_text(),
    {
        match self {
            TriforgeError::NotGitRepo => "Not a git repository".to_string(),
            TriforgeError::NotAuthenticated =>
                "Authentication required. Run 'triforge login' first".to_string(),
            TriforgeError::RepoNotFound(s) => "Repository not found: ".to_string().concat(
                s.as_str(),
            ),
            TriforgeError::NetworkError(s) => "Network error: ".to_string().concat(s.as_str()),
            TriforgeError::GitError(s) => "Git error: ".to_string().concat(s.as_str()),
            TriforgeError::InvalidHash(s) => "Invalid repository hash: ".to_string().concat(
                s.as_str(),
            ),
            TriforgeError::ConfigError(s) => "Configuration error: ".to_string().concat(
                s.as_str(),
            ),
        }
    }
}

} // verus!
