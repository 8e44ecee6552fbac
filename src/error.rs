//! The library's error kinds.
use vstd::prelude::*;
use vstd::string::*;

verus! {

/// A failure of one operation, with a human-readable detail.
#[derive(Debug, Clone)]
pub enum AppError {
    /// The service manager could not be run, reported a failure, or the
    /// operation was refused by policy.
    Launchctl(String),
    /// Property-list content is malformed or has the wrong shape.
    Plist(String),
    /// A filesystem operation failed.
    Io(String),
    /// A referenced file does not exist.
    NotFound(String),
}

impl AppError {
    /// The rendered form of the error: its kind, then its detail.
    pub open spec fn spec_message(&self) -> Seq<char> {
        match self {
            AppError::Launchctl(m) => "launchctl error: "@ + m@,
            AppError::Plist(m) => "plist error: "@ + m@,
            AppError::Io(m) => "io error: "@ + m@,
            AppError::NotFound(m) => "file not found: "@ + m@,
        }
    }

    pub fn message(&self) -> (r: String)
        ensures
            r@ == self.spec_message(),
    {
        let (mut r, detail) = match self {
            AppError::Launchctl(m) => (String::from_str("launchctl error: "), m),
            AppError::Plist(m) => (String::from_str("plist error: "), m),
            AppError::Io(m) => (String::from_str("io error: "), m),
            AppError::NotFound(m) => (String::from_str("file not found: "), m),
        };
        r.append(detail.as_str());
        r
    }
}

} // verus!
