//! Decisions of the command line: what an unusable fallback directory is
//! reported as, and the messages of the errors that stop a world from
//! being created.

use vstd::prelude::*;

use crate::fmt::{push_str, string_from_chars};

verus! {

/// Why a world could not be created. Paths are carried as they are shown.
pub enum WorldError {
    /// The input file does not appear to exist.
    InputNotFound(String),
    /// The input file lies outside the project root.
    InputEscapes,
    /// The input file path holds a backslash.
    InputBackslash,
    /// The input file path holds an invalid sequence, shown as written.
    InputInvalid(String),
    /// The input file path is not valid UTF-8.
    InputNotUtf8,
    /// The root directory does not appear to exist.
    RootNotFound(String),
    /// The fallback directory does not appear to exist.
    FallbackDirNotFound(String),
    /// The fallback directory is not a directory.
    FallbackDirNotADirectory(String),
    /// The requested creation timestamp was invalid.
    InvalidTimestamp,
    /// The inputs file could not be used, with the message saying why.
    Inputs(String),
    /// Another I/O error, with its message.
    Io(String),
}

/// The message of error `e`.
pub open spec fn error_message(e: WorldError) -> Seq<char> {
    match e {
        WorldError::InputNotFound(p) => "input file not found (searched at "@ + p@ + ")"@,
        WorldError::InputEscapes => "source file must be contained in project root"@,
        WorldError::InputBackslash => "source path must not contain a backslash"@,
        WorldError::InputInvalid(s) => "source path contains invalid sequence `"@ + s@ + "`"@,
        WorldError::InputNotUtf8 => "source path must be valid UTF-8"@,
        WorldError::RootNotFound(p) => "root directory not found (searched at "@ + p@ + ")"@,
        WorldError::FallbackDirNotFound(p) => "fallback directory not found (searched at "@ + p@ + ")"@,
        WorldError::FallbackDirNotADirectory(p) => "fallback directory is not a directory ("@ + p@ + ")"@,
        WorldError::InvalidTimestamp => "creation timestamp out of range"@,
        WorldError::Inputs(m) => m@,
        WorldError::Io(m) => m@,
    }
}

impl WorldError {
    /// The message this error is shown with.
    pub fn message(&self) -> (r: String)
        ensures
            r@ == error_message(*self),
    {
        let mut out: Vec<char> = Vec::new();
        match self {
            WorldError::InputNotFound(p) => {
                push_str(&mut out, "input file not found (searched at ");
                push_str(&mut out, p.as_str());
                push_str(&mut out, ")");
            },
            WorldError::InputEscapes => push_str(&mut out, "source file must be contained in project root"),
            WorldError::InputBackslash => push_str(&mut out, "source path must not contain a backslash"),
            WorldError::InputInvalid(s) => {
                push_str(&mut out, "source path contains invalid sequence `");
                push_str(&mut out, s.as_str());
                push_str(&mut out, "`");
            },
            WorldError::InputNotUtf8 => push_str(&mut out, "source path must be valid UTF-8"),
            WorldError::RootNotFound(p) => {
                push_str(&mut out, "root directory not found (searched at ");
                push_str(&mut out, p.as_str());
                push_str(&mut out, ")");
            },
            WorldError::FallbackDirNotFound(p) => {
                push_str(&mut out, "fallback directory not found (searched at ");
                push_str(&mut out, p.as_str());
                push_str(&mut out, ")");
            },
            WorldError::FallbackDirNotADirectory(p) => {
                push_str(&mut out, "fallback directory is not a directory (");
                push_str(&mut out, p.as_str());
                push_str(&mut out, ")");
            },
            WorldError::InvalidTimestamp => push_str(&mut out, "creation timestamp out of range"),
            WorldError::Inputs(m) => push_str(&mut out, m.as_str()),
            WorldError::Io(m) => push_str(&mut out, m.as_str()),
        }
        assert(out@ =~= error_message(*self));
        string_from_chars(&out)
    }
}

/// What canonicalizing a path gave: the real path and whether it is a
/// directory, that it does not exist, or another I/O error with its
/// message.
pub enum Canonicalized {
    Found { path: String, is_dir: bool },
    NotFound,
    Failed(String),
}

/// The fallback directory given as `dir`, once canonicalized: its real
/// path, if it is a directory.
pub fn fallback_dir(dir: &str, canonical: Canonicalized) -> (r: Result<String, WorldError>)
    ensures
        match canonical {
            Canonicalized::Found { path, is_dir } => if is_dir {
                r == Ok::<String, WorldError>(path)
            } else {
                r matches Err(WorldError::FallbackDirNotADirectory(d)) && d@ == dir@
            },
            Canonicalized::NotFound => r matches Err(WorldError::FallbackDirNotFound(d)) && d@ == dir@,
            Canonicalized::Failed(m) => r == Err::<String, WorldError>(WorldError::Io(m)),
        },
{
    let mut shown: Vec<char> = Vec::new();
    push_str(&mut shown, dir);
    match canonical {
        Canonicalized::Found { path, is_dir } => if is_dir {
            Ok(path)
        } else {
            Err(WorldError::FallbackDirNotADirectory(string_from_chars(&shown)))
        },
        Canonicalized::NotFound => Err(WorldError::FallbackDirNotFound(string_from_chars(&shown))),
        Canonicalized::Failed(m) => Err(WorldError::Io(m)),
    }
}

} // verus!
