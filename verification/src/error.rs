//! Error type for the core library.
//!
//! The variant set and the messages are a published contract: a foreign
//! client branches on the variant and shows the message to a photographer.
//! Failures of one item inside a batch are not errors — they are reported per
//! item in the outcome structs so the rest of the run still happens.

use vstd::prelude::*;

use crate::text::{chars_of, extend, string_of};

verus! {

/// Everything the core can fail with.
#[derive(Debug)]
pub enum Error {
    /// The path escapes the library root, or is otherwise not addressable — a
    /// refusal, not a mishap: `..`, an absolute path, a NUL, a backslash.
    InvalidPath(String),
    /// No album at that path. Carries the path asked for.
    AlbumNotFound(String),
    /// No photo with that id. Carries the id, stringified.
    PhotoNotFound(String),
    /// An album already occupies that path, on create, rename or move.
    AlbumExists(String),
    /// This build cannot handle that kind of file.
    Unsupported(String),
    /// A photo's source is registered but not reachable right now.
    SourceOffline {
        /// The source's display name.
        name: String,
        /// Where the source is expected to be.
        path: String,
    },
    /// A folder offered as a source's new location does not hold the photos
    /// that source is catalogued with.
    SourceMismatch {
        /// Human-readable explanation, naming the source and the file.
        message: String,
        /// The sampled file, relative to the source root.
        file: String,
    },
    /// Sync found divergent changes on both sides.
    SyncConflict {
        /// What diverged — an album path, or a file path within one.
        entity: String,
    },
    /// Anything without a variant of its own; the message stands alone.
    Other(String),
}

/// The message a person reads for each error.
pub open spec fn error_text(e: Error) -> Seq<char> {
    match e {
        Error::InvalidPath(p) => "invalid path: "@ + p@,
        Error::AlbumNotFound(p) => "album not found: "@ + p@,
        Error::PhotoNotFound(p) => "photo not found: "@ + p@,
        Error::AlbumExists(p) => "album already exists: "@ + p@,
        Error::Unsupported(p) => "unsupported media type: "@ + p@,
        Error::SourceOffline { name, path } => "source '"@ + name@ + "' is not available (expected at "@
            + path@ + ")"@,
        Error::SourceMismatch { message, file } => message@,
        Error::SyncConflict { entity } => "sync conflict for "@ + entity@
            + ": changed locally and remotely"@,
        Error::Other(m) => m@,
    }
}

fn cat2(a: &str, b: &String) -> (r: String)
    ensures
        r@ == a@ + b@,
{
    let mut v = chars_of(a);
    let w = chars_of(b.as_str());
    extend(&mut v, &w);
    string_of(&v)
}

impl Error {
    /// A message-only failure. The message is the entire diagnosis a foreign
    /// caller receives.
    pub fn other(msg: &str) -> (r: Error)
        ensures
            r matches Error::Other(m) && m@ == msg@,
    {
        Error::Other(msg.to_owned())
    }

    /// The message shown to a person — the text the shell displays.
    pub fn message(&self) -> (r: String)
        ensures
            r@ == error_text(*self),
    {
        match self {
            Error::InvalidPath(p) => cat2("invalid path: ", p),
            Error::AlbumNotFound(p) => cat2("album not found: ", p),
            Error::PhotoNotFound(p) => cat2("photo not found: ", p),
            Error::AlbumExists(p) => cat2("album already exists: ", p),
            Error::Unsupported(p) => cat2("unsupported media type: ", p),
            Error::SourceOffline { name, path } => {
                let mut v = chars_of("source '");
                extend(&mut v, &chars_of(name.as_str()));
                extend(&mut v, &chars_of("' is not available (expected at "));
                extend(&mut v, &chars_of(path.as_str()));
                extend(&mut v, &chars_of(")"));
                string_of(&v)
            },
            Error::SourceMismatch { message, file } => message.clone(),
            Error::SyncConflict { entity } => {
                let mut v = chars_of("sync conflict for ");
                extend(&mut v, &chars_of(entity.as_str()));
                extend(&mut v, &chars_of(": changed locally and remotely"));
                string_of(&v)
            },
            Error::Other(m) => m.clone(),
        }
    }
}

} // verus!
