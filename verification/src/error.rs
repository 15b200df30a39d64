//! Errors while operating on a vault, and the plain records a vault
//! hands out (agenda rows, capture templates, watcher events).

use std::path::PathBuf;
use crate::text::push_str_chars;
use vstd::prelude::*;

verus! {

/// `std::path::PathBuf`, carried through opaquely.
#[verifier::external_type_specification]
#[verifier::external_body]
pub struct ExPathBuf(std::path::PathBuf);

/// `PathBuf::clone`, which the records' derived `Clone` calls: a path
/// is carried through opaquely, so nothing is stated of the copy.
pub assume_specification[ <std::path::PathBuf as Clone>::clone ](p: &PathBuf) -> PathBuf;

/// `std::io::Error`, carried through opaquely.
#[verifier::external_type_specification]
#[verifier::external_body]
pub struct ExIoError(std::io::Error);

/// Errors while operating on a vault.
#[derive(Debug)]
pub enum VaultError {
    /// Filesystem error.
    Io(std::io::Error),
    /// A document failed to parse.
    Parse {
        /// The file that failed.
        path: PathBuf,
    },
    /// The vault root does not exist.
    NoVault {
        /// The path that was asked for.
        path: PathBuf,
    },
    /// The vault root exists but is a file.
    NotADirectory {
        /// The path that was asked for.
        path: PathBuf,
    },
    /// Watcher subsystem error.
    Watch(String),
    /// No headline with this block id exists in the vault.
    UnknownId(String),
    /// Undo/redo could not walk the history.
    Undo(String),
    /// A kernel command refused the edit.
    Command(String),
    /// Code-block evaluation refused: the block's language is not in the
    /// vault's `eval_trust` allowlist.
    EvalBlocked {
        /// The block's language as written.
        lang: String,
    },
}

/// How a path reads in a message: `Path::display`. Nothing is stated
/// of the text, since a path is carried through opaquely.
#[verifier::external_body]
fn path_text(p: &PathBuf) -> (r: String) {
    p.display().to_string()
}

/// How an I/O error reads in a message: its `Display`. Nothing is
/// stated of the text, which comes from the operating system.
#[verifier::external_body]
fn io_text(e: &std::io::Error) -> (r: String) {
    e.to_string()
}

/// `m` is the message of `e`. The text of a path and of an I/O error is
/// not stated: a path is carried through opaquely, and an I/O error's
/// text comes from the operating system.
pub open spec fn message_is(e: VaultError, m: Seq<char>) -> bool {
    match e {
        VaultError::Io(_) => exists|t: Seq<char>| m == "io: "@ + t,
        VaultError::Parse { .. } => exists|t: Seq<char>| m == "parse error in "@ + t,
        VaultError::NoVault { .. } => exists|t: Seq<char>|
            m == "no vault at "@ + t + " \u{2014} `closure init-vault "@ + t + "` makes one there"@,
        VaultError::NotADirectory { .. } => exists|t: Seq<char>| m == t + " is a file, not a vault directory"@,
        VaultError::Watch(x) => m == "watch: "@ + x@,
        VaultError::UnknownId(x) => m == "unknown block id: "@ + x@,
        VaultError::Undo(x) => m == "undo: "@ + x@,
        VaultError::Command(x) => m == "command: "@ + x@,
        VaultError::EvalBlocked { lang } => m == "eval blocked: `"@ + lang@
            + "` not in eval_trust (add it to config.org to allow)"@,
    }
}

impl VaultError {
    /// The error's message, as a user reads it.
    pub fn message(&self) -> (r: String)
        ensures
            message_is(*self, r@),
    {
        let mut r = String::new();
        match self {
            VaultError::Io(e) => {
                push_str_chars(&mut r, "io: ");
                let t = io_text(e);
                push_str_chars(&mut r, t.as_str());
            },
            VaultError::Parse { path } => {
                push_str_chars(&mut r, "parse error in ");
                let t = path_text(path);
                push_str_chars(&mut r, t.as_str());
            },
            VaultError::NoVault { path } => {
                let t = path_text(path);
                push_str_chars(&mut r, "no vault at ");
                push_str_chars(&mut r, t.as_str());
                push_str_chars(&mut r, " \u{2014} `closure init-vault ");
                push_str_chars(&mut r, t.as_str());
                push_str_chars(&mut r, "` makes one there");
            },
            VaultError::NotADirectory { path } => {
                let t = path_text(path);
                push_str_chars(&mut r, t.as_str());
                push_str_chars(&mut r, " is a file, not a vault directory");
            },
            VaultError::Watch(m) => {
                push_str_chars(&mut r, "watch: ");
                push_str_chars(&mut r, m.as_str());
            },
            VaultError::UnknownId(m) => {
                push_str_chars(&mut r, "unknown block id: ");
                push_str_chars(&mut r, m.as_str());
            },
            VaultError::Undo(m) => {
                push_str_chars(&mut r, "undo: ");
                push_str_chars(&mut r, m.as_str());
            },
            VaultError::Command(m) => {
                push_str_chars(&mut r, "command: ");
                push_str_chars(&mut r, m.as_str());
            },
            VaultError::EvalBlocked { lang } => {
                push_str_chars(&mut r, "eval blocked: `");
                push_str_chars(&mut r, lang.as_str());
                push_str_chars(&mut r, "` not in eval_trust (add it to config.org to allow)");
            },
        }
        r
    }
}

/// Which planning line produced an [`AgendaEntry`].
#[derive(Debug, Clone, Copy, PartialEq, Eq)]
pub enum AgendaKind {
    /// `SCHEDULED:` planning line.
    Scheduled,
    /// `DEADLINE:` planning line.
    Deadline,
}

/// One agenda row: a planned headline.
#[derive(Debug, Clone, PartialEq, Eq)]
pub struct AgendaEntry {
    /// File containing the headline.
    pub path: PathBuf,
    /// Stable block id.
    pub id: String,
    /// Headline title.
    pub title: String,
    /// Scheduled or deadline.
    pub kind: AgendaKind,
    /// `YYYY-MM-DD` extracted from the org timestamp.
    pub date: String,
    /// For a deadline, how many days before its date the row is shown:
    /// the stamp's `-Nd`, else org's default of fourteen. A scheduled
    /// row is shown from its own date, whatever this holds.
    pub warning_days: u32,
}

/// An org-capture template: where a new entry lands and what it
/// looks like. The title is supplied per capture; the entry always
/// receives a fresh `:ID:` drawer.
#[derive(Debug, Clone)]
pub struct CaptureTemplate {
    /// Target file, relative to the vault root. Created when missing.
    pub target: PathBuf,
    /// Text inserted between the stars and the title, e.g. `"TODO "`.
    pub headline_prefix: String,
    /// Skeleton lines appended below the property drawer.
    pub body: String,
}

/// A change event for an `*.org` file in the vault.
#[derive(Debug, Clone, PartialEq, Eq)]
pub struct VaultEvent {
    /// Affected file.
    pub path: PathBuf,
    /// What happened.
    pub kind: VaultEventKind,
}

/// Coarse classification of a vault file event.
#[derive(Debug, Clone, Copy, PartialEq, Eq)]
pub enum VaultEventKind {
    /// File created.
    Created,
    /// File modified.
    Modified,
    /// File removed.
    Removed,
}

} // verus!
