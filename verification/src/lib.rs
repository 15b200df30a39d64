//! The storage logic of an org-mode vault: the block-id and backlink
//! indices with their change token, the logbook clock, outline
//! re-levelling, capture, archive and refile, `#+TODO:` declarations,
//! the form and tool wires, the agenda, summary statistics, the kill
//! ring and the clipboard bridge, each with a verified contract.

#![allow(unused_imports)]

pub mod agenda;
pub mod civil;
pub mod clock;
pub mod command;
pub mod clipboard;
pub mod entry;
pub mod error;
pub mod files;
pub mod form;
pub mod headlines;
pub mod index;
pub mod keywords;
pub mod order;
pub mod outline;
pub mod ring;
pub mod stats;
pub mod text;
pub mod tool;
pub mod tree;

pub use clipboard::{Clipboard, MemoryClipboard, SystemClipboard};
pub use error::{AgendaEntry, AgendaKind, CaptureTemplate, VaultError, VaultEvent, VaultEventKind};
