//! The clipboard bridge: the kill ring is the hub; a [`Clipboard`]
//! mirrors its top entry out to an external clipboard and pulls
//! external text in. Cut and paste never depend on a clipboard, so the
//! bridge is additive. The hermetic default is [`MemoryClipboard`]; a
//! real system clipboard is [`SystemClipboard`], which names the
//! platform tools to run.

use crate::text::{lossy_utf8, utf8_lossy};
use vstd::prelude::*;
use vstd::utf8::{decode_utf8, valid_utf8};

verus! {

/// A minimal clipboard surface: set the contents, read them back.
pub trait Clipboard {
    /// Replace the clipboard contents with `text`.
    fn set(&mut self, text: &str);

    /// The current clipboard contents, or `None` if empty/unavailable.
    fn get(&self) -> Option<String>;
}

/// `got` is a result that `clip`'s own `get` may give.
pub open spec fn get_may_give<C: Clipboard>(clip: &C, got: Option<String>) -> bool {
    call_ensures(C::get, (clip,), got)
}

/// Hermetic in-memory clipboard: one slot, no I/O, so it works the same
/// on every platform and in tests.
#[derive(Debug)]
pub struct MemoryClipboard {
    slot: Option<String>,
}

impl MemoryClipboard {
    /// What the clipboard currently holds.
    pub closed spec fn contents(&self) -> Option<Seq<char>> {
        match self.slot {
            Some(s) => Some(s@),
            None => None,
        }
    }
}

impl Default for MemoryClipboard {
    /// An empty clipboard.
    fn default() -> (r: Self)
        ensures
            r.contents() is None,
    {
        MemoryClipboard { slot: None }
    }
}

impl Clone for MemoryClipboard {
    fn clone(&self) -> (r: Self)
        ensures
            r.contents() == self.contents(),
    {
        match &self.slot {
            Some(s) => MemoryClipboard { slot: Some(s.clone()) },
            None => MemoryClipboard { slot: None },
        }
    }
}

impl Clipboard for MemoryClipboard {
    fn set(&mut self, text: &str)
        ensures
            final(self).contents() == Some(text@),
    {
        self.slot = Some(text.to_owned());
    }

    fn get(&self) -> (r: Option<String>)
        ensures
            match r {
                Some(s) => self.contents() == Some(s@),
                None => self.contents() is None,
            },
    {
        match &self.slot {
            Some(s) => Some(s.clone()),
            None => None,
        }
    }
}

/// The characters of each argument of a command line.
pub open spec fn argv_view(v: Seq<String>) -> Seq<Seq<char>> {
    v.map_values(|s: String| s@)
}

/// A real OS clipboard, driven by a copy command (which reads the text
/// on its standard input: `wl-copy`, `xclip -selection clipboard`,
/// `pbcopy`) and a paste command (which prints it: `wl-paste`,
/// `xclip -selection clipboard -o`, `pbpaste`).
#[derive(Debug, Clone)]
pub struct SystemClipboard {
    copy_cmd: Vec<String>,
    paste_cmd: Vec<String>,
}

impl SystemClipboard {
    /// The copy command line.
    pub closed spec fn copy_argv(&self) -> Seq<Seq<char>> {
        argv_view(self.copy_cmd@)
    }

    /// The paste command line.
    pub closed spec fn paste_argv(&self) -> Seq<Seq<char>> {
        argv_view(self.paste_cmd@)
    }

    /// A clipboard driven by explicit copy/paste argument vectors, so
    /// the caller picks the tool for their platform.
    pub fn new(copy_cmd: Vec<String>, paste_cmd: Vec<String>) -> (r: Self)
        ensures
            r.copy_argv() == argv_view(copy_cmd@),
            r.paste_argv() == argv_view(paste_cmd@),
    {
        Self { copy_cmd, paste_cmd }
    }

    /// Wayland defaults: `wl-copy` / `wl-paste --no-newline`.
    pub fn wayland() -> (r: Self)
        ensures
            r.copy_argv() == seq!["wl-copy"@],
            r.paste_argv() == seq!["wl-paste"@, "--no-newline"@],
    {
        let mut copy: Vec<String> = Vec::new();
        copy.push("wl-copy".to_owned());
        let mut paste: Vec<String> = Vec::new();
        paste.push("wl-paste".to_owned());
        paste.push("--no-newline".to_owned());
        let r = Self::new(copy, paste);
        assert(r.copy_argv() =~= seq!["wl-copy"@]);
        assert(r.paste_argv() =~= seq!["wl-paste"@, "--no-newline"@]);
        r
    }

    /// The program and arguments that copying runs, `None` when the copy
    /// command line is empty (copying then does nothing).
    pub fn copy_invocation(&self) -> (r: Option<(String, Vec<String>)>)
        ensures
            invocation_of(self.copy_argv(), r),
    {
        split_command(&self.copy_cmd)
    }

    /// The program and arguments that pasting runs, `None` when the paste
    /// command line is empty (pasting then yields nothing).
    pub fn paste_invocation(&self) -> (r: Option<(String, Vec<String>)>)
        ensures
            invocation_of(self.paste_argv(), r),
    {
        split_command(&self.paste_cmd)
    }
}

/// `r` is the program (first argument) and the remaining arguments of
/// `argv`, or `None` when `argv` is empty.
pub open spec fn invocation_of(argv: Seq<Seq<char>>, r: Option<(String, Vec<String>)>) -> bool {
    match r {
        Some((prog, args)) => argv.len() > 0 && prog@ == argv[0] && argv_view(args@) == argv.drop_first(),
        None => argv.len() == 0,
    }
}

/// `argv.split_first()`, copied out.
pub fn split_command(argv: &Vec<String>) -> (r: Option<(String, Vec<String>)>)
    ensures
        invocation_of(argv_view(argv@), r),
{
    if argv.len() == 0 {
        return None;
    }
    let prog = argv[0].clone();
    let mut args: Vec<String> = Vec::new();
    let mut i: usize = 1;
    while i < argv.len()
        invariant
            1 <= i <= argv.len(),
            args@ == argv@.subrange(1, i as int),
        decreases argv.len() - i,
    {
        args.push(argv[i].clone());
        i = i + 1;
        assert(args@ =~= argv@.subrange(1, i as int));
    }
    assert(argv@.subrange(1, i as int) =~= argv@.drop_first());
    assert(argv_view(args@) =~= argv_view(argv@).drop_first());
    Some((prog, args))
}

/// What a paste run yields: its output read as text (each invalid
/// UTF-8 sequence as U+FFFD) when it succeeded, `None` otherwise.
pub fn paste_result(success: bool, stdout: &[u8]) -> (r: Option<String>)
    ensures
        success ==> (r matches Some(s) && s@ == lossy_utf8(stdout@)),
        success && valid_utf8(stdout@) ==> (r matches Some(s) && s@ == decode_utf8(stdout@)),
        !success ==> r is None,
{
    if success {
        Some(utf8_lossy(stdout))
    } else {
        None
    }
}

} // verus!
