use closure_store::clipboard::{paste_result, split_command};
use closure_store::ring::{next_revision, KillRing};
use closure_store::{Clipboard, MemoryClipboard, SystemClipboard, VaultError};

#[test]
fn memory_clipboard_round_trips_text() {
    let mut clip = MemoryClipboard::default();
    assert_eq!(clip.get(), None, "empty by default");
    clip.set("hello");
    assert_eq!(clip.get().as_deref(), Some("hello"));
}

#[test]
fn memory_clipboard_set_replaces_the_old_text() {
    let mut clip = MemoryClipboard::default();
    clip.set("first");
    clip.set("second");
    assert_eq!(clip.get().as_deref(), Some("second"));
}

#[test]
fn ring_top_is_the_last_push() {
    let mut ring = KillRing::new();
    assert_eq!(ring.ring_top(), None);
    ring.push_kill_ring("* One\n".to_owned());
    ring.push_kill_ring("* Two\n".to_owned());
    assert_eq!(ring.ring_top(), Some("* Two\n"));
    assert_eq!(ring.len(), 2);
    assert_eq!(ring.paste_source().expect("filled"), "* Two\n");
}

#[test]
fn paste_from_an_empty_ring_is_refused() {
    let ring = KillRing::new();
    match ring.paste_source() {
        Err(VaultError::Command(m)) => assert_eq!(m, "kill ring is empty"),
        other => panic!("expected a refusal, got {other:?}"),
    }
}

#[test]
fn ring_top_mirrors_out_to_a_clipboard() {
    let mut ring = KillRing::new();
    ring.push_kill_ring("* Cut\n".to_owned());
    let mut clip = MemoryClipboard::default();
    ring.mirror_ring_top_to_clipboard(&mut clip);
    assert_eq!(clip.get().as_deref(), Some("* Cut\n"));
    assert_eq!(ring.len(), 1, "the ring is unchanged");
}

#[test]
fn mirroring_an_empty_ring_leaves_the_clipboard_alone() {
    let ring = KillRing::new();
    let mut clip = MemoryClipboard::default();
    clip.set("outside");
    ring.mirror_ring_top_to_clipboard(&mut clip);
    assert_eq!(clip.get().as_deref(), Some("outside"));
}

#[test]
fn clipboard_text_is_pulled_onto_the_ring() {
    let mut ring = KillRing::new();
    let mut clip = MemoryClipboard::default();
    ring.pull_clipboard_to_ring(&clip);
    assert_eq!(ring.len(), 0, "an empty clipboard pulls nothing");
    clip.set("* Pasted\n");
    ring.pull_clipboard_to_ring(&clip);
    assert_eq!(ring.ring_top(), Some("* Pasted\n"));
}

#[test]
fn wayland_clipboard_runs_wl_copy_and_wl_paste() {
    let c = SystemClipboard::wayland();
    let (prog, args) = c.copy_invocation().expect("copy");
    assert_eq!(prog, "wl-copy");
    assert!(args.is_empty());
    let (prog, args) = c.paste_invocation().expect("paste");
    assert_eq!(prog, "wl-paste");
    assert_eq!(args, vec!["--no-newline".to_owned()]);
}

#[test]
fn an_empty_command_line_runs_nothing() {
    let c = SystemClipboard::new(Vec::new(), vec!["xclip".to_owned(), "-o".to_owned()]);
    assert!(c.copy_invocation().is_none());
    let (prog, args) = c.paste_invocation().expect("paste");
    assert_eq!(prog, "xclip");
    assert_eq!(args, vec!["-o".to_owned()]);
    let argv = vec!["pbcopy".to_owned()];
    assert_eq!(split_command(&argv), Some(("pbcopy".to_owned(), Vec::new())));
}

#[test]
fn a_failed_paste_yields_nothing() {
    assert_eq!(paste_result(true, b"text"), Some("text".to_owned()));
    assert_eq!(paste_result(false, b"text"), None);
    assert_eq!(paste_result(true, b"caf\xc3\xa9"), Some("caf\u{e9}".to_owned()));
    assert_eq!(paste_result(true, b"a\xffb"), Some("a\u{FFFD}b".to_owned()));
}

#[test]
fn the_change_token_always_moves() {
    assert_eq!(next_revision(0), 1);
    assert_eq!(next_revision(41), 42);
    assert_eq!(next_revision(u64::MAX), 0);
}
