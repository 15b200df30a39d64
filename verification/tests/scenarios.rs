//! Vault scenarios, followed through the pieces of logic each one is
//! made of: a headline's body through the clock, the tool line through
//! its parser, a subtree through the refile guard and the archive.

use std::path::PathBuf;

use closure_store::agenda::{agenda_until, planned_dates, sort_agenda};
use closure_store::civil::clock_span_minutes;
use closure_store::clock::{clock_cancel_body, clock_in_at, clock_out_at, running_clock};
use closure_store::entry::{archive_file_name, archive_text, refile_guard, refiled_subtree};
use closure_store::ring::KillRing;
use closure_store::tool::{no_such_file_reply, parse_tool_line, search_hit_line, title_matches, ToolCall};
use closure_store::{AgendaEntry, AgendaKind, Clipboard, MemoryClipboard};

const FIRST: &str = "01HQCLOCK00000000000000001";
const SECOND: &str = "01HQCLOCK00000000000000002";

fn bodies(first: &str, second: &str) -> Vec<(String, String)> {
    vec![(FIRST.to_owned(), first.to_owned()), (SECOND.to_owned(), second.to_owned())]
}

#[test]
fn v3_clocking_in_opens_a_logbook_entry() {
    let src = clock_in_at("notes about it\n", "2026-07-28 09:15").expect("clock in");
    assert!(src.contains(":LOGBOOK:"), "{src}");
    assert!(src.contains("CLOCK: [2026-07-28 Tue 09:15]"), "{src}");
    assert!(src.contains("notes about it"), "the body survives: {src}");
}

#[test]
fn v3_clocking_out_closes_it_with_the_duration() {
    let open = clock_in_at("notes about it\n", "2026-07-28 09:15").expect("in");
    let src = clock_out_at(&open, "2026-07-28 10:45").expect("out");
    assert!(src.contains("CLOCK: [2026-07-28 Tue 09:15]--[2026-07-28 Tue 10:45] =>  1:30"), "{src}");
}

#[test]
fn v3_the_open_clock_is_findable() {
    assert_eq!(running_clock(&bodies("notes about it\n", "")), None);
    let open = clock_in_at("notes about it\n", "2026-07-28 09:15").expect("in");
    let (running, started) = running_clock(&bodies(&open, "")).expect("a clock is running");
    assert_eq!(running, FIRST);
    assert_eq!(started, "2026-07-28 Tue 09:15");
    let closed = clock_out_at(&open, "2026-07-28 10:45").expect("out");
    assert_eq!(running_clock(&bodies(&closed, "")), None);
}

#[test]
fn v3_clocking_in_elsewhere_closes_the_clock_that_was_running() {
    let first = clock_in_at("notes about it\n", "2026-07-28 09:15").expect("in");
    let (running, _) = running_clock(&bodies(&first, "")).expect("running");
    assert_eq!(running, FIRST);
    let first = clock_out_at(&first, "2026-07-28 10:00").expect("close the running one");
    let second = clock_in_at("", "2026-07-28 10:00").expect("in again");
    assert!(
        first.contains("CLOCK: [2026-07-28 Tue 09:15]--[2026-07-28 Tue 10:00] =>  0:45"),
        "the first one was closed: {first}"
    );
    let (running, _) = running_clock(&bodies(&first, &second)).expect("the second is running");
    assert_eq!(running, SECOND);
}

#[test]
fn v3_cancelling_removes_the_open_entry() {
    let open = clock_in_at("notes about it\n", "2026-07-28 09:15").expect("in");
    let src = clock_cancel_body(&open).expect("cancel");
    assert!(!src.contains("CLOCK:"), "no entry left: {src}");
    assert_eq!(running_clock(&bodies(&src, "")), None);
}

#[test]
fn v3_clocking_out_with_nothing_running_is_an_error_not_a_mess() {
    assert!(clock_out_at("notes about it\n", "2026-07-28 10:45").is_err());
}

#[test]
fn v3_clocked_time_adds_up_per_headline() {
    let b = clock_in_at("notes about it\n", "2026-07-28 09:15").expect("in");
    let b = clock_out_at(&b, "2026-07-28 10:45").expect("out");
    let b = clock_in_at(&b, "2026-07-28 13:00").expect("in");
    let b = clock_out_at(&b, "2026-07-28 13:30").expect("out");
    assert!(b.contains("--[2026-07-28 Tue 10:45] =>  1:30"), "{b}");
    assert!(b.contains("--[2026-07-28 Tue 13:30] =>  0:30"), "{b}");
    let total = clock_span_minutes("2026-07-28 Tue 09:15", "2026-07-28 Tue 10:45").expect("span")
        + clock_span_minutes("2026-07-28 Tue 13:00", "2026-07-28 Tue 13:30").expect("span");
    assert_eq!(total, 120, "90 + 30");
}

fn rows(headlines: &[(&str, Option<&str>, Option<&str>)]) -> Vec<AgendaEntry> {
    let mut out = Vec::new();
    for (title, scheduled, deadline) in headlines {
        for (kind, date, warning_days) in planned_dates(*scheduled, *deadline) {
            out.push(AgendaEntry {
                path: PathBuf::from("a.org"),
                id: format!("{title}-id"),
                title: (*title).to_owned(),
                kind,
                date,
                warning_days,
            });
        }
    }
    sort_agenda(out)
}

#[test]
fn agenda_collects_scheduled_and_deadline_sorted_by_date() {
    let ag = rows(&[
        ("Later", None, Some("<2026-06-20 Sat>")),
        ("Soon", Some("<2026-06-13 Fri>"), None),
        ("No planning", None, None),
    ]);
    assert_eq!(ag.len(), 2, "only planned headlines");
    assert_eq!(ag[0].title, "Soon", "earliest first");
    assert_eq!(ag[0].kind, AgendaKind::Scheduled);
    assert_eq!(ag[0].date, "2026-06-13");
    assert_eq!(ag[1].title, "Later");
    assert_eq!(ag[1].kind, AgendaKind::Deadline);
}

#[test]
fn agenda_filters_to_on_or_before() {
    let ag = rows(&[("A", Some("<2026-06-13 Fri>"), None), ("B", Some("<2026-06-30 Tue>"), None)]);
    let upto = agenda_until(ag, "2026-06-20");
    assert_eq!(upto.len(), 1);
    assert_eq!(upto[0].title, "A");
}

#[test]
fn agenda_empty_without_planning() {
    assert!(rows(&[("Plain", None, None), ("Another", None, None)]).is_empty());
}

#[test]
fn paste_with_empty_ring_errors() {
    assert!(KillRing::new().paste_source().is_err());
}

#[test]
fn kill_ring_works_without_any_clipboard() {
    let mut ring = KillRing::new();
    ring.push_kill_ring("* One\n".to_owned());
    assert_eq!(ring.paste_source().expect("paste"), "* One\n");
}

#[test]
fn ring_top_mirrors_out_to_the_clipboard() {
    let mut ring = KillRing::new();
    ring.push_kill_ring("* One\n:PROPERTIES:\n:ID: 01HX0000000000000000000001\n:END:\nbody one\n".to_owned());
    let top = ring.ring_top().expect("ring filled").to_owned();
    let mut clip = MemoryClipboard::default();
    ring.mirror_ring_top_to_clipboard(&mut clip);
    assert_eq!(clip.get().as_deref(), Some(top.as_str()), "cut -> kill ring -> clipboard");
}

#[test]
fn external_clipboard_pulls_into_the_ring_then_pastes() {
    let mut ring = KillRing::new();
    let mut clip = MemoryClipboard::default();
    clip.set("* Pasted\n:PROPERTIES:\n:ID: 01HX0000000000000000000099\n:END:\n");
    ring.pull_clipboard_to_ring(&clip);
    assert_eq!(
        ring.ring_top(),
        Some("* Pasted\n:PROPERTIES:\n:ID: 01HX0000000000000000000099\n:END:\n"),
        "clipboard -> kill ring"
    );
}

#[test]
fn v1_refiling_a_headline_into_itself_is_refused() {
    assert!(refile_guard("01HQREFILE0000000000000001", "01HQREFILE0000000000000001").is_err());
}

#[test]
fn v1_refiling_into_ones_own_child_is_refused() {
    let inbox = "* TODO Buy milk\n:PROPERTIES:\n:ID: 01HQREFILE0000000000000001\n:END:\nwith the good label\n** TODO and cheese\n:PROPERTIES:\n:ID: 01HQREFILE0000000000000002\n:END:\n";
    assert!(refile_guard("01HQREFILE0000000000000001", "01HQREFILE0000000000000002").is_ok());
    assert!(refiled_subtree("01HQREFILE0000000000000002", true, inbox, 1, 2, &vec![0], &vec![0, 0]).is_err());
}

#[test]
fn v2_a_second_archive_appends_rather_than_replaces() {
    assert_eq!(archive_file_name("inbox.org"), "inbox.org_archive");
    let first = archive_text("", "* TODO Buy milk\n");
    let second = archive_text(&first, "* Other top level\n");
    assert!(second.contains("Buy milk"), "{second}");
    assert!(second.contains("Other top level"), "{second}");
}

#[test]
fn unknown_tool_is_error_with_help() {
    match parse_tool_line("frobnicate") {
        ToolCall::Refused(out) => {
            assert!(out.starts_with("ERROR"));
            assert!(out.contains("list-files"), "error names available tools");
        }
        other => panic!("unexpected {other:?}"),
    }
}

#[test]
fn malformed_args_are_error_text_not_panic() {
    for line in ["rename", "set-property onlyid", "capture"] {
        match parse_tool_line(line) {
            ToolCall::Refused(out) => assert!(out.starts_with("ERROR"), "{out}"),
            other => panic!("unexpected {other:?}"),
        }
    }
}

#[test]
fn read_missing_file_is_error_text() {
    match parse_tool_line("read nope.org") {
        ToolCall::Read(p) => assert!(no_such_file_reply(&p).starts_with("ERROR")),
        other => panic!("unexpected {other:?}"),
    }
}

#[test]
fn search_lists_matching_titles_with_ids() {
    let needle = match parse_tool_line("search wiki") {
        ToolCall::Search(n) => n,
        other => panic!("unexpected {other:?}"),
    };
    let mut out = String::new();
    for (id, title) in [("01A", "Ship parser"), ("01B", "Personal wiki")] {
        if title_matches(title, &needle) {
            out.push_str(&search_hit_line(id, title, "notes.org"));
        }
    }
    assert!(out.contains("Personal wiki"));
    assert!(!out.contains("Ship parser"));
}

fn titles(ag: &[AgendaEntry], today: &str) -> Vec<String> {
    agenda_until(ag.to_vec(), today).into_iter().map(|e| e.title).collect()
}

const PLAIN: (&str, Option<&str>, Option<&str>) = ("Tax return", None, Some("<2026-08-20 Thu>"));
const NARROWED: (&str, Option<&str>, Option<&str>) = ("Bin day", None, Some("<2026-08-20 Thu -2d>"));

#[test]
fn a_deadline_is_mentioned_before_the_day() {
    let v = rows(&[PLAIN]);
    assert!(titles(&v, "2026-08-09").contains(&"Tax return".to_owned()));
}

#[test]
fn but_not_before_the_warning_period_opens() {
    let v = rows(&[PLAIN]);
    assert!(titles(&v, "2026-07-31").is_empty(), "warned far too early");
}

#[test]
fn a_cooldown_narrows_the_window() {
    let v = rows(&[NARROWED]);
    assert!(titles(&v, "2026-08-15").is_empty(), "`-2d` asked for two days' notice and got the default");
    assert!(titles(&v, "2026-08-18").contains(&"Bin day".to_owned()));
}

#[test]
fn an_overdue_deadline_stays() {
    let v = rows(&[PLAIN]);
    assert!(titles(&v, "2026-09-01").contains(&"Tax return".to_owned()));
}

#[test]
fn a_scheduled_date_appears_on_its_day_and_not_before() {
    let v = rows(&[("Start the thing", Some("<2026-08-20 Thu>"), None)]);
    assert!(titles(&v, "2026-08-15").is_empty(), "warned about a plan");
    assert!(titles(&v, "2026-08-20").contains(&"Start the thing".to_owned()));
}
