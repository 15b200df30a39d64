use closure_store::civil::{agenda_date, clock_span_minutes, closure_shell_weekday, org_clock_stamp};
use closure_store::clock::{
    body_running_clock, clock_cancel_body, clock_in_among, clock_in_at, clock_in_body, clock_out_at, clock_out_body, running_clock,
};
use closure_store::VaultError;

const BODY: &str = "notes about it\n";

#[test]
fn a_clock_stamp_carries_the_weekday() {
    assert_eq!(org_clock_stamp("2026-07-28 09:15").expect("stamp"), "2026-07-28 Tue 09:15");
    assert_eq!(org_clock_stamp("  2026-07-28 09:15  ").expect("stamp"), "2026-07-28 Tue 09:15");
    assert_eq!(org_clock_stamp("2026-7-3 08:00").expect("stamp"), "2026-07-03 Fri 08:00");
}

#[test]
fn a_date_without_a_time_is_stamped_at_midnight() {
    assert_eq!(org_clock_stamp("2026-07-28").expect("stamp"), "2026-07-28 Tue 00:00");
}

#[test]
fn a_malformed_now_is_refused_with_its_text() {
    match org_clock_stamp("yesterday") {
        Err(VaultError::Command(m)) => assert_eq!(m, "`yesterday` is not `YYYY-MM-DD HH:MM`"),
        other => panic!("expected a refusal, got {other:?}"),
    }
    assert!(org_clock_stamp("2026-07 09:15").is_err());
}

#[test]
fn weekdays_follow_the_civil_calendar() {
    assert_eq!(closure_shell_weekday(1970, 1, 1), "Thu");
    assert_eq!(closure_shell_weekday(2026, 7, 28), "Tue");
    assert_eq!(closure_shell_weekday(2000, 2, 29), "Tue");
    assert_eq!(closure_shell_weekday(2026, 7, 21), closure_shell_weekday(2026, 7, 28));
}

#[test]
fn spans_are_counted_in_minutes() {
    assert_eq!(clock_span_minutes("2026-07-28 Tue 09:15", "2026-07-28 Tue 10:45"), Some(90));
    assert_eq!(clock_span_minutes("2026-07-28 Tue 23:30", "2026-07-29 Wed 00:15"), Some(45));
    assert_eq!(clock_span_minutes("2026-07-28 Tue 09:15", "2026-07-28 Tue 09:15"), Some(0));
}

#[test]
fn a_span_that_runs_backwards_or_does_not_parse_has_no_length() {
    assert_eq!(clock_span_minutes("2026-07-28 Tue 10:45", "2026-07-28 Tue 09:15"), None);
    assert_eq!(clock_span_minutes("soon", "2026-07-28 Tue 09:15"), None);
}

#[test]
fn clocking_in_opens_a_logbook_entry() {
    let out = clock_in_body(BODY, "2026-07-28 Tue 09:15");
    assert_eq!(out, ":LOGBOOK:\nCLOCK: [2026-07-28 Tue 09:15]\n:END:\nnotes about it\n");
}

#[test]
fn clocking_in_goes_to_the_top_of_an_existing_logbook() {
    let body = ":LOGBOOK:\nCLOCK: [2026-07-27 Mon 09:00]--[2026-07-27 Mon 09:10] =>  0:10\n:END:\n";
    let out = clock_in_body(body, "2026-07-28 Tue 09:15");
    assert_eq!(
        out,
        ":LOGBOOK:\nCLOCK: [2026-07-28 Tue 09:15]\nCLOCK: [2026-07-27 Mon 09:00]--[2026-07-27 Mon 09:10] =>  0:10\n:END:\n"
    );
}

#[test]
fn clocking_out_closes_it_with_the_duration() {
    let open = clock_in_body(BODY, "2026-07-28 Tue 09:15");
    let closed = clock_out_body(&open, "2026-07-28 Tue 10:45").expect("out");
    assert_eq!(
        closed,
        ":LOGBOOK:\nCLOCK: [2026-07-28 Tue 09:15]--[2026-07-28 Tue 10:45] =>  1:30\n:END:\nnotes about it\n"
    );
    assert_eq!(body_running_clock(&closed), None);
}

#[test]
fn clocking_out_without_a_running_clock_is_refused() {
    match clock_out_body(BODY, "2026-07-28 Tue 10:45") {
        Err(VaultError::Command(m)) => assert_eq!(m, "no clock is running here"),
        other => panic!("expected a refusal, got {other:?}"),
    }
}

#[test]
fn a_clock_entry_without_a_start_cannot_be_closed() {
    match clock_out_body("CLOCK: soon\n", "2026-07-28 Tue 10:45") {
        Err(VaultError::Command(m)) => assert_eq!(m, "that clock entry has no start"),
        other => panic!("expected a refusal, got {other:?}"),
    }
    match clock_out_body("CLOCK: [whenever]\n", "2026-07-28 Tue 10:45") {
        Err(VaultError::Command(m)) => assert_eq!(m, "that clock entry has no readable start"),
        other => panic!("expected a refusal, got {other:?}"),
    }
}

#[test]
fn the_running_clock_reports_its_start() {
    let open = clock_in_body(BODY, "2026-07-28 Tue 09:15");
    assert_eq!(body_running_clock(&open), Some(Some("2026-07-28 Tue 09:15".to_owned())));
    assert_eq!(body_running_clock(BODY), None);
    assert_eq!(body_running_clock("CLOCK: no bracket\n"), Some(None));
}

#[test]
fn cancelling_drops_the_entry_and_the_empty_logbook() {
    let open = clock_in_body(BODY, "2026-07-28 Tue 09:15");
    assert_eq!(clock_cancel_body(&open).expect("cancel"), BODY);
    match clock_cancel_body(BODY) {
        Err(VaultError::Command(m)) => assert_eq!(m, "no clock is running here"),
        other => panic!("expected a refusal, got {other:?}"),
    }
}

#[test]
fn cancelling_keeps_a_logbook_that_still_has_entries() {
    let body = ":LOGBOOK:\nCLOCK: [2026-07-28 Tue 09:15]\nCLOCK: [2026-07-27 Mon 09:00]--[2026-07-27 Mon 09:10] =>  0:10\n:END:\n";
    assert_eq!(
        clock_cancel_body(body).expect("cancel"),
        ":LOGBOOK:\nCLOCK: [2026-07-27 Mon 09:00]--[2026-07-27 Mon 09:10] =>  0:10\n:END:\n"
    );
}

#[test]
fn agenda_dates_come_from_either_bracket() {
    assert_eq!(agenda_date("<2026-06-13 Fri>").as_deref(), Some("2026-06-13"));
    assert_eq!(agenda_date("[2026-06-13]").as_deref(), Some("2026-06-13"));
    assert_eq!(agenda_date("2026-06-13").as_deref(), Some("2026-06-13"));
    assert_eq!(agenda_date("<2026-6-13 Fri>"), None);
    assert_eq!(agenda_date("<2026-06-1"), None);
    assert_eq!(agenda_date(""), None);
}

#[test]
fn clocking_at_a_time_stamps_it_first() {
    let open = clock_in_at(BODY, "2026-07-28 09:15").expect("in");
    assert_eq!(open, ":LOGBOOK:\nCLOCK: [2026-07-28 Tue 09:15]\n:END:\nnotes about it\n");
    let closed = clock_out_at(&open, "2026-07-28 10:45").expect("out");
    assert!(closed.contains("--[2026-07-28 Tue 10:45] =>  1:30"), "{closed}");
    assert!(clock_in_at(BODY, "noon").is_err());
    match clock_out_at(BODY, "noon") {
        Err(VaultError::Command(m)) => assert_eq!(m, "`noon` is not `YYYY-MM-DD HH:MM`"),
        other => panic!("unexpected {other:?}"),
    }
}

#[test]
fn the_vault_wide_running_clock_is_the_first_open_one() {
    let a = ("A".to_owned(), "plain\n".to_owned());
    let b = ("B".to_owned(), clock_in_body("x\n", "2026-07-28 Tue 09:15"));
    let c = ("C".to_owned(), clock_in_body("y\n", "2026-07-29 Wed 09:15"));
    assert_eq!(
        running_clock(&vec![a.clone(), b, c]),
        Some(("B".to_owned(), "2026-07-28 Tue 09:15".to_owned()))
    );
    assert_eq!(running_clock(&vec![a.clone()]), None);
    let broken = ("D".to_owned(), "CLOCK: unreadable\n".to_owned());
    let later = ("E".to_owned(), clock_in_body("z\n", "2026-07-28 Tue 09:15"));
    assert_eq!(running_clock(&vec![a, broken, later]), None);
}

#[test]
fn weekdays_follow_on_across_month_and_year_ends() {
    assert_eq!(closure_shell_weekday(2024, 2, 29), "Thu");
    assert_eq!(closure_shell_weekday(2024, 3, 1), "Fri");
    assert_eq!(closure_shell_weekday(2023, 2, 28), "Tue");
    assert_eq!(closure_shell_weekday(2023, 3, 1), "Wed");
    assert_eq!(closure_shell_weekday(2026, 12, 31), "Thu");
    assert_eq!(closure_shell_weekday(2027, 1, 1), "Fri");
    assert_eq!(closure_shell_weekday(2000, 1, 1), "Sat");
    assert_eq!(closure_shell_weekday(2400, 1, 1), "Sat");
    assert_eq!(closure_shell_weekday(2426, 7, 28), "Tue");
}

fn heads(v: &[(&str, &str)]) -> Vec<(String, String)> {
    v.iter().map(|(a, b)| ((*a).to_owned(), (*b).to_owned())).collect()
}

#[test]
fn clocking_in_closes_the_clock_running_elsewhere_first() {
    let mut h = heads(&[("A", ":LOGBOOK:\nCLOCK: [2026-07-28 Tue 09:00]\n:END:\n"), ("B", "notes\n")]);
    clock_in_among(&mut h, "B", "2026-07-28 10:30").expect("clocked in");
    assert_eq!(h[0].1, ":LOGBOOK:\nCLOCK: [2026-07-28 Tue 09:00]--[2026-07-28 Tue 10:30] =>  1:30\n:END:\n");
    assert_eq!(h[1].1, ":LOGBOOK:\nCLOCK: [2026-07-28 Tue 10:30]\n:END:\nnotes\n");
    assert_eq!(running_clock(&h), Some(("B".to_owned(), "2026-07-28 Tue 10:30".to_owned())));
}

#[test]
fn clocking_in_on_an_unknown_headline_is_refused_after_the_close() {
    let mut h = heads(&[("A", ":LOGBOOK:\nCLOCK: [2026-07-28 Tue 09:00]\n:END:\n")]);
    match clock_in_among(&mut h, "Z", "2026-07-28 09:15") {
        Err(VaultError::UnknownId(x)) => assert_eq!(x, "Z"),
        other => panic!("unexpected {other:?}"),
    }
    assert!(h[0].1.contains("--[2026-07-28 Tue 09:15] =>  0:15"), "{}", h[0].1);
    let mut quiet = heads(&[("A", "body\n")]);
    assert!(matches!(clock_in_among(&mut quiet, "A", "not a time"), Err(VaultError::Command(_))));
    assert_eq!(quiet[0].1, "body\n");
}
