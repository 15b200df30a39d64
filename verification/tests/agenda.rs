use std::path::PathBuf;

use closure_store::agenda::{agenda_until, clock_report, planned_dates, sort_agenda, warning_days_of};
use closure_store::order::{sorted_distinct, str_le};
use closure_store::{AgendaEntry, AgendaKind};

fn row(date: &str, title: &str, kind: AgendaKind) -> AgendaEntry {
    AgendaEntry {
        path: PathBuf::from("a.org"),
        id: format!("{title}-id"),
        title: title.to_owned(),
        kind,
        date: date.to_owned(),
        warning_days: if kind == AgendaKind::Deadline { 14 } else { 0 },
    }
}

fn keys(rows: &[AgendaEntry]) -> Vec<(String, String)> {
    rows.iter().map(|r| (r.date.clone(), r.title.clone())).collect()
}

#[test]
fn the_agenda_is_sorted_by_date_then_title() {
    let rows = vec![
        row("2026-06-13", "b", AgendaKind::Scheduled),
        row("2026-06-01", "z", AgendaKind::Deadline),
        row("2026-06-13", "a", AgendaKind::Deadline),
    ];
    let sorted = sort_agenda(rows);
    assert_eq!(
        keys(&sorted),
        vec![
            ("2026-06-01".to_owned(), "z".to_owned()),
            ("2026-06-13".to_owned(), "a".to_owned()),
            ("2026-06-13".to_owned(), "b".to_owned()),
        ]
    );
}

#[test]
fn rows_with_the_same_date_and_title_keep_their_order() {
    let rows = vec![
        row("2026-06-13", "x", AgendaKind::Scheduled),
        row("2026-06-13", "x", AgendaKind::Deadline),
    ];
    let sorted = sort_agenda(rows);
    assert_eq!(sorted[0].kind, AgendaKind::Scheduled);
    assert_eq!(sorted[1].kind, AgendaKind::Deadline);
}

#[test]
fn the_window_keeps_rows_due_on_or_before_the_day() {
    let rows = sort_agenda(vec![
        row("2026-06-13", "late", AgendaKind::Scheduled),
        row("2026-06-05", "edge", AgendaKind::Scheduled),
        row("2026-06-01", "early", AgendaKind::Deadline),
    ]);
    let due = agenda_until(rows, "2026-06-05");
    assert_eq!(
        keys(&due),
        vec![("2026-06-01".to_owned(), "early".to_owned()), ("2026-06-05".to_owned(), "edge".to_owned())]
    );
}

#[test]
fn the_clock_report_puts_most_minutes_first() {
    let totals = vec![
        ("b".to_owned(), 30u64),
        ("idle".to_owned(), 0u64),
        ("c".to_owned(), 90u64),
        ("a".to_owned(), 30u64),
    ];
    assert_eq!(
        clock_report(totals),
        vec![("c".to_owned(), 90u64), ("a".to_owned(), 30u64), ("b".to_owned(), 30u64)]
    );
}

#[test]
fn text_orders_by_code_point() {
    assert!(str_le("a", "b"));
    assert!(str_le("ab", "abc"));
    assert!(!str_le("b", "abc"));
    assert!(str_le("Z", "a"));
    assert!(str_le("", ""));
}

#[test]
fn tags_are_listed_once_each_in_order() {
    let tags: Vec<String> = ["work", "home", "work", "Admin", "home"].iter().map(|s| (*s).to_owned()).collect();
    assert_eq!(sorted_distinct(&tags), vec!["Admin".to_owned(), "home".to_owned(), "work".to_owned()]);
    assert!(sorted_distinct(&Vec::new()).is_empty());
}

#[test]
fn a_headline_plans_its_scheduled_then_its_deadline_rows() {
    assert_eq!(
        planned_dates(Some("<2026-06-13 Sat>"), Some("<2026-06-20 Sat>")),
        vec![(AgendaKind::Scheduled, "2026-06-13".to_owned(), 0), (AgendaKind::Deadline, "2026-06-20".to_owned(), 14)]
    );
    assert_eq!(
        planned_dates(Some("someday"), Some("[2026-06-20]")),
        vec![(AgendaKind::Deadline, "2026-06-20".to_owned(), 14)]
    );
    assert_eq!(
        planned_dates(Some("<2026-06-13 Sat -3d>"), Some("<2026-06-20 Sat +1w -2d>")),
        vec![(AgendaKind::Scheduled, "2026-06-13".to_owned(), 0), (AgendaKind::Deadline, "2026-06-20".to_owned(), 2)]
    );
    assert!(planned_dates(None, None).is_empty());
}

#[test]
fn a_deadline_warning_period_is_read_from_its_stamp() {
    assert_eq!(warning_days_of("<2026-08-20 Thu -2d>"), 2);
    assert_eq!(warning_days_of("<2026-08-20 Thu>"), 14);
    assert_eq!(warning_days_of("<2026-08-20 Thu -30d>"), 30);
    assert_eq!(warning_days_of("<2026-08-20 Thu --2d>"), 14);
    assert_eq!(warning_days_of("<2026-08-20 Thu -2w>"), 14);
    assert_eq!(warning_days_of("<2026-08-20 Thu -12345d>"), 14);
    assert_eq!(warning_days_of(""), 14);
}

#[test]
fn a_deadline_window_opens_its_warning_days_early() {
    let rows = vec![
        row("2026-08-20", "deadline", AgendaKind::Deadline),
        row("2026-08-20", "plan", AgendaKind::Scheduled),
    ];
    assert_eq!(keys(&agenda_until(rows.clone(), "2026-08-06")), vec![("2026-08-20".to_owned(), "deadline".to_owned())]);
    assert!(agenda_until(rows.clone(), "2026-08-05").is_empty());
    assert_eq!(agenda_until(rows.clone(), "2026-08-20").len(), 2);
    assert_eq!(agenda_until(rows, "not a day").len(), 2, "compared as text");
    let year_end = vec![row("2027-01-05", "new year", AgendaKind::Deadline)];
    assert_eq!(agenda_until(year_end.clone(), "2026-12-22").len(), 1);
    assert!(agenda_until(year_end, "2026-12-21").is_empty());
}
