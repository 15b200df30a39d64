use closure_store::entry::{
    archive_file_name, archive_text, backlink_keys, capture_entry_text, capture_text_checked, link_candidate, refile_guard,
    refiled_subtree, template_entry_text,
};
use closure_store::keywords::todo_declaration_rewrite;
use closure_store::outline::{shift_subtree_levels, subtree_contains};
use closure_store::{CaptureTemplate, VaultError};

fn strings(xs: &[&str]) -> Vec<String> {
    xs.iter().map(|s| (*s).to_owned()).collect()
}

#[test]
fn shifting_moves_every_heading_and_nothing_else() {
    assert_eq!(shift_subtree_levels("* A\n** B\nbody\n", 1), "** A\n*** B\nbody\n");
    assert_eq!(shift_subtree_levels("** A\n*** B\n", -1), "* A\n** B\n");
    assert_eq!(shift_subtree_levels("*bold* text\n* A\n", 2), "*bold* text\n*** A\n");
}

#[test]
fn shifting_never_goes_above_the_top_level() {
    assert_eq!(shift_subtree_levels("** A\n*** B\n", -5), "* A\n* B\n");
}

#[test]
fn a_zero_shift_is_the_identity() {
    let src = "* A\n,* escaped\n";
    assert_eq!(shift_subtree_levels(src, 0), src);
}

#[test]
fn shifting_twice_is_shifting_by_the_sum() {
    let src = "* A\n** B\n*** C\n";
    assert_eq!(shift_subtree_levels(&shift_subtree_levels(src, 2), 1), shift_subtree_levels(src, 3));
}

#[test]
fn a_subtree_knows_the_ids_it_carries() {
    let src = "* A\n:PROPERTIES:\n:ID: X1\n:END:\n** B\n  :ID:   X2  \n";
    assert!(subtree_contains(src, "X1"));
    assert!(subtree_contains(src, "X2"));
    assert!(!subtree_contains(src, "X3"));
    assert!(!subtree_contains("* A\nsee :ID: X1 here\n", "X1"));
}

#[test]
fn a_capture_appends_after_the_existing_text() {
    let out = capture_entry_text("* Old\n", "TODO ", "Buy milk", "01ID", "");
    assert_eq!(out, "* Old\n* TODO Buy milk\n:PROPERTIES:\n:ID: 01ID\n:END:\n");
    let out = capture_entry_text("no newline", "", "Note", "02ID", "- [ ] step");
    assert_eq!(out, "no newline\n* Note\n:PROPERTIES:\n:ID: 02ID\n:END:\n- [ ] step\n");
    assert!(out.starts_with("no newline"));
}

#[test]
fn a_capture_into_a_new_file_starts_with_the_headline() {
    let out = capture_entry_text("", "", "First", "03ID", "body\n");
    assert_eq!(out, "* First\n:PROPERTIES:\n:ID: 03ID\n:END:\nbody\n");
}

#[test]
fn archive_files_sit_beside_their_source() {
    assert_eq!(archive_file_name("notes.org"), "notes.org_archive");
    assert_eq!(archive_text("", "* A\n"), "* A\n");
    assert_eq!(archive_text("* X", "* A\n"), "* X\n* A\n");
    assert_eq!(archive_text("* X\n", "* A\n"), "* X\n* A\n");
}

#[test]
fn a_headline_cannot_be_filed_under_itself() {
    match refile_guard("A", "A") {
        Err(VaultError::Command(m)) => assert_eq!(m, "a headline cannot be filed under itself"),
        other => panic!("expected a refusal, got {other:?}"),
    }
    assert!(refile_guard("A", "B").is_ok());
}

#[test]
fn a_subtree_holding_its_target_is_not_filed() {
    let sub = "* A\n:PROPERTIES:\n:ID: A\n:END:\n** T\n:PROPERTIES:\n:ID: T\n:END:\n";
    match refiled_subtree("T", true, sub, 1, 1, &vec![0], &vec![3]) {
        Err(VaultError::Command(m)) => assert_eq!(m, "that target is inside the subtree being filed"),
        other => panic!("expected a refusal, got {other:?}"),
    }
    assert!(refiled_subtree("T", false, sub, 1, 1, &vec![0], &vec![0, 0]).is_ok());
}

#[test]
fn a_headline_cannot_be_filed_under_its_own_descendant() {
    // The child has no drawer: its place in the outline says it is inside.
    let sub = "* Parent\n:PROPERTIES:\n:ID: A\n:END:\n** A child\n";
    match refiled_subtree("CHILD", true, sub, 1, 2, &vec![0], &vec![0, 0]) {
        Err(VaultError::Command(m)) => assert_eq!(m, "that target is inside the subtree being filed"),
        other => panic!("filed a parent under its own child: {other:?}"),
    }
    assert!(refiled_subtree("B", true, sub, 1, 1, &vec![0], &vec![1]).is_ok());
    assert!(refiled_subtree("B", true, sub, 1, 1, &vec![0, 1], &vec![0]).is_ok());
}

#[test]
fn a_refiled_subtree_sits_one_under_its_target() {
    let out = refiled_subtree("T", false, "* A\n** B\n", 1, 2, &vec![0], &vec![0]).expect("refile");
    assert_eq!(out, "*** A\n**** B\n");
    let out = refiled_subtree("T", false, "*** A\n", 3, 0, &vec![1], &vec![1]).expect("refile");
    assert_eq!(out, "* A\n");
}

#[test]
fn id_links_are_indexed_under_both_forms() {
    assert_eq!(backlink_keys("id:X1"), strings(&["id:X1", "X1"]));
    assert_eq!(backlink_keys("https://example.com"), strings(&["https://example.com"]));
    assert_eq!(link_candidate("id:X1"), "X1");
    assert_eq!(link_candidate("X1"), "X1");
}

#[test]
fn the_todo_line_goes_on_top_and_replaces_old_ones() {
    let kw = strings(&["TODO", "NEXT", "DONE"]);
    let out = todo_declaration_rewrite("* TODO a\n", &kw, &strings(&["TODO", "DONE"]));
    assert_eq!(out.as_deref(), Some("#+TODO: TODO NEXT | DONE\n* TODO a\n"));
    let out = todo_declaration_rewrite("  #+todo: A | B\r\n* x", &kw, &Vec::new());
    assert_eq!(out.as_deref(), Some("#+TODO: TODO NEXT | DONE\n* x\n"));
}

#[test]
fn nothing_is_written_when_every_keyword_is_declared() {
    let kw = strings(&["TODO", "DONE"]);
    assert_eq!(todo_declaration_rewrite("#+TODO: TODO | DONE\n", &kw, &kw), None);
    assert_eq!(todo_declaration_rewrite("* a\n", &Vec::new(), &Vec::new()), None);
}

#[test]
fn a_single_keyword_goes_after_the_bar() {
    let out = todo_declaration_rewrite("", &strings(&["DONE"]), &Vec::new());
    assert_eq!(out.as_deref(), Some("#+TODO:  | DONE\n"));
}

#[test]
fn a_template_supplies_the_prefix_and_body() {
    let t = CaptureTemplate {
        target: std::path::PathBuf::from("inbox.org"),
        headline_prefix: "TODO ".to_owned(),
        body: "- note".to_owned(),
    };
    assert_eq!(
        template_entry_text(&t, "", "Call back", "05ID"),
        "* TODO Call back\n:PROPERTIES:\n:ID: 05ID\n:END:\n- note\n"
    );
}

fn inbox_template() -> CaptureTemplate {
    CaptureTemplate {
        target: std::path::PathBuf::from("inbox.org"),
        headline_prefix: "TODO ".to_owned(),
        body: String::new(),
    }
}

#[test]
fn a_capture_keeps_its_title() {
    let text = capture_text_checked(&inbox_template(), "* Existing\n", "a thought worth keeping", "01ID").expect("titled");
    assert!(text.contains("* TODO a thought worth keeping"), "the title is not in the file:\n{text}");
    assert!(text.starts_with("* Existing\n"));
}

#[test]
fn a_capture_with_an_empty_title_is_refused() {
    let made = capture_text_checked(&inbox_template(), "* Existing\n", "", "01ID");
    assert!(made.is_err(), "an empty capture was written; that is the item this test comes from");
    match made {
        Err(VaultError::Command(m)) => assert_eq!(m, "capture title is empty"),
        other => panic!("unexpected {other:?}"),
    }
}

#[test]
fn a_capture_with_only_whitespace_is_refused() {
    assert!(capture_text_checked(&inbox_template(), "", "   ", "01ID").is_err());
    assert!(capture_text_checked(&inbox_template(), "", "\t\n", "01ID").is_err());
}

#[test]
fn a_shift_and_its_inverse_give_the_text_back() {
    let s = "* A\nbody\n** B\n*not a heading\n*** C";
    assert_eq!(shift_subtree_levels(&shift_subtree_levels(s, 2), -2), s);
    assert_eq!(shift_subtree_levels(&shift_subtree_levels("** A\n*** B\n", -1), 1), "** A\n*** B\n");
}
