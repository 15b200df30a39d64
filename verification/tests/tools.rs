use closure_store::tool::{
    join_strings, no_such_file_reply, outcome_reply, parse_tool_line, search_hit_line, search_reply, title_matches, tool_help,
    view_state_text, ToolCall,
};
use closure_store::VaultError;

#[test]
fn list_files_and_read_are_recognised() {
    assert!(matches!(parse_tool_line("  list-files "), ToolCall::ListFiles));
    assert!(matches!(parse_tool_line("view-state"), ToolCall::ViewState));
    match parse_tool_line("read  notes.org ") {
        ToolCall::Read(p) => assert_eq!(p, "notes.org"),
        other => panic!("unexpected {other:?}"),
    }
    match parse_tool_line("search Personal wiki") {
        ToolCall::Search(p) => assert_eq!(p, "Personal wiki"),
        other => panic!("unexpected {other:?}"),
    }
}

#[test]
fn capture_rename_and_set_property_take_their_arguments() {
    match parse_tool_line("capture Buy milk") {
        ToolCall::Capture(t) => assert_eq!(t, "Buy milk"),
        other => panic!("unexpected {other:?}"),
    }
    match parse_tool_line("rename 01X  Shared wiki ") {
        ToolCall::Rename(id, t) => {
            assert_eq!(id, "01X");
            assert_eq!(t, "Shared wiki");
        }
        other => panic!("unexpected {other:?}"),
    }
    match parse_tool_line("set-property 01X EFFORT 2d later") {
        ToolCall::SetProperty(id, k, v) => {
            assert_eq!(id, "01X");
            assert_eq!(k, "EFFORT");
            assert_eq!(v, "2d later");
        }
        other => panic!("unexpected {other:?}"),
    }
}

#[test]
fn short_or_unknown_lines_are_refused_with_the_tool_list() {
    for line in ["rename", "set-property onlyid", "capture", "frobnicate now"] {
        match parse_tool_line(line) {
            ToolCall::Refused(m) => {
                assert!(m.starts_with("ERROR"), "{m}");
                assert!(m.contains("list-files"), "{m}");
            }
            other => panic!("unexpected {other:?}"),
        }
    }
    match parse_tool_line("frobnicate now") {
        ToolCall::Refused(m) => assert_eq!(m, format!("ERROR unknown tool `frobnicate`; {}", tool_help())),
        other => panic!("unexpected {other:?}"),
    }
    match parse_tool_line("rename 01X") {
        ToolCall::Refused(m) => assert_eq!(m, format!("ERROR rename needs <id> <title>; {}", tool_help())),
        other => panic!("unexpected {other:?}"),
    }
}

#[test]
fn the_snapshot_lists_counts_keywords_and_tags() {
    let todos = vec!["TODO".to_owned(), "DONE".to_owned()];
    let out = view_state_text(2, 5, &todos, &Vec::new());
    assert_eq!(out, "vault snapshot:\nfiles: 2\nheadlines: 5\nTODO keywords: TODO, DONE\ntags: (none)");
    assert_eq!(join_strings(&todos, "\n"), "TODO\nDONE");
}

#[test]
fn replies_carry_ok_or_the_error_message() {
    assert_eq!(outcome_reply("captured 01X", &Ok(())), "OK captured 01X");
    let e: Result<(), VaultError> = Err(VaultError::Command("nope".to_owned()));
    assert_eq!(outcome_reply("captured 01X", &e), "ERROR command: nope");
    assert_eq!(no_such_file_reply("x.org"), "ERROR no such file: x.org");
    assert_eq!(search_hit_line("01X", "Wiki", "a.org"), "01X\tWiki\ta.org\n");
}

#[test]
fn search_ignores_case() {
    assert!(title_matches("Personal Wiki", "wiki"));
    assert!(title_matches("personal wiki", "WIKI"));
    assert!(!title_matches("Ship parser", "wiki"));
    assert!(title_matches("anything", ""));
}

#[test]
fn error_messages_read_as_sentences() {
    assert_eq!(VaultError::UnknownId("01X".to_owned()).message(), "unknown block id: 01X");
    assert_eq!(VaultError::Undo("empty".to_owned()).message(), "undo: empty");
    assert_eq!(VaultError::Watch("gone".to_owned()).message(), "watch: gone");
    assert_eq!(
        VaultError::EvalBlocked { lang: "python".to_owned() }.message(),
        "eval blocked: `python` not in eval_trust (add it to config.org to allow)"
    );
    let p = VaultError::Parse { path: std::path::PathBuf::from("a.org") };
    assert_eq!(p.message(), "parse error in a.org");
    let n = VaultError::NoVault { path: std::path::PathBuf::from("/v") };
    assert_eq!(n.message(), "no vault at /v \u{2014} `closure init-vault /v` makes one there");
}

#[test]
fn search_lists_every_matching_headline_in_vault_order() {
    let rows: Vec<(String, String, String)> = [
        ("01A", "Buy Milk", "a.org"),
        ("01B", "sell bread", "a.org"),
        ("01C", "MILKSHAKE recipe", "b.org"),
    ]
    .iter()
    .map(|(i, t, p)| ((*i).to_owned(), (*t).to_owned(), (*p).to_owned()))
    .collect();
    assert_eq!(search_reply(&rows, "milk"), "01A\tBuy Milk\ta.org\n01C\tMILKSHAKE recipe\tb.org\n");
    assert_eq!(search_reply(&rows, "nothing"), "");
    assert_eq!(search_reply(&rows, "").lines().count(), 3);
}
