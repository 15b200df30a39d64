use closure_store::command::{form_command, parse_form_command, split_words, toggled_todo, word_count, FormCommand};
use closure_store::form::{fnv1a, form_decode, form_param};
use closure_store::VaultError;

#[test]
fn form_decoding_turns_plus_and_percent_escapes_into_text() {
    assert_eq!(form_decode("a+b%41"), "a bA");
    assert_eq!(form_decode("caf%C3%A9"), "caf\u{e9}");
    assert_eq!(form_decode("100%"), "100%");
    assert_eq!(form_decode("%zz"), "%zz");
    assert_eq!(form_decode(""), "");
}

#[test]
fn fnv1a_matches_the_published_vectors() {
    assert_eq!(fnv1a(""), 0xcbf2_9ce4_8422_2325);
    assert_eq!(fnv1a("a"), 0xaf63_dc4c_8601_ec8c);
    assert_eq!(fnv1a("foobar"), 0x8594_4171_f739_67e8);
}

#[test]
fn a_form_parameter_is_found_and_decoded() {
    let form = "cmd=rename&id=01X&arg=New+title";
    assert_eq!(form_param(form, "cmd"), "rename");
    assert_eq!(form_param(form, "id"), "01X");
    assert_eq!(form_param(form, "arg"), "New title");
    assert_eq!(form_param(form, "missing"), "");
    assert_eq!(form_param("xcmd=no&cmd=yes", "cmd"), "yes");
}

#[test]
fn a_rename_form_names_its_block_and_title() {
    match parse_form_command("cmd=rename&id=01X&arg=New+title") {
        Ok(FormCommand::Rename { id, title }) => {
            assert_eq!(id, "01X");
            assert_eq!(title, "New title");
        }
        other => panic!("unexpected {other:?}"),
    }
}

#[test]
fn set_tags_splits_on_white_space() {
    match parse_form_command("cmd=set-tags&id=01X&arg=work++home%09later") {
        Ok(FormCommand::SetTags { tags, .. }) => assert_eq!(tags, vec!["work", "home", "later"]),
        other => panic!("unexpected {other:?}"),
    }
    assert_eq!(split_words("  a  b\tc\n"), vec!["a", "b", "c"]);
    assert!(split_words("   ").is_empty());
    assert_eq!(word_count("one two  three"), 3);
}

#[test]
fn empty_arguments_have_their_defaults() {
    match parse_form_command("cmd=set-todo&id=01X&arg=") {
        Ok(FormCommand::SetTodo { keyword, .. }) => assert_eq!(keyword, None),
        other => panic!("unexpected {other:?}"),
    }
    match parse_form_command("cmd=add-sibling&id=01X") {
        Ok(FormCommand::AddSibling { title, .. }) => assert_eq!(title, "untitled"),
        other => panic!("unexpected {other:?}"),
    }
}

#[test]
fn delete_is_remove_subtree() {
    assert!(matches!(form_command("delete", "01X", ""), Ok(FormCommand::RemoveSubtree { .. })));
    assert!(matches!(form_command("remove-subtree", "01X", ""), Ok(FormCommand::RemoveSubtree { .. })));
    assert!(matches!(form_command("undo", "01X", ""), Ok(FormCommand::Undo { .. })));
    assert!(matches!(form_command("redo", "01X", ""), Ok(FormCommand::Redo { .. })));
    assert!(matches!(form_command("toggle-todo", "01X", ""), Ok(FormCommand::ToggleTodo { .. })));
}

#[test]
fn an_unknown_command_is_refused_by_name() {
    match parse_form_command("cmd=bogus&id=01X") {
        Err(VaultError::Undo(m)) => assert_eq!(m, "unknown command: bogus"),
        other => panic!("unexpected {other:?}"),
    }
    match parse_form_command("") {
        Err(VaultError::Undo(m)) => assert_eq!(m, "unknown command: "),
        other => panic!("unexpected {other:?}"),
    }
}

#[test]
fn toggling_a_todo_clears_or_sets_it() {
    assert_eq!(toggled_todo(Some("DONE")), None);
    assert_eq!(toggled_todo(None), Some("TODO"));
}

#[test]
fn bytes_that_are_not_utf8_decode_to_the_replacement_character() {
    assert_eq!(form_decode("%FF"), "\u{FFFD}");
    assert_eq!(form_decode("a%C3b"), "a\u{FFFD}b");
    assert_eq!(form_param("cmd=%FF&id=x", "cmd"), "\u{FFFD}");
    match parse_form_command("cmd=%FF&id=x") {
        Err(VaultError::Undo(m)) => assert_eq!(m, "unknown command: \u{FFFD}"),
        other => panic!("unexpected {other:?}"),
    }
}

#[test]
fn a_grown_text_hashes_on_from_where_it_was() {
    assert_eq!(fnv1a(""), 0xcbf2_9ce4_8422_2325);
    let carried = "caf\u{e9}!".bytes().fold(fnv1a("note "), |h, b| (h ^ u64::from(b)).wrapping_mul(0x0000_0100_0000_01b3));
    assert_eq!(fnv1a("note caf\u{e9}!"), carried);
}
