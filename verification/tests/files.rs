use closure_store::files::{
    backend_for, block_language, check_root, classify_event, expand_noweb, join_path, reload_plan, is_vault_file, needs_reparse, tangle_targets, vanished_paths,
    Backend, WatchKind,
};
use closure_store::form::fnv1a;
use closure_store::{VaultError, VaultEventKind};

#[test]
fn the_vault_loads_org_and_archive_files() {
    assert!(is_vault_file(Some("org")));
    assert!(is_vault_file(Some("org_archive")));
    assert!(!is_vault_file(Some("txt")));
    assert!(!is_vault_file(None));
}

#[test]
fn watcher_reports_become_vault_events_for_org_files() {
    assert_eq!(classify_event(Some("org"), WatchKind::Create), Some(VaultEventKind::Created));
    assert_eq!(classify_event(Some("org"), WatchKind::Modify), Some(VaultEventKind::Modified));
    assert_eq!(classify_event(Some("org"), WatchKind::Remove), Some(VaultEventKind::Removed));
    assert_eq!(classify_event(Some("org"), WatchKind::Other), None);
    assert_eq!(classify_event(Some("md"), WatchKind::Create), None);
    assert_eq!(classify_event(None, WatchKind::Modify), None);
}

#[test]
fn only_changed_or_new_files_are_parsed_again() {
    assert!(needs_reparse(None, "* A\n"));
    assert!(!needs_reparse(Some(fnv1a("* A\n")), "* A\n"));
    assert!(needs_reparse(Some(fnv1a("* A\n")), "* B\n"));
}

#[test]
fn files_gone_from_disk_are_dropped() {
    let loaded: Vec<String> = ["a.org", "b.org", "c.org"].iter().map(|s| (*s).to_owned()).collect();
    let on_disk = vec!["b.org".to_owned(), "d.org".to_owned()];
    assert_eq!(vanished_paths(&loaded, &on_disk), vec!["a.org".to_owned(), "c.org".to_owned()]);
    assert!(vanished_paths(&loaded, &loaded).is_empty());
}

#[test]
fn a_block_runs_in_the_backend_its_language_names() {
    assert_eq!(block_language(None), "shell");
    assert_eq!(block_language(Some("python")), "python");
    for lang in ["shell", "sh", "bash"] {
        assert!(matches!(backend_for(lang), Ok(Backend::Shell)));
    }
    assert!(matches!(backend_for("python"), Ok(Backend::Python)));
    match backend_for("ruby") {
        Err(VaultError::Command(m)) => assert_eq!(m, "no backend for `ruby`"),
        other => panic!("unexpected {other:?}"),
    }
}

#[test]
fn blocks_sharing_a_target_are_written_together() {
    let blocks: Vec<(String, String)> = [("a.sh", "echo 1\n"), ("b.py", "print(2)\n"), ("a.sh", "echo 3\n")]
        .iter()
        .map(|(t, c)| ((*t).to_owned(), (*c).to_owned()))
        .collect();
    assert_eq!(
        tangle_targets("", &blocks, &Vec::new()).expect("no references"),
        vec![
            ("a.sh".to_owned(), "echo 1\necho 3\n".to_owned()),
            ("b.py".to_owned(), "print(2)\n".to_owned()),
        ]
    );
    assert!(tangle_targets("", &Vec::new(), &Vec::new()).expect("nothing to do").is_empty());
}

fn pairs(v: &[(&str, &str)]) -> Vec<(String, String)> {
    v.iter().map(|(a, b)| ((*a).to_owned(), (*b).to_owned())).collect()
}

#[test]
fn a_noweb_reference_is_resolved_on_the_way_out() {
    let named = pairs(&[("setup", "echo setting up\n")]);
    let blocks = pairs(&[("out.sh", "<<setup>>\necho main\n")]);
    let written = tangle_targets("", &blocks, &named).expect("resolved");
    assert_eq!(written.len(), 1, "{written:?}");
    let out = &written[0].1;
    assert!(out.contains("echo setting up"), "{out}");
    assert!(out.contains("echo main"), "{out}");
    assert!(!out.contains("<<setup>>"), "the reference survived: {out}");
    assert_eq!(out, "echo setting up\necho main\n");
}

#[test]
fn a_reference_to_nothing_fails_the_tangle_rather_than_writing_it() {
    let blocks = pairs(&[("ok.sh", "echo fine\n"), ("out.sh", "<<nosuch>>\n")]);
    match tangle_targets("", &blocks, &Vec::new()) {
        Err(VaultError::Command(m)) => assert_eq!(m, "unresolved noweb reference <<nosuch>>"),
        other => panic!("unexpected {other:?}"),
    }
}

#[test]
fn text_that_only_looks_like_a_reference_is_left_alone() {
    let named = pairs(&[("a", "A"), ("a", "second"), ("b", "B\n")]);
    assert_eq!(expand_noweb("cat <<EOF\nx\nEOF\n", &named).expect("heredoc"), "cat <<EOF\nx\nEOF\n");
    assert_eq!(expand_noweb("1<<2 <<>> <<a>><<b>>!", &named).expect("two"), "1<<2 <<>> AB!");
    assert_eq!(expand_noweb("", &named).expect("empty"), "");
    assert_eq!(expand_noweb("x <<c>>", &named).unwrap_err(), vec!['c']);
}

#[test]
fn a_missing_or_file_root_is_refused_by_name() {
    let root = std::path::PathBuf::from("/no/such/vault");
    match check_root(false, false, root.clone()) {
        Err(VaultError::NoVault { path }) => assert_eq!(path, root),
        other => panic!("unexpected {other:?}"),
    }
    match check_root(true, false, root.clone()) {
        Err(VaultError::NotADirectory { path }) => assert_eq!(path, root),
        other => panic!("unexpected {other:?}"),
    }
    assert_eq!(check_root(true, true, root.clone()).expect("dir"), root);
}

#[test]
fn blocks_whose_targets_are_one_path_are_written_together() {
    let blocks = pairs(&[("a.sh", "one\n"), ("./a.sh", "two\n"), ("x//b.sh", "three\n"), ("x/b.sh", "four\n"), ("/abs/c.sh", "five\n")]);
    assert_eq!(
        tangle_targets("dir", &blocks, &Vec::new()).expect("no references"),
        pairs(&[("dir/a.sh", "one\ntwo\n"), ("dir/x//b.sh", "three\nfour\n"), ("/abs/c.sh", "five\n")])
    );
}

#[test]
fn a_target_joins_its_directory_as_path_join_does() {
    assert_eq!(join_path("dir", "a.sh"), "dir/a.sh");
    assert_eq!(join_path("dir/", "a.sh"), "dir/a.sh");
    assert_eq!(join_path("", "a.sh"), "a.sh");
    assert_eq!(join_path("dir", "/etc/a.sh"), "/etc/a.sh");
    assert_eq!(join_path("dir", ""), "dir/");
    for (b, t) in [("dir", "a.sh"), ("dir/", "a.sh"), ("", "a.sh"), ("dir", "/etc/a.sh"), ("dir", ""), (".", "x/../y")] {
        assert_eq!(std::path::Path::new(b).join(t).to_str().expect("utf8"), join_path(b, t));
    }
}

#[test]
fn a_reload_parses_changed_and_new_files_and_drops_vanished_ones() {
    let files = vec![
        ("a.org".to_owned(), Some(fnv1a("* A\n")), "* A\n".to_owned()),
        ("b.org".to_owned(), Some(fnv1a("* B\n")), "* B changed\n".to_owned()),
        ("c.org".to_owned(), None, "* C\n".to_owned()),
    ];
    let loaded = vec!["a.org".to_owned(), "b.org".to_owned(), "gone.org".to_owned()];
    let plan = reload_plan(&files, &loaded);
    assert_eq!(plan.reparse, vec!["b.org".to_owned(), "c.org".to_owned()]);
    assert_eq!(plan.vanished, vec!["gone.org".to_owned()]);
    assert!(plan.rebuild);
    let quiet = reload_plan(&files[..1].to_vec(), &vec!["a.org".to_owned()]);
    assert!(quiet.reparse.is_empty() && quiet.vanished.is_empty() && !quiet.rebuild);
    let only_gone = reload_plan(&files[..1].to_vec(), &loaded[..].to_vec());
    assert!(only_gone.reparse.is_empty() && only_gone.rebuild);
}
