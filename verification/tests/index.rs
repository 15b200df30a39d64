use closure_store::index::VaultIndex;

fn headline(id: &str, links: &[&str]) -> (String, Vec<String>) {
    (id.to_owned(), links.iter().map(|s| (*s).to_owned()).collect())
}

fn pair(p: &str, id: &str) -> (String, String) {
    (p.to_owned(), id.to_owned())
}

#[test]
fn a_fresh_index_is_empty_at_revision_zero() {
    let ix = VaultIndex::new();
    assert_eq!(ix.revision(), 0);
    assert_eq!(ix.path_of("A"), None);
    assert!(ix.backlinks_of("A").is_empty());
}

#[test]
fn reindexing_files_every_headline_and_its_links() {
    let mut ix = VaultIndex::new();
    ix.reindex_file("a.org", &vec![headline("A", &["id:B", "https://x"]), headline("B", &[])]);
    assert_eq!(ix.path_of("A").as_deref(), Some("a.org"));
    assert_eq!(ix.path_of("B").as_deref(), Some("a.org"));
    assert!(ix.contains_id("B"));
    assert_eq!(ix.backlinks_of("id:B"), vec![pair("a.org", "A")]);
    assert_eq!(ix.backlinks_of("B"), vec![pair("a.org", "A")]);
    assert_eq!(ix.backlinks_of("https://x"), vec![pair("a.org", "A")]);
    assert_eq!(ix.revision(), 1);
}

#[test]
fn reindexing_drops_what_the_file_no_longer_says() {
    let mut ix = VaultIndex::new();
    ix.reindex_file("a.org", &vec![headline("A", &["id:C"]), headline("B", &[])]);
    ix.reindex_file("b.org", &vec![headline("C", &[]), headline("D", &["id:C"])]);
    ix.reindex_file("a.org", &vec![headline("A", &[])]);
    assert_eq!(ix.path_of("B"), None);
    assert_eq!(ix.path_of("C").as_deref(), Some("b.org"));
    assert_eq!(ix.backlinks_of("C"), vec![pair("b.org", "D")]);
    assert_eq!(ix.revision(), 3);
}

#[test]
fn reindexing_twice_changes_nothing_but_the_token() {
    let h = vec![headline("A", &["id:B", "id:B"]), headline("B", &["id:A"])];
    let mut once = VaultIndex::new();
    once.reindex_file("a.org", &h);
    let mut twice = VaultIndex::new();
    twice.reindex_file("a.org", &h);
    twice.reindex_file("a.org", &h);
    for key in ["A", "B", "id:A", "id:B"] {
        assert_eq!(once.backlinks_of(key), twice.backlinks_of(key));
        assert_eq!(once.path_of(key), twice.path_of(key));
    }
    assert_eq!(twice.backlinks_of("B"), vec![pair("a.org", "A"), pair("a.org", "A")]);
    assert_eq!(twice.revision(), 2);
}

#[test]
fn a_renamed_file_carries_its_blocks() {
    let mut ix = VaultIndex::new();
    ix.reindex_file("a.org", &vec![headline("A", &[])]);
    ix.register_file("c.org", &vec!["C".to_owned()]);
    ix.rename_path("a.org", "b.org");
    assert_eq!(ix.path_of("A").as_deref(), Some("b.org"));
    assert_eq!(ix.path_of("C").as_deref(), Some("c.org"));
    assert_eq!(ix.revision(), 3);
}

#[test]
fn the_link_graph_keeps_only_targets_that_resolve() {
    let mut ix = VaultIndex::new();
    ix.reindex_file("a.org", &vec![headline("A", &[]), headline("B", &[])]);
    let links = vec!["id:A".to_owned(), "https://x".to_owned(), "B".to_owned(), "id:Z".to_owned()];
    assert_eq!(ix.resolved_targets(&links), vec!["A".to_owned(), "B".to_owned()]);
}

#[test]
fn clearing_keeps_the_token_and_bumping_moves_it() {
    let mut ix = VaultIndex::new();
    ix.reindex_file("a.org", &vec![headline("A", &["id:B"])]);
    ix.clear();
    assert_eq!(ix.path_of("A"), None);
    assert!(ix.backlinks_of("B").is_empty());
    assert_eq!(ix.revision(), 1);
    ix.bump();
    assert_eq!(ix.revision(), 2);
}

#[test]
fn a_deleted_file_takes_its_blocks_with_it() {
    let mut ix = VaultIndex::new();
    ix.reindex_file("a.org", &vec![headline("A", &["id:B"])]);
    ix.reindex_file("b.org", &vec![headline("B", &[])]);
    ix.forget_file("b.org");
    assert_eq!(ix.path_of("B"), None);
    assert_eq!(ix.path_of("A").as_deref(), Some("a.org"));
    assert_eq!(ix.backlinks_of("B"), vec![pair("a.org", "A")]);
    assert_eq!(ix.revision(), 3);
}

#[test]
fn dead_links_are_id_links_to_missing_blocks() {
    let mut ix = VaultIndex::new();
    ix.reindex_file("a.org", &vec![headline("A", &[])]);
    let links: Vec<String> = ["id:A", "id:gone", "https://x", "gone"].iter().map(|s| (*s).to_owned()).collect();
    assert_eq!(ix.dead_link_count(&links), 1);
}
