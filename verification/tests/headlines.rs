use closure_store::headlines::{
    all_tags, all_todos, any_matching, count_matching, counts_per_file, files_matching, paths_matching, distinct_titles, find_by_title, headline_count_at_level,
    headline_count_with_priority, headline_count_with_tag, headline_count_with_todo, least_common_title,
    level_range, max_level, min_level, most_common_title, priority_letter_pct, tagged_count, title_counts,
    todo_count, with_priority_count, key_counts, most_common_tag, most_common_todo, tag_count_map, todo_count_map,
    Headline, HeadlineQuery,
};

fn h(title: &str, level: u8, todo: Option<&str>, priority: Option<char>, tags: &[&str]) -> Headline {
    Headline {
        id: format!("{title}-id"),
        title: title.to_owned(),
        level,
        todo: todo.map(ToOwned::to_owned),
        priority,
        tags: tags.iter().map(|t| (*t).to_owned()).collect(),
        properties: vec![("EFFORT".to_owned(), "2d".to_owned())],
        links: vec!["id:other".to_owned()],
    }
}

fn sample() -> Vec<Headline> {
    vec![
        h("Ship parser", 1, Some("TODO"), Some('A'), &["work"]),
        h("Personal Wiki", 2, None, None, &[]),
        h("Ship parser", 2, Some("DONE"), Some('B'), &["work", "home"]),
        h("Groceries", 3, Some("TODO"), Some('A'), &["home"]),
    ]
}

#[test]
fn headlines_are_counted_by_tag_keyword_priority_and_level() {
    let hs = sample();
    assert_eq!(tagged_count(&hs), 3);
    assert_eq!(headline_count_with_tag(&hs, "home".to_owned()), 2);
    assert_eq!(headline_count_with_todo(&hs, "TODO".to_owned()), 2);
    assert_eq!(headline_count_with_priority(&hs, 'A'), 2);
    assert_eq!(headline_count_at_level(&hs, 2), 2);
    assert_eq!(todo_count(&hs), 3);
    assert_eq!(with_priority_count(&hs), 3);
    assert_eq!(count_matching(&hs, &HeadlineQuery::TitleContains("parse".to_owned())), 2);
    assert_eq!(count_matching(&hs, &HeadlineQuery::PropertyKey("EFFORT".to_owned())), 4);
    assert!(any_matching(&hs, &HeadlineQuery::LinkTarget("id:other".to_owned())));
    assert!(!any_matching(&hs, &HeadlineQuery::TitleExact("ship parser".to_owned())));
}

#[test]
fn priority_share_is_a_whole_percentage() {
    let hs = sample();
    assert_eq!(priority_letter_pct(&hs, 'A'), 50);
    assert_eq!(priority_letter_pct(&hs, 'C'), 0);
    assert_eq!(priority_letter_pct(&Vec::new(), 'A'), 0);
}

#[test]
fn keywords_tags_and_titles_are_listed_once_in_order() {
    let hs = sample();
    assert_eq!(all_tags(&hs), vec!["home".to_owned(), "work".to_owned()]);
    assert_eq!(all_todos(&hs), vec!["DONE".to_owned(), "TODO".to_owned()]);
    assert_eq!(
        distinct_titles(&hs),
        vec!["Groceries".to_owned(), "Personal Wiki".to_owned(), "Ship parser".to_owned()]
    );
}

#[test]
fn titles_are_counted_and_the_most_and_least_common_found() {
    let hs = sample();
    assert_eq!(
        title_counts(&hs),
        vec![("Groceries".to_owned(), 1), ("Personal Wiki".to_owned(), 1), ("Ship parser".to_owned(), 2)]
    );
    assert_eq!(most_common_title(&hs).as_deref(), Some("Ship parser"));
    assert_eq!(least_common_title(&hs).as_deref(), Some("Groceries"));
    assert_eq!(most_common_title(&Vec::new()), None);
}

#[test]
fn levels_span_from_the_shallowest_to_the_deepest() {
    let hs = sample();
    assert_eq!(min_level(&hs), Some(1));
    assert_eq!(max_level(&hs), Some(3));
    assert_eq!(level_range(&hs), Some((1, 3)));
    assert_eq!(level_range(&Vec::new()), None);
}

#[test]
fn titles_are_found_ignoring_ascii_case() {
    let hs = sample();
    assert_eq!(find_by_title(&hs, "personal wiki"), Some(1));
    assert_eq!(find_by_title(&hs, "SHIP PARSER"), Some(0));
    assert_eq!(find_by_title(&hs, "Ship"), None);
}

#[test]
fn files_are_found_and_counted_by_what_their_headlines_carry() {
    let all = sample();
    let files = vec![
        ("a.org".to_owned(), vec![all[0].clone(), all[1].clone()]),
        ("b.org".to_owned(), vec![all[1].clone()]),
        ("c.org".to_owned(), vec![all[2].clone(), all[3].clone()]),
    ];
    let home = HeadlineQuery::Tag("home".to_owned());
    assert_eq!(paths_matching(&files, &home), vec!["c.org".to_owned()]);
    assert_eq!(files_matching(&files, &HeadlineQuery::Tagged), 2);
    assert_eq!(counts_per_file(&files, &HeadlineQuery::AnyTodo), vec![1, 0, 2]);
    assert_eq!(closure_store::stats::median(&counts_per_file(&files, &HeadlineQuery::AnyTodo)), Some(1));
}

#[test]
fn tags_and_keywords_are_counted_in_key_order() {
    let hs = sample();
    assert_eq!(tag_count_map(&hs), vec![("home".to_owned(), 2), ("work".to_owned(), 2)]);
    assert_eq!(todo_count_map(&hs), vec![("DONE".to_owned(), 1), ("TODO".to_owned(), 2)]);
    assert_eq!(most_common_todo(&hs).as_deref(), Some("TODO"));
    assert_eq!(most_common_tag(&hs).as_deref(), Some("home"));
    assert_eq!(most_common_tag(&vec![sample()[1].clone()]), None);
    let items: Vec<String> = ["b", "a", "b"].iter().map(|s| (*s).to_owned()).collect();
    assert_eq!(key_counts(&items), vec![("a".to_owned(), 1), ("b".to_owned(), 2)]);
}
