use path_manager::paths::{PathItem, PathItems};

fn item(name: &str, path: &str, description: &str) -> PathItem {
    PathItem::new(name.into(), path.into(), description.into())
}

#[test]
fn test_basic_find() {
    let items = PathItems {
        paths: vec![
            item("Home Name", "/home/path", "The path user's home folder"),
            item("Secret Way!", "/root/path", "Secret path for a root user"),
        ],
    };

    assert_eq!(items.filter("").len(), 2);
    assert_eq!(items.filter("   ").len(), 2);
    assert_eq!(items.filter("\t  ").len(), 2);
    assert_eq!(items.filter("path").len(), 2);
    assert_eq!(items.filter("name").len(), 1);
    assert_eq!(items.filter("root").len(), 1);
    assert_eq!(items.filter("foobar").len(), 0);
}

#[test]
fn test_words_find() {
    let items = PathItems {
        paths: vec![
            item("Home Name Word", "/home/path/user", "The path user's home folder"),
            item("Secret Way Word!", "/root/path/", "Secret path for a root user"),
        ],
    };

    assert_eq!(items.filter("home word").len(), 1);
    assert_eq!(items.filter("home user").len(), 1);
    assert_eq!(items.filter("secret word").len(), 1);
    assert_eq!(items.filter("secret       word").len(), 1);
    assert_eq!(items.filter("secret home word").len(), 0);
    assert_eq!(items.filter("root user").len(), 0);
}

fn two_entries() -> PathItems {
    PathItems {
        paths: vec![item("Home", "/home/u", ""), item("Root Secret", "/root/x", "")],
    }
}

#[test]
fn filter_by_name_ignores_case() {
    let items = two_entries();
    let found = items.filter("secret");
    assert_eq!(found.len(), 1);
    assert_eq!(found[0].name, "Root Secret");
    assert_eq!(found[0].full_path, "/root/x");
}

#[test]
fn filter_needs_every_word() {
    let items = two_entries();
    assert_eq!(items.filter("root user").len(), 0);
    assert_eq!(items.filter("root secret").len(), 1);
}

#[test]
fn filter_lowercases_the_search_for_names() {
    let items = two_entries();
    let found = items.filter("SECRET");
    assert_eq!(found.len(), 1);
    assert_eq!(found[0].full_path, "/root/x");
}

#[test]
fn filter_compares_paths_with_case() {
    let items = PathItems {
        paths: vec![item("docs", "/Data/Docs", "")],
    };
    assert_eq!(items.filter("/Data").len(), 1);
    assert_eq!(items.filter("/data").len(), 0);
    assert_eq!(items.filter("DOCS").len(), 1);
}

#[test]
fn filter_keeps_store_order() {
    let items = PathItems {
        paths: vec![
            item("c", "/srv/c", ""),
            item("x", "/opt/x", ""),
            item("a", "/srv/a", ""),
            item("b", "/srv/b", ""),
        ],
    };
    let found = items.filter("srv");
    let paths: Vec<&str> = found.iter().map(|p| p.full_path.as_str()).collect();
    assert_eq!(paths, vec!["/srv/c", "/srv/a", "/srv/b"]);
    assert_eq!(items.filter_indices("srv"), vec![0, 2, 3]);
}

#[test]
fn blank_search_returns_everything_in_order() {
    let items = two_entries();
    assert_eq!(items.filter_indices(""), vec![0, 1]);
    assert_eq!(items.filter_indices("   "), vec![0, 1]);
    assert_eq!(items.filter_indices("\u{3000}\n\u{a0}"), vec![0, 1]);
}

#[test]
fn filter_on_empty_store() {
    let items = PathItems::default();
    assert_eq!(items.filter("").len(), 0);
    assert_eq!(items.filter("x").len(), 0);
}

#[test]
fn add_path_appends_a_new_path() {
    let mut items = two_entries();
    items.add_path(item("Tmp", "/tmp", "scratch"));
    assert_eq!(items.paths.len(), 3);
    assert_eq!(items.paths[2].full_path, "/tmp");
}

#[test]
fn add_path_replaces_an_existing_path_and_moves_it_last() {
    let mut items = two_entries();
    items.add_path(item("New Home", "/home/u", "again"));
    assert_eq!(items.paths.len(), 2);
    assert_eq!(items.paths[0].full_path, "/root/x");
    assert_eq!(items.paths[1].full_path, "/home/u");
    assert_eq!(items.paths[1].name, "New Home");
    assert_eq!(items.paths[1].description, "again");
}

#[test]
fn path_exists_matches_whole_paths() {
    let items = two_entries();
    assert!(items.path_exists("/home/u"));
    assert!(!items.path_exists("/home"));
    assert!(!items.path_exists("/HOME/U"));
}

#[test]
fn sort_orders_by_path() {
    let mut items = PathItems {
        paths: vec![
            item("b", "/b", ""),
            item("c", "/a/z", ""),
            item("a", "/a", ""),
            item("d", "/B", ""),
        ],
    };
    items.sort();
    let paths: Vec<&str> = items.paths.iter().map(|p| p.full_path.as_str()).collect();
    assert_eq!(paths, vec!["/B", "/a", "/a/z", "/b"]);
}

#[test]
fn entries_are_equal_by_path() {
    assert!(item("one", "/p", "x") == item("two", "/p", "y"));
    assert!(item("one", "/p", "x") != item("one", "/q", "x"));
}

#[test]
fn multi_word_result_lies_within_each_word_result() {
    let items = PathItems {
        paths: vec![
            item("Work Notes", "/srv/work/notes", ""),
            item("Work", "/srv/work", ""),
            item("Notes", "/home/notes", ""),
        ],
    };
    let both = items.filter_indices("work notes");
    assert_eq!(both, vec![0]);
    let work = items.filter_indices("work");
    let notes = items.filter_indices("notes");
    assert_eq!(work, vec![0, 1]);
    assert_eq!(notes, vec![0, 2]);
    for i in both {
        assert!(work.contains(&i) && notes.contains(&i));
    }
}
