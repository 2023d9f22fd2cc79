use codestacks::buffers::RecentFiles;

fn paths(items: &[&str]) -> Vec<String> {
    items.iter().map(|s| s.to_string()).collect()
}

#[test]
fn new_list_is_enabled_and_keeps_the_files() {
    let recent = RecentFiles::new(paths(&["/a.rs", "/b.rs"]), 5);
    assert!(recent.enabled);
    assert_eq!(recent.limit, 5);
    assert_eq!(recent.list(), paths(&["/a.rs", "/b.rs"]));
}

#[test]
fn add_puts_the_path_in_front() {
    let mut recent = RecentFiles::new(Vec::new(), 5);
    assert_eq!(recent.add("/a.rs".to_string()), Some("/a.rs".to_string()));
    assert_eq!(recent.add("/b.rs".to_string()), Some("/b.rs\n/a.rs".to_string()));
    assert_eq!(recent.list(), paths(&["/b.rs", "/a.rs"]));
}

#[test]
fn add_moves_a_known_path_to_the_front() {
    let mut recent = RecentFiles::new(paths(&["/a.rs", "/b.rs", "/c.rs"]), 5);
    let stored = recent.add("/c.rs".to_string());
    assert_eq!(stored, Some("/c.rs\n/a.rs\n/b.rs".to_string()));
    assert_eq!(recent.list(), paths(&["/c.rs", "/a.rs", "/b.rs"]));
}

#[test]
fn add_takes_out_every_copy_of_the_path() {
    let mut recent = RecentFiles::new(paths(&["/a.rs", "/b.rs", "/a.rs"]), 5);
    recent.add("/a.rs".to_string());
    assert_eq!(recent.list(), paths(&["/a.rs", "/b.rs"]));
}

#[test]
fn more_adds_than_the_limit_keep_the_newest() {
    let mut recent = RecentFiles::new(Vec::new(), 3);
    for path in ["/a.rs", "/b.rs", "/c.rs", "/d.rs", "/e.rs"] {
        recent.add(path.to_string());
    }
    assert_eq!(recent.list(), paths(&["/e.rs", "/d.rs", "/c.rs"]));
}

#[test]
fn the_cap_holds_over_files_that_were_there() {
    let mut recent = RecentFiles::new(paths(&["/x.rs", "/y.rs", "/z.rs"]), 2);
    for path in ["/a.rs", "/b.rs", "/c.rs"] {
        recent.add(path.to_string());
    }
    assert_eq!(recent.list(), paths(&["/c.rs", "/b.rs"]));
}

#[test]
fn a_negative_limit_keeps_everything() {
    let mut recent = RecentFiles::new(Vec::new(), -1);
    for path in ["/a.rs", "/b.rs", "/c.rs"] {
        recent.add(path.to_string());
    }
    assert_eq!(recent.list(), paths(&["/c.rs", "/b.rs", "/a.rs"]));
}

#[test]
fn a_limit_of_zero_keeps_nothing() {
    let mut recent = RecentFiles::new(paths(&["/a.rs"]), 0);
    assert_eq!(recent.add("/b.rs".to_string()), Some(String::new()));
    assert!(recent.list().is_empty());
}

#[test]
fn remove_takes_the_path_out() {
    let mut recent = RecentFiles::new(paths(&["/a.rs", "/b.rs", "/c.rs"]), 5);
    assert_eq!(recent.remove("/b.rs".to_string()), Some("/a.rs\n/c.rs".to_string()));
    assert_eq!(recent.list(), paths(&["/a.rs", "/c.rs"]));
}

#[test]
fn remove_of_an_unknown_path_still_saves() {
    let mut recent = RecentFiles::new(paths(&["/a.rs", "/b.rs", "/c.rs"]), 2);
    assert_eq!(recent.remove("/zz.rs".to_string()), Some("/a.rs\n/b.rs".to_string()));
    assert_eq!(recent.list(), paths(&["/a.rs", "/b.rs"]));
}

#[test]
fn a_disabled_list_ignores_add_and_remove() {
    let mut recent = RecentFiles::new(paths(&["/a.rs"]), 5);
    recent.set_enabled(false);
    assert_eq!(recent.add("/b.rs".to_string()), None);
    assert_eq!(recent.remove("/a.rs".to_string()), None);
    assert_eq!(recent.list(), paths(&["/a.rs"]));
    recent.set_enabled(true);
    assert_eq!(recent.add("/b.rs".to_string()), Some("/b.rs\n/a.rs".to_string()));
}

#[test]
fn save_cuts_down_to_the_limit_and_gives_the_text() {
    let mut recent = RecentFiles::new(paths(&["/a.rs", "/b.rs", "/c.rs"]), 2);
    assert_eq!(recent.save(), "/a.rs\n/b.rs");
    assert_eq!(recent.list(), paths(&["/a.rs", "/b.rs"]));
    assert_eq!(recent.save(), "/a.rs\n/b.rs");
}

#[test]
fn save_works_while_disabled() {
    let mut recent = RecentFiles::new(paths(&["/a.rs", "/b.rs"]), 1);
    recent.set_enabled(false);
    assert_eq!(recent.save(), "/a.rs");
    assert_eq!(recent.list(), paths(&["/a.rs"]));
}

#[test]
fn save_of_an_empty_list_gives_an_empty_text() {
    let mut recent = RecentFiles::new(Vec::new(), 4);
    assert_eq!(recent.save(), "");
}

#[test]
fn distinct_paths_stay_distinct() {
    let mut recent = RecentFiles::new(Vec::new(), 10);
    for path in ["/a.rs", "/b.rs", "/a.rs", "/c.rs", "/b.rs"] {
        recent.add(path.to_string());
    }
    assert_eq!(recent.list(), paths(&["/b.rs", "/c.rs", "/a.rs"]));
}
