use codestacks::buffers::PinnedBuffer;
use codestacks::marks::{GlobalMark, LocalMark};
use codestacks::stacks::{Stack, Stacks, StacksManager};

fn s(text: &str) -> String {
    text.to_string()
}

fn with_stack(name: &str) -> Stacks {
    let mut stacks = Stacks::new();
    assert!(stacks.add(s(name)));
    stacks
}

fn names(stacks: &Stacks) -> Vec<String> {
    stacks.list().iter().map(|stack| stack.name().clone()).collect()
}

#[test]
fn a_new_collection_is_empty() {
    let stacks = Stacks::new();
    assert!(stacks.active.is_none());
    assert!(stacks.list().is_empty());
    assert!(stacks.get(None).is_none());
}

#[test]
fn add_makes_the_stack_active() {
    let mut stacks = Stacks::new();
    assert!(stacks.add(s("one")));
    assert!(stacks.add(s("two")));
    assert_eq!(stacks.active, Some(s("two")));
    assert_eq!(names(&stacks), vec![s("one"), s("two")]);
    assert!(stacks.is_active(s("two")));
    assert!(!stacks.is_active(s("one")));
}

#[test]
fn add_refuses_a_taken_name() {
    let mut stacks = with_stack("one");
    stacks.add(s("two"));
    assert!(!stacks.add(s("one")));
    assert_eq!(stacks.active, Some(s("two")));
    assert_eq!(stacks.list().len(), 2);
}

#[test]
fn set_active_needs_a_stack() {
    let mut stacks = with_stack("one");
    stacks.add(s("two"));
    assert!(stacks.set_active(s("one")));
    assert_eq!(stacks.active_name(), Some(s("one")));
    assert!(!stacks.set_active(s("three")));
    assert_eq!(stacks.active_name(), Some(s("one")));
}

#[test]
fn get_finds_by_name_or_the_active_stack() {
    let mut stacks = with_stack("one");
    stacks.add(s("two"));
    assert_eq!(stacks.get(Some(s("one"))).unwrap().name(), "one");
    assert_eq!(stacks.get(None).unwrap().name(), "two");
    assert!(stacks.get(Some(s("three"))).is_none());
}

#[test]
fn remove_of_the_active_stack_leaves_none_active() {
    let mut stacks = with_stack("one");
    let removed = stacks.remove(s("one"));
    assert_eq!(removed.unwrap().name(), "one");
    assert!(stacks.active.is_none());
    assert!(stacks.get(None).is_none());
    assert!(stacks.list().is_empty());
}

#[test]
fn remove_of_another_stack_keeps_the_active_one() {
    let mut stacks = with_stack("one");
    stacks.add(s("two"));
    assert!(stacks.remove(s("one")).is_some());
    assert_eq!(stacks.active, Some(s("two")));
    assert!(stacks.remove(s("one")).is_none());
    assert_eq!(names(&stacks), vec![s("two")]);
}

#[test]
fn rename_moves_the_stack_and_the_active_name() {
    let mut stacks = with_stack("one");
    stacks.pin_buffer(s("/a.rs"), s("a"));
    stacks.add_local_mark(s("/a.rs"), s("fn a()"), 3);
    stacks.add_global_mark(s("/a.rs"), s("check"), s("let x;"), 7);
    assert!(stacks.rename(s("one"), s("uno")));
    assert_eq!(stacks.active, Some(s("uno")));
    assert!(stacks.get(Some(s("one"))).is_none());
    let stack = stacks.get(None).unwrap();
    assert_eq!(stack.name(), "uno");
    assert_eq!(stack.pinned_buffers().len(), 1);
    assert_eq!(stack.local_marks().len(), 1);
    let marks = stack.list_global_marks(None);
    assert_eq!(marks.len(), 1);
    assert_eq!(marks[0].stack, "one");
}

#[test]
fn rename_is_refused_for_an_unknown_or_a_taken_name() {
    let mut stacks = with_stack("one");
    stacks.add(s("two"));
    assert!(!stacks.rename(s("three"), s("four")));
    assert!(!stacks.rename(s("one"), s("two")));
    assert!(!stacks.rename(s("one"), s("one")));
    assert_eq!(names(&stacks), vec![s("one"), s("two")]);
    assert_eq!(stacks.active, Some(s("two")));
}

#[test]
fn rename_of_another_stack_keeps_the_active_name() {
    let mut stacks = with_stack("one");
    stacks.add(s("two"));
    assert!(stacks.rename(s("one"), s("uno")));
    assert_eq!(stacks.active, Some(s("two")));
    assert_eq!(names(&stacks), vec![s("two"), s("uno")]);
}

#[test]
fn nothing_works_without_an_active_stack() {
    let mut stacks = Stacks::new();
    assert!(!stacks.pin_buffer(s("/a.rs"), s("a")));
    assert!(!stacks.unpin_buffer(s("/a.rs")));
    assert!(stacks.list_pinned_buffers().is_empty());
    assert!(stacks.get_pinned_buffer(s("/a.rs")).is_none());
    assert!(!stacks.add_global_mark(s("/a.rs"), s("d"), s("l"), 1));
    assert!(!stacks.remove_global_mark(s("/a.rs"), 1));
    assert!(!stacks.update_global_mark(s("/a.rs"), 1, Some(2), None));
    assert!(stacks.list_global_marks(None).is_empty());
    assert!(!stacks.add_local_mark(s("/a.rs"), s("l"), 1));
    assert!(!stacks.remove_local_mark(s("/a.rs"), 1));
    assert!(!stacks.update_local_mark(s("/a.rs"), 1, Some(2)));
    assert!(stacks.list_local_marks().is_empty());
}

#[test]
fn an_active_name_without_a_stack_counts_as_no_active_stack() {
    let mut stacks = with_stack("one");
    stacks.active = Some(s("gone"));
    assert!(stacks.is_active(s("gone")));
    assert!(stacks.get(None).is_none());
    assert!(!stacks.pin_buffer(s("/a.rs"), s("a")));
    assert!(stacks.remove(s("gone")).is_none());
    assert_eq!(stacks.active, Some(s("gone")));
}

#[test]
fn pinning_a_path_twice_keeps_one_buffer() {
    let mut stacks = with_stack("one");
    assert!(stacks.pin_buffer(s("/a.rs"), s("first")));
    assert!(stacks.pin_buffer(s("/b.rs"), s("other")));
    assert!(stacks.pin_buffer(s("/a.rs"), s("second")));
    let buffers = stacks.list_pinned_buffers();
    assert_eq!(buffers.len(), 2);
    assert_eq!(buffers[0].path, "/b.rs");
    assert_eq!(buffers[1].path, "/a.rs");
    assert_eq!(buffers[1].label, "second");
    assert_eq!(buffers.iter().filter(|b| b.path == "/a.rs").count(), 1);
}

#[test]
fn pinning_goes_by_the_path_alone() {
    let mut stacks = with_stack("one");
    stacks.pin_buffer(s("/a.rs"), s("same"));
    stacks.pin_buffer(s("/b.rs"), s("same"));
    let buffers = stacks.list_pinned_buffers();
    assert_eq!(buffers.len(), 2);
    assert_eq!(buffers[0].path, "/a.rs");
    assert_eq!(buffers[1].path, "/b.rs");
}

#[test]
fn unpin_tells_whether_a_buffer_went() {
    let mut stacks = with_stack("one");
    stacks.pin_buffer(s("/a.rs"), s("a"));
    assert!(!stacks.unpin_buffer(s("/b.rs")));
    assert!(stacks.unpin_buffer(s("/a.rs")));
    assert!(!stacks.unpin_buffer(s("/a.rs")));
    assert!(stacks.list_pinned_buffers().is_empty());
}

#[test]
fn get_pinned_buffer_finds_by_path() {
    let mut stacks = with_stack("one");
    stacks.pin_buffer(s("/a.rs"), s("a"));
    stacks.pin_buffer(s("/b.rs"), s("b"));
    let found = stacks.get_pinned_buffer(s("/b.rs")).unwrap();
    assert_eq!(found.path, "/b.rs");
    assert_eq!(found.label, "b");
    assert!(stacks.get_pinned_buffer(s("/c.rs")).is_none());
}

#[test]
fn a_global_mark_at_a_taken_line_is_updated_in_place() {
    let mut stacks = with_stack("one");
    assert!(stacks.add_global_mark(s("/a.rs"), s("todo"), s("let x = 1;"), 10));
    assert!(stacks.add_global_mark(s("/a.rs"), s("later"), s("let y = 1;"), 20));
    assert!(stacks.add_global_mark(s("/a.rs"), s("fixed"), s("let x = 2;"), 10));
    let marks = stacks.list_global_marks(Some(s("/a.rs")));
    assert_eq!(marks.len(), 2);
    assert_eq!(marks[0].lineno, 10);
    assert_eq!(marks[0].desc, "fixed");
    assert_eq!(marks[0].line, "let x = 2;");
    assert_eq!(marks[0].path, "/a.rs");
    assert_eq!(marks[0].stack, "one");
    assert_eq!(marks[1].lineno, 20);
    assert_eq!(marks[1].desc, "later");
}

#[test]
fn global_marks_are_kept_by_path() {
    let mut stacks = with_stack("one");
    stacks.add_global_mark(s("/a.rs"), s("a1"), s("l"), 1);
    stacks.add_global_mark(s("/b.rs"), s("b1"), s("l"), 1);
    stacks.add_global_mark(s("/a.rs"), s("a2"), s("l"), 2);
    assert_eq!(stacks.list_global_marks(Some(s("/a.rs"))).len(), 2);
    assert_eq!(stacks.list_global_marks(Some(s("/b.rs"))).len(), 1);
    assert!(stacks.list_global_marks(Some(s("/c.rs"))).is_empty());
    let all = stacks.list_global_marks(None);
    let descs: Vec<&str> = all.iter().map(|m| m.desc.as_str()).collect();
    assert_eq!(descs, vec!["a1", "a2", "b1"]);
}

#[test]
fn remove_global_mark_tells_whether_a_mark_went() {
    let mut stacks = with_stack("one");
    stacks.add_global_mark(s("/a.rs"), s("a1"), s("l"), 1);
    stacks.add_global_mark(s("/a.rs"), s("a2"), s("l"), 2);
    assert!(!stacks.remove_global_mark(s("/b.rs"), 1));
    assert!(!stacks.remove_global_mark(s("/a.rs"), 3));
    assert!(stacks.remove_global_mark(s("/a.rs"), 1));
    assert!(!stacks.remove_global_mark(s("/a.rs"), 1));
    let marks = stacks.list_global_marks(Some(s("/a.rs")));
    assert_eq!(marks.len(), 1);
    assert_eq!(marks[0].desc, "a2");
}

#[test]
fn update_global_mark_applies_what_is_given() {
    let mut stacks = with_stack("one");
    stacks.add_global_mark(s("/a.rs"), s("old"), s("l"), 1);
    assert!(!stacks.update_global_mark(s("/a.rs"), 1, None, None));
    assert!(!stacks.update_global_mark(s("/a.rs"), 2, Some(3), Some(s("x"))));
    assert!(!stacks.update_global_mark(s("/b.rs"), 1, Some(3), Some(s("x"))));
    assert!(stacks.update_global_mark(s("/a.rs"), 1, None, Some(s("new"))));
    let marks = stacks.list_global_marks(Some(s("/a.rs")));
    assert_eq!((marks[0].lineno, marks[0].desc.as_str()), (1, "new"));
    assert!(stacks.update_global_mark(s("/a.rs"), 1, Some(5), None));
    let marks = stacks.list_global_marks(Some(s("/a.rs")));
    assert_eq!((marks[0].lineno, marks[0].desc.as_str()), (5, "new"));
    assert!(stacks.update_global_mark(s("/a.rs"), 5, Some(6), Some(s("both"))));
    let marks = stacks.list_global_marks(Some(s("/a.rs")));
    assert_eq!((marks[0].lineno, marks[0].desc.as_str(), marks[0].line.as_str()), (6, "both", "l"));
}

#[test]
fn a_local_mark_at_a_taken_place_replaces_the_old_one() {
    let mut stacks = with_stack("one");
    assert!(stacks.add_local_mark(s("/a.rs"), s("old"), 4));
    assert!(stacks.add_local_mark(s("/a.rs"), s("other"), 5));
    assert!(stacks.add_local_mark(s("/b.rs"), s("elsewhere"), 4));
    assert!(stacks.add_local_mark(s("/a.rs"), s("new"), 4));
    let marks = stacks.list_local_marks();
    let seen: Vec<(&str, i32, &str)> =
        marks.iter().map(|m| (m.path.as_str(), m.lineno, m.line.as_str())).collect();
    assert_eq!(seen, vec![("/a.rs", 5, "other"), ("/b.rs", 4, "elsewhere"), ("/a.rs", 4, "new")]);
}

#[test]
fn remove_local_mark_tells_whether_a_mark_went() {
    let mut stacks = with_stack("one");
    stacks.add_local_mark(s("/a.rs"), s("l"), 4);
    assert!(!stacks.remove_local_mark(s("/a.rs"), 5));
    assert!(!stacks.remove_local_mark(s("/b.rs"), 4));
    assert!(stacks.remove_local_mark(s("/a.rs"), 4));
    assert!(!stacks.remove_local_mark(s("/a.rs"), 4));
    assert!(stacks.list_local_marks().is_empty());
}

#[test]
fn update_local_mark_moves_the_mark() {
    let mut stacks = with_stack("one");
    stacks.add_local_mark(s("/a.rs"), s("l"), 4);
    assert!(!stacks.update_local_mark(s("/a.rs"), 4, None));
    assert!(!stacks.update_local_mark(s("/a.rs"), 5, Some(6)));
    assert!(stacks.update_local_mark(s("/a.rs"), 4, Some(9)));
    let marks = stacks.list_local_marks();
    assert_eq!(marks.len(), 1);
    assert_eq!((marks[0].lineno, marks[0].line.as_str()), (9, "l"));
}

#[test]
fn marks_go_to_the_active_stack_only() {
    let mut stacks = with_stack("one");
    stacks.add_local_mark(s("/a.rs"), s("l"), 1);
    stacks.add(s("two"));
    assert!(stacks.list_local_marks().is_empty());
    stacks.add_local_mark(s("/b.rs"), s("l"), 2);
    assert_eq!(stacks.get(Some(s("one"))).unwrap().local_marks().len(), 1);
    assert_eq!(stacks.get(Some(s("one"))).unwrap().local_marks()[0].path, "/a.rs");
    assert_eq!(stacks.list_local_marks()[0].path, "/b.rs");
}

#[test]
fn a_collection_rebuilt_from_its_parts_is_the_same() {
    let mut stacks = with_stack("one");
    stacks.pin_buffer(s("/a.rs"), s("a"));
    stacks.add_local_mark(s("/a.rs"), s("fn a()"), 3);
    stacks.add_global_mark(s("/a.rs"), s("check"), s("let x;"), 7);
    stacks.add_global_mark(s("/b.rs"), s("note"), s("let y;"), 8);
    stacks.add(s("two"));
    stacks.set_active(s("one"));
    let rebuilt = Stacks::from_parts(stacks.active_name(), stacks.entries());
    assert_eq!(rebuilt.active, Some(s("one")));
    assert_eq!(names(&rebuilt), vec![s("one"), s("two")]);
    let stack = rebuilt.get(None).unwrap();
    assert_eq!(stack.pinned_buffers()[0].label, "a");
    assert_eq!(stack.local_marks()[0].lineno, 3);
    let marks = stack.list_global_marks(None);
    assert_eq!(marks.iter().map(|m| m.desc.as_str()).collect::<Vec<_>>(), vec!["check", "note"]);
    assert!(rebuilt.get(Some(s("two"))).unwrap().list_global_marks(None).is_empty());
}

#[test]
fn a_stack_rebuilt_from_its_parts_is_the_same() {
    let mut stacks = with_stack("one");
    stacks.add_global_mark(s("/a.rs"), s("check"), s("let x;"), 7);
    stacks.add_global_mark(s("/b.rs"), s("note"), s("let y;"), 8);
    let stack = stacks.get(None).unwrap();
    let buckets = stack.buckets();
    assert_eq!(buckets.len(), 2);
    assert_eq!(buckets[0].0, "/a.rs");
    assert_eq!(buckets[1].0, "/b.rs");
    let rebuilt = Stack::from_parts(
        stack.name().clone(),
        stack.pinned_buffers().clone(),
        stack.local_marks().clone(),
        buckets,
    );
    assert_eq!(rebuilt.name(), "one");
    assert_eq!(rebuilt.list_global_marks(Some(s("/b.rs")))[0].desc, "note");
    assert_eq!(rebuilt.list_global_marks(None).len(), 2);
}

#[test]
fn of_two_parts_under_one_key_the_later_counts() {
    let mark = |desc: &str| GlobalMark {
        stack: s("one"),
        path: s("/a.rs"),
        line: s("l"),
        lineno: 1,
        desc: s(desc),
    };
    let stack = Stack::from_parts(
        s("one"),
        vec![PinnedBuffer { path: s("/p.rs"), label: s("p") }],
        vec![LocalMark { path: s("/l.rs"), line: s("l"), lineno: 2 }],
        vec![
            (s("/a.rs"), vec![mark("first")]),
            (s("/b.rs"), vec![mark("other")]),
            (s("/a.rs"), vec![mark("second"), mark("third")]),
        ],
    );
    let descs: Vec<String> = stack.list_global_marks(None).into_iter().map(|m| m.desc).collect();
    assert_eq!(descs, vec![s("second"), s("third"), s("other")]);
    let stacks = Stacks::from_parts(
        Some(s("x")),
        vec![(s("x"), Stack::new(s("first"))), (s("x"), Stack::new(s("second")))],
    );
    assert_eq!(stacks.list().len(), 1);
    assert_eq!(stacks.get(None).unwrap().name(), "second");
}

#[test]
fn the_registry_routes_to_the_active_project() {
    let mut manager = StacksManager::new(
        s("beta"),
        vec![(s("alpha"), with_stack("a1")), (s("beta"), with_stack("b1"))],
    );
    assert_eq!(manager.active, Some(s("beta")));
    assert_eq!(manager.get_stacks().unwrap().active_name(), Some(s("b1")));
    assert!(manager.get_stacks_mut().unwrap().add(s("b2")));
    assert_eq!(manager.get_stacks().unwrap().list().len(), 2);
    let all = manager.list_stacks();
    assert_eq!(all.len(), 2);
    assert_eq!(all[0].active_name(), Some(s("a1")));
    assert_eq!(all[1].active_name(), Some(s("b2")));
}

#[test]
fn the_registry_has_no_collection_for_an_unknown_project() {
    let mut manager = StacksManager::new(s("gamma"), vec![(s("alpha"), with_stack("a1"))]);
    assert!(manager.get_stacks().is_none());
    assert!(manager.get_stacks_mut().is_none());
    manager.active = None;
    assert!(manager.get_stacks().is_none());
    assert_eq!(manager.list_stacks().len(), 1);
}
