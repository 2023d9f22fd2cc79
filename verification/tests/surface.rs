use codestacks::errors::Errors;
use codestacks::stacks::Stacks;
use codestacks::{
    add_global_mark, add_local_mark, add_recent_file, add_stack, enable_recent_files,
    get_active_stack, get_pinned_buffer, get_stack, is_active_stack, list_all_global_marks,
    list_global_marks, list_local_marks, list_pinned_buffers, list_recent_files, list_stacks,
    pin_buffer, remove_global_mark, remove_local_mark, remove_recent_file, remove_stack,
    rename_stack, set_active_stack, setup, unpin_buffer, update_global_mark, update_local_mark,
    Context,
};

fn s(text: &str) -> String {
    text.to_string()
}

fn ready() -> Context {
    let mut ctx = Context::new();
    assert!(setup(&mut ctx, s("proj"), vec![(s("proj"), Stacks::new())], Vec::new(), 3));
    ctx
}

#[test]
fn setup_runs_once() {
    let mut ctx = Context::new();
    assert!(setup(&mut ctx, s("proj"), vec![(s("proj"), Stacks::new())], vec![s("/a.rs")], 3));
    assert!(!setup(&mut ctx, s("other"), Vec::new(), vec![s("/b.rs")], 9));
    assert_eq!(ctx.stacks.as_ref().unwrap().active, Some(s("proj")));
    assert_eq!(list_recent_files(&ctx), Ok(vec![s("/a.rs")]));
    assert_eq!(ctx.recent_files.as_ref().unwrap().limit, 3);
}

#[test]
fn setup_fills_the_stacks_where_only_the_recent_files_are_there() {
    let mut ctx = Context::new();
    ctx.recent_files = Some(codestacks::buffers::RecentFiles::new(vec![s("/old.rs")], 1));
    assert!(!setup(&mut ctx, s("proj"), vec![(s("proj"), Stacks::new())], vec![s("/a.rs")], 3));
    assert!(ctx.stacks.is_some());
    assert_eq!(list_recent_files(&ctx), Ok(vec![s("/old.rs")]));
}

#[test]
fn calls_on_the_stacks_fail_before_setup() {
    let mut ctx = Context::new();
    assert_eq!(add_stack(&mut ctx, s("x")), Err(Errors::StacksNotInit));
    assert!(matches!(remove_stack(&mut ctx, s("x")), Err(Errors::StacksNotInit)));
    assert_eq!(get_active_stack(&ctx), Err(Errors::StacksNotInit));
    assert_eq!(is_active_stack(&ctx, s("x")), Err(Errors::StacksNotInit));
    assert_eq!(set_active_stack(&mut ctx, s("x")), Err(Errors::StacksNotInit));
    assert!(matches!(list_stacks(&ctx), Err(Errors::StacksNotInit)));
    assert_eq!(rename_stack(&mut ctx, s("x"), s("y")), Err(Errors::StacksNotInit));
    assert!(matches!(get_stack(&ctx, None), Err(Errors::StacksNotInit)));
    assert_eq!(pin_buffer(&mut ctx, s("/a"), s("a")), Err(Errors::StacksNotInit));
    assert_eq!(unpin_buffer(&mut ctx, s("/a")), Err(Errors::StacksNotInit));
    assert!(matches!(list_pinned_buffers(&ctx), Err(Errors::StacksNotInit)));
    assert!(matches!(get_pinned_buffer(&ctx, s("/a")), Err(Errors::StacksNotInit)));
    assert_eq!(add_global_mark(&mut ctx, s("/a"), s("d"), s("l"), 1), Err(Errors::StacksNotInit));
    assert_eq!(remove_global_mark(&mut ctx, s("/a"), 1), Err(Errors::StacksNotInit));
    assert!(matches!(list_global_marks(&ctx, None), Err(Errors::StacksNotInit)));
    assert!(matches!(list_all_global_marks(&ctx, None), Err(Errors::StacksNotInit)));
    assert_eq!(
        update_global_mark(&mut ctx, s("/a"), 1, Some(2), None),
        Err(Errors::StacksNotInit)
    );
    assert_eq!(add_local_mark(&mut ctx, s("/a"), 1, s("l")), Err(Errors::StacksNotInit));
    assert_eq!(remove_local_mark(&mut ctx, s("/a"), 1), Err(Errors::StacksNotInit));
    assert!(matches!(list_local_marks(&ctx, None), Err(Errors::StacksNotInit)));
    assert_eq!(update_local_mark(&mut ctx, s("/a"), 1, Some(2)), Err(Errors::StacksNotInit));
}

#[test]
fn calls_on_the_recent_files_fail_before_setup() {
    let mut ctx = Context::new();
    assert_eq!(add_recent_file(&mut ctx, s("/a")), Err(Errors::RecentFilesNotInit));
    assert_eq!(remove_recent_file(&mut ctx, s("/a")), Err(Errors::RecentFilesNotInit));
    assert_eq!(list_recent_files(&ctx), Err(Errors::RecentFilesNotInit));
    assert_eq!(enable_recent_files(&mut ctx, true), Err(Errors::RecentFilesNotInit));
}

#[test]
fn a_project_without_a_collection_answers_with_nothing() {
    let mut ctx = Context::new();
    setup(&mut ctx, s("missing"), vec![(s("proj"), Stacks::new())], Vec::new(), 3);
    assert_eq!(add_stack(&mut ctx, s("x")), Ok(false));
    assert!(remove_stack(&mut ctx, s("x")).unwrap().is_none());
    assert_eq!(get_active_stack(&ctx), Ok(None));
    assert_eq!(is_active_stack(&ctx, s("x")), Ok(false));
    assert_eq!(set_active_stack(&mut ctx, s("x")), Ok(false));
    assert!(list_stacks(&ctx).unwrap().is_empty());
    assert_eq!(rename_stack(&mut ctx, s("x"), s("y")), Ok(false));
    assert!(get_stack(&ctx, None).unwrap().is_none());
    assert_eq!(pin_buffer(&mut ctx, s("/a"), s("a")), Ok(false));
    assert!(list_pinned_buffers(&ctx).unwrap().is_empty());
    assert_eq!(add_global_mark(&mut ctx, s("/a"), s("d"), s("l"), 1), Ok(false));
    assert!(list_global_marks(&ctx, None).unwrap().is_empty());
    assert!(list_all_global_marks(&ctx, None).unwrap().is_empty());
    assert_eq!(add_local_mark(&mut ctx, s("/a"), 1, s("l")), Ok(false));
    assert!(list_local_marks(&ctx, None).unwrap().is_empty());
}

#[test]
fn adding_a_stack_twice_keeps_one() {
    let mut ctx = ready();
    assert_eq!(add_stack(&mut ctx, s("feature-x")), Ok(true));
    assert_eq!(add_stack(&mut ctx, s("feature-x")), Ok(false));
    assert_eq!(list_stacks(&ctx).unwrap().len(), 1);
    assert_eq!(get_active_stack(&ctx), Ok(Some(s("feature-x"))));
}

#[test]
fn a_global_mark_set_twice_at_one_line_is_one_mark() {
    let mut ctx = ready();
    add_stack(&mut ctx, s("feature-x")).unwrap();
    assert_eq!(add_global_mark(&mut ctx, s("/a.rs"), s("todo"), s("let x = 1;"), 10), Ok(true));
    assert_eq!(add_global_mark(&mut ctx, s("/a.rs"), s("fixed"), s("let x = 2;"), 10), Ok(true));
    let marks = list_global_marks(&ctx, Some(s("/a.rs"))).unwrap();
    assert_eq!(marks.len(), 1);
    assert_eq!(marks[0].desc, "fixed");
    assert_eq!(marks[0].line, "let x = 2;");
}

#[test]
fn disabled_recent_files_stay_as_they_are() {
    let mut ctx = ready();
    assert_eq!(add_recent_file(&mut ctx, s("/a.rs")), Ok(Some(s("/a.rs"))));
    assert_eq!(enable_recent_files(&mut ctx, false), Ok(true));
    assert_eq!(add_recent_file(&mut ctx, s("/b.rs")), Ok(None));
    assert_eq!(remove_recent_file(&mut ctx, s("/a.rs")), Ok(None));
    assert_eq!(list_recent_files(&ctx), Ok(vec![s("/a.rs")]));
}

#[test]
fn recent_files_are_capped_at_the_limit() {
    let mut ctx = ready();
    for path in ["/1", "/2", "/3", "/4"] {
        add_recent_file(&mut ctx, s(path)).unwrap();
    }
    assert_eq!(list_recent_files(&ctx), Ok(vec![s("/4"), s("/3"), s("/2")]));
    assert_eq!(remove_recent_file(&mut ctx, s("/3")), Ok(Some(s("/4\n/2"))));
}

#[test]
fn removing_the_active_stack_leaves_none_active() {
    let mut ctx = ready();
    add_stack(&mut ctx, s("one")).unwrap();
    let removed = remove_stack(&mut ctx, s("one")).unwrap();
    assert_eq!(removed.unwrap().name(), "one");
    assert_eq!(get_active_stack(&ctx), Ok(None));
    assert!(get_stack(&ctx, None).unwrap().is_none());
}

#[test]
fn renaming_the_active_stack_moves_the_active_name() {
    let mut ctx = ready();
    add_stack(&mut ctx, s("one")).unwrap();
    assert_eq!(rename_stack(&mut ctx, s("one"), s("uno")), Ok(true));
    assert_eq!(get_active_stack(&ctx), Ok(Some(s("uno"))));
    assert_eq!(is_active_stack(&ctx, s("uno")), Ok(true));
    assert_eq!(is_active_stack(&ctx, s("one")), Ok(false));
    assert_eq!(get_stack(&ctx, Some(s("uno"))).unwrap().unwrap().name(), "uno");
}

#[test]
fn set_active_switches_between_stacks() {
    let mut ctx = ready();
    add_stack(&mut ctx, s("one")).unwrap();
    add_stack(&mut ctx, s("two")).unwrap();
    assert_eq!(set_active_stack(&mut ctx, s("one")), Ok(true));
    assert_eq!(set_active_stack(&mut ctx, s("nine")), Ok(false));
    assert_eq!(get_active_stack(&ctx), Ok(Some(s("one"))));
}

#[test]
fn buffers_are_pinned_and_unpinned() {
    let mut ctx = ready();
    assert_eq!(pin_buffer(&mut ctx, s("/a.rs"), s("a")), Ok(false));
    add_stack(&mut ctx, s("one")).unwrap();
    assert_eq!(pin_buffer(&mut ctx, s("/a.rs"), s("a")), Ok(true));
    assert_eq!(pin_buffer(&mut ctx, s("/a.rs"), s("again")), Ok(true));
    let buffers = list_pinned_buffers(&ctx).unwrap();
    assert_eq!(buffers.len(), 1);
    assert_eq!(buffers[0].label, "again");
    assert_eq!(get_pinned_buffer(&ctx, s("/a.rs")).unwrap().unwrap().label, "again");
    assert!(get_pinned_buffer(&ctx, s("/b.rs")).unwrap().is_none());
    assert_eq!(unpin_buffer(&mut ctx, s("/b.rs")), Ok(false));
    assert_eq!(unpin_buffer(&mut ctx, s("/a.rs")), Ok(true));
    assert!(list_pinned_buffers(&ctx).unwrap().is_empty());
}

#[test]
fn global_marks_are_listed_by_description() {
    let mut ctx = ready();
    add_stack(&mut ctx, s("one")).unwrap();
    add_global_mark(&mut ctx, s("/a.rs"), s("pear"), s("l1"), 1).unwrap();
    add_global_mark(&mut ctx, s("/a.rs"), s("apple"), s("l2"), 2).unwrap();
    add_global_mark(&mut ctx, s("/b.rs"), s("fig"), s("l3"), 3).unwrap();
    add_global_mark(&mut ctx, s("/a.rs"), s("apple"), s("l4"), 4).unwrap();
    let marks = list_global_marks(&ctx, Some(s("/a.rs"))).unwrap();
    let seen: Vec<(&str, i32)> = marks.iter().map(|m| (m.desc.as_str(), m.lineno)).collect();
    assert_eq!(seen, vec![("apple", 2), ("apple", 4), ("pear", 1)]);
    let marks = list_global_marks(&ctx, None).unwrap();
    let seen: Vec<(&str, i32)> = marks.iter().map(|m| (m.desc.as_str(), m.lineno)).collect();
    assert_eq!(seen, vec![("apple", 2), ("apple", 4), ("fig", 3), ("pear", 1)]);
}

#[test]
fn global_marks_of_all_stacks_are_listed() {
    let mut ctx = ready();
    add_stack(&mut ctx, s("one")).unwrap();
    add_global_mark(&mut ctx, s("/a.rs"), s("z"), s("l"), 1).unwrap();
    add_stack(&mut ctx, s("two")).unwrap();
    add_global_mark(&mut ctx, s("/b.rs"), s("a"), s("l"), 2).unwrap();
    add_global_mark(&mut ctx, s("/c.rs"), s("m"), s("l"), 3).unwrap();
    let marks = list_all_global_marks(&ctx, Some(s("/b.rs"))).unwrap();
    let seen: Vec<(&str, &str)> = marks.iter().map(|m| (m.stack.as_str(), m.desc.as_str())).collect();
    assert_eq!(seen, vec![("one", "z"), ("two", "a"), ("two", "m")]);
    assert_eq!(list_all_global_marks(&ctx, None).unwrap().len(), 3);
}

#[test]
fn global_marks_are_updated_and_removed() {
    let mut ctx = ready();
    add_stack(&mut ctx, s("one")).unwrap();
    add_global_mark(&mut ctx, s("/a.rs"), s("d"), s("l"), 1).unwrap();
    assert_eq!(update_global_mark(&mut ctx, s("/a.rs"), 1, None, None), Ok(false));
    assert_eq!(update_global_mark(&mut ctx, s("/a.rs"), 1, Some(2), Some(s("e"))), Ok(true));
    assert_eq!(remove_global_mark(&mut ctx, s("/a.rs"), 1), Ok(false));
    assert_eq!(remove_global_mark(&mut ctx, s("/a.rs"), 2), Ok(true));
    assert!(list_global_marks(&ctx, None).unwrap().is_empty());
}

#[test]
fn local_marks_are_listed_by_path() {
    let mut ctx = ready();
    add_stack(&mut ctx, s("one")).unwrap();
    assert_eq!(add_local_mark(&mut ctx, s("/a.rs"), 1, s("first")), Ok(true));
    assert_eq!(add_local_mark(&mut ctx, s("/b.rs"), 2, s("second")), Ok(true));
    assert_eq!(add_local_mark(&mut ctx, s("/a.rs"), 3, s("third")), Ok(true));
    assert_eq!(add_local_mark(&mut ctx, s("/a.rs"), 1, s("fourth")), Ok(true));
    let all = list_local_marks(&ctx, None).unwrap();
    assert_eq!(all.len(), 3);
    let of_a = list_local_marks(&ctx, Some(s("/a.rs"))).unwrap();
    let seen: Vec<(i32, &str)> = of_a.iter().map(|m| (m.lineno, m.line.as_str())).collect();
    assert_eq!(seen, vec![(3, "third"), (1, "fourth")]);
    assert!(list_local_marks(&ctx, Some(s("/c.rs"))).unwrap().is_empty());
}

#[test]
fn local_marks_are_updated_and_removed() {
    let mut ctx = ready();
    add_stack(&mut ctx, s("one")).unwrap();
    add_local_mark(&mut ctx, s("/a.rs"), 1, s("l")).unwrap();
    assert_eq!(update_local_mark(&mut ctx, s("/a.rs"), 1, None), Ok(false));
    assert_eq!(update_local_mark(&mut ctx, s("/a.rs"), 1, Some(5)), Ok(true));
    assert_eq!(remove_local_mark(&mut ctx, s("/a.rs"), 1), Ok(false));
    assert_eq!(remove_local_mark(&mut ctx, s("/a.rs"), 5), Ok(true));
    assert!(list_local_marks(&ctx, None).unwrap().is_empty());
}

#[test]
fn an_update_can_put_two_marks_at_one_line() {
    let mut ctx = ready();
    add_stack(&mut ctx, s("one")).unwrap();
    add_local_mark(&mut ctx, s("/a.rs"), 1, s("x")).unwrap();
    add_local_mark(&mut ctx, s("/a.rs"), 2, s("y")).unwrap();
    assert_eq!(update_local_mark(&mut ctx, s("/a.rs"), 1, Some(2)), Ok(true));
    let marks = list_local_marks(&ctx, None).unwrap();
    assert_eq!(marks.iter().filter(|m| m.lineno == 2).count(), 2);
    assert_eq!(add_local_mark(&mut ctx, s("/a.rs"), 2, s("z")), Ok(true));
    let marks = list_local_marks(&ctx, None).unwrap();
    assert_eq!(marks.len(), 1);
    assert_eq!(marks[0].line, "z");
}
