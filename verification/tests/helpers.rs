use codestacks::marks::GlobalMark;
use codestacks::sorting::{sort_by_desc, text_in_order};
use codestacks::table::Table;

fn s(text: &str) -> String {
    text.to_string()
}

fn mark(desc: &str, lineno: i32) -> GlobalMark {
    GlobalMark { stack: s("one"), path: s("/a.rs"), line: s("l"), lineno, desc: s(desc) }
}

#[test]
fn texts_compare_as_strings_do() {
    let samples = ["", "a", "A", "ab", "abc", "b", "ba", "é", "z", "日本", "a\u{10FFFF}", "~"];
    for a in samples {
        for b in samples {
            assert_eq!(text_in_order(&s(a), &s(b)), a <= b, "{:?} and {:?}", a, b);
        }
    }
}

#[test]
fn a_text_comes_before_its_extensions() {
    assert!(text_in_order(&s("foo"), &s("foobar")));
    assert!(!text_in_order(&s("foobar"), &s("foo")));
    assert!(text_in_order(&s("foo"), &s("foo")));
    assert!(text_in_order(&s(""), &s("")));
}

#[test]
fn sorting_is_by_description_and_stable() {
    let sorted = sort_by_desc(vec![
        mark("pear", 1),
        mark("apple", 2),
        mark("fig", 3),
        mark("apple", 4),
        mark("", 5),
        mark("pear", 6),
    ]);
    let seen: Vec<(&str, i32)> = sorted.iter().map(|m| (m.desc.as_str(), m.lineno)).collect();
    assert_eq!(
        seen,
        vec![("", 5), ("apple", 2), ("apple", 4), ("fig", 3), ("pear", 1), ("pear", 6)]
    );
}

#[test]
fn sorting_agrees_with_the_standard_sort() {
    let descs = ["m", "b", "z", "b", "a", "mm", "", "é", "b"];
    let marks: Vec<GlobalMark> =
        descs.iter().enumerate().map(|(i, d)| mark(d, i as i32)).collect();
    let mut expected = marks.clone();
    expected.sort_by(|a, b| a.desc.cmp(&b.desc));
    let sorted = sort_by_desc(marks);
    let seen: Vec<(String, i32)> = sorted.into_iter().map(|m| (m.desc, m.lineno)).collect();
    let wanted: Vec<(String, i32)> = expected.into_iter().map(|m| (m.desc, m.lineno)).collect();
    assert_eq!(seen, wanted);
}

#[test]
fn sorting_nothing_gives_nothing() {
    assert!(sort_by_desc(Vec::new()).is_empty());
}

#[test]
fn a_table_keeps_the_order_of_insertion() {
    let mut table: Table<i32> = Table::new();
    assert_eq!(table.len(), 0);
    assert_eq!(table.insert(s("b"), 1), None);
    assert_eq!(table.insert(s("a"), 2), None);
    assert_eq!(table.insert(s("c"), 3), None);
    assert_eq!(table.len(), 3);
    assert_eq!(table.position(&s("a")), Some(1));
    assert_eq!(table.position(&s("d")), None);
    assert_eq!(table.key(0), "b");
    assert_eq!(*table.value(2), 3);
}

#[test]
fn a_table_replaces_the_value_of_a_known_key() {
    let mut table: Table<i32> = Table::new();
    table.insert(s("a"), 1);
    table.insert(s("b"), 2);
    assert_eq!(table.insert(s("a"), 7), Some(1));
    assert_eq!(table.len(), 2);
    assert_eq!(table.position(&s("a")), Some(0));
    assert_eq!(*table.value(0), 7);
    *table.value_mut(1) = 9;
    assert_eq!(*table.value(1), 9);
}

#[test]
fn a_table_removes_by_key() {
    let mut table: Table<i32> = Table::from_pairs(vec![(s("a"), 1), (s("b"), 2), (s("c"), 3)]);
    assert_eq!(table.remove(&s("b")), Some(2));
    assert_eq!(table.remove(&s("b")), None);
    assert_eq!(table.len(), 2);
    assert_eq!(table.key(0), "a");
    assert_eq!(table.key(1), "c");
    assert_eq!(*table.value(1), 3);
}

#[test]
fn a_table_from_pairs_takes_the_last_value_of_a_key() {
    let table: Table<i32> =
        Table::from_pairs(vec![(s("a"), 1), (s("b"), 2), (s("a"), 3), (s("c"), 4)]);
    assert_eq!(table.len(), 3);
    assert_eq!(table.key(0), "a");
    assert_eq!(*table.value(0), 3);
    assert_eq!(table.key(2), "c");
    let copy = table.clone();
    assert_eq!(copy.len(), 3);
    assert_eq!(*copy.value(1), 2);
}
