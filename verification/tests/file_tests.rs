use donedone::entry::Entry;
use donedone::file::{get_entries, is_init_marker, remove_entry, swap_entries};

fn entry(path: &str, line: usize, comment: Option<&str>) -> Entry {
    Entry { path: path.to_string(), line, comment: comment.map(|c| c.to_string()) }
}

fn written(es: &[Entry]) -> String {
    es.iter().map(|e| e.serialize()).collect::<Vec<_>>().concat()
}

#[test]
fn get_entries_reads_written_file() {
    let es = vec![entry("a.rs", 1, Some("first")), entry("b.rs", 22, None), entry("c.rs", 3, Some("x y"))];
    let got = get_entries(&written(&es));
    assert_eq!(
        got,
        vec![entry("a.rs", 1, Some("first")), entry("b.rs", 22, Some("")), entry("c.rs", 3, Some("x y"))]
    );
}

#[test]
fn get_entries_after_adding_one() {
    let es = vec![entry("a.rs", 1, Some("first"))];
    let mut text = written(&es);
    let before = get_entries(&text);
    text.push_str(&entry("new.rs", 8, Some("added")).serialize());
    let mut expected = before.clone();
    expected.push(entry("new.rs", 8, Some("added")));
    assert_eq!(get_entries(&text), expected);
}

#[test]
fn get_entries_empty_file() {
    assert!(get_entries("").is_empty());
}

#[test]
fn get_entries_ignores_unfinished_entry() {
    let text = "a.rs\n1\nc\n\nb.rs\n2\n";
    assert_eq!(get_entries(text), vec![entry("a.rs", 1, Some("c"))]);
}

#[test]
fn get_entries_skips_unreadable_block() {
    let text = "a.rs\nnot a number\n\nb.rs\n2\n\n";
    assert_eq!(get_entries(text), vec![entry("b.rs", 2, Some(""))]);
}

#[test]
fn get_entries_extra_blank_lines() {
    let text = "\n\na.rs\n1\n\n\n";
    assert_eq!(get_entries(text), vec![entry("a.rs", 1, Some(""))]);
}

#[test]
fn remove_entry_removes_indexed_block() {
    let es = vec![entry("a.rs", 1, Some("one")), entry("b.rs", 2, Some("two")), entry("c.rs", 3, None)];
    let text = written(&es);
    let removed = remove_entry(&text, 1);
    assert_eq!(removed, written(&[es[0].clone(), es[2].clone()]));
    assert_eq!(get_entries(&removed), vec![entry("a.rs", 1, Some("one")), entry("c.rs", 3, Some(""))]);
}

#[test]
fn remove_entry_first_and_last() {
    let es = vec![entry("a.rs", 1, None), entry("b.rs", 2, None)];
    let text = written(&es);
    assert_eq!(remove_entry(&text, 0), written(&es[1..]));
    assert_eq!(remove_entry(&text, 1), written(&es[..1]));
}

#[test]
fn remove_entry_out_of_range_keeps_text() {
    let text = "a.rs\n1\n\nstray\n\n\nend";
    assert_eq!(remove_entry(text, 99), text);
}

#[test]
fn remove_entry_trailing_empty_block() {
    let text = written(&[entry("a.rs", 1, None)]);
    assert_eq!(remove_entry(&text, 1), "a.rs\n1");
}

#[test]
fn swap_entries_exchanges_blocks() {
    let es = vec![entry("a.rs", 1, Some("one")), entry("b.rs", 2, Some("two"))];
    let text = written(&es);
    let swapped = swap_entries(&text, 0, 1).unwrap();
    assert_eq!(swapped, written(&[es[1].clone(), es[0].clone()]));
    assert_eq!(swap_entries(&swapped, 0, 1).unwrap(), text);
}

#[test]
fn swap_entries_same_index() {
    let text = written(&[entry("a.rs", 1, None)]);
    assert_eq!(swap_entries(&text, 0, 0).unwrap(), text);
}

#[test]
fn swap_entries_out_of_range() {
    let text = written(&[entry("a.rs", 1, None)]);
    assert_eq!(swap_entries(&text, 0, 2), None);
    assert_eq!(swap_entries(&text, 5, 0), None);
}

#[test]
fn swap_entries_splits_without_overlap() {
    assert_eq!(swap_entries("x\n\n\n", 0, 1).unwrap(), "\n\n\nx");
}

#[test]
fn init_marker() {
    assert!(is_init_marker("dndn"));
    assert!(is_init_marker("  dndn \n"));
    assert!(is_init_marker("\tdndn\r\n"));
    assert!(!is_init_marker("dndnx\n"));
    assert!(!is_init_marker("d ndn"));
    assert!(!is_init_marker(""));
}
