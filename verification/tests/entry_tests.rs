use donedone::entry::{Entry, SerializeError};

fn entry(path: &str, line: usize, comment: Option<&str>) -> Entry {
    Entry { path: path.to_string(), line, comment: comment.map(|c| c.to_string()) }
}

#[test]
fn serialize_with_comment() {
    let e = entry("src/main.rs", 42, Some("fix this"));
    assert_eq!(e.serialize(), "src/main.rs\n42\nfix this\n\n");
}

#[test]
fn serialize_without_comment() {
    let e = entry("a.rs", 7, None);
    assert_eq!(e.serialize(), "a.rs\n7\n\n");
}

#[test]
fn serialize_large_line_number() {
    let e = entry("x", usize::MAX, None);
    assert_eq!(e.serialize(), format!("x\n{}\n\n", usize::MAX));
    let z = entry("x", 0, None);
    assert_eq!(z.serialize(), "x\n0\n\n");
}

#[test]
fn deserialize_round_trip_with_comment() {
    let e = entry("src/lib.rs", 3, Some("look here"));
    let back = Entry::deserialize(&e.serialize()).unwrap();
    assert_eq!(back, e);
}

#[test]
fn deserialize_round_trip_without_comment_reads_empty_comment() {
    let e = entry("src/lib.rs", 3, None);
    let back = Entry::deserialize(&e.serialize()).unwrap();
    assert_eq!(back, entry("src/lib.rs", 3, Some("")));
}

#[test]
fn deserialize_without_trailing_blank_line() {
    let back = Entry::deserialize("p\n12").unwrap();
    assert_eq!(back, entry("p", 12, None));
}

#[test]
fn deserialize_no_path() {
    assert_eq!(Entry::deserialize(""), Err(SerializeError::NoPath));
}

#[test]
fn deserialize_no_line() {
    assert_eq!(Entry::deserialize("path"), Err(SerializeError::NoLine));
    assert_eq!(Entry::deserialize("path\n"), Err(SerializeError::NoLine));
}

#[test]
fn deserialize_invalid_line() {
    assert_eq!(Entry::deserialize("path\nabc\n"), Err(SerializeError::InvalidLine));
    assert_eq!(Entry::deserialize("path\n-1\n"), Err(SerializeError::InvalidLine));
    assert_eq!(Entry::deserialize("path\n\n"), Err(SerializeError::InvalidLine));
    assert_eq!(Entry::deserialize("path\n+\n"), Err(SerializeError::InvalidLine));
    assert_eq!(Entry::deserialize("path\n 1\n"), Err(SerializeError::InvalidLine));
    assert_eq!(
        Entry::deserialize("path\n999999999999999999999999999\n"),
        Err(SerializeError::InvalidLine)
    );
}

#[test]
fn deserialize_line_with_plus_and_zeros() {
    assert_eq!(Entry::deserialize("p\n+12\n").unwrap().line, 12);
    assert_eq!(Entry::deserialize("p\n007\n").unwrap().line, 7);
}

#[test]
fn deserialize_crlf_lines() {
    let back = Entry::deserialize("p\r\n3\r\nnote\r\n").unwrap();
    assert_eq!(back, entry("p", 3, Some("note")));
}

#[test]
fn deserialize_lone_carriage_return_kept_on_last_line() {
    let back = Entry::deserialize("p\n3\nnote\r").unwrap();
    assert_eq!(back.comment, Some("note\r".to_string()));
}

#[test]
fn deserialize_ignores_lines_after_comment() {
    let back = Entry::deserialize("p\n3\nc\nmore\nlines").unwrap();
    assert_eq!(back, entry("p", 3, Some("c")));
}

#[test]
fn deserialize_unicode() {
    let e = entry("dossier/été.rs", 9, Some("黑风雷 ünïcödé"));
    assert_eq!(Entry::deserialize(&e.serialize()).unwrap(), e);
}

#[test]
fn error_messages() {
    assert_eq!(SerializeError::NoPath.message(), "No path found in file");
    assert_eq!(SerializeError::NoLine.message(), "No line number found in file");
    assert_eq!(SerializeError::InvalidLine.message(), "Found non-integer line");
}
