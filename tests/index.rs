use soter::index::{content_digest, Digest, Index, IndexDifference};

fn h(n: u8) -> Digest {
    [n; 32]
}

fn index_of(pairs: &[(&str, Digest)]) -> Index {
    let records: Vec<(String, Digest)> = pairs.iter().map(|(p, d)| (p.to_string(), *d)).collect();
    Index::from_records(&records)
}

fn same_set(actual: &[IndexDifference], expected: &[IndexDifference]) -> bool {
    actual.len() == expected.len() && expected.iter().all(|e| actual.contains(e))
}

fn s(text: &str) -> String {
    text.to_string()
}

#[test]
fn add_of_new_file() {
    let previous = Index::new();
    let current = index_of(&[("a", h(1))]);
    assert_eq!(current.difference(&previous), vec![IndexDifference::Add(s("a"))]);
}

#[test]
fn delete_of_vanished_file() {
    let previous = index_of(&[("a", h(1))]);
    let current = Index::new();
    assert_eq!(current.difference(&previous), vec![IndexDifference::Delete(s("a"))]);
}

#[test]
fn edit_in_place() {
    let previous = index_of(&[("a", h(1))]);
    let current = index_of(&[("a", h(2))]);
    assert_eq!(current.difference(&previous), vec![IndexDifference::Edit(s("a"))]);
}

#[test]
fn rename_keeps_digest() {
    let previous = index_of(&[("a", h(1))]);
    let current = index_of(&[("b", h(1))]);
    assert_eq!(
        current.difference(&previous),
        vec![IndexDifference::Rename { from: s("a"), to: s("b") }]
    );
}

#[test]
fn combined_scenario() {
    let previous = index_of(&[("a", h(1)), ("b", h(2)), ("c", h(3))]);
    let current = index_of(&[("a", h(1)), ("d", h(2)), ("b", h(4))]);
    let diff = current.difference(&previous);
    assert!(same_set(
        &diff,
        &[
            IndexDifference::Rename { from: s("b"), to: s("d") },
            IndexDifference::Edit(s("b")),
            IndexDifference::Delete(s("c")),
        ]
    ));
    assert_eq!(diff.last(), Some(&IndexDifference::Delete(s("c"))));
}

#[test]
fn move_and_edit_is_add_and_delete() {
    let previous = index_of(&[("a", h(1))]);
    let current = index_of(&[("b", h(2))]);
    assert_eq!(
        current.difference(&previous),
        vec![IndexDifference::Add(s("b")), IndexDifference::Delete(s("a"))]
    );
}

#[test]
fn difference_with_itself_is_empty() {
    let index = index_of(&[("a", h(1)), ("b", h(2)), ("c", h(3))]);
    assert!(index.difference(&index).is_empty());
    let empty = Index::new();
    assert!(empty.difference(&empty).is_empty());
}

#[test]
fn edit_wins_when_new_digest_was_elsewhere() {
    let previous = index_of(&[("p", h(1)), ("q", h(2))]);
    let current = index_of(&[("p", h(2))]);
    assert_eq!(current.difference(&previous), vec![IndexDifference::Edit(s("p"))]);
}

#[test]
fn insert_evicts_on_both_axes() {
    let mut index = Index::new();
    index.insert(s("a"), h(1));
    index.insert(s("b"), h(2));
    index.insert(s("a"), h(2));
    assert_eq!(index.by_path(&s("a")), Some(h(2)));
    assert_eq!(index.by_path(&s("b")), None);
    assert_eq!(index.by_digest(&h(2)), Some(s("a")));
    assert_eq!(index.by_digest(&h(1)), None);
    assert_eq!(index.records().len(), 1);
}

#[test]
fn later_record_wins_duplicate_content() {
    let index = index_of(&[("x", h(7)), ("y", h(7))]);
    assert_eq!(index.by_digest(&h(7)), Some(s("y")));
    assert_eq!(index.by_path(&s("x")), None);
}

#[test]
fn records_round_trip() {
    let index = index_of(&[("a", h(1)), ("b", h(2)), ("c", h(3))]);
    let records = index.records();
    assert_eq!(records.len(), 3);
    let again = Index::from_records(&records);
    let mut first = index.records();
    let mut second = again.records();
    first.sort();
    second.sort();
    assert_eq!(first, second);
    assert!(again.difference(&index).is_empty());
}

#[test]
fn content_digest_is_sha256() {
    let empty = content_digest(b"");
    assert_eq!(
        empty.to_vec(),
        vec![
            0xe3, 0xb0, 0xc4, 0x42, 0x98, 0xfc, 0x1c, 0x14, 0x9a, 0xfb, 0xf4, 0xc8, 0x99, 0x6f, 0xb9,
            0x24, 0x27, 0xae, 0x41, 0xe4, 0x64, 0x9b, 0x93, 0x4c, 0xa4, 0x95, 0x99, 0x1b, 0x78, 0x52,
            0xb8, 0x55
        ]
    );
    let abc = content_digest(b"abc");
    assert_eq!(
        abc.to_vec(),
        vec![
            0xba, 0x78, 0x16, 0xbf, 0x8f, 0x01, 0xcf, 0xea, 0x41, 0x41, 0x40, 0xde, 0x5d, 0xae, 0x22,
            0x23, 0xb0, 0x03, 0x61, 0xa3, 0x96, 0x17, 0x7a, 0x9c, 0xb4, 0x10, 0xff, 0x61, 0xf2, 0x00,
            0x15, 0xad
        ]
    );
}

#[test]
fn clone_and_equality_follow_contents() {
    let index = index_of(&[("a", h(1)), ("b", h(2))]);
    let copy = index.clone();
    assert!(copy == index);
    let other = index_of(&[("a", h(1))]);
    assert!(other != index);
    assert!(Index::default() == Index::new());
}
