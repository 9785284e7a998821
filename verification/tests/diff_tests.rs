use difftool::diff::{diff_states, DiffOperation, OpKind};
use difftool::fingerprint::Fingerprint;

fn digests(names: &[&str]) -> Vec<String> {
    names.iter().map(|name| name.to_string()).collect()
}

fn file(path: &str, chunks: &[&str]) -> Fingerprint {
    Fingerprint::file(path.to_string(), digests(chunks))
}

fn dir(path: &str) -> Fingerprint {
    Fingerprint::directory(path.to_string())
}

fn op(kind: OpKind, path: &str) -> DiffOperation {
    DiffOperation { op: kind, path: path.to_string() }
}

#[test]
fn unchanged_file_gives_no_operation() {
    let reference = vec![file("a.txt", &["h1", "h2"])];
    let current = vec![file("a.txt", &["h1", "h2"])];
    assert_eq!(diff_states(&reference, &current), vec![]);
}

#[test]
fn file_missing_from_current_is_deleted() {
    let reference = vec![file("a.txt", &["h1", "h2"])];
    let current = vec![];
    assert_eq!(diff_states(&reference, &current), vec![op(OpKind::Delete, "a.txt")]);
}

#[test]
fn file_missing_from_reference_is_created() {
    let reference = vec![];
    let current = vec![file("b.txt", &["h3"])];
    assert_eq!(diff_states(&reference, &current), vec![op(OpKind::Create, "b.txt")]);
}

#[test]
fn changed_chunk_gives_copy() {
    let reference = vec![file("c.bin", &["h1", "h2", "h3"])];
    let current = vec![file("c.bin", &["h1", "h9", "h3"])];
    assert_eq!(diff_states(&reference, &current), vec![op(OpKind::Copy, "c.bin")]);
}

#[test]
fn unchanged_directory_gives_no_operation() {
    let reference = vec![dir("assets")];
    let current = vec![dir("assets")];
    assert_eq!(diff_states(&reference, &current), vec![]);
}

#[test]
fn directory_that_became_a_file_is_copied() {
    let reference = vec![dir("assets")];
    let current = vec![file("assets", &["h1"])];
    assert_eq!(diff_states(&reference, &current), vec![op(OpKind::Copy, "assets")]);
}

#[test]
fn file_that_became_a_directory_is_copied() {
    let reference = vec![file("assets", &["h1"])];
    let current = vec![dir("assets")];
    assert_eq!(diff_states(&reference, &current), vec![op(OpKind::Copy, "assets")]);
}

#[test]
fn empty_file_differs_from_directory() {
    let reference = vec![file("empty", &[])];
    let current = vec![dir("empty")];
    assert_eq!(diff_states(&reference, &current), vec![op(OpKind::Copy, "empty")]);
    let same = vec![file("empty", &[])];
    assert_eq!(diff_states(&reference, &same), vec![]);
}

#[test]
fn same_chunks_in_other_order_are_a_change() {
    let reference = vec![file("a", &["h1", "h2"])];
    let current = vec![file("a", &["h2", "h1"])];
    assert_eq!(diff_states(&reference, &current), vec![op(OpKind::Copy, "a")]);
}

#[test]
fn shorter_and_longer_chunk_lists_are_a_change() {
    let reference = vec![file("a", &["h1", "h2"])];
    let shorter = vec![file("a", &["h1"])];
    let longer = vec![file("a", &["h1", "h2", "h3"])];
    assert_eq!(diff_states(&reference, &shorter), vec![op(OpKind::Copy, "a")]);
    assert_eq!(diff_states(&reference, &longer), vec![op(OpKind::Copy, "a")]);
}

#[test]
fn rename_is_delete_and_create() {
    let reference = vec![file("old.bin", &["h1", "h2"])];
    let current = vec![file("new.bin", &["h1", "h2"])];
    assert_eq!(
        diff_states(&reference, &current),
        vec![op(OpKind::Delete, "old.bin"), op(OpKind::Create, "new.bin")]
    );
}

#[test]
fn set_against_itself_gives_nothing() {
    let set = vec![
        dir(""),
        dir("textures"),
        file("textures/a.png", &["h1", "h2"]),
        file("readme.md", &[]),
        file("textures/b.png", &["h3"]),
    ];
    assert_eq!(diff_states(&set, &set), vec![]);
}

#[test]
fn order_of_the_sets_does_not_change_what_is_found() {
    let reference = vec![file("a", &["1"]), file("b", &["2"]), file("c", &["3"])];
    let current = vec![file("c", &["3"]), file("b", &["9"]), file("a", &["1"])];
    assert_eq!(diff_states(&reference, &current), vec![op(OpKind::Copy, "b")]);
}

#[test]
fn operations_come_in_the_order_of_the_records() {
    let reference = vec![
        file("gone2", &["1"]),
        file("kept", &["2"]),
        file("changed", &["3"]),
        file("gone1", &["4"]),
    ];
    let current = vec![
        file("new2", &["5"]),
        file("changed", &["6"]),
        file("kept", &["2"]),
        file("new1", &["7"]),
    ];
    assert_eq!(
        diff_states(&reference, &current),
        vec![
            op(OpKind::Delete, "gone2"),
            op(OpKind::Copy, "changed"),
            op(OpKind::Delete, "gone1"),
            op(OpKind::Create, "new2"),
            op(OpKind::Create, "new1"),
        ]
    );
}

#[test]
fn every_path_has_at_most_one_operation() {
    let reference = vec![file("a", &["1"]), file("b", &["2"]), dir("d"), file("e", &["5"])];
    let current = vec![file("b", &["3"]), file("c", &["4"]), dir("d"), file("e", &["5"])];
    let operations = diff_states(&reference, &current);
    assert_eq!(
        operations,
        vec![op(OpKind::Delete, "a"), op(OpKind::Copy, "b"), op(OpKind::Create, "c")]
    );
    for path in ["a", "b", "c", "d", "e", "f"] {
        let count = operations.iter().filter(|operation| operation.path == path).count();
        let expected = if path == "d" || path == "e" || path == "f" { 0 } else { 1 };
        assert_eq!(count, expected);
    }
}

#[test]
fn last_record_of_a_path_speaks_for_it() {
    let reference = vec![file("a", &["old"]), file("b", &["2"]), file("a", &["new"])];
    let current = vec![file("a", &["new"]), file("b", &["2"])];
    assert_eq!(diff_states(&reference, &current), vec![]);
    let current = vec![file("a", &["old"]), file("b", &["2"])];
    assert_eq!(diff_states(&reference, &current), vec![op(OpKind::Copy, "a")]);
    let current = vec![file("c", &["1"]), file("c", &["2"])];
    assert_eq!(
        diff_states(&reference, &current),
        vec![op(OpKind::Delete, "b"), op(OpKind::Delete, "a"), op(OpKind::Create, "c")]
    );
}

#[test]
fn both_sets_empty() {
    assert_eq!(diff_states(&vec![], &vec![]), vec![]);
}

#[test]
fn operation_names() {
    assert_eq!(OpKind::Create.name(), "create");
    assert_eq!(OpKind::Delete.name(), "delete");
    assert_eq!(OpKind::Copy.name(), "copy");
}
