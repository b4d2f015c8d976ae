use bulkfs::{copy, join, move_file, relative, remove, tally, Action, Entry, EntryKind, SEP};

fn b(s: &str) -> Vec<u8> {
    s.as_bytes().to_vec()
}

fn e(s: &str, kind: EntryKind) -> Entry {
    Entry { path: b(s), kind }
}

/// The walk of `/t/A` holding `x.txt` and an empty `sub`.
fn tree_a() -> Vec<Entry> {
    vec![
        e("/t/A", EntryKind::Dir),
        e("/t/A/x.txt", EntryKind::File),
        e("/t/A/sub", EntryKind::Dir),
    ]
}

#[test]
fn separator_is_slash() {
    assert_eq!(SEP, b'/');
}

#[test]
fn relative_of_descendant() {
    assert_eq!(relative(&b("/t/A/sub/y"), &b("/t/A")), Some(b("sub/y")));
}

#[test]
fn relative_of_root_itself_is_empty() {
    assert_eq!(relative(&b("/t/A"), &b("/t/A")), Some(Vec::new()));
}

#[test]
fn relative_rejects_sibling_with_common_prefix() {
    assert_eq!(relative(&b("/t/AB/x"), &b("/t/A")), None);
    assert_eq!(relative(&b("/t"), &b("/t/A")), None);
    assert_eq!(relative(&b("/u/A/x"), &b("/t/A")), None);
}

#[test]
fn relative_under_filesystem_root() {
    assert_eq!(relative(&b("/etc/x"), &b("")), Some(b("etc/x")));
}

#[test]
fn join_adds_one_separator() {
    assert_eq!(join(&b("/t/B"), &b("sub/y")), b("/t/B/sub/y"));
}

#[test]
fn join_with_empty_relative_is_the_root() {
    assert_eq!(join(&b("/t/B"), &Vec::new()), b("/t/B"));
}

#[test]
fn copy_of_directory_scenario() {
    let plan = copy(&b("/t/A"), &b("/t/B"), Some(EntryKind::Dir), &tree_a());
    assert_eq!(
        plan,
        vec![
            Action::CreateDir(b("/t/B")),
            Action::CreateDir(b("/t/B")),
            Action::CopyFile(b("/t/A/x.txt"), b("/t/B/x.txt")),
            Action::CreateDir(b("/t/B/sub")),
        ]
    );
}

#[test]
fn remove_of_directory_scenario() {
    let plan = remove(&b("/t/A"), Some(EntryKind::Dir), &tree_a());
    assert_eq!(
        plan,
        vec![Action::DeleteFile(b("/t/A/x.txt")), Action::RemoveTree(b("/t/A"))]
    );
}

#[test]
fn move_after_rename_has_nothing_left() {
    let plan = move_file(&b("/t/A"), &b("/t/C"), true, Some(EntryKind::Dir), &tree_a());
    assert!(plan.is_empty());
}

#[test]
fn move_fallback_is_copy_then_remove() {
    let items = tree_a();
    let plan = move_file(&b("/t/A"), &b("/t/C"), false, Some(EntryKind::Dir), &items);
    let mut expected = copy(&b("/t/A"), &b("/t/C"), Some(EntryKind::Dir), &items);
    expected.extend(remove(&b("/t/A"), Some(EntryKind::Dir), &items));
    assert_eq!(plan, expected);
    assert_eq!(plan.len(), 6);
    assert_eq!(plan[5], Action::RemoveTree(b("/t/A")));
}

#[test]
fn missing_source_plans_nothing() {
    let none: Vec<Entry> = Vec::new();
    assert!(remove(&b("/t/nope"), None, &none).is_empty());
    assert!(copy(&b("/t/nope"), &b("/t/B"), None, &none).is_empty());
    assert!(move_file(&b("/t/nope"), &b("/t/B"), false, None, &none).is_empty());
}

#[test]
fn single_file_source() {
    let none: Vec<Entry> = Vec::new();
    assert_eq!(
        remove(&b("/t/f.txt"), Some(EntryKind::File), &none),
        vec![Action::DeleteFile(b("/t/f.txt"))]
    );
    assert_eq!(
        copy(&b("/t/f.txt"), &b("/u/g.txt"), Some(EntryKind::File), &none),
        vec![Action::CopyFile(b("/t/f.txt"), b("/u/g.txt"))]
    );
}

#[test]
fn other_entries_and_strays_are_skipped() {
    let items = vec![
        e("/t/A", EntryKind::Dir),
        e("/t/A/link", EntryKind::Other),
        e("/t/AB/z", EntryKind::File),
        e("/t/A/deep/f", EntryKind::File),
    ];
    assert_eq!(
        copy(&b("/t/A"), &b("/t/B"), Some(EntryKind::Dir), &items),
        vec![
            Action::CreateDir(b("/t/B")),
            Action::CreateDir(b("/t/B")),
            Action::CopyFile(b("/t/A/deep/f"), b("/t/B/deep/f")),
        ]
    );
    assert_eq!(
        remove(&b("/t/A"), Some(EntryKind::Dir), &items),
        vec![
            Action::DeleteFile(b("/t/AB/z")),
            Action::DeleteFile(b("/t/A/deep/f")),
            Action::RemoveTree(b("/t/A")),
        ]
    );
}

#[test]
fn empty_directory_copy_creates_destination_only() {
    let items = vec![e("/t/E", EntryKind::Dir)];
    assert_eq!(
        copy(&b("/t/E"), &b("/t/F"), Some(EntryKind::Dir), &items),
        vec![Action::CreateDir(b("/t/F")), Action::CreateDir(b("/t/F"))]
    );
    assert_eq!(
        remove(&b("/t/E"), Some(EntryKind::Dir), &items),
        vec![Action::RemoveTree(b("/t/E"))]
    );
}

#[test]
fn removal_classes() {
    assert!(Action::DeleteFile(b("/a")).is_removal());
    assert!(Action::RemoveTree(b("/a")).is_removal());
    assert!(!Action::CreateDir(b("/a")).is_removal());
    assert!(!Action::CopyFile(b("/a"), b("/b")).is_removal());
}

#[test]
fn one_failure_does_not_stop_the_rest() {
    let t = tally(&vec![true, true, false, true, true]);
    assert_eq!(t.total, 5);
    assert_eq!(t.done, 5);
    assert_eq!(t.failed, 1);
    assert!(t.is_finished());
}

#[test]
fn tally_of_nothing() {
    let t = tally(&Vec::new());
    assert_eq!((t.total, t.done, t.failed), (0, 0, 0));
    assert!(t.is_finished());
}

#[test]
fn tally_by_hand() {
    let mut t = bulkfs::Tally::new(2);
    assert!(!t.is_finished());
    t.record(false);
    assert_eq!((t.done, t.failed), (1, 1));
    t.record(true);
    assert_eq!((t.done, t.failed), (2, 1));
    assert!(t.is_finished());
}

#[test]
fn relative_rejects_trailing_separator() {
    assert_eq!(relative(&b("/t/A/"), &b("/t/A")), None);
}

#[test]
fn copy_to_filesystem_root_child() {
    let items = vec![e("/t/A", EntryKind::Dir), e("/t/A/x.txt", EntryKind::File)];
    assert_eq!(
        copy(&b("/t/A"), &b("/B"), Some(EntryKind::Dir), &items),
        vec![
            Action::CreateDir(b("/B")),
            Action::CreateDir(b("/B")),
            Action::CopyFile(b("/t/A/x.txt"), b("/B/x.txt")),
        ]
    );
}
