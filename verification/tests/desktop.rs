use desktop_snapshot::desktop::{
    compare_snapshots, ChangeKind, DesktopItem, DesktopItemKind, DesktopRoot,
};

fn item(path: &str, size: u64) -> DesktopItem {
    DesktopItem {
        root: DesktopRoot::User,
        relative_path: path.to_owned(),
        kind: DesktopItemKind::File,
        size,
        modified_unix_seconds: 1,
        target_path: None,
        target_exists: None,
        content_backed_up: false,
    }
}

fn item_on(root: DesktopRoot, path: &str, size: u64) -> DesktopItem {
    DesktopItem { root, ..item(path, size) }
}

#[test]
fn ignores_content_backup_status_when_comparing() {
    let mut previous = item("same.txt", 1);
    previous.content_backed_up = true;
    let current = item("same.txt", 1);
    assert!(compare_snapshots(&[previous], &[current]).is_empty());
}

#[test]
fn detects_added_removed_and_modified_items() {
    let previous = vec![item("old.txt", 1), item("changed.txt", 1)];
    let current = vec![item("new.txt", 1), item("changed.txt", 2)];
    let changes = compare_snapshots(&previous, &current);
    assert_eq!(changes.len(), 3);
    assert!(changes.iter().any(|change| change.kind == ChangeKind::Added));
    assert!(changes.iter().any(|change| change.kind == ChangeKind::Removed));
    assert!(changes.iter().any(|change| change.kind == ChangeKind::Modified));
}

#[test]
fn changes_come_in_key_order_with_the_right_records() {
    let previous = vec![item("old.txt", 1), item("changed.txt", 1)];
    let current = vec![item("new.txt", 1), item("changed.txt", 2)];
    let changes = compare_snapshots(&previous, &current);
    let paths: Vec<&str> = changes.iter().map(|c| c.item.relative_path.as_str()).collect();
    assert_eq!(paths, vec!["changed.txt", "new.txt", "old.txt"]);
    assert_eq!(changes[0].kind, ChangeKind::Modified);
    assert_eq!(changes[0].item.size, 2);
    assert_eq!(changes[1].kind, ChangeKind::Added);
    assert_eq!(changes[2].kind, ChangeKind::Removed);
}

#[test]
fn user_desktop_comes_before_public_desktop() {
    let previous: Vec<DesktopItem> = Vec::new();
    let current = vec![item_on(DesktopRoot::Public, "a.txt", 1), item_on(DesktopRoot::User, "z.txt", 1)];
    let changes = compare_snapshots(&previous, &current);
    assert_eq!(changes.len(), 2);
    assert_eq!(changes[0].item.root, DesktopRoot::User);
    assert_eq!(changes[1].item.root, DesktopRoot::Public);
}

#[test]
fn same_path_on_both_desktops_are_different_items() {
    let previous = vec![item_on(DesktopRoot::User, "a.txt", 1)];
    let current = vec![item_on(DesktopRoot::Public, "a.txt", 1)];
    let changes = compare_snapshots(&previous, &current);
    assert_eq!(changes.len(), 2);
    assert_eq!(changes[0].kind, ChangeKind::Removed);
    assert_eq!(changes[1].kind, ChangeKind::Added);
}

#[test]
fn paths_are_ordered_by_their_bytes() {
    let current = vec![item("b.txt", 1), item("B.txt", 1), item("ä.txt", 1), item("a.txt", 1)];
    let changes = compare_snapshots(&[], &current);
    let paths: Vec<&str> = changes.iter().map(|c| c.item.relative_path.as_str()).collect();
    assert_eq!(paths, vec!["B.txt", "a.txt", "b.txt", "ä.txt"]);
}

#[test]
fn last_record_of_a_duplicated_key_counts() {
    let previous = vec![item("a.txt", 1), item("a.txt", 5)];
    let current = vec![item("a.txt", 5)];
    assert!(compare_snapshots(&previous, &current).is_empty());
    let current = vec![item("a.txt", 5), item("a.txt", 1)];
    let changes = compare_snapshots(&previous, &current);
    assert_eq!(changes.len(), 1);
    assert_eq!(changes[0].kind, ChangeKind::Modified);
    assert_eq!(changes[0].item.size, 1);
}

#[test]
fn comparing_a_scan_with_itself_reports_nothing() {
    let items = vec![item("a.txt", 1), item("b.txt", 2), item_on(DesktopRoot::Public, "a.txt", 3)];
    assert!(compare_snapshots(&items, &items).is_empty());
}

#[test]
fn swapping_the_scans_swaps_added_and_removed() {
    let a = vec![item("old.txt", 1), item("changed.txt", 1)];
    let b = vec![item("new.txt", 1), item("changed.txt", 2)];
    let forward = compare_snapshots(&a, &b);
    let backward = compare_snapshots(&b, &a);
    assert_eq!(forward.len(), backward.len());
    for (f, r) in forward.iter().zip(backward.iter()) {
        assert_eq!(f.item.relative_path, r.item.relative_path);
        match f.kind {
            ChangeKind::Added => assert_eq!(r.kind, ChangeKind::Removed),
            ChangeKind::Removed => assert_eq!(r.kind, ChangeKind::Added),
            ChangeKind::Modified => assert_eq!(r.kind, ChangeKind::Modified),
        }
    }
    assert_eq!(backward[0].item.size, 1);
    let kinds: Vec<ChangeKind> = forward.iter().map(|c| c.kind).collect();
    assert_eq!(kinds, vec![ChangeKind::Modified, ChangeKind::Added, ChangeKind::Removed]);
    let kinds: Vec<ChangeKind> = backward.iter().map(|c| c.kind).collect();
    assert_eq!(kinds, vec![ChangeKind::Modified, ChangeKind::Removed, ChangeKind::Added]);
}

#[test]
fn every_field_but_the_backup_flag_matters() {
    let base = item("a.lnk", 1);
    let mut other = base.clone();
    assert!(base.same_desktop_state(&other));
    other.target_path = Some("C:/x".to_owned());
    assert!(!base.same_desktop_state(&other));
    let mut other = base.clone();
    other.target_exists = Some(false);
    assert!(!base.same_desktop_state(&other));
    let mut other = base.clone();
    other.kind = DesktopItemKind::Shortcut;
    assert!(!base.same_desktop_state(&other));
    let mut other = base.clone();
    other.modified_unix_seconds = 2;
    assert!(!base.same_desktop_state(&other));
    let mut other = base.clone();
    other.content_backed_up = true;
    assert!(base.same_desktop_state(&other));
}

#[test]
fn names_of_roots_and_kinds() {
    assert_eq!(DesktopRoot::User.as_str(), "user");
    assert_eq!(DesktopRoot::Public.as_str(), "public");
    assert_eq!(DesktopItemKind::File.as_str(), "file");
    assert_eq!(DesktopItemKind::Directory.as_str(), "directory");
    assert_eq!(DesktopItemKind::Shortcut.as_str(), "shortcut");
    assert_eq!(DesktopItemKind::Url.as_str(), "url");
    assert_eq!(DesktopItemKind::Other.as_str(), "other");
    let it = item("x/y.txt", 3);
    assert_eq!(it.key(), (DesktopRoot::User, "x/y.txt"));
}
