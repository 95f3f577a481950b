use desktop_snapshot::desktop::{DesktopItem, DesktopItemKind, DesktopRoot};
use desktop_snapshot::storage::{
    is_safe_snapshot_id, next_snapshot_id, snapshot_title, sort_snapshots, SnapshotStore,
    SnapshotSummary, StorageError,
};
use std::path::PathBuf;

fn item(path: &str) -> DesktopItem {
    DesktopItem {
        root: DesktopRoot::User,
        relative_path: path.to_owned(),
        kind: DesktopItemKind::File,
        size: 1,
        modified_unix_seconds: 1,
        target_path: None,
        target_exists: None,
        content_backed_up: false,
    }
}

fn summary(id: &str, created: i64, title: &str) -> SnapshotSummary {
    SnapshotSummary {
        id: id.to_owned(),
        title: title.to_owned(),
        created_unix_seconds: created,
        item_count: 0,
    }
}

fn store() -> SnapshotStore {
    SnapshotStore::open(PathBuf::from("/data/DesktopSnapshot"))
}

#[test]
fn safe_ids_are_digits_and_dashes() {
    assert!(is_safe_snapshot_id("1700000000"));
    assert!(is_safe_snapshot_id("1700000000-2"));
    assert!(is_safe_snapshot_id("-5"));
    assert!(!is_safe_snapshot_id(""));
    assert!(!is_safe_snapshot_id("../x"));
    assert!(!is_safe_snapshot_id("12a"));
    assert!(!is_safe_snapshot_id("１２"));
}

#[test]
fn only_safe_ids_may_be_deleted() {
    let s = store();
    assert!(s.check_deletable("1700000000-2").is_ok());
    for id in ["", "../x", "12a"] {
        match s.check_deletable(id) {
            Err(StorageError::SnapshotNotFound(refused)) => assert_eq!(refused, id),
            other => panic!("unexpected {other:?}"),
        }
    }
}

#[test]
fn first_free_name_is_the_timestamp() {
    assert_eq!(next_snapshot_id(1700000000, &[]), "1700000000");
    assert_eq!(next_snapshot_id(-12, &[]), "-12");
    assert_eq!(next_snapshot_id(0, &[]), "0");
    assert_eq!(next_snapshot_id(i64::MIN, &[]), "-9223372036854775808");
}

#[test]
fn taken_names_get_a_suffix() {
    let taken = vec!["5".to_owned(), "5-2".to_owned(), "5-3".to_owned(), "7".to_owned()];
    assert_eq!(next_snapshot_id(5, &taken), "5-4");
    assert_eq!(next_snapshot_id(7, &taken), "7-2");
    assert_eq!(next_snapshot_id(6, &taken), "6");
    let taken: Vec<String> = std::iter::once("9".to_owned())
        .chain((2..=11).map(|n| format!("9-{n}")))
        .collect();
    assert_eq!(next_snapshot_id(9, &taken), "9-12");
}

#[test]
fn generated_ids_are_safe() {
    let taken = vec!["-3".to_owned()];
    let id = next_snapshot_id(-3, &taken);
    assert_eq!(id, "-3-2");
    assert!(is_safe_snapshot_id(&id));
}

#[test]
fn new_manifest_records_the_scan() {
    let items = vec![item("a.txt"), item("b.txt")];
    let manifest = store().create_snapshot(42, &items, None, &["42".to_owned()]);
    assert_eq!(manifest.id, "42-2");
    assert_eq!(manifest.title, "自动快照 42-2");
    assert_eq!(manifest.schema_version, 1);
    assert_eq!(manifest.created_unix_seconds, 42);
    assert_eq!(manifest.item_count, 2);
    assert_eq!(manifest.items, items);
    assert!(manifest.layout.is_none());
    assert!(manifest.screenshots.is_empty());
}

#[test]
fn updates_touch_only_their_fields() {
    let s = store();
    let mut manifest = s.create_snapshot(1, &[item("a.txt")], None, &[]);
    s.update_snapshot(&mut manifest, &[item("a.txt"), item("b.txt"), item("c.txt")], None);
    assert_eq!(manifest.item_count, 3);
    assert_eq!(manifest.items.len(), 3);
    assert_eq!(manifest.title, "自动快照 1");
    s.update_screenshots(&mut manifest, vec!["screenshots/screen-0.png".to_owned()]);
    assert_eq!(manifest.screenshots, vec!["screenshots/screen-0.png".to_owned()]);
    assert_eq!(manifest.item_count, 3);
}

#[test]
fn titles_are_trimmed_and_limited() {
    assert_eq!(snapshot_title("1", "  新的标题 \t").unwrap(), "新的标题");
    assert_eq!(snapshot_title("1", "\u{3000}x\u{a0}").unwrap(), "x");
    let long = "a".repeat(120);
    assert_eq!(snapshot_title("1", &long).unwrap(), long);
    match snapshot_title("7", &"a".repeat(121)) {
        Err(StorageError::SnapshotNotFound(id)) => assert_eq!(id, "7"),
        other => panic!("unexpected {other:?}"),
    }
    // 41 characters of three bytes each are 123 bytes.
    assert!(snapshot_title("7", &"快".repeat(41)).is_err());
    assert!(snapshot_title("7", &"快".repeat(40)).is_ok());
    match snapshot_title("9", "   ") {
        Err(StorageError::SnapshotNotFound(id)) => assert_eq!(id, "9"),
        other => panic!("unexpected {other:?}"),
    }
}

#[test]
fn renaming_sets_the_title_and_summarises() {
    let s = store();
    let mut manifest = s.create_snapshot(3, &[item("a.txt")], None, &[]);
    let summary = s.rename_snapshot("3", &mut manifest, " Work ".to_owned()).unwrap();
    assert_eq!(manifest.title, "Work");
    assert_eq!(summary.id, "3");
    assert_eq!(summary.title, "Work");
    assert_eq!(summary.created_unix_seconds, 3);
    assert_eq!(summary.item_count, 1);
}

#[test]
fn refused_titles_leave_the_manifest_alone() {
    let s = store();
    let mut manifest = s.create_snapshot(1, &[], None, &[]);
    for title in ["   ".to_owned(), "a".repeat(121), "名".repeat(41)] {
        match s.rename_snapshot("1", &mut manifest, title) {
            Err(StorageError::SnapshotNotFound(id)) => assert_eq!(id, "1"),
            other => panic!("unexpected {other:?}"),
        }
        assert_eq!(manifest.title, "自动快照 1");
    }
}

#[test]
fn listing_is_newest_first_then_last_created() {
    let mut snapshots = vec![
        summary("10", 10, "a"),
        summary("30", 30, "b"),
        summary("20-2", 20, "c"),
        summary("20", 20, "d"),
        summary("20-10", 20, "e"),
    ];
    sort_snapshots(&mut snapshots);
    let ids: Vec<&str> = snapshots.iter().map(|s| s.id.as_str()).collect();
    assert_eq!(ids, vec!["30", "20-10", "20-2", "20", "10"]);
}

#[test]
fn latest_of_one_second_is_the_last_created() {
    let s = store();
    let mut taken: Vec<String> = Vec::new();
    let mut snapshots = Vec::new();
    for _ in 0..10 {
        let manifest = s.create_snapshot(5, &[], None, &taken);
        taken.push(manifest.id.clone());
        snapshots.push(manifest.summary());
    }
    assert_eq!(taken.last().unwrap(), "5-10");
    assert_eq!(s.latest_snapshot_id(&snapshots), Some("5-10".to_owned()));
    sort_snapshots(&mut snapshots);
    let ids: Vec<&str> = snapshots.iter().map(|s| s.id.as_str()).collect();
    assert_eq!(ids, vec!["5-10", "5-9", "5-8", "5-7", "5-6", "5-5", "5-4", "5-3", "5-2", "5"]);
}

#[test]
fn latest_is_the_first_listed() {
    let s = store();
    assert_eq!(s.latest_snapshot_id(&[]), None);
    let mut snapshots = vec![summary("10", 10, "a"), summary("20", 20, "b"), summary("20-2", 20, "c")];
    assert_eq!(s.latest_snapshot_id(&snapshots), Some("20-2".to_owned()));
    sort_snapshots(&mut snapshots);
    assert_eq!(s.latest_snapshot_id(&snapshots), Some(snapshots[0].id.clone()));
}

#[test]
fn store_paths() {
    let s = store();
    assert_eq!(s.root(), &PathBuf::from("/data/DesktopSnapshot"));
    assert_eq!(s.snapshots_dir(), &PathBuf::from("/data/DesktopSnapshot/snapshots"));
    assert_eq!(s.snapshot_dir("5"), PathBuf::from("/data/DesktopSnapshot/snapshots/5"));
}
