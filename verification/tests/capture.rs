use desktop_snapshot::capture::{
    broken_shortcuts, capture_order_of, device_name_length, is_shell_window_class, minimizes_window,
    retain_icons_for_item, screenshot_file_names, stored_screenshot_path,
};
use desktop_snapshot::desktop::{DesktopItem, DesktopItemKind, DesktopLayout, DesktopRoot, IconPosition};
use desktop_snapshot::images::{base64_fits, image_data_url, image_file_name, screenshot_image_files};
use desktop_snapshot::scan::{
    desktop_item, is_fences_directory_name, looks_up_target, now_unix_seconds, sort_desktop_items, unix_seconds_from,
};
use desktop_snapshot::session::{change_label, is_confirmation, needs_public_desktop_elevation, BackupResult, RestoreResult};
use desktop_snapshot::desktop::ChangeKind;
use desktop_snapshot::platform::{ContentBackupReport, DesktopLocation, RestoreReport};
use desktop_snapshot::storage::SnapshotStore;
use std::path::PathBuf;

fn icon(path: &str, x: i32) -> IconPosition {
    IconPosition { root: DesktopRoot::User, relative_path: path.to_owned(), x, y: 0 }
}

#[test]
fn screenshot_names() {
    let (full, thumb) = screenshot_file_names(0);
    assert_eq!(full, "screen-0.png");
    assert_eq!(thumb, "thumb-0.png");
    assert_eq!(screenshot_file_names(12).0, "screen-12.png");
    assert_eq!(stored_screenshot_path("screen-1.png"), "screenshots/screen-1.png");
}

#[test]
fn primary_screens_are_captured_first() {
    assert_eq!(capture_order_of(&[false, true, false, true]), vec![1, 3, 0, 2]);
    assert_eq!(capture_order_of(&[true, false]), vec![0, 1]);
    assert_eq!(capture_order_of(&[]), Vec::<usize>::new());
}

#[test]
fn device_names_end_at_zero() {
    assert_eq!(device_name_length(&[92, 92, 46, 0, 65]), 3);
    assert_eq!(device_name_length(&[65, 66]), 2);
    assert_eq!(device_name_length(&[]), 0);
}

#[test]
fn shell_windows() {
    assert!(is_shell_window_class("Progman"));
    assert!(is_shell_window_class("WorkerW"));
    assert!(is_shell_window_class("Shell_TrayWnd"));
    assert!(is_shell_window_class("Shell_SecondaryTrayWnd"));
    assert!(!is_shell_window_class("Notepad"));
    assert!(!is_shell_window_class("progman"));
}

#[test]
fn restoring_one_item_keeps_its_icons_only() {
    let mut layout = DesktopLayout {
        monitors: Vec::new(),
        icons: vec![icon("a.txt", 1), icon("b.txt", 2), icon("a.txt", 3)],
        auto_arrange: Some(true),
    };
    retain_icons_for_item(&mut layout, "a.txt");
    assert_eq!(layout.icons, vec![icon("a.txt", 1), icon("a.txt", 3)]);
    assert_eq!(layout.auto_arrange, Some(true));
}

#[test]
fn broken_shortcuts_are_found() {
    let mut a = desktop_item(DesktopRoot::User, "a.lnk", DesktopItemKind::Shortcut, true, 1, Some(1), Some(("x".to_owned(), false)));
    let b = desktop_item(DesktopRoot::User, "b.lnk", DesktopItemKind::Shortcut, true, 1, Some(1), Some(("y".to_owned(), true)));
    let c = desktop_item(DesktopRoot::User, "c.txt", DesktopItemKind::File, true, 1, Some(1), None);
    a.target_exists = Some(false);
    assert_eq!(broken_shortcuts(&[a.clone(), b, c, a]), vec![0, 3]);
}

#[test]
fn scanned_items() {
    let it = desktop_item(DesktopRoot::Public, "dir\\sub\\x.txt", DesktopItemKind::File, true, 10, Some(5), None);
    assert_eq!(it.relative_path, "dir/sub/x.txt");
    assert_eq!(it.size, 10);
    assert_eq!(it.modified_unix_seconds, 5);
    assert!(!it.content_backed_up);
    let dir = desktop_item(DesktopRoot::User, "d", DesktopItemKind::Directory, false, 4096, None, None);
    assert_eq!(dir.size, 0);
    assert_eq!(dir.modified_unix_seconds, 0);
    assert_eq!(unix_seconds_from(Some(u64::MAX)), -1);
    assert!(now_unix_seconds() > 1_600_000_000);
}

#[test]
fn scans_are_sorted_by_desktop_then_path() {
    let make = |root, path: &str| desktop_item(root, path, DesktopItemKind::File, true, 1, None, None);
    let mut items: Vec<DesktopItem> = vec![
        make(DesktopRoot::Public, "a"),
        make(DesktopRoot::User, "b"),
        make(DesktopRoot::User, "B"),
        make(DesktopRoot::User, "a"),
    ];
    sort_desktop_items(&mut items);
    let keys: Vec<(DesktopRoot, &str)> = items.iter().map(|i| i.key()).collect();
    assert_eq!(
        keys,
        vec![(DesktopRoot::User, "B"), (DesktopRoot::User, "a"), (DesktopRoot::User, "b"), (DesktopRoot::Public, "a")]
    );
}

#[test]
fn fences_directories() {
    assert!(is_fences_directory_name("Fences"));
    assert!(is_fences_directory_name("FENCES 5"));
    assert!(!is_fences_directory_name("Fence"));
    assert!(!is_fences_directory_name("MyFences"));
}

#[test]
fn confirmations() {
    assert!(is_confirmation("y\n"));
    assert!(is_confirmation(" YES "));
    assert!(is_confirmation("Yes"));
    assert!(!is_confirmation("no"));
    assert!(!is_confirmation("yess"));
    assert!(!is_confirmation(""));
    assert_eq!(change_label(ChangeKind::Added), "新增");
    assert_eq!(change_label(ChangeKind::Removed), "删除");
    assert_eq!(change_label(ChangeKind::Modified), "修改");
}

#[test]
fn elevation_is_needed_for_missing_public_items() {
    let store = SnapshotStore::open(PathBuf::from("/d"));
    let items = vec![
        desktop_item(DesktopRoot::User, "u.txt", DesktopItemKind::File, true, 1, None, None),
        desktop_item(DesktopRoot::Public, "p.txt", DesktopItemKind::File, true, 1, None, None),
    ];
    let manifest = store.create_snapshot(1, &items, None, &[]);
    let both = vec![
        DesktopLocation { root: DesktopRoot::User, path: PathBuf::from("/u") },
        DesktopLocation { root: DesktopRoot::Public, path: PathBuf::from("/p") },
    ];
    assert!(needs_public_desktop_elevation(&manifest, &both, &[true, false]));
    assert!(!needs_public_desktop_elevation(&manifest, &both, &[false, true]));
    assert!(!needs_public_desktop_elevation(&manifest, &both[..1], &[false, false]));
}

#[test]
fn results_for_the_window() {
    let mut report = RestoreReport::default();
    report.restored.push("a".to_owned());
    report.failed.push("b".to_owned());
    report.failed_details.push("b（x）".to_owned());
    let result = RestoreResult::from_report("5", report, true);
    assert_eq!(result.id, "5");
    assert_eq!((result.restored_count, result.skipped_count, result.failed_count), (1, 0, 1));
    assert_eq!(result.failed_items, vec!["b（x）".to_owned()]);
    assert!(result.layout_restored && !result.elevation_requested);
    let elevated = RestoreResult::elevated("6".to_owned());
    assert!(elevated.elevation_requested && elevated.failed_items.is_empty());
    let backup = BackupResult::new("7".to_owned(), 3, ContentBackupReport { backed_up: 2, failed: vec!["c".to_owned()] }, 1);
    assert_eq!((backup.item_count, backup.backed_up_count, backup.screenshot_count), (3, 2, 1));
}

#[test]
fn images_are_shown_as_data_urls() {
    assert_eq!(image_file_name("screen-0.png", true), "thumb-0.png");
    assert_eq!(image_file_name("screen-0.png", false), "screen-0.png");
    assert_eq!(image_file_name("a-screen-screen-1.png", true), "a-thumb-screen-1.png");
    assert_eq!(image_file_name("other.png", true), "other.png");
    assert_eq!(image_data_url(b"Man"), "data:image/png;base64,TWFu");
    assert_eq!(image_data_url(b"Ma"), "data:image/png;base64,TWE=");
    assert_eq!(image_data_url(b"M"), "data:image/png;base64,TQ==");
    assert_eq!(image_data_url(&[0xfb, 0xff]), "data:image/png;base64,+/8=");
    assert_eq!(image_data_url(b""), "data:image/png;base64,");
}

#[test]
fn screenshot_files_to_read() {
    let stored = vec!["screenshots/screen-1.png".to_owned(), "screenshots/screen-2.png".to_owned(), "".to_owned()];
    let files = screenshot_image_files(&stored, true).unwrap();
    assert_eq!(files[0], Ok("thumb-1.png".to_owned()));
    assert_eq!(files[1], Ok("thumb-2.png".to_owned()));
    assert_eq!(files[2], Err("截图路径无效".to_owned()));
    let files = screenshot_image_files(&stored[..1], false).unwrap();
    assert_eq!(files, vec![Ok("screen-1.png".to_owned())]);
    assert_eq!(screenshot_image_files(&[], false), Err("该快照没有截图".to_owned()));
}

#[test]
fn base64_lengths_that_fit() {
    assert!(base64_fits(0));
    assert!(base64_fits(1_000_000));
    assert!(base64_fits(usize::MAX / 4 * 3));
    assert!(!base64_fits(usize::MAX / 4 * 3 + 1));
    assert!(!base64_fits(usize::MAX));
}

#[test]
fn only_shortcut_targets_are_looked_up() {
    assert!(looks_up_target(DesktopItemKind::Shortcut));
    for kind in [DesktopItemKind::File, DesktopItemKind::Directory, DesktopItemKind::Url, DesktopItemKind::Other] {
        assert!(!looks_up_target(kind));
    }
}

#[test]
fn targets_are_recorded_together_and_for_shortcuts_only() {
    let link = desktop_item(DesktopRoot::User, "a.lnk", DesktopItemKind::Shortcut, true, 1, None, Some(("C:\\x".to_owned(), true)));
    assert_eq!(link.target_path.as_deref(), Some("C:\\x"));
    assert_eq!(link.target_exists, Some(true));
    let unread = desktop_item(DesktopRoot::User, "b.lnk", DesktopItemKind::Shortcut, true, 1, None, None);
    assert_eq!((unread.target_path, unread.target_exists), (None, None));
    let file = desktop_item(DesktopRoot::User, "c.txt", DesktopItemKind::File, true, 1, None, Some(("y".to_owned(), false)));
    assert_eq!((file.target_path, file.target_exists), (None, None));
}

#[test]
fn windows_minimized_for_a_screenshot() {
    assert!(minimizes_window(true, false, 7, 1, "Notepad"));
    assert!(!minimizes_window(false, false, 7, 1, "Notepad"));
    assert!(!minimizes_window(true, true, 7, 1, "Notepad"));
    assert!(!minimizes_window(true, false, 1, 1, "Notepad"));
    assert!(!minimizes_window(true, false, 7, 1, "Progman"));
}
