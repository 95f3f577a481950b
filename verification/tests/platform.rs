use desktop_snapshot::desktop::{DesktopItem, DesktopItemKind, DesktopRoot};
use desktop_snapshot::platform::{
    classify, classify_entry, content_path, location_for, record_backup_result, record_restore_failure,
    record_restore_outcome, restore_action, ContentBackupReport, CopyOutcome, DesktopLocation,
    RestoreAction, RestoreReport,
};
use std::path::PathBuf;

fn item(root: DesktopRoot, path: &str) -> DesktopItem {
    DesktopItem {
        root,
        relative_path: path.to_owned(),
        kind: DesktopItemKind::File,
        size: 1,
        modified_unix_seconds: 1,
        target_path: None,
        target_exists: None,
        content_backed_up: false,
    }
}

#[test]
fn classifies_by_extension_ignoring_case() {
    assert_eq!(classify("微信.lnk", false), DesktopItemKind::Shortcut);
    assert_eq!(classify("App.LNK", false), DesktopItemKind::Shortcut);
    assert_eq!(classify("site.Url", false), DesktopItemKind::Url);
    assert_eq!(classify("notes.txt", false), DesktopItemKind::File);
    assert_eq!(classify("archive.tar.gz", false), DesktopItemKind::File);
    assert_eq!(classify("README", false), DesktopItemKind::Other);
    assert_eq!(classify(".hidden", false), DesktopItemKind::Other);
    assert_eq!(classify(".hidden.lnk", false), DesktopItemKind::Shortcut);
    assert_eq!(classify("trailing.", false), DesktopItemKind::File);
    assert_eq!(classify("..", false), DesktopItemKind::Other);
    assert_eq!(classify("x.lnkk", false), DesktopItemKind::File);
    assert_eq!(classify("folder.lnk", true), DesktopItemKind::Directory);
}

#[test]
fn first_location_of_a_desktop() {
    let locations = vec![
        DesktopLocation { root: DesktopRoot::User, path: PathBuf::from("/u") },
        DesktopLocation { root: DesktopRoot::Public, path: PathBuf::from("/p") },
        DesktopLocation { root: DesktopRoot::Public, path: PathBuf::from("/q") },
    ];
    assert_eq!(location_for(&locations, DesktopRoot::User), Some(0));
    assert_eq!(location_for(&locations, DesktopRoot::Public), Some(1));
    assert_eq!(location_for(&locations[..1], DesktopRoot::Public), None);
}

#[test]
fn content_is_kept_by_desktop_and_path() {
    let path = content_path(&PathBuf::from("/snap/1"), &item(DesktopRoot::Public, "dir/a.txt"));
    assert_eq!(path, PathBuf::from("/snap/1/content/public/dir/a.txt"));
    let path = content_path(&PathBuf::from("/snap/1"), &item(DesktopRoot::User, "a.txt"));
    assert_eq!(path, PathBuf::from("/snap/1/content/user/a.txt"));
}

#[test]
fn backup_results_are_counted() {
    let mut report = ContentBackupReport::default();
    let mut a = item(DesktopRoot::User, "a.txt");
    let mut b = item(DesktopRoot::User, "b.txt");
    record_backup_result(&mut report, &mut a, true);
    record_backup_result(&mut report, &mut b, false);
    assert_eq!(report.backed_up, 1);
    assert_eq!(report.failed, vec!["b.txt".to_owned()]);
    assert!(a.content_backed_up);
    assert!(!b.content_backed_up);
}

#[test]
fn restore_actions() {
    let it = item(DesktopRoot::User, "a.txt");
    assert_eq!(restore_action(&it, Some("b.txt"), true, true, false, false, false), RestoreAction::Unselected);
    assert_eq!(restore_action(&it, Some("a.txt"), false, true, false, false, false), RestoreAction::MissingLocation);
    assert_eq!(restore_action(&it, None, true, false, false, false, false), RestoreAction::MissingSource);
    assert_eq!(restore_action(&it, None, true, true, true, false, false), RestoreAction::KeepExisting);
    assert_eq!(restore_action(&it, None, true, true, true, true, true), RestoreAction::ReplaceDirectory);
    assert_eq!(restore_action(&it, None, true, true, false, true, true), RestoreAction::CopyDirectory);
    assert_eq!(restore_action(&it, None, true, true, false, true, false), RestoreAction::CopyDirectory);
    assert_eq!(restore_action(&it, None, true, true, true, false, true), RestoreAction::CopyFile);
    assert_eq!(restore_action(&it, None, true, true, false, false, false), RestoreAction::CopyFile);
}

#[test]
fn restore_outcomes_are_reported() {
    let mut report = RestoreReport::default();
    let user = item(DesktopRoot::User, "a.txt");
    let public = item(DesktopRoot::Public, "p.lnk");
    record_restore_outcome(&mut report, &user, RestoreAction::Unselected, CopyOutcome::Copied);
    assert!(report.restored.is_empty() && report.skipped.is_empty() && report.failed.is_empty());
    record_restore_outcome(&mut report, &user, RestoreAction::CopyFile, CopyOutcome::Copied);
    record_restore_outcome(&mut report, &user, RestoreAction::KeepExisting, CopyOutcome::Copied);
    record_restore_outcome(&mut report, &user, RestoreAction::MissingSource, CopyOutcome::Copied);
    record_restore_outcome(
        &mut report,
        &public,
        RestoreAction::CopyFile,
        CopyOutcome::Failed { permission_denied: true, message: "拒绝访问。".to_owned() },
    );
    record_restore_outcome(
        &mut report,
        &user,
        RestoreAction::MergeDirectory,
        CopyOutcome::Failed { permission_denied: true, message: "denied".to_owned() },
    );
    assert_eq!(report.restored, vec!["a.txt".to_owned()]);
    assert_eq!(report.skipped, vec!["a.txt".to_owned()]);
    assert_eq!(report.failed, vec!["a.txt".to_owned(), "p.lnk".to_owned(), "a.txt".to_owned()]);
    assert_eq!(
        report.failed_details,
        vec![
            "a.txt（恢复失败）".to_owned(),
            "p.lnk（公共桌面需要管理员权限）".to_owned(),
            "a.txt（denied）".to_owned(),
        ]
    );
}

#[test]
fn restore_failure_keeps_path_and_detail() {
    let mut report = RestoreReport::default();
    record_restore_failure(&mut report, &item(DesktopRoot::User, "x"), "why".to_owned());
    assert_eq!(report.failed, vec!["x".to_owned()]);
    assert_eq!(report.failed_details, vec!["why".to_owned()]);
}

#[test]
fn unreadable_extensions_give_another_kind() {
    assert_eq!(classify_entry("a.lnk", true, false), DesktopItemKind::Shortcut);
    assert_eq!(classify_entry("a.\u{fffd}", false, false), DesktopItemKind::Other);
    assert_eq!(classify_entry("a.\u{fffd}", true, false), DesktopItemKind::File);
    assert_eq!(classify_entry("dir.\u{fffd}", false, true), DesktopItemKind::Directory);
}
