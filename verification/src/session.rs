//! The decisions of the command-line tool and of the desktop application
//! around the store: confirmations, elevation, the results they report and
//! how they show screenshots.

use vstd::prelude::*;
use crate::desktop::{ChangeKind, DesktopRoot};
use crate::platform::{ascii_case_eq, ContentBackupReport, DesktopLocation, RestoreReport};
use crate::storage::SnapshotManifest;
use crate::text::{chars_of, trim, trimmed};

verus! {

broadcast use vstd::string::group_string_axioms;

/// An answer confirms a deletion when, trimmed, it is `y` or `yes` in any
/// ASCII case.
pub open spec fn confirms(answer: Seq<char>) -> bool {
    ascii_case_eq(trim(answer), seq!['y']) || ascii_case_eq(trim(answer), seq!['y', 'e', 's'])
}

pub fn is_confirmation(answer: &str) -> (confirmed: bool)
    ensures
        confirmed == confirms(answer@),
{
    let text = trimmed(answer);
    let chars = chars_of(text.as_str());
    let n = chars.len();
    if n == 1 {
        let first = crate::platform::lower_char(chars[0]);
        let confirmed = first == 'y';
        proof {
            assert(confirmed == ascii_case_eq(trim(answer@), seq!['y']));
        }
        confirmed
    } else if n == 3 {
        let a = crate::platform::lower_char(chars[0]);
        let b = crate::platform::lower_char(chars[1]);
        let c = crate::platform::lower_char(chars[2]);
        let confirmed = a == 'y' && b == 'e' && c == 's';
        proof {
            if confirmed {
                assert(ascii_case_eq(trim(answer@), seq!['y', 'e', 's']));
            } else {
                let yes = seq!['y', 'e', 's'];
                if ascii_case_eq(trim(answer@), yes) {
                    assert(crate::platform::ascii_lower(trim(answer@)[0]) == crate::platform::ascii_lower(yes[0]));
                    assert(crate::platform::ascii_lower(trim(answer@)[1]) == crate::platform::ascii_lower(yes[1]));
                    assert(crate::platform::ascii_lower(trim(answer@)[2]) == crate::platform::ascii_lower(yes[2]));
                }
            }
        }
        confirmed
    } else {
        false
    }
}

/// How the command-line tool names a change.
pub open spec fn change_label_text(kind: ChangeKind) -> Seq<char> {
    match kind {
        ChangeKind::Added => "新增"@,
        ChangeKind::Removed => "删除"@,
        ChangeKind::Modified => "修改"@,
    }
}

pub fn change_label(kind: ChangeKind) -> (label: &'static str)
    ensures
        label@ == change_label_text(kind),
{
    match kind {
        ChangeKind::Added => "新增",
        ChangeKind::Removed => "删除",
        ChangeKind::Modified => "修改",
    }
}

/// Restoring a snapshot needs administrator rights when a public desktop is
/// known and an item of the public desktop is missing from it. `present[i]`
/// tells whether the `i`-th item of the manifest exists on the public
/// desktop; an item beyond `present` counts as missing.
pub open spec fn needs_elevation(
    manifest: SnapshotManifest,
    locations: Seq<DesktopLocation>,
    present: Seq<bool>,
) -> bool {
    &&& exists|l: int| 0 <= l < locations.len() && (#[trigger] locations[l]).root == DesktopRoot::Public
    &&& exists|i: int|
        0 <= i < manifest.items@.len() && (#[trigger] manifest.items@[i]).root == DesktopRoot::Public
            && !(i < present.len() && present[i])
}

pub fn needs_public_desktop_elevation(
    manifest: &SnapshotManifest,
    locations: &[DesktopLocation],
    present: &[bool],
) -> (needed: bool)
    ensures
        needed == needs_elevation(*manifest, locations@, present@),
{
    let public = match crate::platform::location_for(locations, DesktopRoot::Public) {
        Some(l) => l,
        None => {
            return false;
        },
    };
    proof {
        assert(locations@[public as int].root == DesktopRoot::Public);
    }
    let mut i: usize = 0;
    while i < manifest.items.len()
        invariant
            i <= manifest.items@.len(),
            public < locations@.len(),
            locations@[public as int].root == DesktopRoot::Public,
            forall|j: int|
                0 <= j < i && (#[trigger] manifest.items@[j]).root == DesktopRoot::Public ==> (j
                    < present@.len() && present@[j]),
        decreases manifest.items@.len() - i,
    {
        if manifest.items[i].root == DesktopRoot::Public {
            let here = i < present.len() && present[i];
            if !here {
                proof {
                    assert(manifest.items@[i as int].root == DesktopRoot::Public);
                }
                return true;
            }
        }
        i = i + 1;
    }
    false
}

/// What restoring a snapshot reports to the desktop application.
#[derive(Debug)]
pub struct RestoreResult {
    pub id: String,
    pub restored_count: usize,
    pub skipped_count: usize,
    pub failed_count: usize,
    pub failed_items: Vec<String>,
    pub layout_restored: bool,
    pub elevation_requested: bool,
}

impl RestoreResult {
    /// The result of restoring a snapshot here: the counts of the report,
    /// and the reasons of its failures.
    pub fn from_report(id: &str, report: RestoreReport, layout_restored: bool) -> (result: Self)
        ensures
            result.id@ == id@,
            result.restored_count == report.restored@.len(),
            result.skipped_count == report.skipped@.len(),
            result.failed_count == report.failed@.len(),
            result.failed_items == report.failed_details,
            result.layout_restored == layout_restored,
            !result.elevation_requested,
    {
        RestoreResult {
            id: String::from_str(id),
            restored_count: report.restored.len(),
            skipped_count: report.skipped.len(),
            failed_count: report.failed.len(),
            failed_items: report.failed_details,
            layout_restored,
            elevation_requested: false,
        }
    }

    /// The result of handing the restore to a process with administrator
    /// rights: nothing restored here.
    pub fn elevated(id: String) -> (result: Self)
        ensures
            result.id == id,
            result.restored_count == 0,
            result.skipped_count == 0,
            result.failed_count == 0,
            result.failed_items@.len() == 0,
            !result.layout_restored,
            result.elevation_requested,
    {
        RestoreResult {
            id,
            restored_count: 0,
            skipped_count: 0,
            failed_count: 0,
            failed_items: Vec::new(),
            layout_restored: false,
            elevation_requested: true,
        }
    }
}

/// What creating a snapshot reports to the desktop application.
#[derive(Debug)]
pub struct BackupResult {
    pub id: String,
    pub item_count: usize,
    pub backed_up_count: usize,
    pub failed_items: Vec<String>,
    pub screenshot_count: usize,
}

impl BackupResult {
    pub fn new(id: String, item_count: usize, report: ContentBackupReport, screenshot_count: usize) -> (result: Self)
        ensures
            result.id == id,
            result.item_count == item_count,
            result.backed_up_count == report.backed_up,
            result.failed_items == report.failed,
            result.screenshot_count == screenshot_count,
    {
        BackupResult {
            id,
            item_count,
            backed_up_count: report.backed_up,
            failed_items: report.failed,
            screenshot_count,
        }
    }
}

} // verus!
