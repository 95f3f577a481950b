//! The decisions of the desktop procedures: how items are classified and
//! recorded, where their content is kept, and what backing up and restoring
//! each item does and reports.

use std::path::PathBuf;
use vstd::prelude::*;
use crate::desktop::{root_name, DesktopItem, DesktopItemKind, DesktopRoot};
use crate::storage::{join_path, joined_path};
use crate::text::{chars_of, same_text};

verus! {

broadcast use vstd::string::group_string_axioms;

/// Where one desktop lives on disk.
#[derive(Debug)]
pub struct DesktopLocation {
    pub root: DesktopRoot,
    pub path: PathBuf,
}

impl Clone for DesktopLocation {
    fn clone(&self) -> (copy: Self)
        ensures
            copy == *self,
    {
        DesktopLocation { root: self.root, path: self.path.clone() }
    }
}

/// What backing up the content of the items achieved.
#[derive(Debug, Clone)]
pub struct ContentBackupReport {
    pub backed_up: usize,
    pub failed: Vec<String>,
}

impl Default for ContentBackupReport {
    fn default() -> (report: Self)
        ensures
            report.backed_up == 0,
            report.failed@.len() == 0,
    {
        ContentBackupReport { backed_up: 0, failed: Vec::new() }
    }
}

/// What restoring the items achieved.
#[derive(Debug, Clone)]
pub struct RestoreReport {
    pub restored: Vec<String>,
    pub skipped: Vec<String>,
    pub failed: Vec<String>,
    pub failed_details: Vec<String>,
}

impl Default for RestoreReport {
    fn default() -> (report: Self)
        ensures
            report.restored@.len() == 0,
            report.skipped@.len() == 0,
            report.failed@.len() == 0,
            report.failed_details@.len() == 0,
    {
        RestoreReport {
            restored: Vec::new(),
            skipped: Vec::new(),
            failed: Vec::new(),
            failed_details: Vec::new(),
        }
    }
}

/// The index of the first location of the given desktop.
pub fn location_for(locations: &[DesktopLocation], root: DesktopRoot) -> (found: Option<usize>)
    ensures
        match found {
            Some(i) => i < locations@.len() && locations@[i as int].root == root && forall|j: int|
                0 <= j < i ==> (#[trigger] locations@[j]).root != root,
            None => forall|j: int| 0 <= j < locations@.len() ==> (#[trigger] locations@[j]).root != root,
        },
{
    let mut i: usize = 0;
    while i < locations.len()
        invariant
            i <= locations@.len(),
            forall|j: int| 0 <= j < i ==> (#[trigger] locations@[j]).root != root,
        decreases locations.len() - i,
    {
        if locations[i].root == root {
            return Some(i);
        }
        i = i + 1;
    }
    None
}

/// Where the content of an item is kept inside a snapshot directory:
/// `content`, then the name of its desktop, then its relative path.
pub fn content_path(snapshot_dir: &PathBuf, item: &DesktopItem) -> (path: PathBuf)
    ensures
        path == joined_path(
            joined_path(joined_path(*snapshot_dir, "content"@), root_name(item.root)),
            item.relative_path@,
        ),
{
    let content = join_path(snapshot_dir, "content");
    let root = join_path(&content, item.root.as_str());
    join_path(&root, item.relative_path.as_str())
}

/// Records the outcome of backing up the content of one item: a success
/// marks the item as backed up and counts it, a failure lists its path.
pub fn record_backup_result(report: &mut ContentBackupReport, item: &mut DesktopItem, copied: bool)
    requires
        old(report).backed_up < usize::MAX,
    ensures
        copied ==> final(report).backed_up == old(report).backed_up + 1 && final(report).failed@
            == old(report).failed@,
        !copied ==> final(report).backed_up == old(report).backed_up && final(report).failed@
            == old(report).failed@.push(old(item).relative_path),
        *final(item) == (DesktopItem {
            content_backed_up: old(item).content_backed_up || copied,
            ..*old(item)
        }),
{
    if copied {
        item.content_backed_up = true;
        report.backed_up = report.backed_up + 1;
    } else {
        report.failed.push(item.relative_path.clone());
    }
}

/// Records that restoring one item failed, with the reason shown for it.
pub fn record_restore_failure(report: &mut RestoreReport, item: &DesktopItem, detail: String)
    ensures
        final(report).failed@ == old(report).failed@.push(item.relative_path),
        final(report).failed_details@ == old(report).failed_details@.push(detail),
        final(report).restored == old(report).restored,
        final(report).skipped == old(report).skipped,
{
    report.failed.push(item.relative_path.clone());
    report.failed_details.push(detail);
}


/// What restoring one item from a snapshot does.
#[derive(Debug, Clone, Copy, PartialEq, Eq, Structural)]
pub enum RestoreAction {
    /// The item is not the one asked for: nothing is done or reported.
    Unselected,
    /// No location is known for the item's desktop.
    MissingLocation,
    /// The snapshot holds no content for the item.
    MissingSource,
    /// The item exists on the desktop and is not to be overwritten.
    KeepExisting,
    /// Copy the directory from the snapshot.
    CopyDirectory,
    /// Remove the directory on the desktop, then copy it from the snapshot.
    ReplaceDirectory,
    /// Copy into the existing directory what it lacks.
    MergeDirectory,
    /// Copy the file from the snapshot, creating its parent directory.
    CopyFile,
}

/// Whether an item is the one asked for: any item when none is named.
pub open spec fn selected(item: DesktopItem, only_item: Option<Seq<char>>) -> bool {
    match only_item {
        Some(name) => name == item.relative_path@,
        None => true,
    }
}

pub open spec fn text_option(value: Option<&str>) -> Option<Seq<char>> {
    match value {
        Some(s) => Some(s@),
        None => None,
    }
}

/// The action that restoring an item takes, from what is known of it.
pub open spec fn restore_action_for(
    item: DesktopItem,
    only_item: Option<Seq<char>>,
    location_found: bool,
    source_exists: bool,
    target_exists: bool,
    source_is_dir: bool,
    overwrite: bool,
) -> RestoreAction {
    if !selected(item, only_item) {
        RestoreAction::Unselected
    } else if !location_found {
        RestoreAction::MissingLocation
    } else if !source_exists {
        RestoreAction::MissingSource
    } else if target_exists && !overwrite {
        RestoreAction::KeepExisting
    } else if source_is_dir {
        if overwrite && target_exists {
            RestoreAction::ReplaceDirectory
        } else if target_exists {
            RestoreAction::MergeDirectory
        } else {
            RestoreAction::CopyDirectory
        }
    } else {
        RestoreAction::CopyFile
    }
}

/// Decides what restoring an item does. `location_found` says whether a
/// location is known for the item's desktop; `source_exists` and
/// `source_is_dir` describe its content in the snapshot, `target_exists`
/// its path on the desktop.
pub fn restore_action(
    item: &DesktopItem,
    only_item: Option<&str>,
    location_found: bool,
    source_exists: bool,
    target_exists: bool,
    source_is_dir: bool,
    overwrite: bool,
) -> (action: RestoreAction)
    ensures
        action == restore_action_for(
            *item,
            text_option(only_item),
            location_found,
            source_exists,
            target_exists,
            source_is_dir,
            overwrite,
        ),
        selected(*item, text_option(only_item)) && location_found && source_exists && !target_exists
            ==> action == if source_is_dir {
            RestoreAction::CopyDirectory
        } else {
            RestoreAction::CopyFile
        },
        action == RestoreAction::KeepExisting <==> (selected(*item, text_option(only_item))
            && location_found && source_exists && target_exists && !overwrite),
{
    let wanted = match only_item {
        Some(name) => same_text(name, item.relative_path.as_str()),
        None => true,
    };
    if !wanted {
        RestoreAction::Unselected
    } else if !location_found {
        RestoreAction::MissingLocation
    } else if !source_exists {
        RestoreAction::MissingSource
    } else if target_exists && !overwrite {
        RestoreAction::KeepExisting
    } else if source_is_dir {
        if overwrite && target_exists {
            RestoreAction::ReplaceDirectory
        } else if target_exists {
            RestoreAction::MergeDirectory
        } else {
            RestoreAction::CopyDirectory
        }
    } else {
        RestoreAction::CopyFile
    }
}

/// How copying the content of an item went.
#[derive(Debug)]
pub enum CopyOutcome {
    Copied,
    Failed { permission_denied: bool, message: String },
}

/// Whether an action copies content.
pub open spec fn copies_content(action: RestoreAction) -> bool {
    action == RestoreAction::CopyDirectory || action == RestoreAction::ReplaceDirectory || action
        == RestoreAction::MergeDirectory || action == RestoreAction::CopyFile
}

/// The reason shown for an item whose copy failed: a refused write to the
/// public desktop asks for administrator rights, any other failure gives the
/// error's message.
pub open spec fn copy_failure_detail(
    item: DesktopItem,
    permission_denied: bool,
    message: Seq<char>,
) -> Seq<char> {
    if item.root == DesktopRoot::Public && permission_denied {
        item.relative_path@ + "（公共桌面需要管理员权限）"@
    } else {
        item.relative_path@ + "（"@ + message + "）"@
    }
}

/// Records in the report what restoring one item came to: nothing for an
/// item not asked for, a failure when its location or content is missing,
/// a skip when it is kept, and for a copy its outcome.
pub fn record_restore_outcome(
    report: &mut RestoreReport,
    item: &DesktopItem,
    action: RestoreAction,
    outcome: CopyOutcome,
)
    ensures
        action == RestoreAction::Unselected ==> *final(report) == *old(report),
        action == RestoreAction::MissingLocation || action == RestoreAction::MissingSource ==> {
            &&& final(report).failed@ == old(report).failed@.push(item.relative_path)
            &&& final(report).failed_details@.len() == old(report).failed_details@.len() + 1
            &&& final(report).failed_details@.drop_last() == old(report).failed_details@
            &&& final(report).failed_details@.last()@ == item.relative_path@ + "（恢复失败）"@
            &&& final(report).restored == old(report).restored
            &&& final(report).skipped == old(report).skipped
        },
        action == RestoreAction::KeepExisting ==> {
            &&& final(report).skipped@ == old(report).skipped@.push(item.relative_path)
            &&& final(report).restored == old(report).restored
            &&& final(report).failed == old(report).failed
            &&& final(report).failed_details == old(report).failed_details
        },
        copies_content(action) && outcome is Copied ==> {
            &&& final(report).restored@ == old(report).restored@.push(item.relative_path)
            &&& final(report).skipped == old(report).skipped
            &&& final(report).failed == old(report).failed
            &&& final(report).failed_details == old(report).failed_details
        },
        copies_content(action) ==> (outcome matches CopyOutcome::Failed {
            permission_denied,
            message,
        } ==> {
            &&& final(report).failed@ == old(report).failed@.push(item.relative_path)
            &&& final(report).failed_details@.len() == old(report).failed_details@.len() + 1
            &&& final(report).failed_details@.drop_last() == old(report).failed_details@
            &&& final(report).failed_details@.last()@ == copy_failure_detail(
                *item,
                permission_denied,
                message@,
            )
            &&& final(report).restored == old(report).restored
            &&& final(report).skipped == old(report).skipped
        }),
{
    match action {
        RestoreAction::Unselected => {},
        RestoreAction::MissingLocation | RestoreAction::MissingSource => {
            let mut detail = item.relative_path.clone();
            detail.append("（恢复失败）");
            record_restore_failure(report, item, detail);
        },
        RestoreAction::KeepExisting => {
            report.skipped.push(item.relative_path.clone());
        },
        _ => {
            match outcome {
                CopyOutcome::Copied => {
                    report.restored.push(item.relative_path.clone());
                },
                CopyOutcome::Failed { permission_denied, message } => {
                    let mut detail = item.relative_path.clone();
                    if item.root == DesktopRoot::Public && permission_denied {
                        detail.append("（公共桌面需要管理员权限）");
                    } else {
                        detail.append("（");
                        detail.append(message.as_str());
                        detail.append("）");
                    }
                    record_restore_failure(report, item, detail);
                },
            }
        },
    }
}


/// The index of the last `.` of a name, or -1 when it has none.
pub open spec fn last_dot(name: Seq<char>) -> int
    decreases name.len(),
{
    if name.len() == 0 {
        -1
    } else if name.last() == '.' {
        name.len() - 1
    } else {
        last_dot(name.drop_last())
    }
}

proof fn lemma_last_dot(name: Seq<char>)
    ensures
        -1 <= last_dot(name) < name.len(),
        last_dot(name) >= 0 ==> name[last_dot(name)] == '.',
        forall|j: int| last_dot(name) < j < name.len() ==> #[trigger] name[j] != '.',
    decreases name.len(),
{
    if name.len() > 0 && name.last() != '.' {
        lemma_last_dot(name.drop_last());
        assert forall|j: int| last_dot(name) < j < name.len() implies #[trigger] name[j] != '.' by {
            if j < name.len() - 1 {
                assert(name[j] == name.drop_last()[j]);
            }
        }
    }
}

proof fn lemma_last_dot_is(name: Seq<char>, d: int)
    requires
        -1 <= d < name.len(),
        d >= 0 ==> name[d] == '.',
        forall|j: int| d < j < name.len() ==> #[trigger] name[j] != '.',
    ensures
        last_dot(name) == d,
    decreases name.len(),
{
    if name.len() > 0 && d < name.len() - 1 {
        assert(name[name.len() - 1] != '.');
        assert forall|j: int| d < j < name.drop_last().len() implies #[trigger] name.drop_last()[j]
            != '.' by {
            assert(name.drop_last()[j] == name[j]);
        }
        lemma_last_dot_is(name.drop_last(), d);
    }
}

/// The extension of a file name, as `Path::extension` gives it: the part
/// after the last `.`, unless the name has no `.` other than a leading one,
/// or is `..`.
pub open spec fn file_extension(name: Seq<char>) -> Option<Seq<char>> {
    if name == seq!['.', '.'] {
        None
    } else if last_dot(name) <= 0 {
        None
    } else {
        Some(name.skip(last_dot(name) + 1))
    }
}

/// A character with ASCII upper case letters mapped to lower case.
pub open spec fn ascii_lower(c: char) -> char {
    if 'A' <= c <= 'Z' {
        (((c as u32) + 32) as u8) as char
    } else {
        c
    }
}

/// Equality of texts ignoring ASCII case.
pub open spec fn ascii_case_eq(a: Seq<char>, b: Seq<char>) -> bool {
    a.len() == b.len() && forall|i: int| 0 <= i < a.len() ==> ascii_lower(#[trigger] a[i]) == ascii_lower(b[i])
}

/// The kind of a desktop entry: a directory, a `.lnk` shortcut, a `.url`
/// link (extensions compared ignoring ASCII case), another file with an
/// extension, or anything else.
pub open spec fn kind_of(file_name: Seq<char>, is_directory: bool) -> DesktopItemKind {
    if is_directory {
        DesktopItemKind::Directory
    } else {
        match file_extension(file_name) {
            Some(extension) => if ascii_case_eq(extension, seq!['l', 'n', 'k']) {
                DesktopItemKind::Shortcut
            } else if ascii_case_eq(extension, seq!['u', 'r', 'l']) {
                DesktopItemKind::Url
            } else {
                DesktopItemKind::File
            },
            None => DesktopItemKind::Other,
        }
    }
}

pub(crate) fn lower_char(c: char) -> (lower: char)
    ensures
        lower == ascii_lower(c),
{
    if 'A' <= c && c <= 'Z' {
        (((c as u32) + 32) as u8) as char
    } else {
        c
    }
}

fn range_eq_ignore_case(chars: &Vec<char>, from: usize, expected: [char; 3]) -> (same: bool)
    requires
        from <= chars@.len(),
    ensures
        same == ascii_case_eq(chars@.skip(from as int), expected@),
{
    let n = chars.len();
    if n - from != 3 {
        return false;
    }
    let mut i: usize = 0;
    while i < 3
        invariant
            i <= 3,
            n == chars@.len(),
            chars@.len() == from + 3,
            forall|j: int| 0 <= j < i ==> ascii_lower(#[trigger] chars@.skip(from as int)[j]) == ascii_lower(expected@[j]),
        decreases 3 - i,
    {
        if lower_char(chars[from + i]) != lower_char(expected[i]) {
            proof {
                assert(chars@.skip(from as int)[i as int] == chars@[from + i]);
            }
            return false;
        }
        proof {
            assert(chars@.skip(from as int)[i as int] == chars@[from + i]);
        }
        i = i + 1;
    }
    true
}

/// The kind of a desktop entry whose file name, as far as it is text, is
/// `file_name`; `extension_is_text` tells whether its extension, where it
/// has one, is valid Unicode. An extension that is not cannot be read, so
/// such an entry, unless it is a directory, is of another kind.
pub fn classify_entry(file_name: &str, extension_is_text: bool, is_directory: bool) -> (kind:
    DesktopItemKind)
    ensures
        kind == if !is_directory && !extension_is_text {
            DesktopItemKind::Other
        } else {
            kind_of(file_name@, is_directory)
        },
{
    if !is_directory && !extension_is_text {
        DesktopItemKind::Other
    } else {
        classify(file_name, is_directory)
    }
}

/// The kind of a desktop entry with the given file name.
pub fn classify(file_name: &str, is_directory: bool) -> (kind: DesktopItemKind)
    ensures
        kind == kind_of(file_name@, is_directory),
{
    if is_directory {
        return DesktopItemKind::Directory;
    }
    let chars = chars_of(file_name);
    if chars.len() == 2 && chars[0] == '.' && chars[1] == '.' {
        proof {
            assert(file_name@ =~= seq!['.', '.']);
        }
        return DesktopItemKind::Other;
    }
    proof {
        assert(file_name@ != seq!['.', '.']);
    }
    let mut dot = chars.len();
    while dot > 0 && chars[dot - 1] != '.'
        invariant
            dot <= chars@.len(),
            forall|j: int| dot <= j < chars@.len() ==> #[trigger] chars@[j] != '.',
        decreases dot,
    {
        dot = dot - 1;
    }
    proof {
        lemma_last_dot_is(chars@, dot - 1);
    }
    if dot <= 1 {
        return DesktopItemKind::Other;
    }
    if range_eq_ignore_case(&chars, dot, ['l', 'n', 'k']) {
        DesktopItemKind::Shortcut
    } else if range_eq_ignore_case(&chars, dot, ['u', 'r', 'l']) {
        DesktopItemKind::Url
    } else {
        DesktopItemKind::File
    }
}

} // verus!
