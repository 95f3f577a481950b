//! Naming the screenshots of a snapshot, the order in which screens are
//! captured, and the layout details read from the system.

use vstd::prelude::*;
use crate::desktop::{DesktopItem, DesktopLayout, IconPosition};
use crate::text::{decimal, push_decimal, same_text};

verus! {

broadcast use vstd::string::group_string_axioms;

/// The file name of the full screenshot of the `index`-th screen.
pub open spec fn screenshot_name(index: nat) -> Seq<char> {
    "screen-"@ + decimal(index) + ".png"@
}

/// The file name of the thumbnail of the `index`-th screen.
pub open spec fn thumbnail_name(index: nat) -> Seq<char> {
    "thumb-"@ + decimal(index) + ".png"@
}

/// The file names of the screenshot and of the thumbnail of a screen.
pub fn screenshot_file_names(index: usize) -> (names: (String, String))
    ensures
        names.0@ == screenshot_name(index as nat),
        names.1@ == thumbnail_name(index as nat),
{
    let mut full = String::from_str("screen-");
    push_decimal(&mut full, index as u128);
    full.append(".png");
    let mut thumb = String::from_str("thumb-");
    push_decimal(&mut thumb, index as u128);
    thumb.append(".png");
    (full, thumb)
}

/// How a manifest refers to a screenshot: by its path inside the snapshot.
pub fn stored_screenshot_path(file_name: &str) -> (path: String)
    ensures
        path@ == "screenshots/"@ + file_name@,
{
    let mut path = String::from_str("screenshots/");
    path.append(file_name);
    path
}

/// The indices below `n` whose flag equals `wanted`, in increasing order.
pub open spec fn indices_with(flags: Seq<bool>, wanted: bool, n: int) -> Seq<usize>
    decreases n,
{
    if n <= 0 {
        seq![]
    } else if flags[n - 1] == wanted {
        indices_with(flags, wanted, n - 1).push((n - 1) as usize)
    } else {
        indices_with(flags, wanted, n - 1)
    }
}

/// The order in which screens are captured: the primary screens first, then
/// the others, each group in the order the system lists them (a stable sort
/// on "not primary").
pub open spec fn capture_order(primary: Seq<bool>) -> Seq<usize> {
    indices_with(primary, true, primary.len() as int) + indices_with(
        primary,
        false,
        primary.len() as int,
    )
}

fn push_indices(order: &mut Vec<usize>, primary: &[bool], wanted: bool)
    ensures
        final(order)@ == old(order)@ + indices_with(primary@, wanted, primary@.len() as int),
{
    let mut i: usize = 0;
    while i < primary.len()
        invariant
            i <= primary@.len(),
            order@ == old(order)@ + indices_with(primary@, wanted, i as int),
        decreases primary.len() - i,
    {
        if primary[i] == wanted {
            order.push(i);
            proof {
                assert(order@ =~= old(order)@ + indices_with(primary@, wanted, i + 1));
            }
        }
        i = i + 1;
    }
}

/// The indices of the screens in the order in which they are captured, from
/// whether each screen is the primary one.
pub fn capture_order_of(primary: &[bool]) -> (order: Vec<usize>)
    ensures
        order@ == capture_order(primary@),
{
    let mut order: Vec<usize> = Vec::new();
    push_indices(&mut order, primary, true);
    push_indices(&mut order, primary, false);
    proof {
        assert(order@ =~= capture_order(primary@));
    }
    order
}

/// Every index appears in the capture order exactly once.
pub proof fn lemma_capture_order_is_permutation(primary: Seq<bool>, k: int)
    requires
        0 <= k < primary.len(),
        primary.len() <= usize::MAX + 1,
    ensures
        capture_order(primary).len() == primary.len(),
        capture_order(primary).contains(k as usize),
{
    let n = primary.len() as int;
    lemma_indices_with(primary, n, k);
    let first = indices_with(primary, true, n);
    let second = indices_with(primary, false, n);
    let order = capture_order(primary);
    if primary[k] {
        let j = choose|j: int| 0 <= j < first.len() && first[j] == k as usize;
        assert(order[j] == k as usize);
    } else {
        let j = choose|j: int| 0 <= j < second.len() && second[j] == k as usize;
        assert(order[first.len() + j] == k as usize);
    }
}

proof fn lemma_indices_with(primary: Seq<bool>, n: int, k: int)
    requires
        0 <= n <= primary.len(),
        0 <= k < primary.len(),
        primary.len() <= usize::MAX + 1,
    ensures
        indices_with(primary, true, n).len() + indices_with(primary, false, n).len() == n,
        k < n ==> (indices_with(primary, primary[k], n).contains(k as usize)),
    decreases n,
{
    if n > 0 {
        lemma_indices_with(primary, n - 1, k);
        if k == n - 1 {
            assert(indices_with(primary, primary[k], n).last() == k as usize);
        } else if k < n - 1 {
            let with = indices_with(primary, primary[k], n - 1);
            let j = choose|j: int| 0 <= j < with.len() && with[j] == k as usize;
            assert(indices_with(primary, primary[k], n)[j] == k as usize);
        }
    }
}

/// The length of a device name stored as UTF-16 with a terminating zero:
/// the position of the first zero, or the whole buffer when none.
pub fn device_name_length(units: &[u16]) -> (length: usize)
    ensures
        length <= units@.len(),
        forall|i: int| 0 <= i < length ==> #[trigger] units@[i] != 0,
        length < units@.len() ==> units@[length as int] == 0,
{
    let mut i: usize = 0;
    while i < units.len()
        invariant
            i <= units@.len(),
            forall|j: int| 0 <= j < i ==> #[trigger] units@[j] != 0,
        decreases units.len() - i,
    {
        if units[i] == 0 {
            return i;
        }
        i = i + 1;
    }
    i
}

/// The icon positions of the item with the given relative path, in order.
pub open spec fn icons_of_item(icons: Seq<IconPosition>, item: Seq<char>) -> Seq<IconPosition>
    decreases icons.len(),
{
    if icons.len() == 0 {
        seq![]
    } else if icons.last().relative_path@ == item {
        icons_of_item(icons.drop_last(), item).push(icons.last())
    } else {
        icons_of_item(icons.drop_last(), item)
    }
}

/// Keeps only the icon positions of the item with the given relative path.
pub fn retain_icons_for_item(layout: &mut DesktopLayout, item: &str)
    ensures
        final(layout).icons@ == icons_of_item(old(layout).icons@, item@),
        final(layout).monitors == old(layout).monitors,
        final(layout).auto_arrange == old(layout).auto_arrange,
{
    let mut kept: Vec<IconPosition> = Vec::new();
    let mut i: usize = 0;
    while i < layout.icons.len()
        invariant
            i <= layout.icons@.len(),
            layout.icons@ == old(layout).icons@,
            kept@ == icons_of_item(layout.icons@.take(i as int), item@),
        decreases layout.icons@.len() - i,
    {
        proof {
            assert(layout.icons@.take(i + 1).drop_last() =~= layout.icons@.take(i as int));
        }
        if same_text(layout.icons[i].relative_path.as_str(), item) {
            kept.push(layout.icons[i].clone());
        }
        i = i + 1;
    }
    proof {
        assert(layout.icons@.take(i as int) =~= layout.icons@);
    }
    layout.icons = kept;
}

/// The positions of the shortcuts whose target is known not to exist.
pub fn broken_shortcuts(items: &[DesktopItem]) -> (broken: Vec<usize>)
    ensures
        forall|k: int| 0 <= k < broken@.len() ==> (#[trigger] broken@[k]) < items@.len() && items@[broken@[k] as int].target_exists == Some(false),
        forall|i: int| 0 <= i < items@.len() && (#[trigger] items@[i]).target_exists == Some(false) ==> broken@.contains(i as usize),
        forall|a: int, b: int| 0 <= a < b < broken@.len() ==> #[trigger] broken@[a] < #[trigger] broken@[b],
{
    let mut broken: Vec<usize> = Vec::new();
    let mut i: usize = 0;
    while i < items.len()
        invariant
            i <= items@.len(),
            forall|k: int| 0 <= k < broken@.len() ==> (#[trigger] broken@[k]) < i && items@[broken@[k] as int].target_exists == Some(false),
            forall|j: int| 0 <= j < i && (#[trigger] items@[j]).target_exists == Some(false) ==> broken@.contains(j as usize),
            forall|a: int, b: int| 0 <= a < b < broken@.len() ==> #[trigger] broken@[a] < #[trigger] broken@[b],
        decreases items.len() - i,
    {
        if items[i].target_exists == Some(false) {
            let ghost before = broken@;
            broken.push(i);
            proof {
                assert(broken@[broken@.len() - 1] == i);
                assert forall|j: int| 0 <= j < i + 1 && (#[trigger] items@[j]).target_exists == Some(false) implies broken@.contains(j as usize) by {
                    if j < i {
                        let k = choose|k: int| 0 <= k < before.len() && before[k] == j as usize;
                        assert(broken@[k] == j as usize);
                    }
                }
            }
        }
        i = i + 1;
    }
    broken
}

/// The windows of the shell itself (the desktop and the task bars), which
/// are left alone when the desktop is uncovered for a screenshot.
pub open spec fn shell_window_class(class_name: Seq<char>) -> bool {
    class_name == "Progman"@ || class_name == "WorkerW"@ || class_name == "Shell_TrayWnd"@
        || class_name == "Shell_SecondaryTrayWnd"@
}

pub fn is_shell_window_class(class_name: &str) -> (shell: bool)
    ensures
        shell == shell_window_class(class_name@),
{
    same_text(class_name, "Progman") || same_text(class_name, "WorkerW") || same_text(
        class_name,
        "Shell_TrayWnd",
    ) || same_text(class_name, "Shell_SecondaryTrayWnd")
}

/// Whether a window is minimized while the desktop is uncovered for a
/// screenshot: a visible window that is not minimized already, belongs to
/// another process than this one, and is not a window of the shell.
pub fn minimizes_window(
    visible: bool,
    minimized: bool,
    process_id: u32,
    own_process_id: u32,
    class_name: &str,
) -> (minimize: bool)
    ensures
        minimize == (visible && !minimized && process_id != own_process_id && !shell_window_class(
            class_name@,
        )),
{
    visible && !minimized && process_id != own_process_id && !is_shell_window_class(class_name)
}

} // verus!
