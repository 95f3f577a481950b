//! Recording a scan of the desktop: the record of each entry, the order of
//! the records, and the clock.

use std::time::{Duration, SystemTime, UNIX_EPOCH};
use vstd::prelude::*;
use vstd::seq_lib::*;
use crate::desktop::{
    item_key, key_lt, lemma_key_not_lt_transitive, lemma_key_order, DesktopItem, DesktopItemKind, DesktopRoot,
};
use crate::text::{chars_of, compare_text, rearranges, Rank};

verus! {

broadcast use vstd::string::group_string_axioms;

#[verifier::external_type_specification]
#[verifier::external_body]
pub struct ExSystemTime(SystemTime);

/// `SystemTime::now`: the current time of the system clock.
#[verifier::external_body]
fn system_time_now() -> SystemTime {
    SystemTime::now()
}

/// `SystemTime::duration_since` the Unix epoch: how long after the epoch a
/// time lies, or nothing when it lies before it.
#[verifier::external_body]
fn duration_since_unix_epoch(time: &SystemTime) -> Option<Duration> {
    time.duration_since(UNIX_EPOCH).ok()
}

/// `Duration::as_secs`: the whole seconds of a duration. Nothing is stated
/// of the result, since the duration is opaque here.
#[verifier::external_body]
fn whole_seconds(duration: &Duration) -> u64 {
    duration.as_secs()
}

/// Seconds since the Unix epoch as a signed number: a count of seconds is
/// reinterpreted as `i64` (wrapping), and a time before the epoch counts 0.
pub open spec fn unix_seconds(elapsed: Option<u64>) -> i64 {
    match elapsed {
        Some(seconds) => seconds as i64,
        None => 0,
    }
}

pub fn unix_seconds_from(elapsed: Option<u64>) -> (seconds: i64)
    ensures
        seconds == unix_seconds(elapsed),
{
    match elapsed {
        Some(s) => s as i64,
        None => 0,
    }
}

/// The current time in seconds since the Unix epoch.
pub fn now_unix_seconds() -> (seconds: i64)
    ensures
        exists|elapsed: Option<u64>| seconds == unix_seconds(elapsed),
{
    let now = system_time_now();
    let elapsed = match duration_since_unix_epoch(&now) {
        Some(duration) => Some(whole_seconds(&duration)),
        None => None,
    };
    unix_seconds_from(elapsed)
}

/// A path with every `\` turned into `/`.
pub open spec fn forward_slashes(path: Seq<char>) -> Seq<char> {
    path.map_values(|c: char| if c == '\\' { '/' } else { c })
}

/// The record of one desktop entry, before its content is backed up.
pub open spec fn scanned_item(
    item: DesktopItem,
    root: DesktopRoot,
    relative_path: Seq<char>,
    kind: DesktopItemKind,
    is_file: bool,
    length: u64,
    modified: Option<u64>,
    target: Option<(String, bool)>,
) -> bool {
    &&& item.root == root
    &&& item.relative_path@ == forward_slashes(relative_path)
    &&& item.kind == kind
    &&& item.size == if is_file { length } else { 0 }
    &&& item.modified_unix_seconds == unix_seconds(modified)
    &&& match target {
        Some((path, exists)) if kind == DesktopItemKind::Shortcut => item.target_path == Some(path)
            && item.target_exists == Some(exists),
        _ => item.target_path is None && item.target_exists is None,
    }
    &&& !item.content_backed_up
}

/// Whether the scan looks up the target of an entry of this kind: only for
/// shortcuts.
pub fn looks_up_target(kind: DesktopItemKind) -> (lookup: bool)
    ensures
        lookup <==> kind == DesktopItemKind::Shortcut,
{
    match kind {
        DesktopItemKind::Shortcut => true,
        _ => false,
    }
}

/// The record of one desktop entry: its desktop, its path relative to the
/// desktop with `/` as separator, its kind, its size when it is a file (0
/// otherwise), its modification time in seconds since the Unix epoch (0 when
/// unknown), and for a shortcut whose target was read, that target and
/// whether it exists. The target and whether it exists are recorded
/// together, and only for shortcuts.
pub fn desktop_item(
    root: DesktopRoot,
    relative_path: &str,
    kind: DesktopItemKind,
    is_file: bool,
    length: u64,
    modified: Option<u64>,
    target: Option<(String, bool)>,
) -> (item: DesktopItem)
    ensures
        scanned_item(item, root, relative_path@, kind, is_file, length, modified, target),
        item.target_path is Some <==> item.target_exists is Some,
        item.target_path is Some ==> item.kind == DesktopItemKind::Shortcut,
        kind == DesktopItemKind::Shortcut ==> match target {
            Some((path, exists)) => item.target_path == Some(path) && item.target_exists == Some(
                exists,
            ),
            None => item.target_path is None && item.target_exists is None,
        },
{
    let chars = chars_of(relative_path);
    let mut path = String::new();
    let mut i: usize = 0;
    while i < chars.len()
        invariant
            i <= chars@.len(),
            chars@ == relative_path@,
            path@ == forward_slashes(relative_path@.take(i as int)),
        decreases chars.len() - i,
    {
        let c = chars[i];
        if c == '\\' {
            path.push('/');
        } else {
            path.push(c);
        }
        proof {
            assert(path@ =~= forward_slashes(relative_path@.take(i + 1)));
        }
        i = i + 1;
    }
    proof {
        assert(relative_path@.take(chars@.len() as int) =~= relative_path@);
    }
    let (target_path, target_exists) = match target {
        Some((target_path, exists)) => if looks_up_target(kind) {
            (Some(target_path), Some(exists))
        } else {
            (None, None)
        },
        None => (None, None),
    };
    DesktopItem {
        root,
        relative_path: path,
        kind,
        size: if is_file {
            length
        } else {
            0
        },
        modified_unix_seconds: unix_seconds_from(modified),
        target_path,
        target_exists,
        content_backed_up: false,
    }
}

/// The items are in key order (by desktop, then by path).
pub open spec fn items_in_key_order(items: Seq<DesktopItem>) -> bool {
    forall|i: int, j: int|
        0 <= i < j < items.len() ==> !key_lt(item_key(#[trigger] items[j]), item_key(#[trigger] items[i]))
}

fn key_before(a: &DesktopItem, b: &DesktopItem) -> (before: bool)
    ensures
        before == key_lt(item_key(*a), item_key(*b)),
{
    proof {
        lemma_key_order(item_key(*a), item_key(*b), item_key(*a));
    }
    if a.root != b.root {
        match a.root {
            DesktopRoot::User => true,
            DesktopRoot::Public => false,
        }
    } else {
        compare_text(a.relative_path.as_str(), b.relative_path.as_str()) == Rank::Before
    }
}

/// `to` rearranges `from` by `p`, and records with the same key come in
/// `to` in the order they had in `from`.
pub open spec fn keeps_order_of_equal_keys(from: Seq<DesktopItem>, to: Seq<DesktopItem>, p: Seq<int>) -> bool {
    &&& rearranges(from, to, p)
    &&& forall|a: int, b: int|
        0 <= a < b < to.len() && item_key(to[a]) == item_key(to[b]) ==> #[trigger] p[a] < #[trigger] p[b]
}

/// Puts the records of a scan in key order, keeping the relative order of
/// records with the same key.
pub fn sort_desktop_items(items: &mut Vec<DesktopItem>)
    ensures
        items_in_key_order(final(items)@),
        final(items)@.to_multiset() == old(items)@.to_multiset(),
        exists|p: Seq<int>| #[trigger] keeps_order_of_equal_keys(old(items)@, final(items)@, p),
{
    broadcast use vstd::seq_lib::group_to_multiset_ensures;

    let n = items.len();
    if n == 0 {
        proof {
            assert(keeps_order_of_equal_keys(old(items)@, items@, Seq::empty()));
        }
        return;
    }
    let ghost mut perm: Seq<int> = seq![0int];
    let mut i: usize = 1;
    while i < n
        invariant
            1 <= i <= n,
            n == items@.len(),
            n == old(items)@.len(),
            items_in_key_order(items@.take(i as int)),
            items@.to_multiset() == old(items)@.to_multiset(),
            perm.len() == i,
            forall|k: int| i <= k < n ==> items@[k] == old(items)@[k],
            forall|a: int| 0 <= a < i ==> 0 <= #[trigger] perm[a] < i && items@[a] == old(items)@[perm[a]],
            forall|a: int, b: int| 0 <= a < b < i ==> #[trigger] perm[a] != #[trigger] perm[b],
            forall|a: int, b: int|
                0 <= a < b < i && item_key(items@[a]) == item_key(items@[b]) ==> #[trigger] perm[a]
                    < #[trigger] perm[b],
        decreases n - i,
    {
        let ghost before = items@;
        let moving = items.remove(i);
        let mut j: usize = i;
        while j > 0 && key_before(&moving, &items[j - 1])
            invariant
                0 <= j <= i,
                i < n,
                before.len() == n,
                items@ == before.remove(i as int),
                moving == before[i as int],
                forall|k: int| j <= k < i ==> key_lt(item_key(moving), item_key(#[trigger] items@[k])),
            decreases j,
        {
            j = j - 1;
        }
        items.insert(j, moving);
        proof {
            let after = items@;
            let sorted_part = before.take(i as int);
            to_multiset_remove(before, i as int);
            to_multiset_insert(before.remove(i as int), j as int, moving);
            assert(before.to_multiset().count(moving) > 0) by {
                to_multiset_contains(before, moving);
            }
            assert(after.to_multiset() =~= before.to_multiset());
            assert(after =~= before.remove(i as int).insert(j as int, moving));
            assert forall|a: int, b: int| 0 <= a < b < i + 1 implies !key_lt(
                item_key(#[trigger] after.take(i + 1)[b]),
                item_key(#[trigger] after.take(i + 1)[a]),
            ) by {
                let x = after[a];
                let y = after[b];
                assert(after.take(i + 1)[a] == x);
                assert(after.take(i + 1)[b] == y);
                if b < j {
                    assert(x == sorted_part[a]);
                    assert(y == sorted_part[b]);
                } else if b == j {
                    assert(x == sorted_part[a]);
                    assert(sorted_part[j - 1] == before[j - 1]);
                    lemma_key_order(item_key(moving), item_key(sorted_part[j - 1]), item_key(x));
                    if a < j - 1 {
                        assert(!key_lt(item_key(sorted_part[j - 1]), item_key(sorted_part[a])));
                    }
                    lemma_key_not_lt_transitive(item_key(moving), item_key(sorted_part[j - 1]), item_key(x));
                } else if a == j {
                    assert(y == sorted_part[b - 1]);
                    assert(key_lt(item_key(moving), item_key(before.remove(i as int)[b - 1])));
                    lemma_key_order(item_key(x), item_key(y), item_key(x));
                } else if a < j {
                    assert(x == sorted_part[a]);
                    assert(y == sorted_part[b - 1]);
                } else {
                    assert(x == sorted_part[a - 1]);
                    assert(y == sorted_part[b - 1]);
                }
            }
            let ghost_old = old(items)@;
            let np = perm.insert(j as int, i as int);
            assert(moving == ghost_old[i as int]);
            assert forall|k: int| i + 1 <= k < n implies after[k] == ghost_old[k] by {
                assert(after[k] == before[k]);
            }
            assert forall|a: int| 0 <= a < i + 1 implies 0 <= #[trigger] np[a] < i + 1 && after[a]
                == ghost_old[np[a]] by {
                if a < j {
                    assert(np[a] == perm[a]);
                    assert(after[a] == before[a]);
                } else if a > j {
                    assert(np[a] == perm[a - 1]);
                    assert(after[a] == before[a - 1]);
                }
            }
            assert forall|a: int, b: int| 0 <= a < b < i + 1 implies #[trigger] np[a] != #[trigger] np[b] by {
                if a < j && b < j {
                    assert(np[a] == perm[a] && np[b] == perm[b]);
                } else if a < j && b > j {
                    assert(np[a] == perm[a] && np[b] == perm[b - 1]);
                } else if a > j {
                    assert(np[a] == perm[a - 1] && np[b] == perm[b - 1]);
                } else if a < j {
                    assert(np[a] == perm[a]);
                } else {
                    assert(np[b] == perm[b - 1]);
                }
            }
            assert forall|a: int, b: int|
                0 <= a < b < i + 1 && item_key(after[a]) == item_key(after[b]) implies #[trigger] np[a]
                < #[trigger] np[b] by {
                if a < j && b < j {
                    assert(np[a] == perm[a] && np[b] == perm[b]);
                    assert(after[a] == before[a] && after[b] == before[b]);
                } else if a < j && b > j {
                    assert(np[a] == perm[a] && np[b] == perm[b - 1]);
                    assert(after[a] == before[a] && after[b] == before[b - 1]);
                } else if a > j {
                    assert(np[a] == perm[a - 1] && np[b] == perm[b - 1]);
                    assert(after[a] == before[a - 1] && after[b] == before[b - 1]);
                } else if a < j {
                    assert(np[a] == perm[a]);
                } else {
                    assert(after[b] == before.remove(i as int)[b - 1]);
                    assert(key_lt(item_key(moving), item_key(before.remove(i as int)[b - 1])));
                    lemma_key_order(item_key(moving), item_key(moving), item_key(moving));
                }
            }
            perm = np;
        }
        i = i + 1;
    }
    proof {
        assert(items@.take(n as int) =~= items@);
        assert(keeps_order_of_equal_keys(old(items)@, items@, perm));
    }
}

/// A directory under `Stardock` holds Fences when its name starts with
/// `fences`, ignoring ASCII case.
pub open spec fn is_fences_name(name: Seq<char>) -> bool {
    name.len() >= 6 && forall|i: int|
        0 <= i < 6 ==> crate::platform::ascii_lower(#[trigger] name[i]) == seq!['f', 'e', 'n', 'c', 'e', 's'][i]
}

pub fn is_fences_directory_name(name: &str) -> (fences: bool)
    ensures
        fences == is_fences_name(name@),
{
    let chars = chars_of(name);
    if chars.len() < 6 {
        return false;
    }
    let expected = ['f', 'e', 'n', 'c', 'e', 's'];
    let mut i: usize = 0;
    while i < 6
        invariant
            i <= 6,
            chars@ == name@,
            chars@.len() >= 6,
            expected@ == seq!['f', 'e', 'n', 'c', 'e', 's'],
            forall|j: int| 0 <= j < i ==> crate::platform::ascii_lower(#[trigger] name@[j]) == seq!['f', 'e', 'n', 'c', 'e', 's'][j],
        decreases 6 - i,
    {
        if crate::platform::lower_char(chars[i]) != expected[i] {
            return false;
        }
        i = i + 1;
    }
    true
}

} // verus!
