//! Properties that hold across the functions of the library: what comparing
//! snapshots reports, how the store names and lists snapshots, and how text
//! is cleaned and expanded.

use vstd::prelude::*;
use crate::desktop::{
    expected_change, item_key, key_lt, lemma_key_order, lemma_last_with_key, last_with_key,
    reports_changes, same_state, text_of, ChangeKind, DesktopChange, DesktopItem, DesktopItemKind,
    DesktopRoot, ItemKey,
};
use crate::platform::{restore_action_for, selected, RestoreAction};
use crate::scan::scanned_item;
use crate::session::confirms;
use crate::environment::{env_references, expand_env, first_index, percents_paired};
use crate::storage::{
    acceptable_title, id_candidate, in_listing_order, is_next_snapshot_id, lemma_later_candidate_is_later,
    lemma_listed_before_order, listed_before, SnapshotSummary,
};
use crate::text::{is_white_space, trim, trim_end, trim_start};

verus! {

/// Describing the same desktop state is an equivalence: reflexive,
/// symmetric and transitive.
pub proof fn law_same_state_is_equivalence(a: DesktopItem, b: DesktopItem, c: DesktopItem)
    ensures
        same_state(a, a),
        same_state(a, b) ==> same_state(b, a),
        same_state(a, b) && same_state(b, c) ==> same_state(a, c),
{
}

/// Whether an item's content was backed up plays no part in comparing it.
pub proof fn law_backup_flag_is_ignored(item: DesktopItem, flag: bool)
    ensures
        same_state(item, DesktopItem { content_backed_up: flag, ..item }),
{
}

/// Comparing a scan with itself reports no change for any key.
pub proof fn law_no_change_against_itself(items: Seq<DesktopItem>, key: ItemKey)
    ensures
        expected_change(items, items, key) is None,
{
}

/// Only keys that one of the scans holds are reported.
pub proof fn law_changes_concern_present_keys(
    previous: Seq<DesktopItem>,
    current: Seq<DesktopItem>,
    key: ItemKey,
)
    requires
        expected_change(previous, current, key) is Some,
    ensures
        (exists|i: int| 0 <= i < previous.len() && item_key(#[trigger] previous[i]) == key) || (exists|i: int|
            0 <= i < current.len() && item_key(#[trigger] current[i]) == key),
{
    lemma_last_with_key(previous, key);
    lemma_last_with_key(current, key);
    let p = last_with_key(previous, key);
    let c = last_with_key(current, key);
    if p >= 0 {
        assert(item_key(previous[p]) == key);
    } else {
        assert(item_key(current[c]) == key);
    }
}

/// Comparing in the other direction swaps additions and removals, and
/// reports the same modifications, each with the other scan's record.
pub proof fn law_compare_swapped(a: Seq<DesktopItem>, b: Seq<DesktopItem>, key: ItemKey)
    ensures
        match expected_change(a, b, key) {
            None => expected_change(b, a, key) is None,
            Some((kind, item)) => match kind {
                ChangeKind::Added => expected_change(b, a, key) == Some((ChangeKind::Removed, item)),
                ChangeKind::Removed => expected_change(b, a, key) == Some((ChangeKind::Added, item)),
                ChangeKind::Modified => expected_change(b, a, key) == Some(
                    (ChangeKind::Modified, a[last_with_key(a, key)]),
                ),
            },
        },
{
}

/// Two sequences of keys, each strictly increasing, that hold the same keys
/// are equal.
proof fn lemma_increasing_keys_equal(x: Seq<ItemKey>, y: Seq<ItemKey>)
    requires
        forall|i: int, j: int| 0 <= i < j < x.len() ==> key_lt(#[trigger] x[i], #[trigger] x[j]),
        forall|i: int, j: int| 0 <= i < j < y.len() ==> key_lt(#[trigger] y[i], #[trigger] y[j]),
        forall|k: ItemKey| x.contains(k) <==> y.contains(k),
    ensures
        x == y,
    decreases x.len() + y.len(),
{
    if x.len() == 0 {
        if y.len() > 0 {
            assert(y.contains(y[0]));
        }
        assert(x =~= y);
    } else if y.len() == 0 {
        assert(x.contains(x[0]));
    } else {
        assert(x.contains(x[0]));
        assert(y.contains(y[0]));
        let j = choose|j: int| 0 <= j < y.len() && y[j] == x[0];
        let i = choose|i: int| 0 <= i < x.len() && x[i] == y[0];
        lemma_key_order(x[0], y[0], x[0]);
        if x[0] != y[0] {
            assert(j > 0 && i > 0);
            assert(key_lt(y[0], y[j]));
            assert(key_lt(x[0], x[i]));
        }
        let xt = x.drop_first();
        let yt = y.drop_first();
        assert forall|k: ItemKey| xt.contains(k) <==> yt.contains(k) by {
            if xt.contains(k) {
                let a = choose|a: int| 0 <= a < xt.len() && xt[a] == k;
                assert(key_lt(x[0], x[a + 1]));
                lemma_key_order(k, k, k);
                assert(y.contains(k));
                let b = choose|b: int| 0 <= b < y.len() && y[b] == k;
                assert(b != 0);
                assert(yt[b - 1] == k);
            }
            if yt.contains(k) {
                let a = choose|a: int| 0 <= a < yt.len() && yt[a] == k;
                assert(key_lt(y[0], y[a + 1]));
                lemma_key_order(k, k, k);
                assert(x.contains(k));
                let b = choose|b: int| 0 <= b < x.len() && x[b] == k;
                assert(b != 0);
                assert(xt[b - 1] == k);
            }
        }
        assert forall|i: int, j: int| 0 <= i < j < xt.len() implies key_lt(#[trigger] xt[i], #[trigger] xt[j]) by {
            assert(key_lt(x[i + 1], x[j + 1]));
        }
        assert forall|i: int, j: int| 0 <= i < j < yt.len() implies key_lt(#[trigger] yt[i], #[trigger] yt[j]) by {
            assert(key_lt(y[i + 1], y[j + 1]));
        }
        lemma_increasing_keys_equal(xt, yt);
        assert(x =~= seq![x[0]] + xt);
        assert(y =~= seq![y[0]] + yt);
    }
}

/// Comparing the scans the other way round reports the same keys in the
/// same order, with additions and removals exchanged and modifications
/// kept.
pub proof fn law_compare_swapped_reports<'a>(
    a: Seq<DesktopItem>,
    b: Seq<DesktopItem>,
    forward: Seq<DesktopChange<'a>>,
    backward: Seq<DesktopChange<'a>>,
)
    requires
        reports_changes(a, b, forward),
        reports_changes(b, a, backward),
    ensures
        forward.len() == backward.len(),
        forall|i: int|
            0 <= i < forward.len() ==> {
                &&& item_key(*(#[trigger] forward[i]).item) == item_key(*backward[i].item)
                &&& (forward[i].kind == ChangeKind::Added <==> backward[i].kind == ChangeKind::Removed)
                &&& (forward[i].kind == ChangeKind::Removed <==> backward[i].kind == ChangeKind::Added)
                &&& (forward[i].kind == ChangeKind::Modified <==> backward[i].kind
                    == ChangeKind::Modified)
            },
{
    let kf = forward.map_values(|c: DesktopChange<'a>| item_key(*c.item));
    let kb = backward.map_values(|c: DesktopChange<'a>| item_key(*c.item));
    assert forall|i: int, j: int| 0 <= i < j < kf.len() implies key_lt(#[trigger] kf[i], #[trigger] kf[j]) by {
        assert(key_lt(item_key(*forward[i].item), item_key(*forward[j].item)));
    }
    assert forall|i: int, j: int| 0 <= i < j < kb.len() implies key_lt(#[trigger] kb[i], #[trigger] kb[j]) by {
        assert(key_lt(item_key(*backward[i].item), item_key(*backward[j].item)));
    }
    assert forall|k: ItemKey| kf.contains(k) <==> kb.contains(k) by {
        law_compare_swapped(a, b, k);
        if kf.contains(k) {
            let i = choose|i: int| 0 <= i < kf.len() && kf[i] == k;
            assert(expected_change(a, b, item_key(*forward[i].item)) is Some);
            assert(expected_change(b, a, k) is Some);
            let j = choose|j: int| 0 <= j < backward.len() && item_key(*(#[trigger] backward[j]).item) == k;
            assert(kb[j] == k);
        }
        if kb.contains(k) {
            let i = choose|i: int| 0 <= i < kb.len() && kb[i] == k;
            assert(expected_change(b, a, item_key(*backward[i].item)) is Some);
            assert(expected_change(a, b, k) is Some);
            let j = choose|j: int| 0 <= j < forward.len() && item_key(*(#[trigger] forward[j]).item) == k;
            assert(kf[j] == k);
        }
    }
    lemma_increasing_keys_equal(kf, kb);
    assert forall|i: int| 0 <= i < forward.len() implies {
        &&& item_key(*(#[trigger] forward[i]).item) == item_key(*backward[i].item)
        &&& (forward[i].kind == ChangeKind::Added <==> backward[i].kind == ChangeKind::Removed)
        &&& (forward[i].kind == ChangeKind::Removed <==> backward[i].kind == ChangeKind::Added)
        &&& (forward[i].kind == ChangeKind::Modified <==> backward[i].kind == ChangeKind::Modified)
    } by {
        assert(kf[i] == kb[i]);
        let k = item_key(*forward[i].item);
        assert(item_key(*backward[i].item) == k);
        law_compare_swapped(a, b, k);
        assert(expected_change(a, b, k) == Some((forward[i].kind, *forward[i].item)));
        assert(expected_change(b, a, k) == Some((backward[i].kind, *backward[i].item)));
    }
}

/// A new snapshot id is never one of the names already taken, so a call
/// that is given an earlier call's id among the taken names returns a
/// different id, whatever the two times.
pub proof fn law_new_id_is_fresh(
    first_created: i64,
    taken: Seq<Seq<char>>,
    first: Seq<char>,
    second_created: i64,
    taken_after: Seq<Seq<char>>,
    second: Seq<char>,
)
    requires
        is_next_snapshot_id(first_created, taken, first),
        is_next_snapshot_id(second_created, taken_after, second),
        taken_after.contains(first),
    ensures
        second != first,
{
}

/// Restoring never keeps an item that is missing from the desktop: a
/// selected item with a known location and content in the snapshot whose
/// target is absent is copied back (a directory as a directory, a file as a
/// file), whether or not overwriting was asked for; an item is kept only
/// when its target exists and overwriting was not asked for.
pub proof fn law_missing_items_are_restored(
    item: DesktopItem,
    only_item: Option<Seq<char>>,
    location_found: bool,
    source_exists: bool,
    target_exists: bool,
    source_is_dir: bool,
    overwrite: bool,
)
    ensures
        selected(item, only_item) && location_found && source_exists && !target_exists
            ==> restore_action_for(
            item,
            only_item,
            location_found,
            source_exists,
            target_exists,
            source_is_dir,
            overwrite,
        ) == if source_is_dir {
            RestoreAction::CopyDirectory
        } else {
            RestoreAction::CopyFile
        },
        restore_action_for(
            item,
            only_item,
            location_found,
            source_exists,
            target_exists,
            source_is_dir,
            overwrite,
        ) == RestoreAction::KeepExisting <==> (selected(item, only_item) && location_found
            && source_exists && target_exists && !overwrite),
        selected(item, only_item) && location_found && source_exists && target_exists && overwrite
            ==> restore_action_for(
            item,
            only_item,
            location_found,
            source_exists,
            target_exists,
            source_is_dir,
            overwrite,
        ) == if source_is_dir {
            RestoreAction::ReplaceDirectory
        } else {
            RestoreAction::CopyFile
        },
{
}

/// When a key is in both scans, it is reported as modified, with the
/// current record, exactly when the two last records of the key differ in
/// their kind, size, modification time, shortcut target or whether that
/// target exists; whether the content was backed up plays no part.
pub proof fn law_recorded_differences_are_modifications(
    previous: Seq<DesktopItem>,
    current: Seq<DesktopItem>,
    key: ItemKey,
)
    requires
        last_with_key(previous, key) >= 0,
        last_with_key(current, key) >= 0,
    ensures
        ({
            let p = previous[last_with_key(previous, key)];
            let c = current[last_with_key(current, key)];
            expected_change(previous, current, key) == if p.kind == c.kind && p.size == c.size
                && p.modified_unix_seconds == c.modified_unix_seconds && text_of(p.target_path)
                == text_of(c.target_path) && p.target_exists == c.target_exists {
                None
            } else {
                Some((ChangeKind::Modified, c))
            }
        }),
{
    lemma_last_with_key(previous, key);
    lemma_last_with_key(current, key);
}

/// A shortcut whose target was read keeps that target and whether it
/// exists, also when it does not exist; a shortcut whose target was not
/// read, and any other entry, records neither.
pub proof fn law_shortcut_keeps_its_target(
    item: DesktopItem,
    root: DesktopRoot,
    relative_path: Seq<char>,
    kind: DesktopItemKind,
    is_file: bool,
    length: u64,
    modified: Option<u64>,
    target: Option<(String, bool)>,
)
    requires
        scanned_item(item, root, relative_path, kind, is_file, length, modified, target),
    ensures
        kind == DesktopItemKind::Shortcut && target is Some ==> item.target_path == Some(
            target.unwrap().0,
        ) && item.target_exists == Some(target.unwrap().1),
        kind != DesktopItemKind::Shortcut || target is None ==> item.target_path is None
            && item.target_exists is None,
{
}

/// Trimming removes exactly the Unicode `White_Space` characters (code
/// points 9 to 13, 32, 0x85, 0xA0, 0x1680, 0x2000 to 0x200A, 0x2028, 0x2029,
/// 0x202F, 0x205F and 0x3000): a text of one such character trims to
/// nothing, and any other character is kept.
pub proof fn law_trim_removes_unicode_white_space(c: char)
    ensures
        ({
            let u = c as u32;
            trim(seq![c]).len() == 0 <==> (9 <= u <= 13 || u == 32 || u == 0x85 || u == 0xA0 || u
                == 0x1680 || 0x2000 <= u <= 0x200A || u == 0x2028 || u == 0x2029 || u == 0x202F || u
                == 0x205F || u == 0x3000)
        }),
        trim(seq![c]).len() != 0 ==> trim(seq![c]) == seq![c],
{
    let s = seq![c];
    assert(s.drop_first() =~= Seq::<char>::empty());
    assert(s.drop_last() =~= Seq::<char>::empty());
    assert(trim_start(Seq::<char>::empty()) == Seq::<char>::empty());
    assert(trim_end(Seq::<char>::empty()) == Seq::<char>::empty());
    if is_white_space(c) {
        assert(trim_start(s) == Seq::<char>::empty());
    } else {
        assert(trim_start(s) == s);
        assert(s.last() == c);
        assert(trim_end(s) == s);
    }
}

proof fn lemma_trim_start_white(w: Seq<char>)
    requires
        forall|i: int| 0 <= i < w.len() ==> is_white_space(#[trigger] w[i]),
    ensures
        trim_start(w).len() == 0,
    decreases w.len(),
{
    if w.len() > 0 {
        lemma_trim_start_white(w.drop_first());
    }
}

proof fn lemma_trim_end_appended_white(x: Seq<char>, w: Seq<char>)
    requires
        forall|i: int| 0 <= i < w.len() ==> is_white_space(#[trigger] w[i]),
    ensures
        trim_end(x + w) == trim_end(x),
    decreases w.len(),
{
    if w.len() > 0 {
        assert((x + w).last() == w.last());
        assert((x + w).drop_last() =~= x + w.drop_last());
        lemma_trim_end_appended_white(x, w.drop_last());
    } else {
        assert(x + w =~= x);
    }
}

proof fn lemma_trim_start_appended(s: Seq<char>, w: Seq<char>)
    ensures
        trim_start(s).len() > 0 ==> trim_start(s + w) == trim_start(s) + w,
        trim_start(s).len() == 0 ==> trim_start(s + w) == trim_start(w),
    decreases s.len(),
{
    if s.len() > 0 {
        assert((s + w)[0] == s[0]);
        assert((s + w).drop_first() =~= s.drop_first() + w);
        lemma_trim_start_appended(s.drop_first(), w);
    } else {
        assert(s + w =~= w);
    }
}

/// Whitespace after a text does not change it once trimmed.
proof fn lemma_trim_appended_white(s: Seq<char>, w: Seq<char>)
    requires
        forall|i: int| 0 <= i < w.len() ==> is_white_space(#[trigger] w[i]),
    ensures
        trim(s + w) == trim(s),
{
    lemma_trim_start_appended(s, w);
    if trim_start(s).len() > 0 {
        lemma_trim_end_appended_white(trim_start(s), w);
    } else {
        lemma_trim_start_white(w);
        assert(trim_start(s) =~= Seq::<char>::empty());
    }
}

/// The line end that a Windows console hands back with an answer, `\r\n`,
/// changes neither the trimmed text nor whether the answer confirms.
pub proof fn law_line_end_is_ignored(answer: Seq<char>)
    ensures
        trim(answer + seq!['\r', '\n']) == trim(answer),
        confirms(answer + seq!['\r', '\n']) == confirms(answer),
{
    let w = seq!['\r', '\n'];
    assert(is_white_space(w[0]) && is_white_space(w[1]));
    lemma_trim_appended_white(answer, w);
}

/// The latest snapshot is the first of the listing: once the snapshots are
/// in listing order, a snapshot that none precedes has the id of the first.
pub proof fn law_latest_is_first_listed(snapshots: Seq<SnapshotSummary>, i: int)
    requires
        in_listing_order(snapshots),
        0 <= i < snapshots.len(),
        forall|j: int| 0 <= j < snapshots.len() ==> !listed_before(#[trigger] snapshots[j], snapshots[i]),
    ensures
        snapshots[i].id@ == snapshots[0].id@,
{
    lemma_listed_before_order(snapshots[0], snapshots[i], snapshots[0]);
    if i > 0 {
        assert(!listed_before(snapshots[i], snapshots[0]));
    }
}

/// Of two snapshots created in the same second, the one created second gets
/// a different id and is listed first, so it is the latest: its id is the
/// first candidate free once the first snapshot's id is taken too.
pub proof fn law_later_snapshot_listed_first(
    first: SnapshotSummary,
    second: SnapshotSummary,
    taken: Seq<Seq<char>>,
    taken_after: Seq<Seq<char>>,
)
    requires
        first.created_unix_seconds == second.created_unix_seconds,
        is_next_snapshot_id(first.created_unix_seconds, taken, first.id@),
        is_next_snapshot_id(second.created_unix_seconds, taken_after, second.id@),
        taken_after.contains(first.id@),
        forall|t: Seq<char>| taken.contains(t) ==> taken_after.contains(t),
    ensures
        second.id@ != first.id@,
        listed_before(second, first),
{
    let created = first.created_unix_seconds;
    let n1 = choose|n: nat|
        #![trigger id_candidate(created, n)]
        1 <= n && first.id@ == id_candidate(created, n) && forall|m: nat|
            1 <= m < n ==> taken.contains(#[trigger] id_candidate(created, m));
    let n2 = choose|n: nat|
        #![trigger id_candidate(created, n)]
        1 <= n && second.id@ == id_candidate(created, n) && forall|m: nat|
            1 <= m < n ==> taken_after.contains(#[trigger] id_candidate(created, m));
    if n2 < n1 {
        assert(taken.contains(id_candidate(created, n2)));
    }
    assert(n1 < n2);
    lemma_later_candidate_is_later(created, n1, n2);
}

proof fn lemma_trim_start_no_leading(s: Seq<char>)
    ensures
        trim_start(s).len() > 0 ==> !is_white_space(trim_start(s)[0]),
        trim_end(trim_start(s)) == trim_start(trim_end(trim_start(s))),
    decreases s.len(),
{
    if s.len() > 0 && is_white_space(s[0]) {
        lemma_trim_start_no_leading(s.drop_first());
    } else {
        lemma_trim_end_keeps_start(s);
    }
}

proof fn lemma_trim_end_keeps_start(s: Seq<char>)
    requires
        s.len() == 0 || !is_white_space(s[0]),
    ensures
        trim_end(s) == trim_start(trim_end(s)),
        trim_end(s).len() == 0 || trim_end(s)[0] == s[0],
    decreases s.len(),
{
    if s.len() > 0 && is_white_space(s.last()) {
        if s.len() > 1 {
            assert(s.drop_last()[0] == s[0]);
        }
        lemma_trim_end_keeps_start(s.drop_last());
    }
}

proof fn lemma_trim_end_idempotent(s: Seq<char>)
    ensures
        trim_end(trim_end(s)) == trim_end(s),
    decreases s.len(),
{
    if s.len() > 0 && is_white_space(s.last()) {
        lemma_trim_end_idempotent(s.drop_last());
    }
}

/// Trimming twice is trimming once, so a title that was accepted and
/// trimmed is accepted again unchanged.
pub proof fn law_trim_is_idempotent(title: Seq<char>)
    ensures
        trim(trim(title)) == trim(title),
        acceptable_title(title) ==> acceptable_title(trim(title)),
{
    lemma_trim_start_no_leading(title);
    let t = trim(title);
    assert(trim_start(t) == t);
    lemma_trim_end_idempotent(trim_start(title));
}

/// Without values, expansion leaves a text whose `%` signs are all paired
/// as written; a text with an unpaired `%` is not kept as written.
pub proof fn law_expansion_without_values(s: Seq<char>)
    ensures
        expand_env(s, seq![]) == s <==> percents_paired(s),
    decreases s.len(),
{
    let i = first_index(s, '%');
    if 0 <= i < s.len() {
        let after = s.skip(i + 1);
        let j = first_index(after, '%');
        if 0 <= j < after.len() {
            let rest = after.skip(j + 1);
            law_expansion_without_values(rest);
            lemma_first_index_facts(s, '%');
            lemma_first_index_facts(after, '%');
            let head = s.take(i) + (seq!['%'] + after.take(j) + seq!['%']);
            assert(s =~= head + rest);
            assert(expand_env(s, seq![]) == head + expand_env(rest, seq![]));
            if expand_env(s, seq![]) == s {
                assert((head + expand_env(rest, seq![])).skip(head.len() as int) =~= expand_env(
                    rest,
                    seq![],
                ));
                assert((head + rest).skip(head.len() as int) =~= rest);
            }
        } else {
            assert((s + s).len() != s.len());
        }
    }
}

proof fn lemma_first_index_facts(s: Seq<char>, c: char)
    ensures
        -1 <= first_index(s, c) < s.len(),
        first_index(s, c) >= 0 ==> s[first_index(s, c)] == c,
    decreases s.len(),
{
    if s.len() > 0 && s[0] != c {
        lemma_first_index_facts(s.drop_first(), c);
    }
}

/// Expansion uses one value per reference: values beyond the references
/// play no part.
pub proof fn law_expansion_uses_one_value_per_reference(
    s: Seq<char>,
    values: Seq<Option<Seq<char>>>,
    extra: Seq<Option<Seq<char>>>,
)
    requires
        values.len() == env_references(s).len(),
    ensures
        expand_env(s, values + extra) == expand_env(s, values),
    decreases s.len(),
{
    let i = first_index(s, '%');
    if 0 <= i < s.len() {
        let after = s.skip(i + 1);
        let j = first_index(after, '%');
        if 0 <= j < after.len() {
            assert((values + extra).drop_first() =~= values.drop_first() + extra);
            law_expansion_uses_one_value_per_reference(after.skip(j + 1), values.drop_first(), extra);
        }
    }
}

} // verus!
