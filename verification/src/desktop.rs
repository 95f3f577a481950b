//! The data model of a desktop: its items, their layout, and the comparison
//! of two scans of it.

use vstd::prelude::*;
use crate::text::{compare_text, lemma_text_lt_order, text_lt, Rank};

verus! {

/// Which desktop an item lives on.
#[derive(Debug, Clone, Copy, PartialEq, Eq, Structural, PartialOrd, Ord, Hash)]
pub enum DesktopRoot {
    User,
    Public,
}

/// The name under which a desktop root is stored.
pub open spec fn root_name(root: DesktopRoot) -> Seq<char> {
    match root {
        DesktopRoot::User => "user"@,
        DesktopRoot::Public => "public"@,
    }
}

/// The position of a root in the order of roots: the user desktop first.
pub open spec fn root_rank(root: DesktopRoot) -> int {
    match root {
        DesktopRoot::User => 0,
        DesktopRoot::Public => 1,
    }
}

impl DesktopRoot {
    pub fn as_str(self) -> (name: &'static str)
        ensures
            name@ == root_name(self),
    {
        match self {
            DesktopRoot::User => "user",
            DesktopRoot::Public => "public",
        }
    }
}

/// What kind of thing a desktop item is.
#[derive(Debug, Clone, Copy, PartialEq, Eq, Structural)]
pub enum DesktopItemKind {
    File,
    Directory,
    Shortcut,
    Url,
    Other,
}

/// The name under which an item kind is reported.
pub open spec fn kind_name(kind: DesktopItemKind) -> Seq<char> {
    match kind {
        DesktopItemKind::File => "file"@,
        DesktopItemKind::Directory => "directory"@,
        DesktopItemKind::Shortcut => "shortcut"@,
        DesktopItemKind::Url => "url"@,
        DesktopItemKind::Other => "other"@,
    }
}

impl DesktopItemKind {
    pub fn as_str(self) -> (name: &'static str)
        ensures
            name@ == kind_name(self),
    {
        match self {
            DesktopItemKind::File => "file",
            DesktopItemKind::Directory => "directory",
            DesktopItemKind::Shortcut => "shortcut",
            DesktopItemKind::Url => "url",
            DesktopItemKind::Other => "other",
        }
    }
}

/// One entry of a desktop, as a scan records it.
#[derive(Debug, PartialEq, Eq)]
pub struct DesktopItem {
    pub root: DesktopRoot,
    pub relative_path: String,
    pub kind: DesktopItemKind,
    pub size: u64,
    pub modified_unix_seconds: i64,
    pub target_path: Option<String>,
    pub target_exists: Option<bool>,
    pub content_backed_up: bool,
}

impl Clone for DesktopItem {
    fn clone(&self) -> (copy: Self)
        ensures
            copy == *self,
    {
        DesktopItem {
            root: self.root,
            relative_path: self.relative_path.clone(),
            kind: self.kind,
            size: self.size,
            modified_unix_seconds: self.modified_unix_seconds,
            target_path: self.target_path.clone(),
            target_exists: self.target_exists,
            content_backed_up: self.content_backed_up,
        }
    }
}

/// The icon layout of the desktop and the monitors it was taken on.
#[derive(Debug, Clone, PartialEq, Eq)]
pub struct DesktopLayout {
    pub monitors: Vec<MonitorLayout>,
    pub icons: Vec<IconPosition>,
    pub auto_arrange: Option<bool>,
}

/// The bounds of one monitor.
#[derive(Debug, Clone, PartialEq, Eq)]
pub struct MonitorLayout {
    pub device_name: String,
    pub left: i32,
    pub top: i32,
    pub right: i32,
    pub bottom: i32,
    pub primary: bool,
}

/// Where the icon of one desktop item stands.
#[derive(Debug, PartialEq, Eq)]
pub struct IconPosition {
    pub root: DesktopRoot,
    pub relative_path: String,
    pub x: i32,
    pub y: i32,
}

impl Clone for IconPosition {
    fn clone(&self) -> (copy: Self)
        ensures
            copy == *self,
    {
        IconPosition {
            root: self.root,
            relative_path: self.relative_path.clone(),
            x: self.x,
            y: self.y,
        }
    }
}

/// The identity of an item across scans: its desktop and its relative path.
pub type ItemKey = (DesktopRoot, Seq<char>);

pub open spec fn item_key(item: DesktopItem) -> ItemKey {
    (item.root, item.relative_path@)
}

/// The order of keys: by root, then by the UTF-8 bytes of the path.
pub open spec fn key_lt(a: ItemKey, b: ItemKey) -> bool {
    root_rank(a.0) < root_rank(b.0) || (a.0 == b.0 && text_lt(a.1, b.1))
}

/// The key order is a strict total order.
pub proof fn lemma_key_order(a: ItemKey, b: ItemKey, c: ItemKey)
    ensures
        !key_lt(a, a),
        !(key_lt(a, b) && key_lt(b, a)),
        key_lt(a, b) && key_lt(b, c) ==> key_lt(a, c),
        a == b || key_lt(a, b) || key_lt(b, a),
{
    lemma_text_lt_order(a.1, b.1, c.1);
    lemma_text_lt_order(a.1, a.1, a.1);
}

/// Not preceding is transitive too.
pub proof fn lemma_key_not_lt_transitive(a: ItemKey, b: ItemKey, c: ItemKey)
    ensures
        !key_lt(a, b) && !key_lt(b, c) ==> !key_lt(a, c),
{
    lemma_key_order(a, b, c);
    lemma_key_order(b, a, c);
    lemma_key_order(c, a, b);
    lemma_key_order(a, c, b);
    lemma_key_order(b, c, a);
    lemma_key_order(c, b, a);
}

pub open spec fn text_of(value: Option<String>) -> Option<Seq<char>> {
    match value {
        Some(s) => Some(s@),
        None => None,
    }
}

/// Two records describe the same state of the desktop: every field but
/// whether the content was backed up agrees.
pub open spec fn same_state(a: DesktopItem, b: DesktopItem) -> bool {
    &&& a.root == b.root
    &&& a.relative_path@ == b.relative_path@
    &&& a.kind == b.kind
    &&& a.size == b.size
    &&& a.modified_unix_seconds == b.modified_unix_seconds
    &&& text_of(a.target_path) == text_of(b.target_path)
    &&& a.target_exists == b.target_exists
}

fn same_text_option(a: &Option<String>, b: &Option<String>) -> (same: bool)
    ensures
        same == (text_of(*a) == text_of(*b)),
{
    match (a, b) {
        (Some(x), Some(y)) => *x == *y,
        (None, None) => true,
        _ => false,
    }
}

fn same_flag_option(a: Option<bool>, b: Option<bool>) -> (same: bool)
    ensures
        same == (a == b),
{
    match (a, b) {
        (Some(x), Some(y)) => x == y,
        (None, None) => true,
        _ => false,
    }
}

impl DesktopItem {
    pub fn key(&self) -> (key: (DesktopRoot, &str))
        ensures
            key.0 == self.root,
            key.1@ == self.relative_path@,
    {
        (self.root, self.relative_path.as_str())
    }

    pub fn same_desktop_state(&self, other: &Self) -> (same: bool)
        ensures
            same == same_state(*self, *other),
            same ==> self.target_exists == other.target_exists,
            same ==> text_of(self.target_path) == text_of(other.target_path),
            same ==> self.kind == other.kind && self.size == other.size
                && self.modified_unix_seconds == other.modified_unix_seconds,
    {
        self.root == other.root && self.relative_path == other.relative_path && self.kind
            == other.kind && self.size == other.size && self.modified_unix_seconds
            == other.modified_unix_seconds && same_text_option(
            &self.target_path,
            &other.target_path,
        ) && same_flag_option(self.target_exists, other.target_exists)
    }
}

/// How an item differs between two scans.
#[derive(Debug, Clone, Copy, PartialEq, Eq, Structural)]
pub enum ChangeKind {
    Added,
    Removed,
    Modified,
}

/// One difference between two scans, with the item it concerns.
#[derive(Debug, Clone, PartialEq, Eq)]
pub struct DesktopChange<'a> {
    pub kind: ChangeKind,
    pub item: &'a DesktopItem,
}


/// The index of the last item with the given key, or -1 when none has it.
pub open spec fn last_with_key(items: Seq<DesktopItem>, key: ItemKey) -> int
    decreases items.len(),
{
    if items.len() == 0 {
        -1
    } else if item_key(items.last()) == key {
        items.len() - 1
    } else {
        last_with_key(items.drop_last(), key)
    }
}

/// What `last_with_key` finds: an index in range holding the key with no
/// later index holding it, or -1 when no item holds the key.
pub proof fn lemma_last_with_key(items: Seq<DesktopItem>, key: ItemKey)
    ensures
        -1 <= last_with_key(items, key) < items.len(),
        last_with_key(items, key) >= 0 ==> item_key(items[last_with_key(items, key)]) == key,
        forall|j: int|
            last_with_key(items, key) < j < items.len() ==> item_key(#[trigger] items[j]) != key,
    decreases items.len(),
{
    if items.len() > 0 && item_key(items.last()) != key {
        lemma_last_with_key(items.drop_last(), key);
        assert forall|j: int| last_with_key(items, key) < j < items.len() implies item_key(
            #[trigger] items[j],
        ) != key by {
            if j < items.len() - 1 {
                assert(items[j] == items.drop_last()[j]);
            }
        }
    }
}

/// The index that holds the key with no later index holding it is the one
/// `last_with_key` gives.
pub proof fn lemma_last_with_key_is(items: Seq<DesktopItem>, key: ItemKey, j: int)
    requires
        -1 <= j < items.len(),
        j >= 0 ==> item_key(items[j]) == key,
        forall|l: int| j < l < items.len() ==> item_key(#[trigger] items[l]) != key,
    ensures
        last_with_key(items, key) == j,
    decreases items.len(),
{
    if items.len() > 0 && j < items.len() - 1 {
        assert(item_key(items[items.len() - 1]) != key);
        assert forall|l: int| j < l < items.drop_last().len() implies item_key(
            #[trigger] items.drop_last()[l],
        ) != key by {
            assert(items.drop_last()[l] == items[l]);
        }
        lemma_last_with_key_is(items.drop_last(), key, j);
    }
}

/// The change that comparing two scans reports for one key: the last record
/// of the key on each side decides.
pub open spec fn expected_change(
    previous: Seq<DesktopItem>,
    current: Seq<DesktopItem>,
    key: ItemKey,
) -> Option<(ChangeKind, DesktopItem)> {
    let p = last_with_key(previous, key);
    let c = last_with_key(current, key);
    if p < 0 && c < 0 {
        None
    } else if p < 0 {
        Some((ChangeKind::Added, current[c]))
    } else if c < 0 {
        Some((ChangeKind::Removed, previous[p]))
    } else if same_state(previous[p], current[c]) {
        None
    } else {
        Some((ChangeKind::Modified, current[c]))
    }
}

/// The items are in strictly increasing key order.
pub open spec fn keys_sorted(items: Seq<&DesktopItem>) -> bool {
    forall|i: int, j: int|
        0 <= i < j < items.len() ==> key_lt(item_key(*#[trigger] items[i]), item_key(*#[trigger] items[j]))
}

pub open spec fn keys_contain(items: Seq<&DesktopItem>, key: ItemKey) -> bool {
    exists|i: int| 0 <= i < items.len() && item_key(*#[trigger] items[i]) == key
}

pub open spec fn prefix_has_key(items: Seq<DesktopItem>, n: int, key: ItemKey) -> bool {
    exists|i: int| 0 <= i < n && item_key(#[trigger] items[i]) == key
}

fn root_position(root: DesktopRoot) -> (position: u8)
    ensures
        position == root_rank(root),
{
    match root {
        DesktopRoot::User => 0,
        DesktopRoot::Public => 1,
    }
}

/// Compares the keys of two items.
fn key_order(a: &DesktopItem, b: &DesktopItem) -> (rank: Rank)
    ensures
        rank == Rank::Before <==> key_lt(item_key(*a), item_key(*b)),
        rank == Rank::Same <==> item_key(*a) == item_key(*b),
        rank == Rank::After <==> key_lt(item_key(*b), item_key(*a)),
{
    proof {
        lemma_key_order(item_key(*a), item_key(*b), item_key(*a));
    }
    let ra = root_position(a.root);
    let rb = root_position(b.root);
    if ra < rb {
        Rank::Before
    } else if ra > rb {
        Rank::After
    } else {
        compare_text(a.relative_path.as_str(), b.relative_path.as_str())
    }
}

/// The index of the last item that has the key of `probe`.
fn find_last(items: &[DesktopItem], probe: &DesktopItem) -> (found: Option<usize>)
    ensures
        match found {
            Some(i) => i as int == last_with_key(items@, item_key(*probe)),
            None => last_with_key(items@, item_key(*probe)) == -1,
        },
{
    let mut i = items.len();
    while i > 0
        invariant
            i <= items.len(),
            forall|l: int| i <= l < items.len() ==> item_key(#[trigger] items@[l]) != item_key(*probe),
        decreases i,
    {
        let rank = key_order(&items[i - 1], probe);
        if rank == Rank::Same {
            proof {
                lemma_last_with_key_is(items@, item_key(*probe), i - 1);
            }
            return Some(i - 1);
        }
        i = i - 1;
    }
    proof {
        lemma_last_with_key_is(items@, item_key(*probe), -1);
    }
    None
}

/// Inserts the key of `item` into a strictly sorted list of keys, unless it
/// is there already.
fn insert_key<'a>(keys: &mut Vec<&'a DesktopItem>, item: &'a DesktopItem)
    requires
        keys_sorted(old(keys)@),
    ensures
        keys_sorted(final(keys)@),
        forall|k: ItemKey|
            keys_contain(final(keys)@, k) <==> (keys_contain(old(keys)@, k) || k == item_key(*item)),
{
    let mut pos: usize = 0;
    while pos < keys.len() && key_order(keys[pos], item) == Rank::Before
        invariant
            pos <= keys.len(),
            keys_sorted(keys@),
            forall|j: int| 0 <= j < pos ==> key_lt(item_key(*#[trigger] keys@[j]), item_key(*item)),
        decreases keys.len() - pos,
    {
        pos = pos + 1;
    }
    if pos < keys.len() && key_order(keys[pos], item) == Rank::Same {
        return;
    }
    let ghost before = keys@;
    proof {
        assert forall|j: int| pos <= j < before.len() implies key_lt(
            item_key(*item),
            item_key(*#[trigger] before[j]),
        ) by {
            lemma_key_order(item_key(*before[pos as int]), item_key(*item), item_key(*before[pos as int]));
            if j > pos {
                lemma_key_order(item_key(*item), item_key(*before[pos as int]), item_key(*before[j]));
            }
        }
    }
    keys.insert(pos, item);
    proof {
        let after = keys@;
        assert(after =~= before.insert(pos as int, item));
        assert forall|i: int, j: int| 0 <= i < j < after.len() implies key_lt(
            item_key(*#[trigger] after[i]),
            item_key(*#[trigger] after[j]),
        ) by {
            if j < pos {
                assert(after[i] == before[i]);
                assert(after[j] == before[j]);
            } else if i < pos && j == pos {
                assert(after[i] == before[i]);
            } else if i < pos && j > pos {
                assert(after[i] == before[i]);
                assert(after[j] == before[j - 1]);
            } else if i == pos {
                assert(after[j] == before[j - 1]);
            } else {
                assert(after[i] == before[i - 1]);
                assert(after[j] == before[j - 1]);
            }
        }
        assert forall|k: ItemKey| keys_contain(after, k) <==> (keys_contain(before, k) || k
            == item_key(*item)) by {
            if keys_contain(after, k) {
                let i = choose|i: int| 0 <= i < after.len() && item_key(*#[trigger] after[i]) == k;
                if i < pos {
                    assert(after[i] == before[i]);
                } else if i > pos {
                    assert(after[i] == before[i - 1]);
                }
            }
            if keys_contain(before, k) {
                let i = choose|i: int| 0 <= i < before.len() && item_key(*#[trigger] before[i]) == k;
                if i < pos {
                    assert(after[i] == before[i]);
                } else {
                    assert(after[i + 1] == before[i]);
                }
            }
            if k == item_key(*item) {
                assert(after[pos as int] == item);
            }
        }
    }
}

/// All the keys of `items` in `keys`, in increasing order, each once.
fn collect_keys<'a>(keys: &mut Vec<&'a DesktopItem>, items: &'a [DesktopItem])
    requires
        keys_sorted(old(keys)@),
    ensures
        keys_sorted(final(keys)@),
        forall|k: ItemKey|
            keys_contain(final(keys)@, k) <==> (keys_contain(old(keys)@, k) || prefix_has_key(
                items@,
                items@.len() as int,
                k,
            )),
{
    let mut i: usize = 0;
    while i < items.len()
        invariant
            i <= items.len(),
            keys_sorted(keys@),
            forall|k: ItemKey|
                keys_contain(keys@, k) <==> (keys_contain(old(keys)@, k) || prefix_has_key(
                    items@,
                    i as int,
                    k,
                )),
        decreases items.len() - i,
    {
        let ghost before = keys@;
        insert_key(keys, &items[i]);
        proof {
            assert forall|k: ItemKey| keys_contain(keys@, k) <==> (keys_contain(old(keys)@, k)
                || prefix_has_key(items@, i + 1, k)) by {
                if prefix_has_key(items@, i + 1, k) && !prefix_has_key(items@, i as int, k) {
                    let j = choose|j: int| 0 <= j < i + 1 && item_key(#[trigger] items@[j]) == k;
                    assert(j == i);
                }
                if k == item_key(items@[i as int]) {
                    assert(prefix_has_key(items@, i + 1, k));
                }
                if prefix_has_key(items@, i as int, k) {
                    let j = choose|j: int| 0 <= j < i && item_key(#[trigger] items@[j]) == k;
                    assert(prefix_has_key(items@, i + 1, k));
                }
                assert(keys_contain(before, k) <==> (keys_contain(old(keys)@, k) || prefix_has_key(
                    items@,
                    i as int,
                    k,
                )));
            }
        }
        i = i + 1;
    }
}

/// `changes` is what comparing the scan `previous` with the scan `current`
/// reports: in strictly increasing key order, each key whose records
/// differ, with the change `expected_change` gives for it, and every such
/// key.
pub open spec fn reports_changes<'a>(
    previous: Seq<DesktopItem>,
    current: Seq<DesktopItem>,
    changes: Seq<DesktopChange<'a>>,
) -> bool {
    &&& forall|i: int, j: int|
        0 <= i < j < changes.len() ==> key_lt(
            item_key(*(#[trigger] changes[i]).item),
            item_key(*(#[trigger] changes[j]).item),
        )
    &&& forall|i: int|
        0 <= i < changes.len() ==> expected_change(
            previous,
            current,
            item_key(*(#[trigger] changes[i]).item),
        ) == Some(((changes[i]).kind, *(changes[i]).item))
    &&& forall|k: ItemKey|
        (#[trigger] expected_change(previous, current, k)) is Some ==> exists|i: int|
            0 <= i < changes.len() && item_key(*(#[trigger] changes[i]).item) == k
}

/// Compares two scans of the desktop. An item is matched across the scans by
/// its key; where a scan holds a key more than once, its last record counts.
/// The result reports, in increasing key order, each key that only the
/// current scan holds (added), each key that only the previous scan holds
/// (removed), and each key whose two records describe different states
/// (modified, with the current record).
pub fn compare_snapshots<'a>(
    previous: &'a [DesktopItem],
    current: &'a [DesktopItem],
) -> (changes: Vec<DesktopChange<'a>>)
    ensures
        reports_changes(previous@, current@, changes@),
        previous@ == current@ ==> changes.len() == 0,
{
    let mut keys: Vec<&'a DesktopItem> = Vec::new();
    collect_keys(&mut keys, previous);
    collect_keys(&mut keys, current);
    let mut changes: Vec<DesktopChange<'a>> = Vec::new();
    let ghost mut origin: Seq<int> = Seq::empty();
    let mut idx: usize = 0;
    while idx < keys.len()
        invariant
            idx <= keys.len(),
            keys_sorted(keys@),
            forall|k: ItemKey|
                keys_contain(keys@, k) <==> (prefix_has_key(previous@, previous@.len() as int, k)
                    || prefix_has_key(current@, current@.len() as int, k)),
            changes.len() == origin.len(),
            forall|r: int| 0 <= r < origin.len() ==> 0 <= #[trigger] origin[r] < idx,
            forall|r1: int, r2: int|
                0 <= r1 < r2 < origin.len() ==> #[trigger] origin[r1] < #[trigger] origin[r2],
            forall|r: int|
                0 <= r < origin.len() ==> item_key(*(#[trigger] changes@[r]).item) == item_key(
                    *keys@[origin[r]],
                ),
            forall|r: int|
                0 <= r < changes.len() ==> expected_change(
                    previous@,
                    current@,
                    item_key(*(#[trigger] changes@[r]).item),
                ) == Some(((changes@[r]).kind, *(changes@[r]).item)),
            forall|m: int|
                0 <= m < idx && expected_change(previous@, current@, item_key(*#[trigger] keys@[m]))
                    is Some ==> exists|r: int| 0 <= r < origin.len() && origin[r] == m,
        decreases keys.len() - idx,
    {
        let probe: &'a DesktopItem = keys[idx];
        let found_previous = find_last(previous, probe);
        let found_current = find_last(current, probe);
        proof {
            lemma_last_with_key(previous@, item_key(*probe));
            lemma_last_with_key(current@, item_key(*probe));
        }
        let ghost old_origin = origin;
        let ghost old_changes = changes@;
        let change: Option<DesktopChange<'a>> = match (found_previous, found_current) {
            (None, Some(c)) => Some(DesktopChange { kind: ChangeKind::Added, item: &current[c] }),
            (Some(p), None) => Some(DesktopChange { kind: ChangeKind::Removed, item: &previous[p] }),
            (Some(p), Some(c)) => {
                if previous[p].same_desktop_state(&current[c]) {
                    None
                } else {
                    Some(DesktopChange { kind: ChangeKind::Modified, item: &current[c] })
                }
            },
            (None, None) => None,
        };
        match change {
            Some(change) => {
                changes.push(change);
                proof {
                    origin = origin.push(idx as int);
                    assert(changes@[changes.len() - 1] == change);
                    assert forall|r: int| 0 <= r < changes.len() implies expected_change(
                        previous@,
                        current@,
                        item_key(*(#[trigger] changes@[r]).item),
                    ) == Some(((changes@[r]).kind, *(changes@[r]).item)) by {
                        if r < old_changes.len() {
                            assert(changes@[r] == old_changes[r]);
                        }
                    }
                    assert forall|r: int| 0 <= r < origin.len() implies item_key(
                        *(#[trigger] changes@[r]).item,
                    ) == item_key(*keys@[origin[r]]) by {
                        if r < old_changes.len() {
                            assert(changes@[r] == old_changes[r]);
                            assert(origin[r] == old_origin[r]);
                        }
                    }
                    assert forall|m: int|
                        0 <= m < idx + 1 && expected_change(
                            previous@,
                            current@,
                            item_key(*#[trigger] keys@[m]),
                        ) is Some implies exists|r: int| 0 <= r < origin.len() && origin[r] == m by {
                        if m < idx {
                            let r = choose|r: int| 0 <= r < old_origin.len() && old_origin[r] == m;
                            assert(origin[r] == old_origin[r]);
                        } else {
                            assert(origin[origin.len() - 1] == m);
                        }
                    }
                }
            },
            None => {
                proof {
                    assert(expected_change(previous@, current@, item_key(*keys@[idx as int]))
                        is None);
                }
            },
        }
        idx = idx + 1;
    }
    proof {
        assert forall|i: int, j: int| 0 <= i < j < changes.len() implies key_lt(
            item_key(*(#[trigger] changes@[i]).item),
            item_key(*(#[trigger] changes@[j]).item),
        ) by {
            assert(origin[i] < origin[j]);
        }
        assert forall|k: ItemKey|
            (#[trigger] expected_change(previous@, current@, k)) is Some implies exists|i: int|
                0 <= i < changes.len() && item_key(*(#[trigger] changes@[i]).item) == k by {
            lemma_last_with_key(previous@, k);
            lemma_last_with_key(current@, k);
            let p = last_with_key(previous@, k);
            let c = last_with_key(current@, k);
            if p >= 0 {
                assert(prefix_has_key(previous@, previous@.len() as int, k));
            } else {
                assert(prefix_has_key(current@, current@.len() as int, k));
            }
            assert(keys_contain(keys@, k));
            let m = choose|m: int| 0 <= m < keys@.len() && item_key(*#[trigger] keys@[m]) == k;
            assert(expected_change(previous@, current@, item_key(*keys@[m])) is Some);
            let r = choose|r: int| 0 <= r < origin.len() && origin[r] == m;
            assert(item_key(*changes@[r].item) == k);
        }
        if previous@ == current@ && changes.len() > 0 {
            let k = item_key(*changes@[0].item);
            assert(expected_change(previous@, current@, k) is Some);
        }
    }
    changes
}

} // verus!
