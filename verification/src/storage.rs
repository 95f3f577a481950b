//! The bookkeeping of the snapshot store: snapshot ids, manifests and their
//! summaries, and the order in which snapshots are listed.

use std::path::PathBuf;
use vstd::prelude::*;
use vstd::seq_lib::*;
use vstd::set_lib::*;
use vstd::utf8::*;
use crate::desktop::{DesktopItem, DesktopLayout};
use crate::text::{
    compare_text, decimal, lemma_bytes_lt_at, lemma_decimal_digits, lemma_decimal_first_difference,
    lemma_decimal_injective, lemma_decimal_len_monotone, lemma_text_lt_order, rearranges,
    push_decimal, push_signed_decimal, signed_decimal, text_lt, trim, trimmed, Rank,
};

verus! {

broadcast use vstd::string::group_string_axioms;

#[verifier::external_type_specification]
#[verifier::external_body]
pub struct ExPathBuf(PathBuf);

/// `PathBuf::clone`: a copy of the path, equal to it.
pub assume_specification[ <PathBuf as Clone>::clone ](path: &PathBuf) -> (copy: PathBuf)
    ensures
        copy == *path,
;

/// What `Path::join` gives for the path `base` and the segment `segment`:
/// `base` with `segment` adjoined (or `segment` alone where it is absolute).
/// The separator is the one of the target the program is built for, fixed
/// when it is compiled, so the result is a function of the two arguments.
pub uninterp spec fn joined_path(base: PathBuf, segment: Seq<char>) -> PathBuf;

/// `Path::join`: its result is `joined_path` of the base and the segment.
#[verifier::external_body]
pub(crate) fn join_path(base: &PathBuf, segment: &str) -> (path: PathBuf)
    ensures
        path == joined_path(*base, segment@),
{
    base.join(segment)
}

/// Why the store refuses a request about a snapshot.
#[derive(Debug)]
pub enum StorageError {
    SnapshotNotFound(String),
}

/// The stored record of one snapshot.
#[derive(Debug)]
pub struct SnapshotManifest {
    pub schema_version: u32,
    pub id: String,
    pub title: String,
    pub created_unix_seconds: i64,
    pub item_count: usize,
    pub items: Vec<DesktopItem>,
    pub layout: Option<DesktopLayout>,
    pub screenshots: Vec<String>,
}

/// What a listing shows of one snapshot.
#[derive(Debug)]
pub struct SnapshotSummary {
    pub id: String,
    pub title: String,
    pub created_unix_seconds: i64,
    pub item_count: usize,
}

/// The texts of a list of strings.
pub open spec fn texts(strings: Seq<String>) -> Seq<Seq<char>> {
    strings.map_values(|s: String| s@)
}

/// A snapshot id is safe to use as a directory name when it is not empty
/// and every byte of it is an ASCII digit or `-`.
pub open spec fn safe_id(id: Seq<char>) -> bool {
    &&& id.len() > 0
    &&& forall|i: int|
        0 <= i < encode_utf8(id).len() ==> (48 <= #[trigger] encode_utf8(id)[i] <= 57
            || encode_utf8(id)[i] == 45)
}

pub fn is_safe_snapshot_id(snapshot_id: &str) -> (safe: bool)
    ensures
        safe == safe_id(snapshot_id@),
{
    if snapshot_id.is_empty() {
        return false;
    }
    let bytes = snapshot_id.as_bytes();
    let mut i: usize = 0;
    while i < bytes.len()
        invariant
            i <= bytes.len(),
            bytes@ == encode_utf8(snapshot_id@),
            forall|j: int| 0 <= j < i ==> (48 <= #[trigger] bytes@[j] <= 57 || bytes@[j] == 45),
        decreases bytes.len() - i,
    {
        let byte = bytes[i];
        if !((48u8 <= byte && byte <= 57u8) || byte == 45u8) {
            return false;
        }
        i = i + 1;
    }
    true
}

/// The `n`-th name tried for a snapshot taken at `created`: the timestamp
/// itself first, then the timestamp followed by `-2`, `-3`, and so on.
pub open spec fn id_candidate(created: i64, n: nat) -> Seq<char> {
    if n < 2 {
        signed_decimal(created as int)
    } else {
        signed_decimal(created as int) + seq!['-'] + decimal(n)
    }
}

/// `id` is the first candidate name for a snapshot taken at `created` that
/// no existing entry of the store has.
pub open spec fn is_next_snapshot_id(created: i64, taken: Seq<Seq<char>>, id: Seq<char>) -> bool {
    &&& !taken.contains(id)
    &&& exists|n: nat|
        #![trigger id_candidate(created, n)]
        1 <= n && id == id_candidate(created, n) && forall|m: nat|
            1 <= m < n ==> taken.contains(#[trigger] id_candidate(created, m))
}

/// Distinct positions give distinct candidate names.
pub proof fn lemma_id_candidate_injective(created: i64, a: nat, b: nat)
    requires
        1 <= a,
        1 <= b,
        id_candidate(created, a) == id_candidate(created, b),
    ensures
        a == b,
{
    let base = signed_decimal(created as int);
    if a >= 2 && b >= 2 {
        assert(id_candidate(created, a).skip(base.len() as int + 1) =~= decimal(a));
        assert(id_candidate(created, b).skip(base.len() as int + 1) =~= decimal(b));
        lemma_decimal_injective(a, b);
    } else if a >= 2 || b >= 2 {
        lemma_decimal_digits(a);
        lemma_decimal_digits(b);
        assert(id_candidate(created, a).len() != id_candidate(created, b).len());
    }
}

/// When the first `n` candidates are all taken, at least `n` names are taken.
proof fn lemma_candidates_exhaust(created: i64, taken: Seq<Seq<char>>, n: nat)
    requires
        forall|m: nat| 1 <= m <= n ==> taken.contains(#[trigger] id_candidate(created, m)),
    ensures
        n <= taken.len(),
{
    let tried = Seq::new(n, |i: int| id_candidate(created, (i + 1) as nat));
    assert forall|i: int, j: int| 0 <= i < tried.len() && 0 <= j < tried.len() && i != j implies tried[i]
        != tried[j] by {
        if tried[i] == tried[j] {
            lemma_id_candidate_injective(created, (i + 1) as nat, (j + 1) as nat);
        }
    }
    assert(tried.no_duplicates());
    tried.unique_seq_to_set();
    taken.lemma_cardinality_of_set();
    assert forall|x: Seq<char>| tried.to_set().contains(x) implies taken.to_set().contains(x) by {
        let i = choose|i: int| 0 <= i < tried.len() && tried[i] == x;
        assert(taken.contains(id_candidate(created, (i + 1) as nat)));
    }
    seq_to_set_is_finite(taken);
    lemma_len_subset(tried.to_set(), taken.to_set());
}

fn contains_text(strings: &[String], text: &String) -> (found: bool)
    ensures
        found == texts(strings@).contains(text@),
{
    let mut i: usize = 0;
    while i < strings.len()
        invariant
            i <= strings.len(),
            forall|j: int| 0 <= j < i ==> strings@[j]@ != text@,
        decreases strings.len() - i,
    {
        if strings[i] == *text {
            proof {
                assert(texts(strings@)[i as int] == text@);
            }
            return true;
        }
        i = i + 1;
    }
    proof {
        if texts(strings@).contains(text@) {
            let j = choose|j: int| 0 <= j < texts(strings@).len() && texts(strings@)[j] == text@;
            assert(strings@[j]@ == text@);
        }
    }
    false
}

fn candidate_name(created: i64, n: u128) -> (name: String)
    requires
        n >= 1,
    ensures
        name@ == id_candidate(created, n as nat),
{
    let mut name = String::new();
    push_signed_decimal(&mut name, created);
    if n >= 2 {
        name.push('-');
        push_decimal(&mut name, n);
        proof {
            assert(name@ =~= id_candidate(created, n as nat));
        }
    } else {
        proof {
            assert(name@ =~= id_candidate(created, n as nat));
        }
    }
    name
}

/// The first candidate name for a snapshot taken at `created` that none of
/// the names in `taken` has.
pub fn next_snapshot_id(created_unix_seconds: i64, taken: &[String]) -> (id: String)
    ensures
        is_next_snapshot_id(created_unix_seconds, texts(taken@), id@),
{
    let ghost taken_texts = texts(taken@);
    let count = taken.len();
    let mut n: u128 = 1;
    loop
        invariant
            1 <= n <= taken@.len() + 1,
            count == taken@.len(),
            taken_texts == texts(taken@),
            forall|m: nat|
                1 <= m < n ==> taken_texts.contains(#[trigger] id_candidate(created_unix_seconds, m)),
        decreases taken@.len() + 1 - n,
    {
        let candidate = candidate_name(created_unix_seconds, n);
        if !contains_text(taken, &candidate) {
            proof {
                assert(id_candidate(created_unix_seconds, n as nat) == candidate@);
            }
            return candidate;
        }
        proof {
            lemma_candidates_exhaust(created_unix_seconds, taken_texts, n as nat);
            assert(taken_texts.len() == taken@.len());
            assert(n <= count);
        }
        n = n + 1;
    }
}

/// Every character of a candidate name is an ASCII digit or `-`.
proof fn lemma_id_candidate_chars(created: i64, n: nat)
    ensures
        forall|i: int|
            0 <= i < id_candidate(created, n).len() ==> ('0' <= #[trigger] id_candidate(
                created,
                n,
            )[i] <= '9' || id_candidate(created, n)[i] == '-'),
        id_candidate(created, n).len() > 0,
{
    let magnitude: nat = if created < 0 {
        (-created) as nat
    } else {
        created as nat
    };
    lemma_decimal_digits(magnitude);
    lemma_decimal_digits(n);
    let base = signed_decimal(created as int);
    assert forall|i: int| 0 <= i < base.len() implies ('0' <= #[trigger] base[i] <= '9' || base[i]
        == '-') by {
        if created < 0 && i > 0 {
            assert(base[i] == decimal(magnitude)[i - 1]);
        }
    }
    if n >= 2 {
        let full = id_candidate(created, n);
        assert forall|i: int| 0 <= i < full.len() implies ('0' <= #[trigger] full[i] <= '9'
            || full[i] == '-') by {
            if i < base.len() {
                assert(full[i] == base[i]);
            } else if i > base.len() {
                assert(full[i] == decimal(n)[i - base.len() - 1]);
            }
        }
    }
}

/// The id of a new snapshot is always accepted as a safe id, so that every
/// snapshot the store creates can be deleted again.
pub proof fn lemma_next_snapshot_id_is_safe(created: i64, taken: Seq<Seq<char>>, id: Seq<char>)
    requires
        is_next_snapshot_id(created, taken, id),
    ensures
        safe_id(id),
{
    let n = choose|n: nat|
        #![trigger id_candidate(created, n)]
        1 <= n && id == id_candidate(created, n) && forall|m: nat|
            1 <= m < n ==> taken.contains(#[trigger] id_candidate(created, m));
    lemma_id_candidate_chars(created, n);
    assert(is_ascii_chars(id));
    is_ascii_chars_encode_utf8(id);
    assert forall|i: int| 0 <= i < encode_utf8(id).len() implies (48 <= #[trigger] encode_utf8(id)[i]
        <= 57 || encode_utf8(id)[i] == 45) by {
        assert(id[i] as u8 == encode_utf8(id)[i]);
    }
}

/// A later candidate name is the name of a later snapshot.
pub proof fn lemma_later_candidate_is_later(created: i64, n: nat, m: nat)
    requires
        1 <= n < m,
    ensures
        id_later(id_candidate(created, m), id_candidate(created, n)),
{
    let a = id_candidate(created, n);
    let b = id_candidate(created, m);
    let base = signed_decimal(created as int);
    lemma_id_candidate_chars(created, n);
    lemma_id_candidate_chars(created, m);
    assert(is_ascii_chars(a));
    assert(is_ascii_chars(b));
    is_ascii_chars_encode_utf8(a);
    is_ascii_chars_encode_utf8(b);
    lemma_decimal_digits(m);
    if n >= 2 {
        lemma_decimal_len_monotone(n, m);
        if decimal(n).len() == decimal(m).len() {
            let k = lemma_decimal_first_difference(n, m);
            let at = base.len() + 1 + k;
            assert(a.take(at) =~= b.take(at)) by {
                assert forall|i: int| 0 <= i < at implies a[i] == b[i] by {
                    if i > base.len() {
                        assert(a[i] == decimal(n).take(k)[i - base.len() - 1]);
                        assert(b[i] == decimal(m).take(k)[i - base.len() - 1]);
                    }
                }
            }
            assert(a[at] == decimal(n)[k]);
            assert(b[at] == decimal(m)[k]);
            assert(encode_utf8(a).take(at) =~= encode_utf8(b).take(at)) by {
                assert forall|i: int| 0 <= i < at implies encode_utf8(a)[i] == encode_utf8(b)[i] by {
                    assert(a.take(at)[i] == b.take(at)[i]);
                }
            }
            lemma_bytes_lt_at(encode_utf8(a), encode_utf8(b), at);
        }
    }
}

/// A title is accepted when, once trimmed, it is not empty and its UTF-8
/// encoding takes at most 120 bytes.
pub open spec fn acceptable_title(title: Seq<char>) -> bool {
    trim(title).len() > 0 && encode_utf8(trim(title)).len() <= 120
}

/// The title a snapshot is renamed to: the given title trimmed. A title that
/// is empty once trimmed, or longer than 120 bytes, is refused with
/// `SnapshotNotFound` for the snapshot.
pub fn snapshot_title(snapshot_id: &str, title: &str) -> (result: Result<String, StorageError>)
    ensures
        result is Ok <==> acceptable_title(title@),
        result matches Ok(t) ==> t@ == trim(title@),
        result matches Err(e) ==> e matches StorageError::SnapshotNotFound(id) && id@
            == snapshot_id@,
{
    let title = trimmed(title);
    if title.as_str().is_empty() || title.as_str().as_bytes().len() > 120 {
        return Err(StorageError::SnapshotNotFound(snapshot_id.to_owned()));
    }
    Ok(title)
}

/// The summary of a manifest.
pub open spec fn summary_of(manifest: SnapshotManifest) -> (Seq<char>, Seq<char>, i64, usize) {
    (manifest.id@, manifest.title@, manifest.created_unix_seconds, manifest.item_count)
}

pub open spec fn summary_view(summary: SnapshotSummary) -> (Seq<char>, Seq<char>, i64, usize) {
    (summary.id@, summary.title@, summary.created_unix_seconds, summary.item_count)
}

impl SnapshotManifest {
    /// What a listing shows of this snapshot.
    pub fn summary(&self) -> (summary: SnapshotSummary)
        ensures
            summary_view(summary) == summary_of(*self),
    {
        SnapshotSummary {
            id: self.id.clone(),
            title: self.title.clone(),
            created_unix_seconds: self.created_unix_seconds,
            item_count: self.item_count,
        }
    }
}

/// Copies of the given items.
pub fn copy_items(items: &[DesktopItem]) -> (copies: Vec<DesktopItem>)
    ensures
        copies@ == items@,
{
    let mut copies: Vec<DesktopItem> = Vec::new();
    let mut i: usize = 0;
    while i < items.len()
        invariant
            i <= items.len(),
            copies@ == items@.take(i as int),
        decreases items.len() - i,
    {
        copies.push(items[i].clone());
        proof {
            assert(copies@ =~= items@.take(i + 1));
        }
        i = i + 1;
    }
    proof {
        assert(items@.take(items.len() as int) =~= items@);
    }
    copies
}

/// A store of snapshots under a root directory: each snapshot is a
/// directory of the `snapshots` directory, named by the snapshot's id.
pub struct SnapshotStore {
    root: PathBuf,
    snapshots_dir: PathBuf,
}

impl SnapshotStore {
    /// The snapshots directory is always `snapshots` under the root.
    #[verifier::type_invariant]
    spec fn well_formed(self) -> bool {
        self.snapshots_dir == joined_path(self.root, "snapshots"@)
    }

    pub closed spec fn root_path(&self) -> PathBuf {
        self.root
    }

    /// The directory that holds the snapshot directories: `snapshots` under
    /// the root.
    pub open spec fn snapshots_path(&self) -> PathBuf {
        joined_path(self.root_path(), "snapshots"@)
    }

    /// The directory of the snapshot with the given id.
    pub open spec fn snapshot_path(&self, snapshot_id: Seq<char>) -> PathBuf {
        joined_path(self.snapshots_path(), snapshot_id)
    }

    /// The store rooted at `root`.
    pub fn open(root: PathBuf) -> (store: SnapshotStore)
        ensures
            store.root_path() == root,
    {
        let snapshots_dir = join_path(&root, "snapshots");
        SnapshotStore { root, snapshots_dir }
    }

    pub fn root(&self) -> (root: &PathBuf)
        ensures
            *root == self.root_path(),
    {
        &self.root
    }

    /// The directory that holds the snapshot directories.
    pub fn snapshots_dir(&self) -> (dir: &PathBuf)
        ensures
            *dir == self.snapshots_path(),
    {
        proof {
            use_type_invariant(self);
        }
        &self.snapshots_dir
    }

    /// The directory of one snapshot.
    pub fn snapshot_dir(&self, snapshot_id: &str) -> (dir: PathBuf)
        ensures
            dir == self.snapshot_path(snapshot_id@),
    {
        proof {
            use_type_invariant(self);
        }
        join_path(&self.snapshots_dir, snapshot_id)
    }

    /// Whether a snapshot may be deleted by its id: only an id that is safe
    /// as a directory name is, and any other is refused with
    /// `SnapshotNotFound` for it.
    pub fn check_deletable(&self, snapshot_id: &str) -> (result: Result<(), StorageError>)
        ensures
            result is Ok <==> safe_id(snapshot_id@),
            result matches Err(e) ==> e matches StorageError::SnapshotNotFound(id) && id@
                == snapshot_id@,
    {
        if is_safe_snapshot_id(snapshot_id) {
            Ok(())
        } else {
            Err(StorageError::SnapshotNotFound(snapshot_id.to_owned()))
        }
    }

    /// The manifest of a new snapshot taken at `created_unix_seconds` of the
    /// given items and layout. Its id is the first candidate name that none
    /// of the entries in `taken` (the names present in the snapshots
    /// directory) has; its title is `自动快照 ` followed by the id.
    pub fn create_snapshot(
        &self,
        created_unix_seconds: i64,
        items: &[DesktopItem],
        layout: Option<DesktopLayout>,
        taken: &[String],
    ) -> (manifest: SnapshotManifest)
        ensures
            is_next_snapshot_id(created_unix_seconds, texts(taken@), manifest.id@),
            manifest.schema_version == 1,
            manifest.title@ == "自动快照 "@ + manifest.id@,
            manifest.created_unix_seconds == created_unix_seconds,
            manifest.item_count == items@.len(),
            manifest.items@ == items@,
            manifest.layout == layout,
            manifest.screenshots@.len() == 0,
    {
        let id = next_snapshot_id(created_unix_seconds, taken);
        let mut title = String::from_str("自动快照 ");
        title.append(id.as_str());
        SnapshotManifest {
            schema_version: 1,
            title,
            id,
            created_unix_seconds,
            item_count: items.len(),
            items: copy_items(items),
            layout,
            screenshots: Vec::new(),
        }
    }

    /// Records the screenshots of a snapshot in its manifest.
    pub fn update_screenshots(&self, manifest: &mut SnapshotManifest, screenshots: Vec<String>)
        ensures
            *final(manifest) == (SnapshotManifest { screenshots: screenshots, ..*old(manifest) }),
    {
        manifest.screenshots = screenshots;
    }

    /// Records the items and layout of a snapshot in its manifest.
    pub fn update_snapshot(
        &self,
        manifest: &mut SnapshotManifest,
        items: &[DesktopItem],
        layout: Option<DesktopLayout>,
    )
        ensures
            final(manifest).item_count == items@.len(),
            final(manifest).items@ == items@,
            final(manifest).layout == layout,
            final(manifest).schema_version == old(manifest).schema_version,
            final(manifest).id == old(manifest).id,
            final(manifest).title == old(manifest).title,
            final(manifest).created_unix_seconds == old(manifest).created_unix_seconds,
            final(manifest).screenshots == old(manifest).screenshots,
    {
        manifest.item_count = items.len();
        manifest.items = copy_items(items);
        manifest.layout = layout;
    }

    /// Renames the snapshot `snapshot_id`, whose manifest is `manifest`, to
    /// `title` trimmed, and returns the summary of the renamed snapshot. A
    /// title that is empty once trimmed, or longer than 120 bytes, is refused
    /// with `SnapshotNotFound` for the snapshot, and the manifest is left as
    /// it was.
    pub fn rename_snapshot(&self, snapshot_id: &str, manifest: &mut SnapshotManifest, title: String) -> (result:
        Result<SnapshotSummary, StorageError>)
        ensures
            result is Ok <==> acceptable_title(title@),
            result is Ok ==> final(manifest).title@ == trim(title@) && *final(manifest) == (
            SnapshotManifest { title: final(manifest).title, ..*old(manifest) }),
            result matches Ok(summary) ==> summary_view(summary) == summary_of(*final(manifest)),
            result matches Err(e) ==> e matches StorageError::SnapshotNotFound(id) && id@
                == snapshot_id@,
            result is Err ==> *final(manifest) == *old(manifest),
    {
        let title = match snapshot_title(snapshot_id, title.as_str()) {
            Ok(t) => t,
            Err(e) => {
                return Err(e);
            },
        };
        manifest.title = title;
        Ok(manifest.summary())
    }

    /// The id of the latest of the listed snapshots: the newest, and among
    /// those equally new the one created last (see `id_later`).
    pub fn latest_snapshot_id(&self, snapshots: &[SnapshotSummary]) -> (latest: Option<String>)
        ensures
            latest is None <==> snapshots@.len() == 0,
            latest matches Some(id) ==> exists|i: int|
                0 <= i < snapshots@.len() && (#[trigger] snapshots@[i]).id@ == id@ && forall|j: int|
                    0 <= j < snapshots@.len() ==> !listed_before(#[trigger] snapshots@[j], snapshots@[i]),
    {
        if snapshots.len() == 0 {
            return None;
        }
        let mut best: usize = 0;
        let mut i: usize = 1;
        proof {
            lemma_listed_before_order(snapshots@[0], snapshots@[0], snapshots@[0]);
        }
        while i < snapshots.len()
            invariant
                1 <= i <= snapshots@.len(),
                best < i,
                forall|j: int| 0 <= j < i ==> !listed_before(#[trigger] snapshots@[j], snapshots@[best as int]),
            decreases snapshots.len() - i,
        {
            if listed_earlier(&snapshots[i], &snapshots[best]) {
                proof {
                    assert forall|j: int| 0 <= j < i + 1 implies !listed_before(
                        #[trigger] snapshots@[j],
                        snapshots@[i as int],
                    ) by {
                        lemma_listed_before_order(snapshots@[j], snapshots@[i as int], snapshots@[best as int]);
                    }
                }
                best = i;
            }
            i = i + 1;
        }
        Some(snapshots[best].id.clone())
    }
}

/// Of two snapshots taken in the same second, whether the one with id `a`
/// was created after the one with id `b`. The store names them the
/// timestamp, then the timestamp followed by `-2`, `-3`, and so on, so the
/// later of two such names is the longer one, and of two names of one
/// length the greater one (compared by their bytes).
pub open spec fn id_later(a: Seq<char>, b: Seq<char>) -> bool {
    encode_utf8(a).len() > encode_utf8(b).len() || (encode_utf8(a).len() == encode_utf8(b).len()
        && text_lt(b, a))
}

/// The order in which snapshots are listed: newest first, and among
/// snapshots taken in the same second the one created later first.
pub open spec fn listed_before(a: SnapshotSummary, b: SnapshotSummary) -> bool {
    a.created_unix_seconds > b.created_unix_seconds || (a.created_unix_seconds
        == b.created_unix_seconds && id_later(a.id@, b.id@))
}

/// The listing order is a strict weak order: irreflexive, transitive, and
/// incomparability is transitive too.
pub proof fn lemma_listed_before_order(a: SnapshotSummary, b: SnapshotSummary, c: SnapshotSummary)
    ensures
        !listed_before(a, a),
        listed_before(a, b) ==> !listed_before(b, a),
        listed_before(a, b) && listed_before(b, c) ==> listed_before(a, c),
        !listed_before(a, b) && !listed_before(b, c) ==> !listed_before(a, c),
        !listed_before(a, b) && !listed_before(b, a) ==> a.created_unix_seconds
            == b.created_unix_seconds && a.id@ == b.id@,
{
    lemma_text_lt_order(a.id@, b.id@, c.id@);
    lemma_text_lt_order(c.id@, b.id@, a.id@);
    lemma_text_lt_order(a.id@, c.id@, b.id@);
    lemma_text_lt_order(b.id@, a.id@, c.id@);
    lemma_text_lt_order(b.id@, c.id@, a.id@);
    lemma_text_lt_order(c.id@, a.id@, b.id@);
}

fn listed_earlier(a: &SnapshotSummary, b: &SnapshotSummary) -> (earlier: bool)
    ensures
        earlier == listed_before(*a, *b),
{
    if a.created_unix_seconds != b.created_unix_seconds {
        a.created_unix_seconds > b.created_unix_seconds
    } else {
        let a_len = a.id.as_str().as_bytes().len();
        let b_len = b.id.as_str().as_bytes().len();
        if a_len != b_len {
            a_len > b_len
        } else {
            compare_text(b.id.as_str(), a.id.as_str()) == Rank::Before
        }
    }
}

/// The snapshots are in listing order.
pub open spec fn in_listing_order(snapshots: Seq<SnapshotSummary>) -> bool {
    forall|i: int, j: int|
        0 <= i < j < snapshots.len() ==> !listed_before(#[trigger] snapshots[j], #[trigger] snapshots[i])
}

/// `to` rearranges `from` by `p`, and snapshots that neither is listed
/// before the other (equally new, with the same id) come in `to` in the
/// order they had in `from`.
pub open spec fn keeps_order_of_equals(from: Seq<SnapshotSummary>, to: Seq<SnapshotSummary>, p: Seq<int>) -> bool {
    &&& rearranges(from, to, p)
    &&& forall|a: int, b: int|
        0 <= a < b < to.len() && !listed_before(to[a], to[b]) && !listed_before(to[b], to[a])
            ==> #[trigger] p[a] < #[trigger] p[b]
}

/// Puts the snapshots in listing order, keeping the relative order of
/// snapshots that are equally new and have the same id.
pub fn sort_snapshots(snapshots: &mut Vec<SnapshotSummary>)
    ensures
        in_listing_order(final(snapshots)@),
        final(snapshots)@.to_multiset() == old(snapshots)@.to_multiset(),
        exists|p: Seq<int>| #[trigger] keeps_order_of_equals(old(snapshots)@, final(snapshots)@, p),
{
    broadcast use vstd::seq_lib::group_to_multiset_ensures;
    let n = snapshots.len();
    if n == 0 {
        proof {
            assert(keeps_order_of_equals(old(snapshots)@, snapshots@, Seq::empty()));
        }
        return;
    }
    let ghost mut perm: Seq<int> = seq![0int];
    let mut i: usize = 1;
    while i < n
        invariant
            1 <= i <= n,
            n == snapshots@.len(),
            n == old(snapshots)@.len(),
            in_listing_order(snapshots@.take(i as int)),
            snapshots@.to_multiset() == old(snapshots)@.to_multiset(),
            perm.len() == i,
            forall|k: int| i <= k < n ==> snapshots@[k] == old(snapshots)@[k],
            forall|a: int| 0 <= a < i ==> 0 <= #[trigger] perm[a] < i && snapshots@[a] == old(snapshots)@[perm[a]],
            forall|a: int, b: int| 0 <= a < b < i ==> #[trigger] perm[a] != #[trigger] perm[b],
            forall|a: int, b: int|
                0 <= a < b < i && !listed_before(snapshots@[a], snapshots@[b]) && !listed_before(
                    snapshots@[b],
                    snapshots@[a],
                ) ==> #[trigger] perm[a] < #[trigger] perm[b],
        decreases n - i,
    {
        let ghost before = snapshots@;
        let moving = snapshots.remove(i);
        let mut j: usize = i;
        while j > 0 && listed_earlier(&moving, &snapshots[j - 1])
            invariant
                0 <= j <= i,
                i < n,
                before.len() == n,
                snapshots@ == before.remove(i as int),
                moving == before[i as int],
                forall|k: int| j <= k < i ==> listed_before(moving, #[trigger] snapshots@[k]),
            decreases j,
        {
            j = j - 1;
        }
        snapshots.insert(j, moving);
        proof {
            let after = snapshots@;
            vstd::seq_lib::to_multiset_remove(before, i as int);
            vstd::seq_lib::to_multiset_insert(before.remove(i as int), j as int, moving);
            assert(before.to_multiset().count(moving) > 0) by {
                vstd::seq_lib::to_multiset_contains(before, moving);
            }
            assert(after.to_multiset() =~= before.to_multiset());
            let sorted_part = before.take(i as int);
            assert(after =~= before.remove(i as int).insert(j as int, moving));
            assert forall|a: int, b: int| 0 <= a < b < i + 1 implies !listed_before(
                #[trigger] after.take(i + 1)[b],
                #[trigger] after.take(i + 1)[a],
            ) by {
                let x = after[a];
                let y = after[b];
                assert(after.take(i + 1)[a] == x);
                assert(after.take(i + 1)[b] == y);
                if b < j {
                    assert(x == sorted_part[a]);
                    assert(y == sorted_part[b]);
                } else if b == j {
                    assert(x == sorted_part[a]);
                    assert(sorted_part[j - 1] == before[j - 1]);
                    lemma_listed_before_order(moving, sorted_part[j - 1], x);
                    if a < j - 1 {
                        assert(!listed_before(sorted_part[j - 1], sorted_part[a]));
                    }
                    lemma_listed_before_order(y, sorted_part[j - 1], x);
                } else if a == j {
                    assert(y == sorted_part[b - 1]);
                    assert(listed_before(moving, before.remove(i as int)[b - 1]));
                    lemma_listed_before_order(x, y, x);
                } else if a < j {
                    assert(x == sorted_part[a]);
                    assert(y == sorted_part[b - 1]);
                } else {
                    assert(x == sorted_part[a - 1]);
                    assert(y == sorted_part[b - 1]);
                }
            }
            let ghost_old = old(snapshots)@;
            let np = perm.insert(j as int, i as int);
            assert(moving == ghost_old[i as int]);
            assert forall|k: int| i + 1 <= k < n implies after[k] == ghost_old[k] by {
                assert(after[k] == before[k]);
            }
            assert forall|a: int| 0 <= a < i + 1 implies 0 <= #[trigger] np[a] < i + 1 && after[a]
                == ghost_old[np[a]] by {
                if a < j {
                    assert(np[a] == perm[a]);
                    assert(after[a] == before[a]);
                } else if a > j {
                    assert(np[a] == perm[a - 1]);
                    assert(after[a] == before[a - 1]);
                }
            }
            assert forall|a: int, b: int| 0 <= a < b < i + 1 implies #[trigger] np[a] != #[trigger] np[b] by {
                if a < j && b < j {
                    assert(np[a] == perm[a] && np[b] == perm[b]);
                } else if a < j && b > j {
                    assert(np[a] == perm[a] && np[b] == perm[b - 1]);
                } else if a > j {
                    assert(np[a] == perm[a - 1] && np[b] == perm[b - 1]);
                } else if a < j {
                    assert(np[a] == perm[a]);
                } else {
                    assert(np[b] == perm[b - 1]);
                }
            }
            assert forall|a: int, b: int|
                0 <= a < b < i + 1 && !listed_before(after[a], after[b]) && !listed_before(after[b], after[a])
                    implies #[trigger] np[a] < #[trigger] np[b] by {
                if a < j && b < j {
                    assert(np[a] == perm[a] && np[b] == perm[b]);
                    assert(after[a] == before[a] && after[b] == before[b]);
                } else if a < j && b > j {
                    assert(np[a] == perm[a] && np[b] == perm[b - 1]);
                    assert(after[a] == before[a] && after[b] == before[b - 1]);
                } else if a > j {
                    assert(np[a] == perm[a - 1] && np[b] == perm[b - 1]);
                    assert(after[a] == before[a - 1] && after[b] == before[b - 1]);
                } else if a < j {
                    assert(np[a] == perm[a]);
                } else {
                    assert(after[b] == before.remove(i as int)[b - 1]);
                    assert(listed_before(moving, before.remove(i as int)[b - 1]));
                }
            }
            perm = np;
        }
        i = i + 1;
    }
    proof {
        assert(snapshots@.take(n as int) =~= snapshots@);
        assert(keeps_order_of_equals(old(snapshots)@, snapshots@, perm));
    }
}

} // verus!
