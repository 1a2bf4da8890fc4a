//! Snapshots in the making: the entries a scan records, their order, the
//! totals stored with a snapshot and the checks made during a scan.

use vstd::prelude::*;

use crate::backup::{concat_str, EntryKind};
use crate::error::ErrorKind;
use crate::text::{chars_less, chars_lt, chars_of, lemma_chars_lt_asymmetric, lemma_chars_lt_total, lemma_chars_lt_transitive};

verus! {

/// One file, directory or symbolic link recorded by a scan.
#[derive(Clone, Debug)]
pub struct PendingEntry {
    pub path: String,
    pub kind: EntryKind,
    pub object_hash: Option<String>,
    pub size: u64,
    pub modified_at: Option<i64>,
    pub unix_mode: Option<u32>,
    pub link_target: Option<String>,
    pub link_is_directory: Option<bool>,
}

/// A selected directory and whether it existed when the snapshot was taken.
#[derive(Clone, Debug)]
pub struct SnapshotRoot {
    pub path: String,
    pub existed: bool,
}

/// Number of entries of `kind`.
pub open spec fn count_kind(entries: Seq<PendingEntry>, kind: EntryKind) -> nat
    decreases entries.len(),
{
    if entries.len() == 0 {
        0
    } else {
        count_kind(entries.drop_last(), kind) + if entries.last().kind == kind {
            1nat
        } else {
            0nat
        }
    }
}

/// The sum of the entry sizes.
pub open spec fn total_size(entries: Seq<PendingEntry>) -> nat
    decreases entries.len(),
{
    if entries.len() == 0 {
        0
    } else {
        total_size(entries.drop_last()) + entries.last().size as nat
    }
}

/// The totals stored with a snapshot.
#[derive(Clone, Copy, Debug)]
pub struct SnapshotTotals {
    pub file_count: u64,
    pub symlink_count: u64,
    pub logical_size: u64,
}

proof fn lemma_total_size_prefix(entries: Seq<PendingEntry>, k: int)
    requires
        0 <= k <= entries.len(),
    ensures
        total_size(entries.take(k)) <= total_size(entries),
    decreases entries.len() - k,
{
    if k < entries.len() {
        lemma_total_size_prefix(entries, k + 1);
        assert(entries.take(k + 1).drop_last() =~= entries.take(k));
    } else {
        assert(entries.take(k) =~= entries);
    }
}

/// The number of files, the number of symbolic links and the total size of
/// the recorded entries.
pub fn snapshot_totals(entries: &Vec<PendingEntry>) -> (r: SnapshotTotals)
    requires
        total_size(entries@) <= u64::MAX,
    ensures
        r.file_count == count_kind(entries@, EntryKind::File),
        r.symlink_count == count_kind(entries@, EntryKind::Symlink),
        r.logical_size == total_size(entries@),
{
    let mut files: u64 = 0;
    let mut links: u64 = 0;
    let mut size: u64 = 0;
    let mut i: usize = 0;
    while i < entries.len()
        invariant
            i <= entries.len(),
            total_size(entries@) <= u64::MAX,
            files == count_kind(entries@.take(i as int), EntryKind::File),
            links == count_kind(entries@.take(i as int), EntryKind::Symlink),
            size == total_size(entries@.take(i as int)),
            files <= i,
            links <= i,
        decreases entries.len() - i,
    {
        assert(entries@.take(i + 1).drop_last() =~= entries@.take(i as int));
        proof {
            lemma_total_size_prefix(entries@, i + 1);
        }
        if entries[i].kind == EntryKind::File {
            files += 1;
        }
        if entries[i].kind == EntryKind::Symlink {
            links += 1;
        }
        size = size + entries[i].size;
        i += 1;
    }
    assert(entries@.take(i as int) =~= entries@);
    SnapshotTotals { file_count: files, symlink_count: links, logical_size: size }
}

/// `e` placed into `sorted` after every entry whose path is not greater.
pub open spec fn insert_by_path(sorted: Seq<PendingEntry>, e: PendingEntry) -> Seq<PendingEntry>
    decreases sorted.len(),
{
    if sorted.len() == 0 {
        seq![e]
    } else if chars_lt(e.path@, sorted[0].path@) {
        seq![e] + sorted
    } else {
        seq![sorted[0]] + insert_by_path(sorted.drop_first(), e)
    }
}

/// `entries` stably sorted by path.
pub open spec fn sorted_by_path(entries: Seq<PendingEntry>) -> Seq<PendingEntry>
    decreases entries.len(),
{
    if entries.len() == 0 {
        Seq::<PendingEntry>::empty()
    } else {
        insert_by_path(sorted_by_path(entries.drop_last()), entries.last())
    }
}

/// Paths never decrease.
pub open spec fn paths_ordered(entries: Seq<PendingEntry>) -> bool {
    forall|i: int, j: int|
        0 <= i < j < entries.len() ==> !chars_lt(entries[j].path@, entries[i].path@)
}

proof fn lemma_insert_by_path_at(sorted: Seq<PendingEntry>, e: PendingEntry, k: int)
    requires
        0 <= k <= sorted.len(),
        forall|j: int| 0 <= j < k ==> !chars_lt(e.path@, #[trigger] sorted[j].path@),
        k < sorted.len() ==> chars_lt(e.path@, sorted[k].path@),
    ensures
        insert_by_path(sorted, e) == sorted.insert(k, e),
    decreases sorted.len(),
{
    if sorted.len() == 0 {
        assert(sorted.insert(k, e) =~= seq![e]);
    } else if k == 0 {
        assert(sorted.insert(k, e) =~= seq![e] + sorted);
    } else {
        assert(!chars_lt(e.path@, sorted[0].path@));
        let rest = sorted.drop_first();
        assert forall|j: int| 0 <= j < k - 1 implies !chars_lt(e.path@, #[trigger] rest[j].path@) by {
            assert(rest[j] == sorted[j + 1]);
        }
        lemma_insert_by_path_at(rest, e, k - 1);
        assert(seq![sorted[0]] + rest.insert(k - 1, e) =~= sorted.insert(k, e));
    }
}

/// Sorts the recorded entries by path, keeping the order of equal paths.
pub fn sort_entries_by_path(entries: Vec<PendingEntry>) -> (r: Vec<PendingEntry>)
    ensures
        r@ == sorted_by_path(entries@),
{
    let ghost given = entries@;
    assert(given.len() == entries.len());
    let mut rest = entries;
    let mut out: Vec<PendingEntry> = Vec::new();
    let mut i: usize = 0;
    while rest.len() > 0
        invariant
            i + rest.len() == given.len(),
            given.len() <= usize::MAX,
            rest@ == given.skip(i as int),
            out@ == sorted_by_path(given.take(i as int)),
        decreases rest.len(),
    {
        let e = rest.remove(0);
        assert(e == given[i as int]);
        assert(given.take(i + 1).drop_last() =~= given.take(i as int));
        let key = chars_of(e.path.as_str());
        let mut k: usize = 0;
        while k < out.len() && !chars_less(&key, &chars_of(out[k].path.as_str()))
            invariant
                k <= out.len(),
                key@ == e.path@,
                forall|j: int| 0 <= j < k ==> !chars_lt(e.path@, #[trigger] out@[j].path@),
            decreases out.len() - k,
        {
            k += 1;
        }
        proof {
            lemma_insert_by_path_at(out@, e, k as int);
        }
        out.insert(k, e);
        assert(rest@ =~= given.skip(i + 1));
        i += 1;
    }
    assert(given.take(i as int) =~= given);
    out
}

proof fn lemma_insert_by_path_ordered(sorted: Seq<PendingEntry>, e: PendingEntry)
    requires
        paths_ordered(sorted),
    ensures
        paths_ordered(insert_by_path(sorted, e)),
        insert_by_path(sorted, e).to_multiset() == sorted.to_multiset().insert(e),
    decreases sorted.len(),
{
    broadcast use vstd::seq_lib::group_to_multiset_ensures;
    broadcast use vstd::multiset::group_multiset_axioms;

    if sorted.len() == 0 {
        assert(seq![e] =~= Seq::<PendingEntry>::empty().push(e));
        assert(sorted =~= Seq::<PendingEntry>::empty());
    } else if chars_lt(e.path@, sorted[0].path@) {
        let r = seq![e] + sorted;
        assert forall|i: int, j: int| 0 <= i < j < r.len() implies !chars_lt(
            r[j].path@,
            r[i].path@,
        ) by {
            if i == 0 {
                assert(r[j] == sorted[j - 1]);
                if chars_lt(sorted[j - 1].path@, e.path@) {
                    lemma_chars_lt_transitive(sorted[j - 1].path@, e.path@, sorted[0].path@);
                    if j - 1 > 0 {
                        lemma_chars_lt_asymmetric(sorted[j - 1].path@, sorted[0].path@);
                    } else {
                        crate::text::lemma_chars_lt_irreflexive(sorted[0].path@);
                    }
                }
            } else {
                assert(r[i] == sorted[i - 1]);
                assert(r[j] == sorted[j - 1]);
            }
        }
        vstd::seq_lib::lemma_multiset_commutative(seq![e], sorted);
        assert(seq![e] =~= Seq::<PendingEntry>::empty().push(e));
        assert(r.to_multiset() =~= sorted.to_multiset().insert(e));
    } else {
        let rest = sorted.drop_first();
        assert forall|i: int, j: int| 0 <= i < j < rest.len() implies !chars_lt(
            rest[j].path@,
            rest[i].path@,
        ) by {
            assert(rest[i] == sorted[i + 1]);
            assert(rest[j] == sorted[j + 1]);
        }
        lemma_insert_by_path_ordered(rest, e);
        let tail = insert_by_path(rest, e);
        let r = seq![sorted[0]] + tail;
        assert forall|i: int, j: int| 0 <= i < j < r.len() implies !chars_lt(
            r[j].path@,
            r[i].path@,
        ) by {
            if i == 0 {
                assert(r[j] == tail[j - 1]);
                assert(tail.to_multiset().count(tail[j - 1]) > 0);
                if tail[j - 1] != e {
                    assert(rest.to_multiset().count(tail[j - 1]) > 0);
                    let w = choose|w: int| 0 <= w < rest.len() && rest[w] == tail[j - 1];
                    assert(rest[w] == sorted[w + 1]);
                }
            } else {
                assert(r[i] == tail[i - 1]);
                assert(r[j] == tail[j - 1]);
            }
        }
        vstd::seq_lib::lemma_multiset_commutative(seq![sorted[0]], tail);
        vstd::seq_lib::lemma_multiset_commutative(seq![sorted[0]], rest);
        assert(sorted =~= seq![sorted[0]] + rest);
        assert(r.to_multiset() =~= sorted.to_multiset().insert(e));
    }
}

/// The stable sort by path orders the entries by path and keeps every
/// entry, each as often as it occurs.
pub proof fn law_sorted_by_path_is_ordered_permutation(entries: Seq<PendingEntry>)
    ensures
        paths_ordered(sorted_by_path(entries)),
        sorted_by_path(entries).to_multiset() == entries.to_multiset(),
    decreases entries.len(),
{
    broadcast use vstd::seq_lib::group_to_multiset_ensures;
    if entries.len() > 0 {
        law_sorted_by_path_is_ordered_permutation(entries.drop_last());
        lemma_insert_by_path_ordered(sorted_by_path(entries.drop_last()), entries.last());
        assert(entries =~= entries.drop_last().push(entries.last()));
    } else {
        assert(entries.to_multiset() =~= vstd::multiset::Multiset::<PendingEntry>::empty());
    }
}


/// `n` placed into the ordered names `sorted` after every name that is not
/// greater.
pub open spec fn insert_name(sorted: Seq<Seq<char>>, n: Seq<char>) -> Seq<Seq<char>>
    decreases sorted.len(),
{
    if sorted.len() == 0 {
        seq![n]
    } else if chars_lt(n, sorted[0]) {
        seq![n] + sorted
    } else {
        seq![sorted[0]] + insert_name(sorted.drop_first(), n)
    }
}

/// `names` in code point order (as `sort` orders strings).
pub open spec fn sorted_names(names: Seq<Seq<char>>) -> Seq<Seq<char>>
    decreases names.len(),
{
    if names.len() == 0 {
        Seq::<Seq<char>>::empty()
    } else {
        insert_name(sorted_names(names.drop_last()), names.last())
    }
}

/// The character sequences of a list of strings.
pub open spec fn name_views(v: Seq<String>) -> Seq<Seq<char>> {
    Seq::new(v.len(), |i: int| v[i]@)
}

proof fn lemma_insert_name_at(sorted: Seq<Seq<char>>, n: Seq<char>, k: int)
    requires
        0 <= k <= sorted.len(),
        forall|j: int| 0 <= j < k ==> !chars_lt(n, #[trigger] sorted[j]),
        k < sorted.len() ==> chars_lt(n, sorted[k]),
    ensures
        insert_name(sorted, n) == sorted.insert(k, n),
    decreases sorted.len(),
{
    if sorted.len() == 0 {
        assert(sorted.insert(k, n) =~= seq![n]);
    } else if k == 0 {
        assert(sorted.insert(k, n) =~= seq![n] + sorted);
    } else {
        let rest = sorted.drop_first();
        assert forall|j: int| 0 <= j < k - 1 implies !chars_lt(n, #[trigger] rest[j]) by {
            assert(rest[j] == sorted[j + 1]);
        }
        lemma_insert_name_at(rest, n, k - 1);
        assert(seq![sorted[0]] + rest.insert(k - 1, n) =~= sorted.insert(k, n));
    }
}

/// Sorts names in code point order.
pub fn sort_names(names: Vec<String>) -> (r: Vec<String>)
    ensures
        name_views(r@) == sorted_names(name_views(names@)),
{
    let ghost given = name_views(names@);
    let ghost n = names.len();
    let mut rest = names;
    let mut out: Vec<String> = Vec::new();
    let mut i: usize = 0;
    assert(name_views(out@) =~= sorted_names(given.take(0)));
    while rest.len() > 0
        invariant
            i + rest.len() == n,
            n <= usize::MAX,
            given.len() == n,
            name_views(rest@) == given.skip(i as int),
            name_views(out@) == sorted_names(given.take(i as int)),
        decreases rest.len(),
    {
        let ghost before_rest = rest@;
        let name = rest.remove(0);
        assert(name@ == name_views(before_rest)[0]);
        assert(given.take(i + 1).drop_last() =~= given.take(i as int));
        let key = chars_of(name.as_str());
        let ghost before = name_views(out@);
        let mut k: usize = 0;
        while k < out.len() && !chars_less(&key, &chars_of(out[k].as_str()))
            invariant
                k <= out.len(),
                key@ == name@,
                before == name_views(out@),
                forall|j: int| 0 <= j < k ==> !chars_lt(name@, #[trigger] before[j]),
            decreases out.len() - k,
        {
            k += 1;
        }
        proof {
            lemma_insert_name_at(before, name@, k as int);
        }
        let ghost nv = name@;
        out.insert(k, name);
        assert(name_views(out@) =~= before.insert(k as int, nv));
        assert(rest@ =~= before_rest.subrange(1, before_rest.len() as int));
        assert forall|j: int| 0 <= j < rest@.len() implies name_views(rest@)[j] == given.skip(
            i + 1,
        )[j] by {
            assert(rest@[j] == before_rest[j + 1]);
            assert(name_views(before_rest)[j + 1] == given.skip(i as int)[j + 1]);
        }
        assert(name_views(rest@) =~= given.skip(i + 1));
        i += 1;
    }
    assert(given.take(i as int) =~= given);
    out
}

/// Whether two lists of strings hold the same strings in the same order.
fn same_names(a: &Vec<String>, b: &Vec<String>) -> (r: bool)
    ensures
        r == (name_views(a@) == name_views(b@)),
{
    if a.len() != b.len() {
        assert(name_views(a@).len() != name_views(b@).len());
        return false;
    }
    let mut i: usize = 0;
    while i < a.len()
        invariant
            i <= a.len() == b.len(),
            forall|j: int| 0 <= j < i ==> (#[trigger] a@[j])@ == b@[j]@,
        decreases a.len() - i,
    {
        if a[i] != b[i] {
            assert(name_views(a@)[i as int] != name_views(b@)[i as int]);
            return false;
        }
        i += 1;
    }
    assert(name_views(a@) =~= name_views(b@));
    true
}

/// Refuses a directory whose children changed while it was scanned:
/// `expected` are the names seen during the scan, sorted; `actual` the
/// names found afterwards.
pub fn check_directory_unchanged(directory: &str, expected: &Vec<String>, actual: Vec<String>) -> (r:
    Result<(), ErrorKind>)
    ensures
        sorted_names(name_views(actual@)) == name_views(expected@) ==> r is Ok,
        sorted_names(name_views(actual@)) != name_views(expected@) ==> (r matches Err(
            ErrorKind::FSError(m),
        ) && m@ == "Directory changed while it was being backed up: "@ + directory@),
{
    let sorted = sort_names(actual);
    if same_names(&sorted, expected) {
        return Ok(());
    }
    Err(ErrorKind::FSError(concat_str("Directory changed while it was being backed up: ", directory)))
}

/// What was found at a selected directory.
#[derive(Clone, Copy, Debug, PartialEq, Eq, Structural)]
pub enum SelectionKind {
    Missing,
    Directory,
    NotDirectory,
    LinkToDirectory,
    LinkToNonDirectory,
    DanglingLink,
}

/// Refuses a selection that is a file, or a link to one; missing
/// directories, directories and links to directories (or to nothing) pass.
pub fn check_selection_kind(path: &str, kind: SelectionKind) -> (r: Result<(), ErrorKind>)
    ensures
        kind == SelectionKind::NotDirectory ==> (r matches Err(ErrorKind::InputError(m)) && m@
            == "Backup selection is not a directory: "@ + path@),
        kind == SelectionKind::LinkToNonDirectory ==> (r matches Err(ErrorKind::InputError(m))
            && m@ == "Backup selection is not a directory link: "@ + path@),
        kind != SelectionKind::NotDirectory && kind != SelectionKind::LinkToNonDirectory ==> r is Ok,
{
    match kind {
        SelectionKind::NotDirectory => Err(
            crate::backup::input_error_with("Backup selection is not a directory: ", path),
        ),
        SelectionKind::LinkToNonDirectory => Err(
            crate::backup::input_error_with("Backup selection is not a directory link: ", path),
        ),
        _ => Ok(()),
    }
}

/// The stages a snapshot operation reports.
#[derive(Clone, Copy, Debug, PartialEq, Eq, Structural)]
pub enum BackupProgressStage {
    Scanning,
    Saving,
    Completed,
    Cancelled,
    Failed,
}

/// The last progress report of a snapshot operation: completed with the
/// snapshot id, or cancelled or failed with the error message.
pub fn final_progress(outcome: Result<String, String>, cancelled: bool) -> (r: (
    BackupProgressStage,
    Option<String>,
    Option<String>,
))
    ensures
        match outcome {
            Ok(id) => r == (BackupProgressStage::Completed, Some(id), None::<String>),
            Err(message) => if cancelled {
                r == (BackupProgressStage::Cancelled, None::<String>, Some(message))
            } else {
                r == (BackupProgressStage::Failed, None::<String>, Some(message))
            },
        },
{
    match outcome {
        Ok(id) => (BackupProgressStage::Completed, Some(id), None),
        Err(message) => {
            if cancelled {
                (BackupProgressStage::Cancelled, None, Some(message))
            } else {
                (BackupProgressStage::Failed, None, Some(message))
            }
        },
    }
}

/// What follows a scan of the selected directories.
#[derive(Clone, Copy, Debug, PartialEq, Eq, Structural)]
pub enum ScanDecision {
    /// Scan once more from a clean staging area.
    Retry,
    /// Give up with the scan's error.
    Fail,
    /// Give up: the operation was canceled.
    Cancel,
    /// Store the snapshot.
    Persist,
}

/// Decides what follows a scan: a failed first scan that was not canceled
/// is retried once; a failed scan otherwise fails; a successful scan is
/// stored unless the operation was canceled.
pub fn scan_decision(scan_succeeded: bool, cancelled: bool, retried: bool) -> (r: ScanDecision)
    ensures
        !scan_succeeded && !cancelled && !retried ==> r == ScanDecision::Retry,
        !scan_succeeded && (cancelled || retried) ==> r == ScanDecision::Fail,
        scan_succeeded && cancelled ==> r == ScanDecision::Cancel,
        scan_succeeded && !cancelled ==> r == ScanDecision::Persist,
{
    if !scan_succeeded {
        if !cancelled && !retried {
            ScanDecision::Retry
        } else {
            ScanDecision::Fail
        }
    } else if cancelled {
        ScanDecision::Cancel
    } else {
        ScanDecision::Persist
    }
}


/// `a + b`, or the largest `u64` when that overflows.
pub open spec fn saturating_sum(a: u64, b: u64) -> u64 {
    if a + b > u64::MAX {
        u64::MAX
    } else {
        (a + b) as u64
    }
}

/// What a scan has recorded so far.
#[derive(Debug)]
pub struct ScanRecord {
    /// The selected directories, and whether each existed.
    pub roots: Vec<SnapshotRoot>,
    /// The entries found, in the order they were met.
    pub entries: Vec<PendingEntry>,
    /// The bytes of the objects this scan stored.
    pub added_size: u64,
    /// The objects this scan stored, each once.
    pub created_objects: Vec<String>,
}

impl ScanRecord {
    /// A scan that has recorded nothing.
    pub fn new() -> (r: ScanRecord)
        ensures
            r.roots@.len() == 0,
            r.entries@.len() == 0,
            r.added_size == 0,
            r.created_objects@.len() == 0,
    {
        ScanRecord {
            roots: Vec::new(),
            entries: Vec::new(),
            added_size: 0,
            created_objects: Vec::new(),
        }
    }

    /// Records a selected directory and whether it existed.
    pub fn record_root(&mut self, path: String, existed: bool)
        ensures
            final(self).roots@ == old(self).roots@.push(SnapshotRoot { path, existed }),
            final(self).entries == old(self).entries,
            final(self).added_size == old(self).added_size,
            final(self).created_objects == old(self).created_objects,
    {
        self.roots.push(SnapshotRoot { path, existed });
    }

    /// Records a symbolic link pointing at `target`.
    pub fn record_symlink(
        &mut self,
        path: String,
        modified_at: Option<i64>,
        unix_mode: Option<u32>,
        target: String,
        link_is_directory: bool,
    )
        ensures
            final(self).entries@ == old(self).entries@.push(
                PendingEntry {
                    path,
                    kind: EntryKind::Symlink,
                    object_hash: None,
                    size: 0,
                    modified_at,
                    unix_mode,
                    link_target: Some(target),
                    link_is_directory: Some(link_is_directory),
                },
            ),
            final(self).roots == old(self).roots,
            final(self).added_size == old(self).added_size,
            final(self).created_objects == old(self).created_objects,
    {
        self.entries.push(
            PendingEntry {
                path,
                kind: EntryKind::Symlink,
                object_hash: None,
                size: 0,
                modified_at,
                unix_mode,
                link_target: Some(target),
                link_is_directory: Some(link_is_directory),
            },
        );
    }

    /// Records a directory.
    pub fn record_directory(&mut self, path: String, modified_at: Option<i64>, unix_mode: Option<u32>)
        ensures
            final(self).entries@ == old(self).entries@.push(
                PendingEntry {
                    path,
                    kind: EntryKind::Directory,
                    object_hash: None,
                    size: 0,
                    modified_at,
                    unix_mode,
                    link_target: None,
                    link_is_directory: None,
                },
            ),
            final(self).roots == old(self).roots,
            final(self).added_size == old(self).added_size,
            final(self).created_objects == old(self).created_objects,
    {
        self.entries.push(
            PendingEntry {
                path,
                kind: EntryKind::Directory,
                object_hash: None,
                size: 0,
                modified_at,
                unix_mode,
                link_target: None,
                link_is_directory: None,
            },
        );
    }

    /// Records a file stored as object `hash` of `size` bytes; when the
    /// object was added by this scan, it counts towards the added size and
    /// is remembered (once) as created.
    pub fn record_file(
        &mut self,
        path: String,
        modified_at: Option<i64>,
        unix_mode: Option<u32>,
        hash: String,
        size: u64,
        added: bool,
    )
        ensures
            final(self).entries@.len() == old(self).entries@.len() + 1,
            final(self).entries@.drop_last() == old(self).entries@,
            final(self).entries@.last().path == path,
            final(self).entries@.last().kind == EntryKind::File,
            final(self).entries@.last().object_hash matches Some(h) && h@ == hash@,
            final(self).entries@.last().size == size,
            final(self).entries@.last().modified_at == modified_at,
            final(self).entries@.last().unix_mode == unix_mode,
            final(self).entries@.last().link_target is None,
            final(self).entries@.last().link_is_directory is None,
            final(self).roots == old(self).roots,
            added ==> final(self).added_size == saturating_sum(old(self).added_size, size),
            !added ==> final(self).added_size == old(self).added_size,
            added ==> name_views(final(self).created_objects@) == if name_views(
                old(self).created_objects@,
            ).contains(hash@) {
                name_views(old(self).created_objects@)
            } else {
                name_views(old(self).created_objects@).push(hash@)
            },
            !added ==> final(self).created_objects == old(self).created_objects,
    {
        if added {
            let mut known = false;
            let mut i: usize = 0;
            while i < self.created_objects.len()
                invariant
                    i <= self.created_objects.len(),
                    known == exists|j: int| 0 <= j < i && self.created_objects@[j]@ == hash@,
                decreases self.created_objects.len() - i,
            {
                if self.created_objects[i] == hash {
                    known = true;
                }
                i += 1;
            }
            proof {
                let views = name_views(self.created_objects@);
                if known {
                    let j = choose|j: int| 0 <= j < i && self.created_objects@[j]@ == hash@;
                    assert(views[j] == hash@);
                } else {
                    assert forall|j: int| 0 <= j < views.len() implies views[j] != hash@ by {
                        assert(views[j] == self.created_objects@[j]@);
                    }
                }
            }
            if !known {
                let ghost before = name_views(self.created_objects@);
                self.created_objects.push(hash.clone());
                assert(name_views(self.created_objects@) =~= before.push(hash@));
            }
            self.added_size = if size > u64::MAX - self.added_size {
                u64::MAX
            } else {
                self.added_size + size
            };
        }
        self.entries.push(
            PendingEntry {
                path,
                kind: EntryKind::File,
                object_hash: Some(hash),
                size,
                modified_at,
                unix_mode,
                link_target: None,
                link_is_directory: None,
            },
        );
    }

    /// The recorded roots, the entries sorted by path and the added size.
    pub fn finish(self) -> (r: (Vec<SnapshotRoot>, Vec<PendingEntry>, u64))
        ensures
            r.0 == self.roots,
            r.1@ == sorted_by_path(self.entries@),
            r.2 == self.added_size,
    {
        (self.roots, sort_entries_by_path(self.entries), self.added_size)
    }
}

/// The path of the child `name` of the recorded directory `relative`.
pub fn child_relative_path(relative: &str, name: &str) -> (r: String)
    ensures
        r@ == relative@ + "/"@ + name@,
{
    let with_slash = concat_str(relative, "/");
    concat_str(with_slash.as_str(), name)
}

} // verus!

verus! {

proof fn lemma_totals_concat(a: Seq<PendingEntry>, b: Seq<PendingEntry>, kind: EntryKind)
    ensures
        count_kind(a + b, kind) == count_kind(a, kind) + count_kind(b, kind),
        total_size(a + b) == total_size(a) + total_size(b),
    decreases b.len(),
{
    if b.len() == 0 {
        assert(a + b =~= a);
    } else {
        lemma_totals_concat(a, b.drop_last(), kind);
        assert((a + b).drop_last() =~= a + b.drop_last());
        assert((a + b).last() == b.last());
    }
}

proof fn lemma_insert_by_path_totals(sorted: Seq<PendingEntry>, e: PendingEntry, kind: EntryKind)
    ensures
        count_kind(insert_by_path(sorted, e), kind) == count_kind(sorted, kind) + if e.kind
            == kind {
            1nat
        } else {
            0nat
        },
        total_size(insert_by_path(sorted, e)) == total_size(sorted) + e.size,
    decreases sorted.len(),
{
    let one = seq![e];
    assert(one.drop_last() =~= Seq::<PendingEntry>::empty());
    assert(count_kind(one.drop_last(), kind) == 0);
    assert(total_size(one.drop_last()) == 0);
    if sorted.len() == 0 {
        assert(count_kind(sorted, kind) == 0);
    } else if chars_lt(e.path@, sorted[0].path@) {
        lemma_totals_concat(one, sorted, kind);
    } else {
        let rest = sorted.drop_first();
        let head = seq![sorted[0]];
        assert(head.drop_last() =~= Seq::<PendingEntry>::empty());
        assert(count_kind(head.drop_last(), kind) == 0);
        assert(total_size(head.drop_last()) == 0);
        lemma_insert_by_path_totals(rest, e, kind);
        lemma_totals_concat(head, insert_by_path(rest, e), kind);
        lemma_totals_concat(head, rest, kind);
        assert(head + rest =~= sorted);
    }
}

/// Sorting the entries by path changes none of the snapshot totals: the
/// number of entries of each kind and their total size stay the same.
pub proof fn law_sorting_keeps_snapshot_totals(entries: Seq<PendingEntry>, kind: EntryKind)
    ensures
        count_kind(sorted_by_path(entries), kind) == count_kind(entries, kind),
        total_size(sorted_by_path(entries)) == total_size(entries),
    decreases entries.len(),
{
    if entries.len() > 0 {
        law_sorting_keeps_snapshot_totals(entries.drop_last(), kind);
        lemma_insert_by_path_totals(sorted_by_path(entries.drop_last()), entries.last(), kind);
    }
}

/// A scan remembers each object it created once: adding a name to a list
/// without repeats, unless it is there, keeps it without repeats.
pub proof fn law_created_objects_stay_distinct(created: Seq<Seq<char>>, hash: Seq<char>)
    requires
        created.no_duplicates(),
    ensures
        (if created.contains(hash) {
            created
        } else {
            created.push(hash)
        }).no_duplicates(),
{
    if !created.contains(hash) {
        let r = created.push(hash);
        assert forall|i: int, j: int| 0 <= i < r.len() && 0 <= j < r.len() && i != j implies r[i]
            != r[j] by {
            if i == created.len() {
                assert(created[j] == r[j]);
            } else if j == created.len() {
                assert(created[i] == r[i]);
            }
        }
    }
}

} // verus!

verus! {

/// The outcome of a backup cancellation check: an error once canceled.
pub fn backup_cancellation_outcome(canceled: bool) -> (r: Result<(), ErrorKind>)
    ensures
        !canceled ==> r is Ok,
        canceled ==> (r matches Err(ErrorKind::OtherError(m)) && m@ == "Backup was canceled"@),
{
    if canceled {
        return Err(ErrorKind::OtherError("Backup was canceled".to_string()));
    }
    Ok(())
}

/// Fails once cancellation of the backup was requested.
pub fn check_backup_canceled(cancellation: &tokio_util::sync::CancellationToken) -> (r: Result<
    (),
    ErrorKind,
>)
    ensures
        r is Ok || (r matches Err(ErrorKind::OtherError(m)) && m@ == "Backup was canceled"@),
{
    backup_cancellation_outcome(crate::content_change::token_is_cancelled(cancellation))
}

/// Refuses to back up or restore an instance that is running.
pub fn check_instance_closed(running: bool, restoring: bool) -> (r: Result<(), ErrorKind>)
    ensures
        !running ==> r is Ok,
        running && !restoring ==> (r matches Err(ErrorKind::InputError(m)) && m@
            == "Close the instance before creating a backup"@),
        running && restoring ==> (r matches Err(ErrorKind::InputError(m)) && m@
            == "Close the instance before restoring a backup"@),
{
    if !running {
        return Ok(());
    }
    if restoring {
        Err(crate::error::input_error("Close the instance before restoring a backup"))
    } else {
        Err(crate::error::input_error("Close the instance before creating a backup"))
    }
}

/// Refuses a scanned entry that is neither a link, a directory nor a
/// regular file.
pub fn check_regular_file(is_file: bool, path: &str) -> (r: Result<(), ErrorKind>)
    ensures
        is_file ==> r is Ok,
        !is_file ==> (r matches Err(ErrorKind::FSError(m)) && m@ == "Unsupported backup entry: "@
            + path@),
{
    if is_file {
        return Ok(());
    }
    Err(ErrorKind::FSError(concat_str("Unsupported backup entry: ", path)))
}

/// The kind of a stored entry to restore, from the name it was recorded
/// under; an unknown name is refused.
pub fn restored_entry_kind(name: &str) -> (r: Result<EntryKind, ErrorKind>)
    ensures
        r matches Ok(k) ==> crate::backup::entry_kind_name(k) == name@,
        (r is Err) == (forall|k: EntryKind| crate::backup::entry_kind_name(k) != name@),
        r matches Err(e) ==> (e matches ErrorKind::FSError(m) && m@
            == "Unsupported backup entry kind: "@ + name@),
{
    match crate::backup::entry_kind_from_name(name) {
        Some(k) => Ok(k),
        None => Err(ErrorKind::FSError(concat_str("Unsupported backup entry kind: ", name))),
    }
}

/// What restoring one selected directory does: set the current directory
/// aside when there is one, and put the restored copy in place when the
/// directory existed in the snapshot and its copy was staged.
#[derive(Clone, Copy, Debug, PartialEq, Eq, Structural)]
pub struct RestoreStep {
    pub set_aside_current: bool,
    pub install_staged: bool,
}

/// Decides how one selected directory is restored.
pub fn restore_step(current_exists: bool, existed: bool, staged_exists: bool) -> (r: RestoreStep)
    ensures
        r.set_aside_current == current_exists,
        r.install_staged == (existed && staged_exists),
{
    RestoreStep { set_aside_current: current_exists, install_staged: existed && staged_exists }
}

} // verus!

verus! {

/// What a restore has changed so far, so that a failed restore can be
/// undone: the directories set aside (where each went, and where it came
/// from) and the restored copies put in place.
#[derive(Debug)]
pub struct RestoreJournal {
    pub set_aside: Vec<(String, String)>,
    pub installed: Vec<String>,
}

/// What undoing a restore does, in order: remove every restored copy, the
/// last one first; then move every directory set aside back where it came
/// from, the last one first.
#[derive(Debug)]
pub struct RestoreUndo {
    pub remove: Vec<String>,
    pub move_back: Vec<(String, String)>,
}

impl RestoreJournal {
    /// A restore that has changed nothing.
    pub fn new() -> (r: RestoreJournal)
        ensures
            r.set_aside@.len() == 0,
            r.installed@.len() == 0,
    {
        RestoreJournal { set_aside: Vec::new(), installed: Vec::new() }
    }

    /// Records that the directory at `current` was moved to `rollback`.
    pub fn record_set_aside(&mut self, rollback: String, current: String)
        ensures
            final(self).set_aside@ == old(self).set_aside@.push((rollback, current)),
            final(self).installed == old(self).installed,
    {
        self.set_aside.push((rollback, current));
    }

    /// Records that a restored copy was put in place at `current`.
    pub fn record_installed(&mut self, current: String)
        ensures
            final(self).installed@ == old(self).installed@.push(current),
            final(self).set_aside == old(self).set_aside,
    {
        self.installed.push(current);
    }

    /// How to undo what was recorded: the restored copies removed and the
    /// directories set aside moved back, each in reverse order.
    pub fn undo(self) -> (r: RestoreUndo)
        ensures
            r.remove@ == self.installed@.reverse(),
            r.move_back@ == self.set_aside@.reverse(),
    {
        let mut installed = self.installed;
        let mut set_aside = self.set_aside;
        let ghost all_installed = installed@;
        let ghost all_set_aside = set_aside@;
        let mut remove: Vec<String> = Vec::new();
        while installed.len() > 0
            invariant
                remove@ + installed@.reverse() == all_installed.reverse(),
            decreases installed.len(),
        {
            let ghost before = installed@;
            let p = installed.pop().unwrap();
            assert(before.reverse() =~= seq![p] + installed@.reverse());
            remove.push(p);
            assert(remove@ + installed@.reverse() =~= remove@.drop_last() + before.reverse());
        }
        assert(installed@.reverse() =~= Seq::<String>::empty());
        assert(remove@ =~= remove@ + installed@.reverse());
        let mut move_back: Vec<(String, String)> = Vec::new();
        while set_aside.len() > 0
            invariant
                move_back@ + set_aside@.reverse() == all_set_aside.reverse(),
            decreases set_aside.len(),
        {
            let ghost before = set_aside@;
            let m = set_aside.pop().unwrap();
            assert(before.reverse() =~= seq![m] + set_aside@.reverse());
            move_back.push(m);
            assert(move_back@ + set_aside@.reverse() =~= move_back@.drop_last() + before.reverse());
        }
        assert(set_aside@.reverse() =~= Seq::<(String, String)>::empty());
        assert(move_back@ =~= move_back@ + set_aside@.reverse());
        RestoreUndo { remove, move_back }
    }
}

/// Undoing a failed restore moves back every directory it set aside, each
/// to where it came from, and removes every restored copy it put in place.
pub proof fn law_undo_puts_back_everything_set_aside(
    set_aside: Seq<(String, String)>,
    installed: Seq<String>,
    k: int,
)
    requires
        0 <= k < set_aside.len(),
    ensures
        set_aside.reverse().contains(set_aside[k]),
        forall|j: int| 0 <= j < installed.len() ==> installed.reverse().contains(#[trigger] installed[j]),
{
    assert(set_aside.reverse()[set_aside.len() - 1 - k] == set_aside[k]);
    assert forall|j: int| 0 <= j < installed.len() implies installed.reverse().contains(
        #[trigger] installed[j],
    ) by {
        assert(installed.reverse()[installed.len() - 1 - j] == installed[j]);
    }
}

} // verus!
