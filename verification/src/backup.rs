//! Instance backups: the values a backup repository reports, the rules
//! that decide whether an instance can be backed up, and the decisions
//! taken while snapshots are created, listed, restored and collected.

use vstd::prelude::*;

use crate::error::ErrorKind;
use crate::text::{chars_less, chars_lt, chars_of, chars_equal, is_blank, lemma_chars_lt_total, string_from_chars, trim_chars};

verus! {

/// Whether an instance can be backed up, and why not.
#[derive(Clone, Copy, Debug, PartialEq, Eq, Structural)]
pub enum InstanceBackupEligibility {
    Eligible,
    NotInstalled,
    SymlinkInstance,
    DirectLinkedInstance,
    ExternalGameDirectory,
    RootMissing,
    RootIsLink,
}

/// The state of the backup repository.
#[derive(Clone, Debug)]
pub struct BackupRepositoryStatus {
    pub path: String,
    pub initialized: bool,
    pub available: bool,
    pub stored_size: u64,
    pub logical_size: u64,
    pub snapshot_count: u64,
    pub error: Option<String>,
}

/// A directory at the top of an instance that can be selected for backup.
#[derive(Clone, Debug)]
pub struct BackupDirectoryEntry {
    pub path: String,
    pub name: String,
    pub exists: bool,
    pub is_symlink: bool,
    pub link_target: Option<String>,
}

/// The backup settings of one instance.
#[derive(Clone, Debug)]
pub struct InstanceBackupConfig {
    pub instance_id: String,
    pub enabled: bool,
    pub eligibility: InstanceBackupEligibility,
    pub selected_directories: Vec<String>,
    pub snapshot_count: u64,
}

/// One snapshot of an instance.
#[derive(Clone, Debug)]
pub struct BackupSnapshot {
    pub id: String,
    pub instance_id: String,
    pub instance_name: String,
    pub created_at: i64,
    pub file_count: u64,
    pub symlink_count: u64,
    pub logical_size: u64,
    pub added_size: u64,
}

/// What deleting an instance removes from the repository.
#[derive(Clone, Debug)]
pub struct BackupDeleteSummary {
    pub snapshot_count: u64,
    pub logical_size: u64,
}

/// The kind of a recorded snapshot entry.
#[derive(Clone, Copy, Debug, PartialEq, Eq, Structural)]
pub enum EntryKind {
    File,
    Directory,
    Symlink,
}

/// The name under which an entry kind is recorded.
pub open spec fn entry_kind_name(kind: EntryKind) -> Seq<char> {
    match kind {
        EntryKind::File => "file"@,
        EntryKind::Directory => "directory"@,
        EntryKind::Symlink => "symlink"@,
    }
}

impl EntryKind {
    /// The name under which the kind is recorded.
    pub fn as_str(self) -> (s: &'static str)
        ensures
            s@ == entry_kind_name(self),
    {
        match self {
            EntryKind::File => "file",
            EntryKind::Directory => "directory",
            EntryKind::Symlink => "symlink",
        }
    }
}

/// The kind recorded under `name`, if any.
pub fn entry_kind_from_name(name: &str) -> (r: Option<EntryKind>)
    ensures
        r matches Some(k) ==> entry_kind_name(k) == name@,
        r is None ==> forall|k: EntryKind| entry_kind_name(k) != name@,
{
    let chars = chars_of(name);
    proof {
        reveal_strlit("file");
        reveal_strlit("directory");
        reveal_strlit("symlink");
    }
    if crate::text::chars_equal(&chars, &chars_of("file")) {
        Some(EntryKind::File)
    } else if crate::text::chars_equal(&chars, &chars_of("directory")) {
        Some(EntryKind::Directory)
    } else if crate::text::chars_equal(&chars, &chars_of("symlink")) {
        Some(EntryKind::Symlink)
    } else {
        proof {
            assert forall|k: EntryKind| entry_kind_name(k) != name@ by {
                match k {
                    EntryKind::File => {},
                    EntryKind::Directory => {},
                    EntryKind::Symlink => {},
                }
            }
        }
        None
    }
}

/// Reading back the name of a kind gives the kind.
pub proof fn law_entry_kind_name_round_trip(kind: EntryKind, other: EntryKind)
    ensures
        entry_kind_name(kind) == entry_kind_name(other) ==> kind == other,
{
    reveal_strlit("file");
    reveal_strlit("directory");
    reveal_strlit("symlink");
    if entry_kind_name(kind) == entry_kind_name(other) && kind != other {
        assert(entry_kind_name(kind).len() != entry_kind_name(other).len() || entry_kind_name(
            kind,
        )[0] != entry_kind_name(other)[0]);
    }
}

/// The name of a variant, as `Debug` prints it.
pub open spec fn eligibility_name(e: InstanceBackupEligibility) -> Seq<char> {
    match e {
        InstanceBackupEligibility::Eligible => "Eligible"@,
        InstanceBackupEligibility::NotInstalled => "NotInstalled"@,
        InstanceBackupEligibility::SymlinkInstance => "SymlinkInstance"@,
        InstanceBackupEligibility::DirectLinkedInstance => "DirectLinkedInstance"@,
        InstanceBackupEligibility::ExternalGameDirectory => "ExternalGameDirectory"@,
        InstanceBackupEligibility::RootMissing => "RootMissing"@,
        InstanceBackupEligibility::RootIsLink => "RootIsLink"@,
    }
}

impl InstanceBackupEligibility {
    /// The name of the variant.
    pub fn name(&self) -> (s: &'static str)
        ensures
            s@ == eligibility_name(*self),
    {
        match self {
            InstanceBackupEligibility::Eligible => "Eligible",
            InstanceBackupEligibility::NotInstalled => "NotInstalled",
            InstanceBackupEligibility::SymlinkInstance => "SymlinkInstance",
            InstanceBackupEligibility::DirectLinkedInstance => "DirectLinkedInstance",
            InstanceBackupEligibility::ExternalGameDirectory => "ExternalGameDirectory",
            InstanceBackupEligibility::RootMissing => "RootMissing",
            InstanceBackupEligibility::RootIsLink => "RootIsLink",
        }
    }
}

/// What the instance record says about eligibility, before the instance
/// directory is looked at: the first reason that rules it out, if any.
pub open spec fn record_ineligibility(
    installed: bool,
    symlink_instance: bool,
    direct_linked: bool,
    game_dir_override: Option<Seq<char>>,
) -> Option<InstanceBackupEligibility> {
    if !installed {
        Some(InstanceBackupEligibility::NotInstalled)
    } else if symlink_instance {
        Some(InstanceBackupEligibility::SymlinkInstance)
    } else if direct_linked {
        Some(InstanceBackupEligibility::DirectLinkedInstance)
    } else if game_dir_override matches Some(d) && !is_blank(d) {
        Some(InstanceBackupEligibility::ExternalGameDirectory)
    } else {
        None
    }
}

/// Whether `s` is empty or white space only.
pub fn str_is_blank(s: &str) -> (r: bool)
    ensures
        r == is_blank(s@),
{
    trim_chars(&chars_of(s)).len() == 0
}

/// The reason, if any, that the instance record rules out backups: not
/// installed, a symbolic-link instance, a direct-linked instance, or a game
/// directory elsewhere (in that order).
pub fn eligibility_from_record(
    installed: bool,
    symlink_instance: bool,
    direct_linked: bool,
    game_dir_override: &Option<String>,
) -> (r: Option<InstanceBackupEligibility>)
    ensures
        r == record_ineligibility(
            installed,
            symlink_instance,
            direct_linked,
            match game_dir_override {
                Some(d) => Some(d@),
                None => None,
            },
        ),
{
    if !installed {
        return Some(InstanceBackupEligibility::NotInstalled);
    }
    if symlink_instance {
        return Some(InstanceBackupEligibility::SymlinkInstance);
    }
    if direct_linked {
        return Some(InstanceBackupEligibility::DirectLinkedInstance);
    }
    match game_dir_override {
        Some(d) => {
            if !str_is_blank(d.as_str()) {
                return Some(InstanceBackupEligibility::ExternalGameDirectory);
            }
        },
        None => {},
    }
    None
}

/// What was found at the instance directory.
#[derive(Clone, Copy, Debug, PartialEq, Eq, Structural)]
pub enum RootState {
    Missing,
    Link,
    Present,
}

/// The eligibility once the record allows backups, from the instance
/// directory: missing, a link, or eligible.
pub fn eligibility_from_root(root: RootState) -> (r: InstanceBackupEligibility)
    ensures
        root == RootState::Missing ==> r == InstanceBackupEligibility::RootMissing,
        root == RootState::Link ==> r == InstanceBackupEligibility::RootIsLink,
        root == RootState::Present ==> r == InstanceBackupEligibility::Eligible,
{
    match root {
        RootState::Missing => InstanceBackupEligibility::RootMissing,
        RootState::Link => InstanceBackupEligibility::RootIsLink,
        RootState::Present => InstanceBackupEligibility::Eligible,
    }
}

/// An input error whose message is `prefix` followed by `detail`.
pub fn input_error_with(prefix: &str, detail: &str) -> (e: ErrorKind)
    ensures
        e matches ErrorKind::InputError(m) && m@ == prefix@ + detail@,
{
    ErrorKind::InputError(concat_str(prefix, detail))
}

/// `a` followed by `b`.
pub fn concat_str(a: &str, b: &str) -> (r: String)
    ensures
        r@ == a@ + b@,
{
    let mut chars = chars_of(a);
    let mut tail = chars_of(b);
    chars.append(&mut tail);
    string_from_chars(&chars)
}

/// Refuses backups of an instance that is not eligible, naming the reason.
pub fn require_eligible(eligibility: InstanceBackupEligibility) -> (r: Result<(), ErrorKind>)
    ensures
        eligibility == InstanceBackupEligibility::Eligible ==> r is Ok,
        eligibility != InstanceBackupEligibility::Eligible ==> (r matches Err(
            ErrorKind::InputError(m),
        ) && m@ == "Instance is not eligible for backups: "@ + eligibility_name(eligibility)),
{
    if eligibility == InstanceBackupEligibility::Eligible {
        return Ok(());
    }
    Err(input_error_with("Instance is not eligible for backups: ", eligibility.name()))
}

/// `n` clamped at zero.
pub open spec fn clamp_count(n: i64) -> u64 {
    if n < 0 {
        0
    } else {
        n as u64
    }
}

/// `n` clamped at zero, as an unsigned count.
pub fn non_negative(n: i64) -> (r: u64)
    ensures
        r == clamp_count(n),
{
    if n < 0 {
        0
    } else {
        n as u64
    }
}

/// What was learned while looking at the repository.
#[derive(Debug)]
pub enum RepositoryProbe {
    /// Opening the repository failed; `initialized` tells whether its
    /// database file exists.
    OpenFailed { initialized: bool, message: String },
    /// There is no repository yet.
    Missing,
    /// The repository holds `snapshot_count` snapshots of `logical_size`
    /// bytes, stored in `stored_size` bytes of referenced objects.
    Opened { snapshot_count: i64, logical_size: i64, stored_size: i64 },
}

/// The status reported for the repository at `path`.
pub fn repository_status_from(path: String, probe: RepositoryProbe) -> (r: BackupRepositoryStatus)
    ensures
        r.path == path,
        match probe {
            RepositoryProbe::OpenFailed { initialized, message } => r.initialized == initialized
                && !r.available && r.stored_size == 0 && r.logical_size == 0 && r.snapshot_count
                == 0 && r.error == Some(message),
            RepositoryProbe::Missing => !r.initialized && r.available && r.stored_size == 0
                && r.logical_size == 0 && r.snapshot_count == 0 && r.error is None,
            RepositoryProbe::Opened { snapshot_count, logical_size, stored_size } => r.initialized
                && r.available && r.stored_size == clamp_count(stored_size) && r.logical_size
                == clamp_count(logical_size) && r.snapshot_count == clamp_count(snapshot_count)
                && r.error is None,
        },
{
    match probe {
        RepositoryProbe::OpenFailed { initialized, message } => BackupRepositoryStatus {
            path,
            initialized,
            available: false,
            stored_size: 0,
            logical_size: 0,
            snapshot_count: 0,
            error: Some(message),
        },
        RepositoryProbe::Missing => BackupRepositoryStatus {
            path,
            initialized: false,
            available: true,
            stored_size: 0,
            logical_size: 0,
            snapshot_count: 0,
            error: None,
        },
        RepositoryProbe::Opened { snapshot_count, logical_size, stored_size } => {
            BackupRepositoryStatus {
                path,
                initialized: true,
                available: true,
                stored_size: non_negative(stored_size),
                logical_size: non_negative(logical_size),
                snapshot_count: non_negative(snapshot_count),
                error: None,
            }
        },
    }
}

/// What the repository holds about one instance.
#[derive(Debug)]
pub struct InstanceRecord {
    pub enabled: bool,
    pub selected_directories: Vec<String>,
    pub snapshot_count: i64,
}

/// The backup settings reported for an instance: disabled with nothing
/// selected when there is no repository; otherwise what the repository
/// holds, the selections only when backups are enabled.
pub fn instance_config_from(
    instance_id: String,
    eligibility: InstanceBackupEligibility,
    record: Option<InstanceRecord>,
) -> (r: InstanceBackupConfig)
    ensures
        r.instance_id == instance_id,
        r.eligibility == eligibility,
        match record {
            None => !r.enabled && r.selected_directories@.len() == 0 && r.snapshot_count == 0,
            Some(rec) => r.enabled == rec.enabled && r.snapshot_count == clamp_count(
                rec.snapshot_count,
            ) && if rec.enabled {
                r.selected_directories == rec.selected_directories
            } else {
                r.selected_directories@.len() == 0
            },
        },
{
    match record {
        None => InstanceBackupConfig {
            instance_id,
            enabled: false,
            eligibility,
            selected_directories: Vec::new(),
            snapshot_count: 0,
        },
        Some(rec) => {
            let selected_directories = if rec.enabled {
                rec.selected_directories
            } else {
                Vec::new()
            };
            InstanceBackupConfig {
                instance_id,
                enabled: rec.enabled,
                eligibility,
                selected_directories,
                snapshot_count: non_negative(rec.snapshot_count),
            }
        },
    }
}

/// A stored snapshot row, as read from the repository.
#[derive(Debug)]
pub struct SnapshotRow {
    pub id: String,
    pub instance_id: String,
    pub instance_name: String,
    pub created_at: i64,
    pub file_count: i64,
    pub symlink_count: i64,
    pub logical_size: i64,
    pub added_size: i64,
}

/// The snapshot a stored row describes; negative counts read as zero.
pub fn snapshot_from_row(row: SnapshotRow) -> (r: BackupSnapshot)
    ensures
        r.id == row.id,
        r.instance_id == row.instance_id,
        r.instance_name == row.instance_name,
        r.created_at == row.created_at,
        r.file_count == clamp_count(row.file_count),
        r.symlink_count == clamp_count(row.symlink_count),
        r.logical_size == clamp_count(row.logical_size),
        r.added_size == clamp_count(row.added_size),
{
    BackupSnapshot {
        id: row.id,
        instance_id: row.instance_id,
        instance_name: row.instance_name,
        created_at: row.created_at,
        file_count: non_negative(row.file_count),
        symlink_count: non_negative(row.symlink_count),
        logical_size: non_negative(row.logical_size),
        added_size: non_negative(row.added_size),
    }
}

/// What deleting an instance would remove: `count` snapshots of `size`
/// bytes, negative values read as zero.
pub fn delete_summary_from(count: i64, size: i64) -> (r: BackupDeleteSummary)
    ensures
        r.snapshot_count == clamp_count(count),
        r.logical_size == clamp_count(size),
{
    BackupDeleteSummary { snapshot_count: non_negative(count), logical_size: non_negative(size) }
}


/// The value of a `BackupDirectoryEntry`, with strings as character sequences.
pub struct DirectoryEntryView {
    pub path: Seq<char>,
    pub name: Seq<char>,
    pub exists: bool,
    pub is_symlink: bool,
    pub link_target: Option<Seq<char>>,
}

impl View for BackupDirectoryEntry {
    type V = DirectoryEntryView;

    open spec fn view(&self) -> DirectoryEntryView {
        DirectoryEntryView {
            path: self.path@,
            name: self.name@,
            exists: self.exists,
            is_symlink: self.is_symlink,
            link_target: match self.link_target {
                Some(t) => Some(t@),
                None => None,
            },
        }
    }
}

/// The values of a list of directory entries.
pub open spec fn entry_views(v: Seq<BackupDirectoryEntry>) -> Seq<DirectoryEntryView> {
    Seq::new(v.len(), |i: int| v[i]@)
}

/// `e` stored in the name-ordered list `sorted`, replacing an entry of the
/// same name (as a map keyed by name does).
pub open spec fn upsert_entry(sorted: Seq<DirectoryEntryView>, e: DirectoryEntryView) -> Seq<
    DirectoryEntryView,
>
    decreases sorted.len(),
{
    if sorted.len() == 0 {
        seq![e]
    } else if sorted[0].name == e.name {
        seq![e] + sorted.drop_first()
    } else if chars_lt(e.name, sorted[0].name) {
        seq![e] + sorted
    } else {
        seq![sorted[0]] + upsert_entry(sorted.drop_first(), e)
    }
}

/// Every entry of `found` stored in turn, the last one of a name winning.
pub open spec fn upsert_all(found: Seq<DirectoryEntryView>) -> Seq<DirectoryEntryView>
    decreases found.len(),
{
    if found.len() == 0 {
        Seq::<DirectoryEntryView>::empty()
    } else {
        upsert_entry(upsert_all(found.drop_last()), found.last())
    }
}

/// `e` stored in `sorted` unless an entry of its name is there.
pub open spec fn insert_if_absent(sorted: Seq<DirectoryEntryView>, e: DirectoryEntryView) -> Seq<
    DirectoryEntryView,
> {
    if exists|i: int| 0 <= i < sorted.len() && sorted[i].name == e.name {
        sorted
    } else {
        upsert_entry(sorted, e)
    }
}

/// The placeholder for a default directory that does not exist.
pub open spec fn default_entry(name: Seq<char>) -> DirectoryEntryView {
    DirectoryEntryView { path: name, name, exists: false, is_symlink: false, link_target: None }
}

/// The top-level directories offered for selection: the directories found,
/// one per name, with `config` and `saves` always offered, ordered by name.
pub open spec fn directory_listing(found: Seq<DirectoryEntryView>) -> Seq<DirectoryEntryView> {
    insert_if_absent(
        insert_if_absent(upsert_all(found), default_entry("config"@)),
        default_entry("saves"@),
    )
}

proof fn lemma_upsert_at(sorted: Seq<DirectoryEntryView>, e: DirectoryEntryView, k: int)
    requires
        0 <= k <= sorted.len(),
        forall|j: int|
            0 <= j < k ==> chars_lt(#[trigger] sorted[j].name, e.name) && sorted[j].name != e.name,
        k < sorted.len() ==> !chars_lt(sorted[k].name, e.name),
    ensures
        upsert_entry(sorted, e) == if k < sorted.len() && sorted[k].name == e.name {
            sorted.update(k, e)
        } else {
            sorted.insert(k, e)
        },
    decreases sorted.len(),
{
    if sorted.len() == 0 {
        assert(sorted.insert(k, e) =~= seq![e]);
    } else if k == 0 {
        if sorted[0].name == e.name {
            assert(sorted.update(0, e) =~= seq![e] + sorted.drop_first());
        } else {
            lemma_chars_lt_total(sorted[0].name, e.name);
            assert(sorted.insert(0, e) =~= seq![e] + sorted);
        }
    } else {
        let rest = sorted.drop_first();
        assert forall|j: int| 0 <= j < k - 1 implies chars_lt(#[trigger] rest[j].name, e.name)
            && rest[j].name != e.name by {
            assert(rest[j] == sorted[j + 1]);
        }
        assert(!chars_lt(e.name, sorted[0].name)) by {
            crate::text::lemma_chars_lt_asymmetric(e.name, sorted[0].name);
        }
        lemma_upsert_at(rest, e, k - 1);
        if k < sorted.len() && sorted[k].name == e.name {
            assert(seq![sorted[0]] + rest.update(k - 1, e) =~= sorted.update(k, e));
        } else {
            assert(seq![sorted[0]] + rest.insert(k - 1, e) =~= sorted.insert(k, e));
        }
    }
}

/// Where `name` belongs in `sorted`: after every entry whose name is smaller.
fn position_by_name(sorted: &Vec<BackupDirectoryEntry>, name: &str) -> (k: usize)
    ensures
        k <= sorted.len(),
        forall|j: int|
            0 <= j < k ==> chars_lt(#[trigger] sorted@[j]@.name, name@) && sorted@[j]@.name
                != name@,
        k < sorted.len() ==> !chars_lt(sorted@[k as int]@.name, name@),
{
    let key = chars_of(name);
    let mut k: usize = 0;
    while k < sorted.len() && chars_less(&chars_of(sorted[k].name.as_str()), &key)
        invariant
            k <= sorted.len(),
            key@ == name@,
            forall|j: int|
                0 <= j < k ==> chars_lt(#[trigger] sorted@[j]@.name, name@) && sorted@[j]@.name
                    != name@,
        decreases sorted.len() - k,
    {
        proof {
            crate::text::lemma_chars_lt_irreflexive(name@);
        }
        k += 1;
    }
    k
}

/// Stores `e` in the name-ordered list `sorted`, replacing an entry of the
/// same name.
fn upsert_directory_entry(sorted: &mut Vec<BackupDirectoryEntry>, e: BackupDirectoryEntry)
    ensures
        entry_views(final(sorted)@) == upsert_entry(entry_views(old(sorted)@), e@),
{
    let ghost before = entry_views(sorted@);
    let k = position_by_name(sorted, e.name.as_str());
    proof {
        lemma_upsert_at(before, e@, k as int);
    }
    let ghost ev = e@;
    if k < sorted.len() && sorted[k].name == e.name {
        sorted.set(k, e);
        assert(entry_views(sorted@) =~= before.update(k as int, ev));
    } else {
        sorted.insert(k, e);
        assert(entry_views(sorted@) =~= before.insert(k as int, ev));
    }
}

/// Whether some entry of `sorted` is named `name`.
fn has_entry_named(sorted: &Vec<BackupDirectoryEntry>, name: &str) -> (r: bool)
    ensures
        r == exists|i: int| 0 <= i < sorted.len() && entry_views(sorted@)[i].name == name@,
{
    let key = chars_of(name);
    let mut i: usize = 0;
    while i < sorted.len()
        invariant
            i <= sorted.len(),
            key@ == name@,
            forall|j: int| 0 <= j < i ==> (#[trigger] sorted@[j])@.name != name@,
        decreases sorted.len() - i,
    {
        if chars_equal(&chars_of(sorted[i].name.as_str()), &key) {
            assert(entry_views(sorted@)[i as int].name == name@);
            return true;
        }
        i += 1;
    }
    assert forall|j: int| 0 <= j < sorted.len() implies entry_views(sorted@)[j].name != name@ by {
        assert(entry_views(sorted@)[j] == sorted@[j]@);
    }
    false
}

/// Adds the placeholder for the default directory `name` unless a
/// directory of that name is listed.
fn add_default_directory(sorted: &mut Vec<BackupDirectoryEntry>, name: &str)
    ensures
        entry_views(final(sorted)@) == insert_if_absent(
            entry_views(old(sorted)@),
            default_entry(name@),
        ),
{
    if !has_entry_named(sorted, name) {
        let e = BackupDirectoryEntry {
            path: name.to_string(),
            name: name.to_string(),
            exists: false,
            is_symlink: false,
            link_target: None,
        };
        assert(e@ == default_entry(name@));
        upsert_directory_entry(sorted, e);
    }
}

/// The top-level directories offered for selection (see
/// `directory_listing`), from the directories found in the instance.
pub fn list_directory_entries(found: Vec<BackupDirectoryEntry>) -> (r: Vec<BackupDirectoryEntry>)
    ensures
        entry_views(r@) == directory_listing(entry_views(found@)),
{
    let ghost given = entry_views(found@);
    let ghost n = found.len();
    let mut rest = found;
    let mut out: Vec<BackupDirectoryEntry> = Vec::new();
    let mut i: usize = 0;
    assert(given.take(0) =~= Seq::<DirectoryEntryView>::empty());
    assert(entry_views(out@) =~= Seq::<DirectoryEntryView>::empty());
    while rest.len() > 0
        invariant
            i + rest.len() == n,
            n <= usize::MAX,
            given.len() == n,
            entry_views(rest@) == given.skip(i as int),
            entry_views(out@) == upsert_all(given.take(i as int)),
        decreases rest.len(),
    {
        let ghost before_rest = rest@;
        let e = rest.remove(0);
        assert(e@ == entry_views(before_rest)[0]);
        assert(given.take(i + 1).drop_last() =~= given.take(i as int));
        assert(given.take(i + 1).last() == given[i as int]);
        upsert_directory_entry(&mut out, e);
        assert(rest@ =~= before_rest.subrange(1, before_rest.len() as int));
        assert forall|j: int| 0 <= j < rest@.len() implies entry_views(rest@)[j] == given.skip(
            i + 1,
        )[j] by {
            assert(rest@[j] == before_rest[j + 1]);
            assert(entry_views(before_rest)[j + 1] == given.skip(i as int)[j + 1]);
        }
        assert(entry_views(rest@) =~= given.skip(i + 1));
        i += 1;
    }
    assert(given.take(i as int) =~= given);
    add_default_directory(&mut out, "config");
    add_default_directory(&mut out, "saves");
    out
}

} // verus!

verus! {

/// Entry names strictly increase.
pub open spec fn names_increasing(s: Seq<DirectoryEntryView>) -> bool {
    forall|i: int, j: int| 0 <= i < j < s.len() ==> chars_lt(s[i].name, s[j].name)
}

/// Some entry of `s` is named `name`.
pub open spec fn has_entry_name(s: Seq<DirectoryEntryView>, name: Seq<char>) -> bool {
    exists|i: int| 0 <= i < s.len() && s[i].name == name
}

proof fn lemma_upsert_entry_ordered(sorted: Seq<DirectoryEntryView>, e: DirectoryEntryView)
    requires
        names_increasing(sorted),
    ensures
        names_increasing(upsert_entry(sorted, e)),
        forall|n: Seq<char>|
            #[trigger] has_entry_name(upsert_entry(sorted, e), n) == (has_entry_name(sorted, n)
                || n == e.name),
    decreases sorted.len(),
{
    let r = upsert_entry(sorted, e);
    if sorted.len() == 0 {
        assert forall|n: Seq<char>| has_entry_name(r, n) == (has_entry_name(sorted, n) || n
            == e.name) by {
            if n == e.name {
                assert(r[0].name == n);
            }
        }
    } else {
        let rest = sorted.drop_first();
        assert forall|i: int, j: int| 0 <= i < j < rest.len() implies chars_lt(
            rest[i].name,
            rest[j].name,
        ) by {
            assert(rest[i] == sorted[i + 1] && rest[j] == sorted[j + 1]);
        }
        if sorted[0].name == e.name {
            assert(r == seq![e] + rest);
            assert forall|i: int, j: int| 0 <= i < j < r.len() implies chars_lt(
                r[i].name,
                r[j].name,
            ) by {
                assert(r[j] == sorted[j]);
                if i > 0 {
                    assert(r[i] == sorted[i]);
                }
            }
            assert forall|n: Seq<char>| has_entry_name(r, n) == (has_entry_name(sorted, n) || n
                == e.name) by {
                if has_entry_name(sorted, n) {
                    let i = choose|i: int| 0 <= i < sorted.len() && sorted[i].name == n;
                    assert(r[i].name == n);
                }
                if has_entry_name(r, n) {
                    let i = choose|i: int| 0 <= i < r.len() && r[i].name == n;
                    assert(sorted[i].name == n);
                }
                if n == e.name {
                    assert(r[0].name == n);
                }
            }
        } else if chars_lt(e.name, sorted[0].name) {
            assert(r == seq![e] + sorted);
            assert forall|i: int, j: int| 0 <= i < j < r.len() implies chars_lt(
                r[i].name,
                r[j].name,
            ) by {
                assert(r[j] == sorted[j - 1]);
                if i > 0 {
                    assert(r[i] == sorted[i - 1]);
                } else if j > 1 {
                    crate::text::lemma_chars_lt_transitive(e.name, sorted[0].name, sorted[j - 1].name);
                }
            }
            assert forall|n: Seq<char>| has_entry_name(r, n) == (has_entry_name(sorted, n) || n
                == e.name) by {
                if has_entry_name(sorted, n) {
                    let i = choose|i: int| 0 <= i < sorted.len() && sorted[i].name == n;
                    assert(r[i + 1].name == n);
                }
                if has_entry_name(r, n) {
                    let i = choose|i: int| 0 <= i < r.len() && r[i].name == n;
                    if i > 0 {
                        assert(sorted[i - 1].name == n);
                    }
                }
                if n == e.name {
                    assert(r[0].name == n);
                }
            }
        } else {
            lemma_chars_lt_total(sorted[0].name, e.name);
            lemma_upsert_entry_ordered(rest, e);
            let u = upsert_entry(rest, e);
            assert(r == seq![sorted[0]] + u);
            assert forall|i: int, j: int| 0 <= i < j < r.len() implies chars_lt(
                r[i].name,
                r[j].name,
            ) by {
                assert(r[j] == u[j - 1]);
                if i > 0 {
                    assert(r[i] == u[i - 1]);
                } else {
                    assert(has_entry_name(u, u[j - 1].name));
                    assert(has_entry_name(rest, u[j - 1].name) || u[j - 1].name == e.name);
                    if u[j - 1].name != e.name {
                        let w = choose|w: int| 0 <= w < rest.len() && rest[w].name == u[j - 1].name;
                        assert(rest[w] == sorted[w + 1]);
                    }
                }
            }
            assert forall|n: Seq<char>| has_entry_name(r, n) == (has_entry_name(sorted, n) || n
                == e.name) by {
                if has_entry_name(sorted, n) {
                    let i = choose|i: int| 0 <= i < sorted.len() && sorted[i].name == n;
                    if i > 0 {
                        assert(rest[i - 1].name == n);
                        assert(has_entry_name(rest, n));
                        assert(has_entry_name(u, n));
                        let w = choose|w: int| 0 <= w < u.len() && u[w].name == n;
                        assert(r[w + 1].name == n);
                    } else {
                        assert(r[0].name == n);
                    }
                }
                if has_entry_name(r, n) {
                    let i = choose|i: int| 0 <= i < r.len() && r[i].name == n;
                    if i > 0 {
                        assert(u[i - 1].name == n);
                        assert(has_entry_name(u, n));
                        if n != e.name {
                            let w = choose|w: int| 0 <= w < rest.len() && rest[w].name == n;
                            assert(sorted[w + 1].name == n);
                        }
                    } else {
                        assert(sorted[0].name == n);
                    }
                }
                if n == e.name {
                    assert(has_entry_name(u, n));
                    let w = choose|w: int| 0 <= w < u.len() && u[w].name == n;
                    assert(r[w + 1].name == n);
                }
            }
        }
    }
}

proof fn lemma_upsert_all_ordered(found: Seq<DirectoryEntryView>)
    ensures
        names_increasing(upsert_all(found)),
        forall|n: Seq<char>|
            #[trigger] has_entry_name(upsert_all(found), n) == has_entry_name(found, n),
    decreases found.len(),
{
    if found.len() > 0 {
        let init = found.drop_last();
        lemma_upsert_all_ordered(init);
        lemma_upsert_entry_ordered(upsert_all(init), found.last());
        assert forall|n: Seq<char>| #[trigger] has_entry_name(upsert_all(found), n)
            == has_entry_name(found, n) by {
            assert(has_entry_name(upsert_all(found), n) == (has_entry_name(upsert_all(init), n)
                || n == found.last().name));
            if has_entry_name(found, n) {
                let i = choose|i: int| 0 <= i < found.len() && found[i].name == n;
                if i < init.len() {
                    assert(init[i].name == n);
                }
            }
            if has_entry_name(init, n) {
                let i = choose|i: int| 0 <= i < init.len() && init[i].name == n;
                assert(found[i].name == n);
            }
            if n == found.last().name {
                assert(found[found.len() - 1].name == n);
            }
        }
    } else {
        assert(upsert_all(found) =~= Seq::<DirectoryEntryView>::empty());
    }
}

proof fn lemma_insert_if_absent_ordered(sorted: Seq<DirectoryEntryView>, e: DirectoryEntryView)
    requires
        names_increasing(sorted),
    ensures
        names_increasing(insert_if_absent(sorted, e)),
        forall|n: Seq<char>|
            #[trigger] has_entry_name(insert_if_absent(sorted, e), n) == (has_entry_name(sorted, n)
                || n == e.name),
{
    if !has_entry_name(sorted, e.name) {
        lemma_upsert_entry_ordered(sorted, e);
    }
}

/// The directories offered for selection are ordered by name, one per
/// name; `config` and `saves` are always offered, and every directory found
/// in the instance is offered. Nothing else is.
pub proof fn law_listing_is_ordered_and_offers_defaults(found: Seq<DirectoryEntryView>)
    ensures
        names_increasing(directory_listing(found)),
        has_entry_name(directory_listing(found), "config"@),
        has_entry_name(directory_listing(found), "saves"@),
        forall|i: int|
            0 <= i < found.len() ==> has_entry_name(directory_listing(found), #[trigger] found[i].name),
        forall|n: Seq<char>|
            has_entry_name(directory_listing(found), n) ==> n == "config"@ || n == "saves"@
                || has_entry_name(found, n),
{
    lemma_upsert_all_ordered(found);
    let a = upsert_all(found);
    lemma_insert_if_absent_ordered(a, default_entry("config"@));
    let b = insert_if_absent(a, default_entry("config"@));
    lemma_insert_if_absent_ordered(b, default_entry("saves"@));
    assert(has_entry_name(b, "config"@));
    assert(has_entry_name(directory_listing(found), "config"@));
    assert(has_entry_name(directory_listing(found), "saves"@));
    assert forall|n: Seq<char>| has_entry_name(directory_listing(found), n) implies n == "config"@
        || n == "saves"@ || has_entry_name(found, n) by {
        assert(has_entry_name(b, n) || n == "saves"@);
        if has_entry_name(b, n) {
            assert(has_entry_name(a, n) || n == "config"@);
        }
    }
    assert forall|i: int| 0 <= i < found.len() implies has_entry_name(
        directory_listing(found),
        #[trigger] found[i].name,
    ) by {
        assert(has_entry_name(a, found[i].name));
    }
}

} // verus!

verus! {

proof fn lemma_upsert_entry_members(sorted: Seq<DirectoryEntryView>, e: DirectoryEntryView)
    ensures
        upsert_entry(sorted, e).contains(e),
        forall|x: DirectoryEntryView|
            #[trigger] upsert_entry(sorted, e).contains(x) ==> x == e || sorted.contains(x),
        forall|x: DirectoryEntryView|
            #[trigger] sorted.contains(x) && x.name != e.name ==> upsert_entry(sorted, e).contains(
                x,
            ),
    decreases sorted.len(),
{
    let r = upsert_entry(sorted, e);
    if sorted.len() == 0 {
        assert(r[0] == e);
    } else {
        let rest = sorted.drop_first();
        if sorted[0].name == e.name {
            assert(r == seq![e] + rest);
            assert(r[0] == e);
            assert forall|x: DirectoryEntryView| r.contains(x) implies x == e || sorted.contains(x) by {
                let i = choose|i: int| 0 <= i < r.len() && r[i] == x;
                if i > 0 {
                    assert(sorted[i] == x);
                }
            }
            assert forall|x: DirectoryEntryView| sorted.contains(x) && x.name != e.name implies r.contains(
                x,
            ) by {
                let i = choose|i: int| 0 <= i < sorted.len() && sorted[i] == x;
                assert(i > 0);
                assert(r[i] == x);
            }
        } else if chars_lt(e.name, sorted[0].name) {
            assert(r == seq![e] + sorted);
            assert(r[0] == e);
            assert forall|x: DirectoryEntryView| r.contains(x) implies x == e || sorted.contains(x) by {
                let i = choose|i: int| 0 <= i < r.len() && r[i] == x;
                if i > 0 {
                    assert(sorted[i - 1] == x);
                }
            }
            assert forall|x: DirectoryEntryView| sorted.contains(x) && x.name != e.name implies r.contains(
                x,
            ) by {
                let i = choose|i: int| 0 <= i < sorted.len() && sorted[i] == x;
                assert(r[i + 1] == x);
            }
        } else {
            lemma_upsert_entry_members(rest, e);
            let u = upsert_entry(rest, e);
            assert(r == seq![sorted[0]] + u);
            let w = choose|w: int| 0 <= w < u.len() && u[w] == e;
            assert(r[w + 1] == e);
            assert forall|x: DirectoryEntryView| r.contains(x) implies x == e || sorted.contains(x) by {
                let i = choose|i: int| 0 <= i < r.len() && r[i] == x;
                if i > 0 {
                    assert(u[i - 1] == x);
                    assert(u.contains(x));
                    if x != e {
                        let k = choose|k: int| 0 <= k < rest.len() && rest[k] == x;
                        assert(sorted[k + 1] == x);
                    }
                } else {
                    assert(sorted[0] == x);
                }
            }
            assert forall|x: DirectoryEntryView| sorted.contains(x) && x.name != e.name implies r.contains(
                x,
            ) by {
                let i = choose|i: int| 0 <= i < sorted.len() && sorted[i] == x;
                if i > 0 {
                    assert(rest[i - 1] == x);
                    assert(rest.contains(x));
                    assert(u.contains(x));
                    let k = choose|k: int| 0 <= k < u.len() && u[k] == x;
                    assert(r[k + 1] == x);
                } else {
                    assert(r[0] == x);
                }
            }
        }
    }
}

proof fn lemma_upsert_all_members(found: Seq<DirectoryEntryView>)
    ensures
        forall|x: DirectoryEntryView| #[trigger] upsert_all(found).contains(x) ==> found.contains(x),
    decreases found.len(),
{
    if found.len() > 0 {
        let init = found.drop_last();
        lemma_upsert_all_members(init);
        lemma_upsert_entry_members(upsert_all(init), found.last());
        assert forall|x: DirectoryEntryView| upsert_all(found).contains(x) implies found.contains(x) by {
            if x == found.last() {
                assert(found[found.len() - 1] == x);
            } else {
                assert(upsert_all(init).contains(x));
                let i = choose|i: int| 0 <= i < init.len() && init[i] == x;
                assert(found[i] == x);
            }
        }
    }
}

/// Every directory offered for selection is one that was found, or the
/// placeholder of a missing `config` or `saves` directory: its path is its
/// name, it does not exist and it is no link. A missing default is always
/// offered that way, so when every directory found is selected by its own
/// name, so is every directory offered.
pub proof fn law_listed_directories_are_selected_by_name(found: Seq<DirectoryEntryView>)
    ensures
        ({
            let l = directory_listing(found);
            let config = DirectoryEntryView {
                path: "config"@,
                name: "config"@,
                exists: false,
                is_symlink: false,
                link_target: None,
            };
            let saves = DirectoryEntryView {
                path: "saves"@,
                name: "saves"@,
                exists: false,
                is_symlink: false,
                link_target: None,
            };
            &&& forall|i: int|
                0 <= i < l.len() ==> found.contains(#[trigger] l[i]) || l[i] == config || l[i]
                    == saves
            &&& (forall|j: int| 0 <= j < found.len() ==> found[j].name != "config"@) ==> l.contains(
                config,
            )
            &&& (forall|j: int| 0 <= j < found.len() ==> found[j].name != "saves"@) ==> l.contains(
                saves,
            )
            &&& (forall|j: int| 0 <= j < found.len() ==> (#[trigger] found[j]).path == found[j].name)
                ==> forall|i: int| 0 <= i < l.len() ==> (#[trigger] l[i]).path == l[i].name
        }),
{
    reveal_strlit("config");
    reveal_strlit("saves");
    let a = upsert_all(found);
    let c = default_entry("config"@);
    let s = default_entry("saves"@);
    lemma_upsert_all_members(found);
    lemma_upsert_all_ordered(found);
    lemma_upsert_entry_members(a, c);
    let b = insert_if_absent(a, c);
    lemma_upsert_entry_members(b, s);
    let l = directory_listing(found);
    assert("config"@ != "saves"@) by {
        assert("config"@.len() != "saves"@.len());
    }
    assert forall|x: DirectoryEntryView| b.contains(x) implies found.contains(x) || x == c by {
        if !(exists|i: int| 0 <= i < a.len() && a[i].name == c.name) {
            assert(upsert_entry(a, c).contains(x));
        }
    }
    assert forall|x: DirectoryEntryView| l.contains(x) implies found.contains(x) || x == c || x
        == s by {
        if !(exists|i: int| 0 <= i < b.len() && b[i].name == s.name) {
            assert(upsert_entry(b, s).contains(x));
        }
    }
    assert forall|i: int| 0 <= i < l.len() implies found.contains(#[trigger] l[i]) || l[i] == c
        || l[i] == s by {
        assert(l.contains(l[i]));
    }
    if forall|j: int| 0 <= j < found.len() ==> found[j].name != "config"@ {
        assert(!(exists|i: int| 0 <= i < a.len() && a[i].name == c.name)) by {
            if exists|i: int| 0 <= i < a.len() && a[i].name == c.name {
                let i = choose|i: int| 0 <= i < a.len() && a[i].name == c.name;
                assert(a.contains(a[i]));
                let j = choose|j: int| 0 <= j < found.len() && found[j] == a[i];
            }
        }
        assert(b.contains(c));
        if !(exists|i: int| 0 <= i < b.len() && b[i].name == s.name) {
            assert(upsert_entry(b, s).contains(c));
        }
        assert(l.contains(c));
    }
    if forall|j: int| 0 <= j < found.len() ==> found[j].name != "saves"@ {
        assert(!(exists|i: int| 0 <= i < b.len() && b[i].name == s.name)) by {
            if exists|i: int| 0 <= i < b.len() && b[i].name == s.name {
                let i = choose|i: int| 0 <= i < b.len() && b[i].name == s.name;
                assert(b.contains(b[i]));
                if b[i] != c {
                    let j = choose|j: int| 0 <= j < found.len() && found[j] == b[i];
                }
            }
        }
        assert(l.contains(s));
    }
    if forall|j: int| 0 <= j < found.len() ==> (#[trigger] found[j]).path == found[j].name {
        assert forall|i: int| 0 <= i < l.len() implies (#[trigger] l[i]).path == l[i].name by {
            assert(l.contains(l[i]));
            if found.contains(l[i]) {
                let j = choose|j: int| 0 <= j < found.len() && found[j] == l[i];
            }
        }
    }
}

/// A stored count or size is reported as it is when it is not negative, and
/// as zero when it is.
pub proof fn law_counts_are_reported_as_stored(n: i64)
    ensures
        n >= 0 ==> clamp_count(n) as int == n as int,
        n < 0 ==> clamp_count(n) == 0,
{
}

/// The instance record rules backups out, in this order, for an instance
/// that is not installed, a symbolic-link instance, a direct-linked
/// instance, and an instance whose game directory is elsewhere (an
/// override that is not blank); an installed plain instance with no
/// override, or a blank one, is not ruled out by its record.
pub proof fn law_record_rules_out_only_listed_reasons(
    installed: bool,
    symlink_instance: bool,
    direct_linked: bool,
    game_dir_override: Option<Seq<char>>,
)
    ensures
        ({
            let r = record_ineligibility(installed, symlink_instance, direct_linked, game_dir_override);
            &&& !installed ==> r == Some(InstanceBackupEligibility::NotInstalled)
            &&& installed && symlink_instance ==> r == Some(
                InstanceBackupEligibility::SymlinkInstance,
            )
            &&& installed && !symlink_instance && direct_linked ==> r == Some(
                InstanceBackupEligibility::DirectLinkedInstance,
            )
            &&& installed && !symlink_instance && !direct_linked ==> (r is Some <==> (
            game_dir_override matches Some(d) && crate::text::trim_white(d).len() > 0))
            &&& r is Some ==> r != Some(InstanceBackupEligibility::Eligible)
            &&& installed && !symlink_instance && !direct_linked && r is Some ==> r == Some(
                InstanceBackupEligibility::ExternalGameDirectory,
            )
        }),
{
}

} // verus!
