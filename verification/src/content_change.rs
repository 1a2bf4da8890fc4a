//! Content change plans: the actions that update or switch installed
//! content, the files they download, and how their statuses advance.

use vstd::prelude::*;

use crate::error::ErrorKind;
use crate::text::{
    chars_less, chars_lt, chars_of, decimal, decimal_chars, lemma_chars_lt_total,
    lemma_chars_lt_transitive, parse_u32, parsed_u32, string_from_chars,
};

verus! {

/// Where a piece of content comes from.
#[derive(Clone, Copy, Debug, PartialEq, Eq, Structural)]
pub enum ContentProvider {
    Modrinth,
    CurseForge,
    Local,
}

impl ContentProvider {
    /// The provider's identifier.
    pub fn as_str(&self) -> (s: &'static str)
        ensures
            s@ == provider_name(*self),
    {
        match self {
            ContentProvider::Modrinth => "modrinth",
            ContentProvider::CurseForge => "curseforge",
            ContentProvider::Local => "local",
        }
    }
}

/// The identifier of `provider`.
pub open spec fn provider_name(provider: ContentProvider) -> Seq<char> {
    match provider {
        ContentProvider::Modrinth => "modrinth"@,
        ContentProvider::CurseForge => "curseforge"@,
        ContentProvider::Local => "local"@,
    }
}

/// The progress of one content change action.
#[derive(Clone, Copy, Debug, PartialEq, Eq, Structural)]
pub enum ContentChangeActionStatus {
    Pending,
    Prepared,
    Downloaded,
    Applying,
    Completed,
    Skipped,
    Failed,
}

/// What an action does to its content.
#[derive(Clone, Copy, Debug, PartialEq, Eq, Structural)]
pub enum ContentChangeOperation {
    Update,
    SwitchVersion,
}

/// Why a file is downloaded.
#[derive(Clone, Copy, Debug, PartialEq, Eq, Structural)]
pub enum ContentChangeFileRole {
    Primary,
    Dependency,
}

/// What is known about a file before it is downloaded.
#[derive(Clone, Debug, Default)]
pub struct ContentChangeFileIntegrity {
    pub size: Option<u64>,
}

/// A file that an action needs.
#[derive(Clone, Debug)]
pub struct ContentChangeFile {
    pub id: String,
    pub role: ContentChangeFileRole,
    pub provider: ContentProvider,
    pub project_id: String,
    pub release_id: String,
    pub file_name: String,
    pub target_relative_path: String,
    pub urls: Vec<String>,
    pub manual_download_url: Option<String>,
    pub integrity: ContentChangeFileIntegrity,
}

/// The value of a `ContentChangeFile`, with strings as character sequences.
pub struct ContentChangeFileView {
    pub id: Seq<char>,
    pub role: ContentChangeFileRole,
    pub provider: ContentProvider,
    pub project_id: Seq<char>,
    pub release_id: Seq<char>,
    pub file_name: Seq<char>,
    pub target_relative_path: Seq<char>,
    pub urls: Seq<Seq<char>>,
    pub manual_download_url: Option<Seq<char>>,
    pub size: Option<u64>,
}

impl View for ContentChangeFile {
    type V = ContentChangeFileView;

    open spec fn view(&self) -> ContentChangeFileView {
        ContentChangeFileView {
            id: self.id@,
            role: self.role,
            provider: self.provider,
            project_id: self.project_id@,
            release_id: self.release_id@,
            file_name: self.file_name@,
            target_relative_path: self.target_relative_path@,
            urls: Seq::new(self.urls@.len(), |i: int| self.urls@[i]@),
            manual_download_url: match self.manual_download_url {
                Some(u) => Some(u@),
                None => None,
            },
            size: self.integrity.size,
        }
    }
}

/// The values of a list of files.
pub open spec fn file_views(fs: Seq<ContentChangeFile>) -> Seq<ContentChangeFileView> {
    Seq::new(fs.len(), |i: int| fs[i]@)
}

/// One planned change of one installed piece of content.
#[derive(Clone, Debug)]
pub struct ContentChangeAction {
    pub content_id: String,
    pub operation: ContentChangeOperation,
    pub provider: ContentProvider,
    pub project_id: Option<String>,
    pub expected_release_id: Option<String>,
    pub target_release_id: String,
    pub relative_path: Option<String>,
    pub current_provider_file_name: Option<String>,
    pub target_provider_file_name: Option<String>,
    pub final_relative_path: Option<String>,
    pub files: Vec<ContentChangeFile>,
    pub dependencies: Vec<String>,
    pub status: ContentChangeActionStatus,
    pub error: Option<String>,
    pub completed: bool,
}

/// Whether `status` ends an action.
pub open spec fn is_final_success(status: ContentChangeActionStatus) -> bool {
    status == ContentChangeActionStatus::Completed || status == ContentChangeActionStatus::Skipped
}

impl ContentChangeAction {
    /// The status that counts: a completed action is `Completed`.
    pub open spec fn spec_effective_status(&self) -> ContentChangeActionStatus {
        if self.completed {
            ContentChangeActionStatus::Completed
        } else {
            self.status
        }
    }

    /// Whether the action has nothing left to do.
    pub open spec fn spec_is_complete(&self) -> bool {
        self.completed || is_final_success(self.status)
    }

    /// The status that counts: a completed action is `Completed`.
    pub fn effective_status(&self) -> (s: ContentChangeActionStatus)
        ensures
            s == self.spec_effective_status(),
    {
        if self.completed {
            ContentChangeActionStatus::Completed
        } else {
            self.status
        }
    }

    /// Whether the action has nothing left to do.
    pub fn is_complete(&self) -> (r: bool)
        ensures
            r == self.spec_is_complete(),
    {
        self.completed || self.status == ContentChangeActionStatus::Completed || self.status
            == ContentChangeActionStatus::Skipped
    }

    /// Moves the action to `status`; it counts as completed exactly when
    /// `status` ends it successfully.
    pub fn set_status(&mut self, status: ContentChangeActionStatus)
        ensures
            *final(self) == (ContentChangeAction {
                status,
                completed: is_final_success(status),
                ..*old(self)
            }),
    {
        self.status = status;
        self.completed = status == ContentChangeActionStatus::Completed || status
            == ContentChangeActionStatus::Skipped;
    }
}

/// Whether the files of `a` still have to be downloaded.
pub open spec fn schedules_downloads(a: ContentChangeAction) -> bool {
    !a.spec_is_complete() && a.spec_effective_status() != ContentChangeActionStatus::Failed
}

/// The files of the actions that still download, in order, duplicates kept.
pub open spec fn pending_files(actions: Seq<ContentChangeAction>) -> Seq<ContentChangeFile>
    decreases actions.len(),
{
    if actions.len() == 0 {
        Seq::<ContentChangeFile>::empty()
    } else {
        pending_files(actions.drop_last()) + if schedules_downloads(actions.last()) {
            actions.last().files@
        } else {
            Seq::<ContentChangeFile>::empty()
        }
    }
}

/// `fs[j]` is the first file of `fs` with its id.
pub open spec fn first_with_id(fs: Seq<ContentChangeFileView>, j: int) -> bool {
    &&& 0 <= j < fs.len()
    &&& forall|k: int| 0 <= k < j ==> (#[trigger] fs[k]).id != fs[j].id
}

/// File ids strictly increase.
pub open spec fn ids_increasing(fs: Seq<ContentChangeFileView>) -> bool {
    forall|i: int, j: int| 0 <= i < j < fs.len() ==> chars_lt(fs[i].id, fs[j].id)
}

/// A copy of `s`.
fn copy_opt_string(s: &Option<String>) -> (r: Option<String>)
    ensures
        r == *s,
{
    match s {
        Some(v) => Some(v.clone()),
        None => None,
    }
}

/// A copy of a list of strings.
fn copy_strings(v: &Vec<String>) -> (r: Vec<String>)
    ensures
        r@ == v@,
{
    let mut out: Vec<String> = Vec::new();
    let mut i: usize = 0;
    while i < v.len()
        invariant
            i <= v.len(),
            out@ == v@.take(i as int),
        decreases v.len() - i,
    {
        out.push(v[i].clone());
        assert(out@ =~= v@.take(i + 1));
        i += 1;
    }
    assert(v@.take(i as int) =~= v@);
    out
}

impl ContentChangeFile {
    /// A copy of the file.
    pub fn duplicate(&self) -> (r: ContentChangeFile)
        ensures
            r@ == self@,
    {
        let urls = copy_strings(&self.urls);
        let r = ContentChangeFile {
            id: self.id.clone(),
            role: self.role,
            provider: self.provider,
            project_id: self.project_id.clone(),
            release_id: self.release_id.clone(),
            file_name: self.file_name.clone(),
            target_relative_path: self.target_relative_path.clone(),
            urls,
            manual_download_url: copy_opt_string(&self.manual_download_url),
            integrity: ContentChangeFileIntegrity { size: self.integrity.size },
        };
        assert(r@.urls =~= self@.urls);
        r
    }
}

/// Whether some file of `files` has the id `id`.
fn has_file_id(files: &Vec<ContentChangeFile>, id: &String) -> (r: bool)
    ensures
        r == exists|i: int| 0 <= i < files.len() && files@[i].id@ == id@,
{
    let mut i: usize = 0;
    while i < files.len()
        invariant
            i <= files.len(),
            forall|j: int| 0 <= j < i ==> (#[trigger] files@[j]).id@ != id@,
        decreases files.len() - i,
    {
        if files[i].id == *id {
            return true;
        }
        i += 1;
    }
    false
}

/// Every id of `seen` has a file in `out`.
pub open spec fn covers_ids(out: Seq<ContentChangeFileView>, seen: Seq<ContentChangeFileView>) -> bool {
    forall|j: int|
        0 <= j < seen.len() ==> exists|i: int|
            0 <= i < out.len() && out[i].id == (#[trigger] seen[j]).id
}

/// `out[i]` is `seen[origin[i]]`, the first file of `seen` with its id.
pub open spec fn firsts_with(
    out: Seq<ContentChangeFileView>,
    seen: Seq<ContentChangeFileView>,
    origin: Seq<int>,
) -> bool {
    &&& origin.len() == out.len()
    &&& forall|i: int|
        #![trigger origin[i]]
        0 <= i < out.len() ==> first_with_id(seen, origin[i]) && out[i] == seen[origin[i]]
}

/// Every file of `out` is the first file of `seen` with its id.
pub open spec fn firsts_only(out: Seq<ContentChangeFileView>, seen: Seq<ContentChangeFileView>) -> bool {
    exists|origin: Seq<int>| firsts_with(out, seen, origin)
}

/// `out` holds, ordered by id, the first file of `seen` with each id.
#[verifier::opaque]
pub open spec fn dedup_invariant(out: Seq<ContentChangeFileView>, seen: Seq<ContentChangeFileView>) -> bool {
    &&& ids_increasing(out)
    &&& covers_ids(out, seen)
    &&& firsts_only(out, seen)
}

/// Inserts `f` into `files`, kept ordered by id.
fn insert_by_id(files: &mut Vec<ContentChangeFile>, f: ContentChangeFile)
    requires
        ids_increasing(file_views(old(files)@)),
        forall|i: int| 0 <= i < old(files).len() ==> old(files)@[i].id@ != f.id@,
    ensures
        ids_increasing(file_views(final(files)@)),
        exists|k: int|
            0 <= k <= old(files).len() && file_views(final(files)@) == file_views(
                old(files)@,
            ).insert(k, f@),
{
    let key = chars_of(f.id.as_str());
    let ghost before = file_views(files@);
    let mut k: usize = 0;
    while k < files.len() && chars_less(&chars_of(files[k].id.as_str()), &key)
        invariant
            k <= files.len(),
            files@ == old(files)@,
            before == file_views(files@),
            key@ == f.id@,
            forall|j: int| 0 <= j < k ==> chars_lt(#[trigger] before[j].id, f.id@),
        decreases files.len() - k,
    {
        k += 1;
    }
    proof {
        if k < files.len() {
            lemma_chars_lt_total(before[k as int].id, f.id@);
        }
    }
    let ghost fv = f@;
    files.insert(k, f);
    let ghost after = file_views(files@);
    assert(after =~= before.insert(k as int, fv));
    assert forall|i: int, j: int| 0 <= i < j < after.len() implies chars_lt(
        after[i].id,
        after[j].id,
    ) by {
        if j < k {
        } else if j == k {
        } else if i < k {
            if j - 1 > k {
                lemma_chars_lt_transitive(fv.id, before[k as int].id, before[j - 1].id);
            }
            lemma_chars_lt_transitive(before[i].id, fv.id, before[j - 1].id);
        } else if i == k {
            if j - 1 > k {
                lemma_chars_lt_transitive(fv.id, before[k as int].id, before[j - 1].id);
            }
        } else {
        }
    }
}

proof fn lemma_first_with_id_extends(seen: Seq<ContentChangeFileView>, x: ContentChangeFileView, j: int)
    requires
        first_with_id(seen, j),
    ensures
        first_with_id(seen.push(x), j),
        seen.push(x)[j] == seen[j],
{
    assert forall|m: int| 0 <= m < j implies (#[trigger] seen.push(x)[m]).id != seen.push(
        x,
    )[j].id by {
        assert(seen.push(x)[m] == seen[m]);
    }
}

proof fn lemma_covers_known_id(
    out: Seq<ContentChangeFileView>,
    seen: Seq<ContentChangeFileView>,
    f: ContentChangeFileView,
)
    requires
        covers_ids(out, seen),
        exists|i: int| 0 <= i < out.len() && out[i].id == f.id,
    ensures
        covers_ids(out, seen.push(f)),
{
    let next = seen.push(f);
    let w = choose|i: int| 0 <= i < out.len() && out[i].id == f.id;
    assert forall|j: int| 0 <= j < next.len() implies exists|i: int|
        0 <= i < out.len() && out[i].id == (#[trigger] next[j]).id by {
        if j < seen.len() {
            assert(next[j] == seen[j]);
        } else {
            assert(0 <= w < out.len() && out[w].id == next[j].id);
        }
    }
}

proof fn lemma_firsts_extend(
    out: Seq<ContentChangeFileView>,
    seen: Seq<ContentChangeFileView>,
    f: ContentChangeFileView,
)
    requires
        firsts_only(out, seen),
    ensures
        firsts_only(out, seen.push(f)),
{
    let origin = choose|origin: Seq<int>| firsts_with(out, seen, origin);
    assert forall|i: int| #![trigger origin[i]] 0 <= i < out.len() implies first_with_id(
        seen.push(f),
        origin[i],
    ) && out[i] == seen.push(f)[origin[i]] by {
        lemma_first_with_id_extends(seen, f, origin[i]);
    }
    assert(firsts_with(out, seen.push(f), origin));
}

proof fn lemma_covers_new_id(
    old_out: Seq<ContentChangeFileView>,
    out: Seq<ContentChangeFileView>,
    seen: Seq<ContentChangeFileView>,
    f: ContentChangeFileView,
    k: int,
)
    requires
        covers_ids(old_out, seen),
        0 <= k <= old_out.len(),
        out == old_out.insert(k, f),
    ensures
        covers_ids(out, seen.push(f)),
{
    let next = seen.push(f);
    assert forall|j: int| 0 <= j < next.len() implies exists|i: int|
        0 <= i < out.len() && out[i].id == (#[trigger] next[j]).id by {
        if j < seen.len() {
            assert(next[j] == seen[j]);
            let i = choose|i: int| 0 <= i < old_out.len() && old_out[i].id == seen[j].id;
            if i < k {
                assert(out[i] == old_out[i]);
            } else {
                assert(out[i + 1] == old_out[i]);
            }
        } else {
            assert(out[k] == f);
        }
    }
}

proof fn lemma_firsts_new_id(
    old_out: Seq<ContentChangeFileView>,
    out: Seq<ContentChangeFileView>,
    seen: Seq<ContentChangeFileView>,
    f: ContentChangeFileView,
    k: int,
)
    requires
        covers_ids(old_out, seen),
        firsts_only(old_out, seen),
        forall|i: int| 0 <= i < old_out.len() ==> old_out[i].id != f.id,
        0 <= k <= old_out.len(),
        out == old_out.insert(k, f),
    ensures
        firsts_only(out, seen.push(f)),
{
    let next = seen.push(f);
    assert(first_with_id(next, seen.len() as int)) by {
        assert forall|m: int| 0 <= m < seen.len() implies (#[trigger] next[m]).id
            != next[seen.len() as int].id by {
            assert(next[m] == seen[m]);
        }
    }
    let old_origin = choose|origin: Seq<int>| firsts_with(old_out, seen, origin);
    let origin = old_origin.insert(k, seen.len() as int);
    assert forall|i: int| #![trigger origin[i]] 0 <= i < out.len() implies first_with_id(
        next,
        origin[i],
    ) && out[i] == next[origin[i]] by {
        if i == k {
            assert(out[i] == f);
        } else {
            let oi = if i < k {
                i
            } else {
                i - 1
            };
            assert(out[i] == old_out[oi]);
            assert(origin[i] == old_origin[oi]);
            lemma_first_with_id_extends(seen, f, old_origin[oi]);
        }
    }
    assert(firsts_with(out, next, origin));
}

/// Records `f`, the next file met, in `out`.
fn add_pending_file(
    out: &mut Vec<ContentChangeFile>,
    f: &ContentChangeFile,
    Ghost(seen): Ghost<Seq<ContentChangeFileView>>,
)
    requires
        dedup_invariant(file_views(old(out)@), seen),
    ensures
        dedup_invariant(file_views(final(out)@), seen.push(f@)),
{
    reveal(dedup_invariant);
    let ghost old_out = file_views(out@);
    if !has_file_id(out, &f.id) {
        let copy = f.duplicate();
        assert forall|i: int| 0 <= i < old_out.len() implies old_out[i].id != f@.id by {
            assert(old_out[i] == out@[i]@);
        }
        insert_by_id(out, copy);
        proof {
            let k = choose|k: int|
                0 <= k <= old_out.len() && file_views(out@) == old_out.insert(k, copy@);
            lemma_covers_new_id(old_out, file_views(out@), seen, f@, k);
            lemma_firsts_new_id(old_out, file_views(out@), seen, f@, k);
        }
    } else {
        proof {
            let i = choose|i: int| 0 <= i < out.len() && out@[i].id@ == f.id@;
            assert(old_out[i].id == f@.id);
            lemma_covers_known_id(old_out, seen, f@);
            lemma_firsts_extend(old_out, seen, f@);
        }
    }
}

/// The files that still have to be downloaded, one per file id (the first
/// one met in action order), ordered by id. Actions that are complete or
/// failed download nothing.
pub fn unique_pending_files(actions: &[ContentChangeAction]) -> (r: Vec<ContentChangeFile>)
    ensures
        dedup_invariant(file_views(r@), file_views(pending_files(actions@))),
{
    let mut out: Vec<ContentChangeFile> = Vec::new();
    let ghost mut seen = Seq::<ContentChangeFileView>::empty();
    let mut a: usize = 0;
    assert(file_views(pending_files(actions@.take(0))) =~= seen);
    assert(file_views(out@) =~= Seq::<ContentChangeFileView>::empty());
    assert(dedup_invariant(file_views(out@), seen)) by {
        reveal(dedup_invariant);
        assert(firsts_with(file_views(out@), seen, Seq::<int>::empty()));
    }
    while a < actions.len()
        invariant
            a <= actions.len(),
            seen == file_views(pending_files(actions@.take(a as int))),
            dedup_invariant(file_views(out@), seen),
        decreases actions.len() - a,
    {
        let action = &actions[a];
        let ghost prefix = seen;
        assert(actions@.take(a + 1).drop_last() =~= actions@.take(a as int));
        assert(actions@.take(a + 1).last() == actions@[a as int]);
        if !action.is_complete() && action.effective_status() != ContentChangeActionStatus::Failed {
            let files = &action.files;
            let mut f: usize = 0;
            assert(prefix + file_views(files@).take(0) =~= prefix);
            while f < files.len()
                invariant
                    f <= files.len(),
                    seen == prefix + file_views(files@).take(f as int),
                    dedup_invariant(file_views(out@), seen),
                decreases files.len() - f,
            {
                add_pending_file(&mut out, &files[f], Ghost(seen));
                proof {
                    assert(seen.push(files@[f as int]@) =~= prefix + file_views(files@).take(
                        f + 1,
                    ));
                    seen = seen.push(files@[f as int]@);
                }
                f += 1;
            }
            assert(file_views(files@).take(f as int) =~= file_views(files@));
            assert(file_views(pending_files(actions@.take(a + 1))) =~= prefix + file_views(
                files@,
            ));
        } else {
            assert(pending_files(actions@.take(a + 1)) =~= pending_files(actions@.take(a as int)));
        }
        a += 1;
    }
    assert(actions@.take(a as int) =~= actions@);
    out
}


/// The plan format version; plans saved with an older version have their
/// operations recomputed when resumed.
pub const CONTENT_CHANGE_PLAN_VERSION: u32 = 2;

/// `a` as it is resumed from a saved plan: the operation is recomputed for
/// plans of an older format, the status becomes the effective status, and a
/// failed action is retried.
pub open spec fn resumed_action(
    a: ContentChangeAction,
    version: u32,
    switched_content_id: Option<Seq<char>>,
) -> ContentChangeAction {
    let operation = if version < CONTENT_CHANGE_PLAN_VERSION {
        if switched_content_id matches Some(c) && c == a.content_id@ {
            ContentChangeOperation::SwitchVersion
        } else {
            ContentChangeOperation::Update
        }
    } else {
        a.operation
    };
    let status = a.spec_effective_status();
    if status == ContentChangeActionStatus::Failed {
        ContentChangeAction {
            operation,
            status: ContentChangeActionStatus::Pending,
            completed: false,
            ..a
        }
    } else {
        ContentChangeAction { operation, status, ..a }
    }
}

/// Whether `a` and `b` are the same string.
fn same_str(a: &str, b: &str) -> (r: bool)
    ensures
        r == (a@ == b@),
{
    crate::text::chars_equal(&chars_of(a), &chars_of(b))
}

/// Prepares the actions of a saved plan to run again (see `resumed_action`).
pub fn resume_actions(
    actions: &mut Vec<ContentChangeAction>,
    version: u32,
    switched_content_id: Option<&str>,
)
    ensures
        final(actions).len() == old(actions).len(),
        forall|i: int|
            0 <= i < old(actions).len() ==> final(actions)@[i] == resumed_action(
                #[trigger] old(actions)@[i],
                version,
                match switched_content_id {
                    Some(c) => Some(c@),
                    None => None,
                },
            ),
{
    let ghost switched = match switched_content_id {
        Some(c) => Some(c@),
        None => None::<Seq<char>>,
    };
    let mut i: usize = 0;
    while i < actions.len()
        invariant
            i <= actions.len() == old(actions).len(),
            switched == match switched_content_id {
                Some(c) => Some(c@),
                None => None::<Seq<char>>,
            },
            forall|j: int|
                0 <= j < i ==> actions@[j] == resumed_action(
                    #[trigger] old(actions)@[j],
                    version,
                    switched,
                ),
            forall|j: int| i <= j < actions.len() ==> actions@[j] == #[trigger] old(actions)@[j],
        decreases actions.len() - i,
    {
        let ghost prev = actions@;
        let mut action = actions.remove(i);
        assert(action == old(actions)@[i as int]);
        if version < CONTENT_CHANGE_PLAN_VERSION {
            let switched_here = match switched_content_id {
                Some(c) => same_str(c, action.content_id.as_str()),
                None => false,
            };
            action.operation = if switched_here {
                ContentChangeOperation::SwitchVersion
            } else {
                ContentChangeOperation::Update
            };
        }
        action.status = action.effective_status();
        if action.status == ContentChangeActionStatus::Failed {
            action.set_status(ContentChangeActionStatus::Pending);
        }
        assert(action == resumed_action(old(actions)@[i as int], version, switched));
        actions.insert(i, action);
        assert(actions@ =~= prev.update(i as int, action));
        i += 1;
    }
}

/// Sets the final relative path of every action that has none to its
/// relative path.
pub fn fill_final_relative_paths(actions: &mut Vec<ContentChangeAction>)
    ensures
        final(actions).len() == old(actions).len(),
        forall|i: int|
            0 <= i < old(actions).len() ==> final(actions)@[i] == if (#[trigger] old(
                actions,
            )@[i]).final_relative_path is None {
                ContentChangeAction {
                    final_relative_path: old(actions)@[i].relative_path,
                    ..old(actions)@[i]
                }
            } else {
                old(actions)@[i]
            },
{
    let mut i: usize = 0;
    while i < actions.len()
        invariant
            i <= actions.len() == old(actions).len(),
            forall|j: int|
                0 <= j < i ==> actions@[j] == if (#[trigger] old(actions)@[j]).final_relative_path
                    is None {
                    ContentChangeAction {
                        final_relative_path: old(actions)@[j].relative_path,
                        ..old(actions)@[j]
                    }
                } else {
                    old(actions)@[j]
                },
            forall|j: int| i <= j < actions.len() ==> actions@[j] == #[trigger] old(actions)@[j],
        decreases actions.len() - i,
    {
        if actions[i].final_relative_path.is_none() {
            let ghost prev = actions@;
            let mut action = actions.remove(i);
            action.final_relative_path = copy_opt_string(&action.relative_path);
            actions.insert(i, action);
            assert(actions@ =~= prev.update(i as int, action));
        }
        i += 1;
    }
}

/// Whether `a` still has to be prepared.
pub open spec fn awaits_preparation(a: ContentChangeAction) -> bool {
    !a.spec_is_complete() && a.spec_effective_status() != ContentChangeActionStatus::Downloaded
}

/// Number of actions of `actions` that still have to be prepared.
pub open spec fn count_awaiting_preparation(actions: Seq<ContentChangeAction>) -> nat
    decreases actions.len(),
{
    if actions.len() == 0 {
        0
    } else {
        count_awaiting_preparation(actions.drop_last()) + if awaits_preparation(actions.last()) {
            1nat
        } else {
            0nat
        }
    }
}

/// Number of actions that still have to be prepared.
pub fn pending_preparation_count(actions: &[ContentChangeAction]) -> (n: u64)
    requires
        actions@.len() <= u64::MAX,
    ensures
        n == count_awaiting_preparation(actions@),
{
    let mut n: u64 = 0;
    let mut i: usize = 0;
    while i < actions.len()
        invariant
            i <= actions.len() <= u64::MAX,
            n == count_awaiting_preparation(actions@.take(i as int)),
            n <= i,
        decreases actions.len() - i,
    {
        assert(actions@.take(i + 1).drop_last() =~= actions@.take(i as int));
        if !actions[i].is_complete() && actions[i].effective_status()
            != ContentChangeActionStatus::Downloaded {
            n += 1;
        }
        i += 1;
    }
    assert(actions@.take(i as int) =~= actions@);
    n
}

/// Marks `action` as failed with `message`.
pub fn record_failure(action: &mut ContentChangeAction, message: String)
    ensures
        *final(action) == (ContentChangeAction {
            status: ContentChangeActionStatus::Failed,
            error: Some(message),
            ..*old(action)
        }),
{
    action.status = ContentChangeActionStatus::Failed;
    action.error = Some(message);
}

/// How an action is prepared.
#[derive(Clone, Copy, Debug, PartialEq, Eq, Structural)]
pub enum PreparationRoute {
    Modrinth,
    CurseForge,
}

/// An input error whose message is `prefix`, then `middle`, then `suffix`.
fn input_error_around(prefix: &str, middle: &str, suffix: &str) -> (e: ErrorKind)
    ensures
        e matches ErrorKind::InputError(m) && m@ == prefix@ + middle@ + suffix@,
{
    let mut chars = chars_of(prefix);
    let mut mid = chars_of(middle);
    let mut end = chars_of(suffix);
    chars.append(&mut mid);
    chars.append(&mut end);
    ErrorKind::InputError(string_from_chars(&chars))
}

/// Chooses how an action of `provider` is prepared; only Modrinth and
/// CurseForge content can be changed.
pub fn preparation_route(provider: ContentProvider) -> (r: Result<PreparationRoute, ErrorKind>)
    ensures
        provider == ContentProvider::Modrinth ==> r == Ok::<PreparationRoute, ErrorKind>(
            PreparationRoute::Modrinth,
        ),
        provider == ContentProvider::CurseForge ==> r == Ok::<PreparationRoute, ErrorKind>(
            PreparationRoute::CurseForge,
        ),
        provider != ContentProvider::Modrinth && provider != ContentProvider::CurseForge ==> (r
            matches Err(ErrorKind::InputError(m)) && m@ == "Provider "@ + provider_name(provider)
            + " does not support content changes"@),
{
    match provider {
        ContentProvider::Modrinth => Ok(PreparationRoute::Modrinth),
        ContentProvider::CurseForge => Ok(PreparationRoute::CurseForge),
        _ => Err(
            input_error_around("Provider ", provider.as_str(), " does not support content changes"),
        ),
    }
}


/// The message of an action whose files could not all be downloaded.
pub open spec fn download_failure_message() -> Seq<char> {
    "One or more content files could not be downloaded"@
}

/// Whether some file of `a` is one of the `failed` file ids.
pub open spec fn has_failed_file(a: ContentChangeAction, failed: Seq<Seq<char>>) -> bool {
    exists|k: int| 0 <= k < a.files@.len() && failed.contains(#[trigger] a.files@[k].id@)
}

/// Whether `after` is `before` once the downloads have finished, with
/// `failed` the ids of the files that could not be downloaded: an action
/// still under way fails when one of its files failed and is downloaded
/// otherwise; complete and failed actions stay as they are.
pub open spec fn download_outcome(
    before: ContentChangeAction,
    after: ContentChangeAction,
    failed: Seq<Seq<char>>,
) -> bool {
    if before.spec_is_complete() || before.spec_effective_status()
        == ContentChangeActionStatus::Failed {
        after == before
    } else if has_failed_file(before, failed) {
        &&& after == ContentChangeAction {
            status: ContentChangeActionStatus::Failed,
            error: after.error,
            ..before
        }
        &&& after.error matches Some(e) && e@ == download_failure_message()
    } else {
        after == ContentChangeAction {
            status: ContentChangeActionStatus::Downloaded,
            completed: false,
            ..before
        }
    }
}

/// Whether some file of `files` has an id listed in `failed`.
fn any_file_failed(files: &Vec<ContentChangeFile>, failed: &Vec<String>) -> (r: bool)
    ensures
        r == exists|k: int|
            0 <= k < files@.len() && string_views_of(failed@).contains(#[trigger] files@[k].id@),
{
    let mut k: usize = 0;
    while k < files.len()
        invariant
            k <= files.len(),
            forall|j: int|
                0 <= j < k ==> !string_views_of(failed@).contains(#[trigger] files@[j].id@),
        decreases files.len() - k,
    {
        let mut m: usize = 0;
        while m < failed.len()
            invariant
                m <= failed.len(),
                k < files.len(),
                forall|n: int| 0 <= n < m ==> (#[trigger] failed@[n])@ != files@[k as int].id@,
            decreases failed.len() - m,
        {
            if failed[m] == files[k].id {
                assert(string_views_of(failed@)[m as int] == files@[k as int].id@);
                return true;
            }
            m += 1;
        }
        assert forall|n: int| 0 <= n < string_views_of(failed@).len() implies string_views_of(
            failed@,
        )[n] != files@[k as int].id@ by {
            assert(string_views_of(failed@)[n] == failed@[n]@);
        }
        k += 1;
    }
    false
}

/// The character sequences of a list of strings.
pub open spec fn string_views_of(v: Seq<String>) -> Seq<Seq<char>> {
    Seq::new(v.len(), |i: int| v[i]@)
}

/// Applies the result of the downloads to every action (see
/// `download_outcome`); `failed` holds the ids of the files that failed.
pub fn apply_download_results(actions: &mut Vec<ContentChangeAction>, failed: &Vec<String>)
    ensures
        final(actions).len() == old(actions).len(),
        forall|i: int|
            0 <= i < old(actions).len() ==> download_outcome(
                #[trigger] old(actions)@[i],
                final(actions)@[i],
                string_views_of(failed@),
            ),
{
    let mut i: usize = 0;
    while i < actions.len()
        invariant
            i <= actions.len() == old(actions).len(),
            forall|j: int|
                0 <= j < i ==> download_outcome(
                    #[trigger] old(actions)@[j],
                    actions@[j],
                    string_views_of(failed@),
                ),
            forall|j: int| i <= j < actions.len() ==> actions@[j] == #[trigger] old(actions)@[j],
        decreases actions.len() - i,
    {
        if !actions[i].is_complete() && actions[i].effective_status()
            != ContentChangeActionStatus::Failed {
            let ghost prev = actions@;
            let mut action = actions.remove(i);
            if any_file_failed(&action.files, failed) {
                action.status = ContentChangeActionStatus::Failed;
                action.error = Some("One or more content files could not be downloaded".to_string());
            } else {
                action.set_status(ContentChangeActionStatus::Downloaded);
            }
            actions.insert(i, action);
            assert(actions@ =~= prev.update(i as int, action));
        }
        i += 1;
    }
}

/// Whether every file's size is known.
pub open spec fn all_sizes_known(files: Seq<ContentChangeFile>) -> bool {
    forall|i: int| 0 <= i < files.len() ==> (#[trigger] files[i]).integrity.size is Some
}

/// The sum of the known file sizes.
pub open spec fn known_size_total(files: Seq<ContentChangeFile>) -> int
    decreases files.len(),
{
    if files.len() == 0 {
        0
    } else {
        known_size_total(files.drop_last()) + match files.last().integrity.size {
            Some(n) => n as int,
            None => 0,
        }
    }
}

proof fn lemma_known_size_total_monotone(files: Seq<ContentChangeFile>, k: int)
    requires
        0 <= k <= files.len(),
    ensures
        known_size_total(files.take(k)) <= known_size_total(files),
    decreases files.len() - k,
{
    if k < files.len() {
        lemma_known_size_total_monotone(files, k + 1);
        assert(files.take(k + 1).drop_last() =~= files.take(k));
    } else {
        assert(files.take(k) =~= files);
    }
}

/// The number of bytes to download: the sum of the sizes when every size is
/// known, nothing otherwise.
pub fn total_download_bytes(files: &Vec<ContentChangeFile>) -> (r: Option<u64>)
    requires
        all_sizes_known(files@) ==> known_size_total(files@) <= u64::MAX,
    ensures
        r == if all_sizes_known(files@) {
            Some(known_size_total(files@) as u64)
        } else {
            None::<u64>
        },
{
    let mut total: u64 = 0;
    let mut i: usize = 0;
    while i < files.len()
        invariant
            i <= files.len(),
            all_sizes_known(files@) ==> known_size_total(files@) <= u64::MAX,
            forall|j: int| 0 <= j < i ==> (#[trigger] files@[j]).integrity.size is Some,
            total == known_size_total(files@.take(i as int)),
        decreases files.len() - i,
    {
        assert(files@.take(i + 1).drop_last() =~= files@.take(i as int));
        match files[i].integrity.size {
            Some(n) => {
                proof {
                    if !all_sizes_known(files@) {
                        let w = choose|w: int|
                            0 <= w < files@.len() && files@[w].integrity.size is None;
                    }
                }
                if total > u64::MAX - n {
                    proof {
                        if all_sizes_known(files@) {
                            lemma_known_size_total_monotone(files@, i + 1);
                        }
                    }
                    return None;
                }
                total = total + n;
            },
            None => {
                return None;
            },
        }
        i += 1;
    }
    assert(files@.take(i as int) =~= files@);
    Some(total)
}


/// Why a Modrinth file is downloaded.
#[derive(Clone, Copy, Debug, PartialEq, Eq, Structural)]
pub enum DownloadReason {
    Update,
    Dependency,
}

/// How one file is downloaded.
#[derive(Debug)]
pub enum DownloadRoute {
    /// A Modrinth release, by id.
    Modrinth { release_id: String, reason: DownloadReason },
    /// A CurseForge file of a project.
    CurseForge { project_id: u32, file_id: u32 },
}

/// Chooses how `file` is downloaded. A file that has a manual download page
/// and no URL cannot be downloaded; Modrinth files are fetched by release
/// (primary files as an update, the others as dependencies); CurseForge
/// files need numeric project and file ids; other providers are refused.
pub fn download_route(file: &ContentChangeFile) -> (r: Result<DownloadRoute, ErrorKind>)
    ensures
        file.manual_download_url is Some && file.urls@.len() == 0 ==> (r matches Err(
            ErrorKind::InputError(m),
        ) && m@ == "This content file requires a manual download"@),
        !(file.manual_download_url is Some && file.urls@.len() == 0) ==> match file.provider {
            ContentProvider::Modrinth => r matches Ok(DownloadRoute::Modrinth { release_id, reason })
                && release_id@ == file.release_id@ && reason == if file.role
                == ContentChangeFileRole::Primary {
                DownloadReason::Update
            } else {
                DownloadReason::Dependency
            },
            ContentProvider::CurseForge => match (
                parsed_u32(file.project_id@),
                parsed_u32(file.release_id@),
            ) {
                (Some(p), Some(f)) => r matches Ok(DownloadRoute::CurseForge { project_id, file_id })
                    && project_id == p && file_id == f,
                _ => r matches Err(ErrorKind::InputError(m)) && m@
                    == "Invalid CurseForge project or file ID"@,
            },
            _ => r matches Err(ErrorKind::InputError(m)) && m@ == "Provider "@ + provider_name(
                file.provider,
            ) + " cannot be downloaded automatically"@,
        },
{
    if file.manual_download_url.is_some() && file.urls.len() == 0 {
        return Err(crate::error::input_error("This content file requires a manual download"));
    }
    match file.provider {
        ContentProvider::Modrinth => {
            let reason = if file.role == ContentChangeFileRole::Primary {
                DownloadReason::Update
            } else {
                DownloadReason::Dependency
            };
            Ok(DownloadRoute::Modrinth { release_id: file.release_id.clone(), reason })
        },
        ContentProvider::CurseForge => {
            match (parse_u32(file.project_id.as_str()), parse_u32(file.release_id.as_str())) {
                (Some(project_id), Some(file_id)) => Ok(
                    DownloadRoute::CurseForge { project_id, file_id },
                ),
                _ => Err(crate::error::input_error("Invalid CurseForge project or file ID")),
            }
        },
        _ => Err(
            input_error_around(
                "Provider ",
                file.provider.as_str(),
                " cannot be downloaded automatically",
            ),
        ),
    }
}

/// What is installed now for an action's content.
#[derive(Debug)]
pub struct ContentTarget {
    pub provider: Option<ContentProvider>,
    pub provider_release_id: Option<String>,
}

/// What publishing an action does.
#[derive(Clone, Copy, Debug, PartialEq, Eq, Structural)]
pub enum PublishStep {
    /// The target release is already installed.
    Skip,
    /// The expected release is installed: switch it to the target.
    Apply,
}

/// The character sequence of an optional string.
pub open spec fn opt_view(s: Option<String>) -> Option<Seq<char>> {
    match s {
        Some(v) => Some(v@),
        None => None,
    }
}

/// Whether two optional strings are equal.
fn same_opt_string(a: &Option<String>, b: &Option<String>) -> (r: bool)
    ensures
        r == (opt_view(*a) == opt_view(*b)),
{
    match (a, b) {
        (Some(x), Some(y)) => *x == *y,
        (None, None) => true,
        _ => false,
    }
}

/// Decides how to publish `action` given what is installed: nothing to do
/// when the target release is installed, a switch when the expected release
/// of the same provider is installed, and an error when the content changed
/// since the task was queued.
pub fn publish_step(action: &ContentChangeAction, current: &ContentTarget) -> (r: Result<
    PublishStep,
    ErrorKind,
>)
    ensures
        opt_view(current.provider_release_id) == Some(action.target_release_id@) ==> r == Ok::<
            PublishStep,
            ErrorKind,
        >(PublishStep::Skip),
        opt_view(current.provider_release_id) != Some(action.target_release_id@)
            && current.provider == Some(action.provider) && opt_view(current.provider_release_id)
            == opt_view(action.expected_release_id) ==> r == Ok::<PublishStep, ErrorKind>(
            PublishStep::Apply,
        ),
        opt_view(current.provider_release_id) != Some(action.target_release_id@) && !(
        current.provider == Some(action.provider) && opt_view(current.provider_release_id)
            == opt_view(action.expected_release_id)) ==> (r matches Err(ErrorKind::InputError(m))
            && m@ == "Content "@ + action.content_id@ + " changed after the task was queued"@),
{
    let installed_target = match &current.provider_release_id {
        Some(id) => *id == action.target_release_id,
        None => false,
    };
    if installed_target {
        return Ok(PublishStep::Skip);
    }
    let same_provider = match current.provider {
        Some(p) => p == action.provider,
        None => false,
    };
    if same_provider && same_opt_string(&current.provider_release_id, &action.expected_release_id) {
        return Ok(PublishStep::Apply);
    }
    Err(
        input_error_around(
            "Content ",
            action.content_id.as_str(),
            " changed after the task was queued",
        ),
    )
}

/// Records that publishing `action` succeeded: it is completed unless it
/// already was (skipped actions stay skipped).
pub fn record_publish_success(action: &mut ContentChangeAction)
    ensures
        old(action).spec_is_complete() ==> *final(action) == *old(action),
        !old(action).spec_is_complete() ==> *final(action) == (ContentChangeAction {
            status: ContentChangeActionStatus::Completed,
            completed: true,
            ..*old(action)
        }),
{
    if !action.is_complete() {
        action.set_status(ContentChangeActionStatus::Completed);
    }
}

/// Number of actions whose effective status is `Failed`.
pub open spec fn count_failed(actions: Seq<ContentChangeAction>) -> nat
    decreases actions.len(),
{
    if actions.len() == 0 {
        0
    } else {
        count_failed(actions.drop_last()) + if actions.last().spec_effective_status()
            == ContentChangeActionStatus::Failed {
            1nat
        } else {
            0nat
        }
    }
}

/// Succeeds when no action failed; otherwise reports how many did.
pub fn check_no_failures(actions: &[ContentChangeAction]) -> (r: Result<(), ErrorKind>)
    requires
        actions@.len() <= u64::MAX,
    ensures
        count_failed(actions@) == 0 ==> r is Ok,
        count_failed(actions@) > 0 ==> (r matches Err(ErrorKind::OtherError(m)) && m@ == decimal(
            count_failed(actions@),
        ) + " content change(s) failed"@),
{
    let mut failures: u64 = 0;
    let mut i: usize = 0;
    while i < actions.len()
        invariant
            i <= actions.len() <= u64::MAX,
            failures == count_failed(actions@.take(i as int)),
            failures <= i,
        decreases actions.len() - i,
    {
        assert(actions@.take(i + 1).drop_last() =~= actions@.take(i as int));
        if actions[i].effective_status() == ContentChangeActionStatus::Failed {
            failures += 1;
        }
        i += 1;
    }
    assert(actions@.take(i as int) =~= actions@);
    if failures == 0 {
        return Ok(());
    }
    let mut chars = decimal_chars(failures);
    let mut tail = chars_of(" content change(s) failed");
    chars.append(&mut tail);
    Err(ErrorKind::OtherError(string_from_chars(&chars)))
}

/// The outcome of a cancellation check: an input error once canceled.
pub fn cancellation_outcome(canceled: bool) -> (r: Result<(), ErrorKind>)
    ensures
        !canceled ==> r is Ok,
        canceled ==> (r matches Err(ErrorKind::InputError(m)) && m@ == "Content change canceled"@),
{
    if canceled {
        return Err(crate::error::input_error("Content change canceled"));
    }
    Ok(())
}

#[verifier::external_type_specification]
#[verifier::external_body]
pub struct ExCancellationToken(tokio_util::sync::CancellationToken);

/// Whether cancellation of `token` was requested.
///
/// Calls `tokio_util::sync::CancellationToken::is_cancelled`; the answer
/// depends on other tasks, so nothing is promised about it.
#[verifier::external_body]
pub(crate) fn token_is_cancelled(token: &tokio_util::sync::CancellationToken) -> bool {
    token.is_cancelled()
}

/// Fails with an input error once `cancellation` was requested.
pub fn check_canceled(cancellation: &tokio_util::sync::CancellationToken) -> (r: Result<(), ErrorKind>)
    ensures
        r is Ok || (r matches Err(ErrorKind::InputError(m)) && m@ == "Content change canceled"@),
{
    cancellation_outcome(token_is_cancelled(cancellation))
}

} // verus!

verus! {

/// Resuming a saved plan twice leaves it as resuming it once does, so a run
/// interrupted while resuming can simply resume again.
pub proof fn law_resume_is_idempotent(
    action: ContentChangeAction,
    version: u32,
    switched_content_id: Option<Seq<char>>,
)
    ensures
        resumed_action(resumed_action(action, version, switched_content_id), version, switched_content_id)
            == resumed_action(action, version, switched_content_id),
{
}

/// Resuming retries what failed and keeps what is done: no resumed action
/// counts as failed, a failed one is pending again, and a complete one
/// stays complete.
pub proof fn law_resume_retries_failures_and_keeps_completions(
    action: ContentChangeAction,
    version: u32,
    switched_content_id: Option<Seq<char>>,
)
    ensures
        resumed_action(action, version, switched_content_id).spec_effective_status()
            != ContentChangeActionStatus::Failed,
        action.spec_effective_status() == ContentChangeActionStatus::Failed ==> ({
            let r = resumed_action(action, version, switched_content_id);
            r.status == ContentChangeActionStatus::Pending && !r.spec_is_complete()
        }),
        action.spec_is_complete() ==> resumed_action(
            action,
            version,
            switched_content_id,
        ).spec_is_complete(),
{
}

/// Download results never change an action that is complete or failed, and
/// leave every other action downloaded or failed.
pub proof fn law_download_results_settle_pending_actions(
    before: ContentChangeAction,
    after: ContentChangeAction,
    failed: Seq<Seq<char>>,
)
    requires
        download_outcome(before, after, failed),
    ensures
        before.spec_is_complete() || before.spec_effective_status()
            == ContentChangeActionStatus::Failed ==> after == before,
        !before.spec_is_complete() && before.spec_effective_status()
            != ContentChangeActionStatus::Failed ==> !after.spec_is_complete() && (after.status
            == ContentChangeActionStatus::Downloaded || after.status
            == ContentChangeActionStatus::Failed),
{
}

} // verus!

verus! {

/// The positions, in order, of the actions that still have to be prepared.
pub open spec fn preparation_positions(actions: Seq<ContentChangeAction>) -> Seq<usize>
    decreases actions.len(),
{
    if actions.len() == 0 {
        Seq::<usize>::empty()
    } else {
        preparation_positions(actions.drop_last()) + if awaits_preparation(actions.last()) {
            seq![(actions.len() - 1) as usize]
        } else {
            Seq::<usize>::empty()
        }
    }
}

/// The positions, in order, of the actions that still have to be prepared:
/// neither complete nor downloaded.
pub fn actions_awaiting_preparation(actions: &[ContentChangeAction]) -> (r: Vec<usize>)
    ensures
        r@ == preparation_positions(actions@),
{
    let mut out: Vec<usize> = Vec::new();
    let mut i: usize = 0;
    while i < actions.len()
        invariant
            i <= actions.len(),
            out@ == preparation_positions(actions@.take(i as int)),
        decreases actions.len() - i,
    {
        assert(actions@.take(i + 1).drop_last() =~= actions@.take(i as int));
        assert(actions@.take(i + 1).last() == actions@[i as int]);
        if !actions[i].is_complete() && actions[i].effective_status()
            != ContentChangeActionStatus::Downloaded {
            out.push(i);
        }
        assert(out@ =~= preparation_positions(actions@.take(i + 1)));
        i += 1;
    }
    assert(actions@.take(i as int) =~= actions@);
    out
}

/// Whether the action is still under way, neither complete nor failed:
/// such an action downloads its files and is published.
pub fn is_under_way(action: &ContentChangeAction) -> (r: bool)
    ensures
        r == schedules_downloads(*action),
{
    !action.is_complete() && action.effective_status() != ContentChangeActionStatus::Failed
}

/// The attempts a queued download is allowed.
pub const DOWNLOAD_MAX_ATTEMPTS: u32 = 5;

/// What is recorded when the downloads of a content change are queued.
#[derive(Debug)]
pub enum DownloadQueueEvent {
    /// The downloads start: how many files, and how many bytes when known.
    Started { files: u64, bytes: Option<u64> },
    /// One file is queued.
    Queued { path: String, bytes_total: Option<u64>, max_attempts: u32 },
    /// The pages where one file can be fetched by hand.
    BrowserOptions { path: String, urls: Vec<String> },
}

/// The value of a `DownloadQueueEvent`, with strings as character sequences.
pub enum DownloadQueueEventView {
    Started { files: u64, bytes: Option<u64> },
    Queued { path: Seq<char>, bytes_total: Option<u64>, max_attempts: u32 },
    BrowserOptions { path: Seq<char>, urls: Seq<Seq<char>> },
}

impl View for DownloadQueueEvent {
    type V = DownloadQueueEventView;

    open spec fn view(&self) -> DownloadQueueEventView {
        match self {
            DownloadQueueEvent::Started { files, bytes } => DownloadQueueEventView::Started {
                files: *files,
                bytes: *bytes,
            },
            DownloadQueueEvent::Queued { path, bytes_total, max_attempts } =>
                DownloadQueueEventView::Queued {
                path: path@,
                bytes_total: *bytes_total,
                max_attempts: *max_attempts,
            },
            DownloadQueueEvent::BrowserOptions { path, urls } =>
                DownloadQueueEventView::BrowserOptions {
                path: path@,
                urls: Seq::new(urls@.len(), |i: int| urls@[i]@),
            },
        }
    }
}

/// The values of a list of queue events.
pub open spec fn queue_event_views(v: Seq<DownloadQueueEvent>) -> Seq<DownloadQueueEventView> {
    Seq::new(v.len(), |i: int| v[i]@)
}

/// The events of one queued file: queued, then its manual download pages
/// when it has any.
pub open spec fn file_queue_events(f: ContentChangeFileView) -> Seq<DownloadQueueEventView> {
    seq![
        DownloadQueueEventView::Queued {
            path: f.target_relative_path,
            bytes_total: f.size,
            max_attempts: DOWNLOAD_MAX_ATTEMPTS,
        },
    ] + if f.urls.len() > 0 {
        seq![DownloadQueueEventView::BrowserOptions { path: f.target_relative_path, urls: f.urls }]
    } else {
        Seq::<DownloadQueueEventView>::empty()
    }
}

/// The events of the queued files, in order.
pub open spec fn files_queue_events(fs: Seq<ContentChangeFileView>) -> Seq<
    DownloadQueueEventView,
>
    decreases fs.len(),
{
    if fs.len() == 0 {
        Seq::<DownloadQueueEventView>::empty()
    } else {
        files_queue_events(fs.drop_last()) + file_queue_events(fs.last())
    }
}

/// The events recorded when `files` are queued for download, `bytes` being
/// their total size when known: the start, then each file's events.
pub fn download_queue_events(files: &Vec<ContentChangeFile>, bytes: Option<u64>) -> (r: Vec<
    DownloadQueueEvent,
>)
    requires
        files@.len() <= u64::MAX,
    ensures
        queue_event_views(r@) == seq![
            DownloadQueueEventView::Started { files: files@.len() as u64, bytes },
        ] + files_queue_events(file_views(files@)),
{
    let mut out: Vec<DownloadQueueEvent> = Vec::new();
    out.push(DownloadQueueEvent::Started { files: files.len() as u64, bytes });
    let ghost start = seq![DownloadQueueEventView::Started { files: files@.len() as u64, bytes }];
    assert(queue_event_views(out@) =~= start);
    let mut i: usize = 0;
    while i < files.len()
        invariant
            i <= files.len(),
            queue_event_views(out@) == start + files_queue_events(file_views(files@).take(i as int)),
        decreases files.len() - i,
    {
        let f = &files[i];
        let ghost before = queue_event_views(out@);
        assert(file_views(files@).take(i + 1).drop_last() =~= file_views(files@).take(i as int));
        assert(file_views(files@).take(i + 1).last() == f@);
        out.push(
            DownloadQueueEvent::Queued {
                path: f.target_relative_path.clone(),
                bytes_total: f.integrity.size,
                max_attempts: DOWNLOAD_MAX_ATTEMPTS,
            },
        );
        assert(queue_event_views(out@) =~= before + seq![
            DownloadQueueEventView::Queued {
                path: f@.target_relative_path,
                bytes_total: f@.size,
                max_attempts: DOWNLOAD_MAX_ATTEMPTS,
            },
        ]);
        if f.urls.len() > 0 {
            let ghost mid = queue_event_views(out@);
            let urls = copy_strings(&f.urls);
            let e = DownloadQueueEvent::BrowserOptions {
                path: f.target_relative_path.clone(),
                urls,
            };
            assert(e@ == DownloadQueueEventView::BrowserOptions {
                path: f@.target_relative_path,
                urls: f@.urls,
            }) by {
                assert(Seq::new(urls@.len(), |j: int| urls@[j]@) =~= f@.urls);
            }
            out.push(e);
            assert(queue_event_views(out@) =~= mid + seq![e@]);
        }
        assert(queue_event_views(out@) =~= start + files_queue_events(
            file_views(files@).take(i + 1),
        ));
        i += 1;
    }
    assert(file_views(files@).take(i as int) =~= file_views(files@));
    out
}

} // verus!

verus! {

/// Once the downloads are done, an action that was neither complete nor
/// failed fails exactly when one of its files, at any position and of any
/// role, is among the failed ones, with the download failure message; it is
/// downloaded otherwise, keeping everything else.
pub proof fn law_any_failed_file_fails_its_action(
    before: ContentChangeAction,
    after: ContentChangeAction,
    failed: Seq<Seq<char>>,
)
    requires
        download_outcome(before, after, failed),
        !before.completed,
        before.status != ContentChangeActionStatus::Completed,
        before.status != ContentChangeActionStatus::Skipped,
        before.status != ContentChangeActionStatus::Failed,
    ensures
        (after.status == ContentChangeActionStatus::Failed) == (exists|k: int|
            0 <= k < before.files@.len() && #[trigger] failed.contains(before.files@[k].id@)),
        after.status == ContentChangeActionStatus::Failed ==> (after.error matches Some(e) && e@
            == "One or more content files could not be downloaded"@),
        after.status != ContentChangeActionStatus::Failed ==> after.status
            == ContentChangeActionStatus::Downloaded && after.error == before.error,
        !after.completed,
        after.files == before.files,
        after.content_id == before.content_id,
{
    reveal_strlit("One or more content files could not be downloaded");
}

} // verus!
