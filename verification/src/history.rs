//! Project history: snapshot kinds and the records kept for them, which
//! snapshots are pruned, the autosave session as a state machine, and the
//! set of projects this process has open.

use vstd::prelude::*;

use crate::error::AppError;
use crate::import::new_item_id;
use crate::paths::{path_extension, path_extension_of};
use crate::text::{concat, owned, str_eq, views};

verus! {

broadcast use vstd::seq_lib::group_seq_properties;

/// Why a snapshot of the whole project was taken.
#[derive(Debug, Clone, Copy, PartialEq, Eq, Structural)]
pub enum SnapshotType {
    ImportCompleted,
    ComparisonCompleted,
    SliderCompleted,
    SortConfirmed,
    ScoreConfirmed,
    ExportCompleted,
    BeforeRestore,
}

impl SnapshotType {
    pub open spec fn spec_name(self) -> Seq<char> {
        match self {
            SnapshotType::ImportCompleted => "import_completed"@,
            SnapshotType::ComparisonCompleted => "comparison_completed"@,
            SnapshotType::SliderCompleted => "slider_completed"@,
            SnapshotType::SortConfirmed => "sort_confirmed"@,
            SnapshotType::ScoreConfirmed => "score_confirmed"@,
            SnapshotType::ExportCompleted => "export_completed"@,
            SnapshotType::BeforeRestore => "before_restore"@,
        }
    }

    /// Storage name of the kind.
    pub fn as_str(self) -> (s: &'static str)
        ensures
            s@ == self.spec_name(),
    {
        match self {
            SnapshotType::ImportCompleted => "import_completed",
            SnapshotType::ComparisonCompleted => "comparison_completed",
            SnapshotType::SliderCompleted => "slider_completed",
            SnapshotType::SortConfirmed => "sort_confirmed",
            SnapshotType::ScoreConfirmed => "score_confirmed",
            SnapshotType::ExportCompleted => "export_completed",
            SnapshotType::BeforeRestore => "before_restore",
        }
    }

    pub open spec fn spec_label(self) -> Seq<char> {
        match self {
            SnapshotType::ImportCompleted => "数据导入完成"@,
            SnapshotType::ComparisonCompleted => "1v1 排序完成"@,
            SnapshotType::SliderCompleted => "滑杆排序完成"@,
            SnapshotType::SortConfirmed => "排序结果确认"@,
            SnapshotType::ScoreConfirmed => "评分写入确认"@,
            SnapshotType::ExportCompleted => "正式导出"@,
            SnapshotType::BeforeRestore => "恢复快照前的安全备份"@,
        }
    }

    /// The label a snapshot of this kind is given.
    pub fn default_label(self) -> (s: &'static str)
        ensures
            s@ == self.spec_label(),
    {
        match self {
            SnapshotType::ImportCompleted => "数据导入完成",
            SnapshotType::ComparisonCompleted => "1v1 排序完成",
            SnapshotType::SliderCompleted => "滑杆排序完成",
            SnapshotType::SortConfirmed => "排序结果确认",
            SnapshotType::ScoreConfirmed => "评分写入确认",
            SnapshotType::ExportCompleted => "正式导出",
            SnapshotType::BeforeRestore => "恢复快照前的安全备份",
        }
    }
}

/// Distinct snapshot kinds are stored under distinct names, so a stored
/// name tells the kind back.
pub proof fn lemma_snapshot_names_distinct(a: SnapshotType, b: SnapshotType)
    ensures
        a.spec_name() == b.spec_name() ==> a == b,
{
    reveal_strlit("import_completed");
    reveal_strlit("comparison_completed");
    reveal_strlit("slider_completed");
    reveal_strlit("sort_confirmed");
    reveal_strlit("score_confirmed");
    reveal_strlit("export_completed");
    reveal_strlit("before_restore");
    assert("import_completed"@[0] == 'i' && "comparison_completed"@[0] == 'c' && "slider_completed"@[1] == 'l');
    assert("sort_confirmed"@[1] == 'o' && "score_confirmed"@[1] == 'c' && "export_completed"@[0] == 'e');
    assert("before_restore"@[0] == 'b');
}

/// How many snapshots a project keeps.
pub const SNAPSHOT_LIMIT: usize = 50;

/// What is stored of one snapshot.
#[derive(Debug)]
pub struct SnapshotRecord {
    pub id: String,
    pub snapshot_type: String,
    pub label: String,
    pub file_name: String,
    pub source_task_id: Option<String>,
    pub source_dataset_id: Option<String>,
    pub created_at: String,
}

/// The text of an optional borrowed string.
pub open spec fn opt_view(o: Option<&str>) -> Option<Seq<char>> {
    match o {
        Some(s) => Some(s@),
        None => None,
    }
}

/// The text of an optional owned string.
pub open spec fn opt_string_view(o: Option<String>) -> Option<Seq<char>> {
    match o {
        Some(s) => Some(s@),
        None => None,
    }
}

fn owned_option(o: Option<&str>) -> (r: Option<String>)
    ensures
        opt_string_view(r) == opt_view(o),
{
    match o {
        Some(s) => Some(owned(s)),
        None => None,
    }
}

/// Snapshot history: records, what is pruned, what a restore accepts.
pub struct SnapshotService;

impl SnapshotService {
    /// The record of a new snapshot taken at `created_at`: a fresh id, the
    /// kind's name and label, and a database file named after the id.
    pub fn new_record(
        snapshot_type: SnapshotType,
        source_task_id: Option<&str>,
        source_dataset_id: Option<&str>,
        created_at: String,
    ) -> (r: SnapshotRecord)
        ensures
            r.id@.len() == 36,
            r.snapshot_type@ == snapshot_type.spec_name(),
            r.label@ == snapshot_type.spec_label(),
            r.file_name@ == r.id@ + ".sqlite"@,
            opt_string_view(r.source_task_id) == opt_view(source_task_id),
            opt_string_view(r.source_dataset_id) == opt_view(source_dataset_id),
            r.created_at@ == created_at@,
    {
        let id = new_item_id();
        let file_name = concat(id.as_str(), ".sqlite");
        SnapshotRecord {
            id,
            snapshot_type: owned(snapshot_type.as_str()),
            label: owned(snapshot_type.default_label()),
            file_name,
            source_task_id: owned_option(source_task_id),
            source_dataset_id: owned_option(source_dataset_id),
            created_at,
        }
    }

    /// Of the snapshot ids, newest first, those beyond the newest
    /// `SNAPSHOT_LIMIT`, which are deleted.
    pub fn prune_selection(record_ids: &Vec<String>) -> (r: Vec<String>)
        ensures
            views(r@) == pruned_ids(views(record_ids@)),
    {
        let mut r: Vec<String> = Vec::new();
        let n = record_ids.len();
        if n <= SNAPSHOT_LIMIT {
            assert(views(r@) =~= pruned_ids(views(record_ids@)));
            return r;
        }
        for i in SNAPSHOT_LIMIT..n
            invariant
                n == record_ids@.len(),
                SNAPSHOT_LIMIT < n,
                views(r@) =~= views(record_ids@).subrange(SNAPSHOT_LIMIT as int, i as int),
        {
            let ghost before = views(r@);
            r.push(owned(record_ids[i].as_str()));
            assert(views(r@) =~= before.push(views(record_ids@)[i as int]));
        }
        r
    }

    /// Whether a snapshot database may replace the project's: it passed
    /// its integrity check (`ok`) and belongs to the same project.
    pub fn check_restorable(integrity: &str, current_id: &str, snapshot_id: &str, project_path: &str) -> (r: Result<
        (),
        AppError,
    >)
        ensures
            integrity@ != "ok"@ ==> (r matches Err(AppError::InvalidProject(m)) && m@ == "所选快照数据库未通过完整性检查"@),
            integrity@ == "ok"@ && current_id@ != snapshot_id@ ==> (r matches Err(AppError::InvalidProject(m))
                && m@ == "快照不属于当前项目："@ + project_path@),
            integrity@ == "ok"@ && current_id@ == snapshot_id@ ==> r is Ok,
    {
        if !str_eq(integrity, "ok") {
            return Err(AppError::InvalidProject(owned("所选快照数据库未通过完整性检查")));
        }
        if !str_eq(current_id, snapshot_id) {
            return Err(AppError::InvalidProject(concat("快照不属于当前项目：", project_path)));
        }
        Ok(())
    }
}

/// How many snapshots pruning keeps out of `n`: all of them, up to
/// `SNAPSHOT_LIMIT`.
pub open spec fn kept_count(n: nat) -> int {
    if n <= SNAPSHOT_LIMIT {
        n as int
    } else {
        SNAPSHOT_LIMIT as int
    }
}

/// The snapshots that pruning deletes, of ids listed newest first: those
/// after the newest `SNAPSHOT_LIMIT`.
pub open spec fn pruned_ids(ids: Seq<Seq<char>>) -> Seq<Seq<char>> {
    ids.skip(kept_count(ids.len()))
}

/// Pruning keeps exactly the newest `SNAPSHOT_LIMIT` snapshots (all of
/// them when there are no more): of distinct ids listed newest first, those
/// left after deleting the selected ones are the first `kept_count`, and
/// the deleted ones are all the others.
pub proof fn lemma_prune_keeps_newest(ids: Seq<Seq<char>>)
    requires
        ids.no_duplicates(),
    ensures
        ids.to_set().difference(pruned_ids(ids).to_set()) == ids.take(kept_count(ids.len())).to_set(),
        ids.take(kept_count(ids.len())).len() == kept_count(ids.len()),
        pruned_ids(ids).len() + kept_count(ids.len()) == ids.len(),
{
    let k = kept_count(ids.len());
    let kept = ids.take(k);
    let gone = pruned_ids(ids);
    assert forall|x: Seq<char>| ids.to_set().difference(gone.to_set()).contains(x) implies #[trigger] kept.to_set().contains(x) by {
        let i = choose|i: int| 0 <= i < ids.len() && ids[i] == x;
        if i >= k {
            assert(gone[i - k] == x);
        }
        assert(kept[i] == x);
    }
    assert forall|x: Seq<char>| #[trigger] kept.to_set().contains(x) implies ids.to_set().difference(gone.to_set()).contains(x) by {
        let i = choose|i: int| 0 <= i < kept.len() && kept[i] == x;
        assert(ids[i] == x);
        if gone.to_set().contains(x) {
            let j = choose|j: int| 0 <= j < gone.len() && gone[j] == x;
            assert(ids[j + k] == x);
        }
    }
    assert(ids.to_set().difference(gone.to_set()) =~= kept.to_set());
}

/// The project folder is one: its extension is `subject-sort`.
pub open spec fn is_project_path(project_path: Seq<char>) -> bool {
    path_extension_of(project_path) == Some("subject-sort"@)
}

/// Checks that a path names a project folder before its database is
/// opened; `InvalidProject` with the path when it does not.
pub fn check_project_path(project_path: &str) -> (r: Result<(), AppError>)
    ensures
        is_project_path(project_path@) ==> r is Ok,
        !is_project_path(project_path@) ==> (r matches Err(AppError::InvalidProject(m)) && m@ == project_path@),
{
    match path_extension(project_path) {
        Some(e) => {
            if str_eq(e.as_str(), "subject-sort") {
                Ok(())
            } else {
                Err(AppError::InvalidProject(owned(project_path)))
            }
        },
        None => Err(AppError::InvalidProject(owned(project_path))),
    }
}

/// The stored autosave state of a project.
#[derive(Debug)]
pub struct AutosaveState {
    pub session_open: bool,
    pub last_autosave_at: Option<String>,
    pub last_autosave_action: Option<String>,
}

/// What the interface is told of autosaving. Times are RFC 3339 text.
#[derive(Debug)]
pub struct AutosaveStatus {
    pub session_open: bool,
    pub recovered_unclean_session: bool,
    pub last_autosave_at: Option<String>,
    pub last_autosave_action: Option<String>,
}

/// The autosave state as values: whether a session is open, and when and
/// what was last saved.
pub struct AutosaveView {
    pub open: bool,
    pub at: Option<Seq<char>>,
    pub action: Option<Seq<char>>,
}

impl View for AutosaveState {
    type V = AutosaveView;

    open spec fn view(&self) -> AutosaveView {
        AutosaveView {
            open: self.session_open,
            at: opt_string_view(self.last_autosave_at),
            action: opt_string_view(self.last_autosave_action),
        }
    }
}

/// Opening a session: the state stored, and whether an unclean exit is
/// reported (the previous session was still open).
pub open spec fn spec_begin(s: AutosaveView) -> (AutosaveView, bool) {
    (AutosaveView { open: true, at: s.at, action: s.action }, s.open)
}

/// Recording a change made at `at`.
pub open spec fn spec_record(s: AutosaveView, at: Seq<char>, action: Seq<char>) -> AutosaveView {
    AutosaveView { open: s.open, at: Some(at), action: Some(action) }
}

/// Closing a session normally.
pub open spec fn spec_end(s: AutosaveView) -> AutosaveView {
    AutosaveView { open: false, at: s.at, action: s.action }
}

/// A status shows a state, with the given report of an unclean exit.
pub open spec fn shows(status: AutosaveStatus, s: AutosaveView, recovered: bool) -> bool {
    &&& status.session_open == s.open
    &&& status.recovered_unclean_session == recovered
    &&& opt_string_view(status.last_autosave_at) == s.at
    &&& opt_string_view(status.last_autosave_action) == s.action
}

fn clone_option(o: &Option<String>) -> (r: Option<String>)
    ensures
        opt_string_view(r) == opt_string_view(*o),
{
    match o {
        Some(s) => Some(owned(s.as_str())),
        None => None,
    }
}

/// The autosave session: opened when a project is opened, closed when it
/// is closed normally. A session still open at the next opening shows that
/// the application did not exit cleanly.
pub struct AutosaveService;

impl AutosaveService {
    /// The status read from the stored state.
    pub fn status(stored: &AutosaveState) -> (s: AutosaveStatus)
        ensures
            shows(s, stored@, false),
    {
        AutosaveStatus {
            session_open: stored.session_open,
            recovered_unclean_session: false,
            last_autosave_at: clone_option(&stored.last_autosave_at),
            last_autosave_action: clone_option(&stored.last_autosave_action),
        }
    }

    /// Opens a session: the state to store, and the status, which reports
    /// an unclean exit when the previous session was still open.
    pub fn begin_session(stored: &AutosaveState) -> (r: (AutosaveState, AutosaveStatus))
        ensures
            r.0@ == spec_begin(stored@).0,
            shows(r.1, spec_begin(stored@).0, spec_begin(stored@).1),
    {
        let next = AutosaveState {
            session_open: true,
            last_autosave_at: clone_option(&stored.last_autosave_at),
            last_autosave_action: clone_option(&stored.last_autosave_action),
        };
        let status = AutosaveStatus {
            session_open: true,
            recovered_unclean_session: stored.session_open,
            last_autosave_at: clone_option(&stored.last_autosave_at),
            last_autosave_action: clone_option(&stored.last_autosave_action),
        };
        (next, status)
    }

    /// Records a successful change made at `at`: the state to store and
    /// the status read back from it.
    pub fn record(stored: &AutosaveState, at: String, action: &str) -> (r: (AutosaveState, AutosaveStatus))
        ensures
            r.0@ == spec_record(stored@, at@, action@),
            shows(r.1, spec_record(stored@, at@, action@), false),
    {
        let next = AutosaveState {
            session_open: stored.session_open,
            last_autosave_at: Some(at),
            last_autosave_action: Some(owned(action)),
        };
        let status = Self::status(&next);
        (next, status)
    }

    /// Closes the session normally: the state to store.
    pub fn end_session(stored: &AutosaveState) -> (r: AutosaveState)
        ensures
            r@ == spec_end(stored@),
    {
        AutosaveState {
            session_open: false,
            last_autosave_at: clone_option(&stored.last_autosave_at),
            last_autosave_action: clone_option(&stored.last_autosave_action),
        }
    }
}

/// A session that was opened and never closed is reported as an unclean
/// exit at the next opening, with the last change recorded in it; a
/// session closed normally is not.
pub proof fn lemma_session_cycle(s: AutosaveView, at: Seq<char>, action: Seq<char>)
    ensures
        spec_begin(spec_begin(s).0).1,
        spec_begin(spec_record(spec_begin(s).0, at, action)).1,
        spec_begin(spec_record(spec_begin(s).0, at, action)).0.action == Some(action),
        !spec_begin(spec_end(s)).1,
        !spec_begin(spec_end(spec_record(spec_begin(s).0, at, action))).1,
{
}

/// The projects this process has open, each path once.
pub struct OpenProjectRegistry {
    paths: Vec<String>,
}

impl OpenProjectRegistry {
    #[verifier::type_invariant]
    spec fn each_once(self) -> bool {
        views(self.paths@).no_duplicates()
    }

    /// The set of open project paths.
    pub closed spec fn spec_paths(self) -> Set<Seq<char>> {
        views(self.paths@).to_set()
    }

    /// A registry with no project open.
    pub fn new() -> (r: OpenProjectRegistry)
        ensures
            r.spec_paths() == Set::<Seq<char>>::empty(),
    {
        let r = OpenProjectRegistry { paths: Vec::new() };
        assert(r.spec_paths() =~= Set::<Seq<char>>::empty());
        r
    }

    /// Notes that a project is open.
    pub fn register(&mut self, project_path: String)
        ensures
            final(self).spec_paths() == old(self).spec_paths().insert(project_path@),
    {
        proof {
            use_type_invariant(&*self);
        }
        let mut paths: Vec<String> = Vec::new();
        std::mem::swap(&mut paths, &mut self.paths);
        let ghost before = views(paths@);
        if !crate::text::contains_string(&paths, &project_path) {
            paths.push(project_path);
            assert(views(paths@) =~= before.push(project_path@));
            assert(views(paths@).to_set() =~= before.to_set().insert(project_path@));
        } else {
            assert(before.to_set() =~= before.to_set().insert(project_path@));
        }
        self.paths = paths;
    }

    /// Notes that a project is no longer open.
    pub fn unregister(&mut self, project_path: &str)
        ensures
            final(self).spec_paths() == old(self).spec_paths().remove(project_path@),
    {
        proof {
            use_type_invariant(&*self);
        }
        let mut paths: Vec<String> = Vec::new();
        std::mem::swap(&mut paths, &mut self.paths);
        let ghost before = views(paths@);
        let mut kept: Vec<String> = Vec::new();
        for i in 0..paths.len()
            invariant
                before == views(paths@),
                before.no_duplicates(),
                views(kept@).no_duplicates(),
                forall|x: Seq<char>|
                    views(kept@).contains(x) <==> (before.take(i as int).contains(x) && x != project_path@),
        {
            if !str_eq(paths[i].as_str(), project_path) {
                let ghost k0 = views(kept@);
                kept.push(owned(paths[i].as_str()));
                assert(views(kept@) =~= k0.push(before[i as int]));
                assert(!k0.contains(before[i as int])) by {
                    if k0.contains(before[i as int]) {
                        let j = choose|j: int| 0 <= j < i && before.take(i as int)[j] == before[i as int];
                        assert(before[j] == before[i as int]);
                    }
                }
                assert(before.take(i + 1) =~= before.take(i as int).push(before[i as int]));
            } else {
                assert(before.take(i + 1) =~= before.take(i as int).push(before[i as int]));
            }
        }
        assert(before.take(paths@.len() as int) =~= before);
        assert(views(kept@).to_set() =~= before.to_set().remove(project_path@));
        self.paths = kept;
    }

    /// The open project paths, each once.
    pub fn paths(&self) -> (r: Vec<String>)
        ensures
            views(r@).to_set() == self.spec_paths(),
            views(r@).no_duplicates(),
    {
        proof {
            use_type_invariant(self);
        }
        let r = crate::text::clone_strings(&self.paths);
        r
    }
}

} // verus!
