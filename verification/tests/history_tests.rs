use personal_ranker::error::AppError;
use personal_ranker::history::{
    check_project_path, AutosaveService, AutosaveState, OpenProjectRegistry, SnapshotService,
    SnapshotType, SNAPSHOT_LIMIT,
};

fn closed_state() -> AutosaveState {
    AutosaveState { session_open: false, last_autosave_at: None, last_autosave_action: None }
}

#[test]
fn detects_unclean_session_and_clears_it_after_normal_close() {
    let (opened, first) = AutosaveService::begin_session(&closed_state());
    assert!(!first.recovered_unclean_session);
    let (recorded, _) = AutosaveService::record(&opened, "2026-08-01T10:00:00+00:00".into(), "移动条目");
    let (reopened_state, recovered) = AutosaveService::begin_session(&recorded);
    assert!(recovered.recovered_unclean_session);
    assert_eq!(recovered.last_autosave_action.as_deref(), Some("移动条目"));

    let ended = AutosaveService::end_session(&reopened_state);
    let (_, reopened) = AutosaveService::begin_session(&ended);
    assert!(!reopened.recovered_unclean_session);
}

#[test]
fn status_reports_the_stored_state() {
    let (state, _) = AutosaveService::record(&closed_state(), "t1".into(), "保存");
    let status = AutosaveService::status(&state);
    assert!(!status.session_open);
    assert!(!status.recovered_unclean_session);
    assert_eq!(status.last_autosave_at.as_deref(), Some("t1"));
}

#[test]
fn retains_only_the_latest_fifty_snapshots() {
    let ids: Vec<String> = (0..51).map(|i| format!("snapshot-{i}")).collect();
    let pruned = SnapshotService::prune_selection(&ids);
    assert_eq!(pruned, vec!["snapshot-50".to_string()]);
    assert_eq!(ids.len() - pruned.len(), SNAPSHOT_LIMIT);
    assert!(SnapshotService::prune_selection(&ids[..50].to_vec()).is_empty());
}

#[test]
fn snapshot_records_name_their_database_after_the_id() {
    let record = SnapshotService::new_record(
        SnapshotType::ImportCompleted,
        None,
        Some("dataset-1"),
        "2026-08-01T10:00:00+00:00".into(),
    );
    assert_eq!(record.id.len(), 36);
    assert_eq!(record.file_name, format!("{}.sqlite", record.id));
    assert_eq!(record.snapshot_type, "import_completed");
    assert_eq!(record.label, "数据导入完成");
    assert_eq!(record.source_task_id, None);
    assert_eq!(record.source_dataset_id.as_deref(), Some("dataset-1"));
    let other = SnapshotService::new_record(SnapshotType::BeforeRestore, None, None, "t".into());
    assert_ne!(record.id, other.id);
    assert_eq!(other.label, "恢复快照前的安全备份");
}

#[test]
fn snapshot_kinds_have_names_and_labels() {
    assert_eq!(SnapshotType::ComparisonCompleted.as_str(), "comparison_completed");
    assert_eq!(SnapshotType::SliderCompleted.default_label(), "滑杆排序完成");
    assert_eq!(SnapshotType::ExportCompleted.default_label(), "正式导出");
    assert_eq!(SnapshotType::ScoreConfirmed.as_str(), "score_confirmed");
}

#[test]
fn restores_only_intact_snapshots_of_the_same_project() {
    assert!(SnapshotService::check_restorable("ok", "p1", "p1", "/x/a.subject-sort").is_ok());
    match SnapshotService::check_restorable("corrupt", "p1", "p1", "/x") {
        Err(AppError::InvalidProject(message)) => assert_eq!(message, "所选快照数据库未通过完整性检查"),
        other => panic!("unexpected {other:?}"),
    }
    match SnapshotService::check_restorable("ok", "p1", "p2", "/x/a.subject-sort") {
        Err(AppError::InvalidProject(message)) => {
            assert_eq!(message, "快照不属于当前项目：/x/a.subject-sort")
        }
        other => panic!("unexpected {other:?}"),
    }
}

#[test]
fn project_paths_need_the_project_extension() {
    assert!(check_project_path("/home/u/计划.subject-sort").is_ok());
    match check_project_path("/home/u/plan.zip") {
        Err(AppError::InvalidProject(path)) => assert_eq!(path, "/home/u/plan.zip"),
        other => panic!("unexpected {other:?}"),
    }
}

#[test]
fn registry_keeps_each_open_project_once() {
    let mut registry = OpenProjectRegistry::new();
    registry.register("/a.subject-sort".into());
    registry.register("/b.subject-sort".into());
    registry.register("/a.subject-sort".into());
    let mut paths = registry.paths();
    paths.sort();
    assert_eq!(paths, ["/a.subject-sort", "/b.subject-sort"]);
    registry.unregister("/a.subject-sort");
    assert_eq!(registry.paths(), ["/b.subject-sort"]);
    registry.unregister("/missing");
    assert_eq!(registry.paths().len(), 1);
}
