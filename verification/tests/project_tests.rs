use personal_ranker::error::{AppError, AppErrorPayload};
use personal_ranker::import::ImportError;
use personal_ranker::project::ProjectService;

fn refusal(name: &str) -> String {
    match ProjectService::validate_name(name) {
        Err(AppError::InvalidInput(message)) => message,
        other => panic!("unexpected {other:?}"),
    }
}

#[test]
fn rejects_invalid_project_name() {
    assert!(matches!(ProjectService::validate_name("bad/name"), Err(AppError::InvalidInput(_))));
}

#[test]
fn accepts_chinese_underscores_and_date_digits() {
    assert_eq!(ProjectService::validate_name("测试_20260803").unwrap(), "测试_20260803");
}

#[test]
fn project_names_follow_windows_file_rules() {
    assert_eq!(ProjectService::validate_name("  计划  ").unwrap(), "计划");
    assert_eq!(refusal("   "), "项目名称不能为空");
    assert_eq!(refusal("a:b"), "项目名称包含 Windows 文件名不允许的字符");
    assert_eq!(refusal("name."), "项目名称包含 Windows 文件名不允许的字符");
    assert_eq!(refusal("tab\tname"), "项目名称包含 Windows 文件名不允许的字符");
    assert_eq!(refusal("con"), "项目名称是 Windows 保留名称");
    assert_eq!(refusal("Lpt9"), "项目名称是 Windows 保留名称");
    assert_eq!(refusal("COM1"), "项目名称是 Windows 保留名称");
    assert_eq!(ProjectService::validate_name("COM10").unwrap(), "COM10");
    assert_eq!(ProjectService::folder_name("计划"), "计划.subject-sort");
}

#[test]
fn rejects_pre_release_project_format() {
    assert!(matches!(
        ProjectService::check_data_format(1),
        Err(AppError::UnsupportedVersion { found: 1, supported: 10_000 })
    ));
    assert!(ProjectService::check_data_format(10_000).is_ok());
}

#[test]
fn rejects_non_baseline_database_schema() {
    assert!(matches!(
        ProjectService::check_schema(&Some(vec![10_000, 10_001])),
        Err(AppError::UnsupportedDatabaseSchema)
    ));
    assert!(matches!(ProjectService::check_schema(&None), Err(AppError::UnsupportedDatabaseSchema)));
    assert!(ProjectService::check_schema(&Some(vec![10_000])).is_ok());
}

#[test]
fn project_folders_need_their_layout_and_matching_metadata() {
    assert!(ProjectService::validate_project_layout("/p/a.subject-sort", true, true).is_ok());
    assert!(matches!(
        ProjectService::validate_project_layout("/p/a.subject-sort", true, false),
        Err(AppError::InvalidProject(path)) if path == "/p/a.subject-sort"
    ));
    assert!(ProjectService::validate_project_layout("/p/a.zip", true, true).is_err());
    assert_eq!(
        ProjectService::required_entries(),
        ["metadata.json", "project.sqlite", "source", "assets"]
    );
    let stored = Some(("id".to_string(), "名称".to_string(), 10_000u32));
    assert!(ProjectService::check_metadata(&stored, "id", "名称", 10_000).is_ok());
    assert!(matches!(
        ProjectService::check_metadata(&stored, "id", "别名", 10_000),
        Err(AppError::InvalidProject(message)) if message == "元数据与项目数据库不一致"
    ));
    assert!(ProjectService::check_metadata(&None, "id", "名称", 10_000).is_err());
}

#[test]
fn error_payloads_carry_code_message_and_detail() {
    let payload = AppErrorPayload::from_error(&AppError::InvalidInput("名称".into()));
    assert_eq!(payload.code, "INVALID_INPUT");
    assert_eq!(payload.message, "参数无效：名称");
    assert_eq!(payload.detail.as_deref(), Some("参数无效：名称"));

    let payload = AppErrorPayload::from_error(&AppError::Database("disk I/O error".into()));
    assert_eq!(payload.code, "DATABASE");
    assert_eq!(payload.message, "无法保存项目数据库，数据未被静默忽略。");
    assert_eq!(payload.detail.as_deref(), Some("数据库操作失败：disk I/O error"));

    let version = AppError::UnsupportedVersion { found: 1, supported: 10_000 };
    assert_eq!(version.message(), "项目版本不受支持：当前为 1，本应用支持 10000");

    let payload = AppErrorPayload::from_error(&AppError::Import(ImportError::EmptyCsv));
    assert_eq!(payload.code, "IMPORT_EMPTY_CSV");
    assert_eq!(payload.message, "CSV 中没有可识别的记录。");

    assert!(matches!(
        AppError::from_io(true, "denied".into(), "/p".into()),
        AppError::NotWritable(path) if path == "/p"
    ));
    assert!(matches!(
        AppError::from_io(false, "gone".into(), "/p".into()),
        AppError::Io(text) if text == "gone"
    ));
}
