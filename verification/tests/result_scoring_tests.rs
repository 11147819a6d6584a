use personal_ranker::error::AppError;
use personal_ranker::json::{json_eq, JsonValue};
use personal_ranker::result::{
    export_csv, export_json_rows, export_markdown_list, export_markdown_table, export_text, ExportRow,
    ResultService,
};
use personal_ranker::scoring::{ScoringService, TieScoreRule};

#[test]
fn exports_markdown_table_list_and_plain_text() {
    let rows = vec![ExportRow {
        final_rank: 1,
        original_index: 0,
        fields: vec![
            ("名称".to_string(), JsonValue::String("A|B".into())),
            ("说明".to_string(), JsonValue::String("第一行\n第二行".into())),
        ],
        score_text: None,
    }];
    let fields = vec!["名称".to_string(), "说明".to_string()];
    let table = export_markdown_table(&rows, &fields, true, "rank", false, &None);
    assert!(table.contains("| rank | 名称 | 说明 |"));
    assert!(table.contains("A\\|B"));
    assert!(table.contains("第一行<br>第二行"));
    let list = export_markdown_list(&rows, &fields, false, "rank", false, &None);
    assert!(list.starts_with("- **名称**: A|B · **说明**: 第一行 第二行"));
    let text = export_text(&rows, &fields, false, "rank", false, &None);
    assert_eq!(text, "A|B\t第一行 第二行");
}

#[test]
fn distributes_bucket_levels_evenly() {
    let levels = [5.0, 4.0, 3.0, 2.0, 1.0];
    let scores: Vec<f64> = (0..10)
        .map(|index| levels[ScoringService::bucket_of(index, levels.len(), 10)])
        .collect();
    assert_eq!(scores, [5.0, 5.0, 4.0, 4.0, 3.0, 3.0, 2.0, 2.0, 1.0, 1.0]);
}

#[test]
fn score_groups_take_consecutive_positions() {
    let spans = ScoringService::group_spans(&vec![2, 1, 1]).unwrap();
    assert_eq!(spans, [(0, 2), (2, 3), (3, 4)]);
    assert!(matches!(
        ScoringService::group_spans(&vec![0, 0]),
        Err(AppError::InvalidInput(message)) if message == "排序结果中没有可评分条目"
    ));
    assert!(ScoringService::can_write(None));
    assert!(ScoringService::can_write(Some("number")));
    assert!(!ScoringService::can_write(Some("text")));
    assert!(ScoringService::check_field_name("  ").is_err());
    assert!(ScoringService::check_field_name("score").is_ok());
    assert_eq!(TieScoreRule::Average.as_str(), "average");
}

#[test]
fn export_targets_are_checked_in_order() {
    let check = |target: &str, parent_is_dir: bool, inside: bool, exists: bool, overwrite: bool| {
        let resolved = if inside { "/p/a.subject-sort/source/x" } else { "/home/u" };
        ResultService::validate_export_target(
            target,
            parent_is_dir,
            Ok("/p/a.subject-sort/source".into()),
            Ok(resolved.into()),
            exists,
            overwrite,
        )
    };
    assert!(matches!(check("", true, false, false, false), Err(AppError::InvalidInput(m)) if m == "请选择导出文件位置"));
    assert!(matches!(check("/", true, false, false, false), Err(AppError::InvalidInput(m)) if m == "导出路径无效"));
    assert!(matches!(check("/x/out.csv", false, false, false, false), Err(AppError::InvalidInput(m)) if m == "导出目录不存在"));
    assert!(matches!(check("/x/out.csv", true, true, false, false), Err(AppError::InvalidInput(m)) if m.contains("source")));
    assert!(matches!(
        check("/x/out.csv", true, false, true, false),
        Err(AppError::ConfirmationRequired(m)) if m == "文件“/x/out.csv”已存在"
    ));
    assert!(check("/x/out.csv", true, false, true, true).is_ok());
    assert!(matches!(
        ResultService::validate_export_target("/x/o.csv", true, Err("missing".into()), Ok("/x".into()), false, false),
        Err(AppError::InvalidProject(m)) if m == "无法验证项目源文件目录：missing"
    ));
}

#[test]
fn normalizes_linear_score_precision_during_export() {
    let score: f64 = 8.335;
    let rows = vec![ExportRow {
        final_rank: 1,
        original_index: 0,
        fields: vec![("score".to_string(), JsonValue::Number("8.335".into()))],
        score_text: Some(format!("{score:.2}")),
    }];
    let fields = vec!["score".to_string()];
    let csv = String::from_utf8(export_csv(&rows, &fields, false, "rank", false, &Some("score".into())).unwrap()).unwrap();
    assert!(csv.contains("8.34"));
    assert!(!csv.contains("8.335"));
    // The JSON rows carry the stored number; its places are set where floats are handled.
    let json = export_json_rows(&rows, &fields, false, "rank", false);
    assert_eq!(json.len(), 1);
    assert!(json_eq(&json[0], &JsonValue::Object(vec![("score".to_string(), JsonValue::Number("8.335".into()))])));
}

#[test]
fn json_rows_put_rank_and_index_first_and_fill_missing_fields_with_null() {
    let rows = vec![
        ExportRow {
            final_rank: 2,
            original_index: 7,
            fields: vec![("名称".to_string(), JsonValue::String("甲".into()))],
            score_text: None,
        },
    ];
    let fields = vec!["名称".to_string(), "rank".to_string(), "备注".to_string(), "original_index".to_string()];
    let json = export_json_rows(&rows, &fields, true, "rank", true);
    assert_eq!(json.len(), 1);
    assert!(json_eq(
        &json[0],
        &JsonValue::Object(vec![
            ("rank".to_string(), JsonValue::Number("2".into())),
            ("original_index".to_string(), JsonValue::Number("7".into())),
            ("名称".to_string(), JsonValue::String("甲".into())),
            ("备注".to_string(), JsonValue::Null),
        ])
    ));
    let bare = export_json_rows(&rows, &fields, false, "rank", false);
    assert_eq!(bare.len(), 1);
    assert!(json_eq(
        &bare[0],
        &JsonValue::Object(vec![
            ("名称".to_string(), JsonValue::String("甲".into())),
            ("rank".to_string(), JsonValue::Null),
            ("备注".to_string(), JsonValue::Null),
            ("original_index".to_string(), JsonValue::Null),
        ])
    ));
}

#[test]
fn score_fields_are_checked_before_writing() {
    assert!(ScoringService::check_score_field("分数", None, false).is_ok());
    assert!(matches!(
        ScoringService::check_score_field("分数", Some("number"), false),
        Err(AppError::ConfirmationRequired(m)) if m == "字段“分数”已存在，写入评分会覆盖当前值"
    ));
    assert!(matches!(
        ScoringService::check_score_field("分数", Some("text"), true),
        Err(AppError::InvalidInput(m)) if m == "已有字段“分数”不是数字类型，不能写入评分"
    ));
    assert!(ScoringService::check_score_field("分数", Some("number"), true).is_ok());
    assert!(matches!(ScoringService::check_scorable(None), Err(AppError::InvalidInput(m)) if m == "找不到排序任务"));
    assert!(matches!(
        ScoringService::check_scorable(Some("sorting")),
        Err(AppError::InvalidInput(m)) if m == "请先确认排序结果，再配置评分"
    ));
    assert!(ScoringService::check_scorable(Some("confirmed")).is_ok());
}
