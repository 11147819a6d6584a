use personal_ranker::dataset::{
    CommitDatasetImport, DatasetImportSource, DatasetService, StoredDataset, StoredField,
};
use personal_ranker::error::AppError;
use personal_ranker::import::{ImportService, ImportSourceType, ImportedFieldType};
use personal_ranker::json::JsonValue;
use personal_ranker::media::{
    image_mime, normalize_match_path, FolderItem, MediaAssetRecord, MediaPreview, MediaService,
    PreviewStep,
};

fn strings(names: &[&str]) -> Vec<String> {
    names.iter().map(|s| s.to_string()).collect()
}

fn request(source: DatasetImportSource, name: &str, primary: &str, auxiliary: &[&str]) -> CommitDatasetImport {
    CommitDatasetImport {
        project_path: "/p/a.subject-sort".into(),
        dataset_name: name.into(),
        source,
        deduplicate: false,
        json_pointer: None,
        primary_identifier: primary.into(),
        auxiliary_identifiers: strings(auxiliary),
    }
}

#[test]
fn rejects_overlapping_identifiers_without_writing() {
    let import = ImportService::import_text("A\nB", false).unwrap();
    let result = DatasetService::commit_import(
        &request(DatasetImportSource::PastedText("A\nB".into()), "数据", "内容", &["内容"]),
        &import,
    );
    assert!(matches!(result, Err(AppError::InvalidInput(_))));
}

#[test]
fn commits_and_reloads_dataset_with_field_configuration() {
    let import = ImportService::import_csv("name,priority,note\n任务A,1,甲\n任务B,2,乙", false).unwrap();
    let plan = DatasetService::commit_import(
        &request(DatasetImportSource::File("/in/tasks.csv".into()), " 任务清单 ", "name", &["note"]),
        &import,
    )
    .unwrap();
    assert_eq!(plan.dataset_name, "任务清单");
    assert!(plan.source_filename.ends_with("_tasks.csv"));
    assert_eq!(plan.source_filename.len(), 32 + "_tasks.csv".len());
    assert!(plan.fields.iter().any(|field| field.name == "name" && field.is_primary_identifier));
    assert!(plan.fields.iter().any(|field| field.name == "note" && field.is_auxiliary_identifier));
    assert_eq!(plan.fields.len(), 3);

    let stored = vec![StoredDataset {
        id: "d1".into(),
        name: plan.dataset_name.clone(),
        source_type: "csv".into(),
        source_filename: Some(plan.source_filename.clone()),
        item_count: 2,
        fields: plan
            .fields
            .iter()
            .map(|field| StoredField {
                id: field.id.clone(),
                name: field.name.clone(),
                field_type: field.field_type.as_str().into(),
                display_order: field.display_order,
                is_primary_identifier: field.is_primary_identifier,
                is_auxiliary_identifier: field.is_auxiliary_identifier,
            })
            .collect(),
    }];
    let reopened = DatasetService::list_datasets(&stored).unwrap();
    assert_eq!(reopened.len(), 1);
    assert_eq!(reopened[0].name, "任务清单");
    assert_eq!(reopened[0].source_type, ImportSourceType::Csv);
    assert_eq!(reopened[0].fields.len(), 3);
    assert_eq!(reopened[0].fields[1].field_type, ImportedFieldType::Number);
}

#[test]
fn dataset_commits_check_name_and_identifiers() {
    let import = ImportService::import_text("A\nB", false).unwrap();
    let refusal = |name: &str, primary: &str, auxiliary: &[&str]| {
        match DatasetService::commit_import(
            &request(DatasetImportSource::PastedText("A\nB".into()), name, primary, auxiliary),
            &import,
        ) {
            Err(AppError::InvalidInput(message)) => message,
            other => panic!("unexpected {other:?}"),
        }
    };
    assert_eq!(refusal("  ", "内容", &[]), "数据集名称不能为空");
    assert_eq!(refusal("数据", "名称", &[]), "必须选择有效的主标识字段");
    assert_eq!(refusal("数据", "内容", &["备注"]), "辅助标识字段无效，或与主标识字段重复");
    let names = strings(&["a", "b", "c"]);
    assert!(matches!(
        DatasetService::validate_identifiers(&names, "a", &strings(&["b", "b"])),
        Err(AppError::InvalidInput(message)) if message == "辅助标识字段不能重复"
    ));
    assert!(DatasetService::validate_identifiers(&names, "a", &strings(&["b", "c"])).is_ok());
    let plan = DatasetService::commit_import(
        &request(DatasetImportSource::PastedText("A\nB".into()), "数据", "内容", &[]),
        &import,
    )
    .unwrap();
    assert!(plan.source_filename.ends_with("_pasted.txt"));
}

#[test]
fn unknown_stored_types_are_reported() {
    let stored = vec![StoredDataset {
        id: "d1".into(),
        name: "x".into(),
        source_type: "excel".into(),
        source_filename: None,
        item_count: 0,
        fields: vec![],
    }];
    assert!(matches!(
        DatasetService::list_datasets(&stored),
        Err(AppError::InvalidProject(message)) if message == "未知的数据来源类型：excel"
    ));
}

#[test]
fn deletes_dataset_and_its_readonly_source_copy() {
    let (source, media) = DatasetService::delete_dataset(
        &Some("abc_tasks.csv".into()),
        &strings(&["assets/media/1.png", "../outside.png", "/abs/assets/x.png", "./assets/media/2.png", "other/3.png"]),
    );
    assert_eq!(source.as_deref(), Some("abc_tasks.csv"));
    assert_eq!(media, ["assets/media/1.png", "./assets/media/2.png"]);
    let (source, _) = DatasetService::delete_dataset(&Some("../escape.csv".into()), &vec![]);
    assert_eq!(source, None);
    assert!(DatasetService::check_deleted(1).is_ok());
    assert!(matches!(
        DatasetService::check_deleted(0),
        Err(AppError::InvalidInput(m)) if m == "找不到要删除的数据表"
    ));
}

#[test]
fn image_types_and_match_keys() {
    assert_eq!(image_mime("a/b/Cover.PNG"), Some("image/png"));
    assert_eq!(image_mime("x.jpeg"), Some("image/jpeg"));
    assert_eq!(image_mime("x.svg"), Some("image/svg+xml"));
    assert_eq!(image_mime("x.txt"), None);
    assert_eq!(image_mime("noext"), None);
    assert_eq!(normalize_match_path("./Legacy/A.png"), "legacy/a.png");
    assert_eq!(normalize_match_path("/root/../X.PNG"), "root/x.png");
}

fn object(members: Vec<(&str, &str)>) -> Vec<(String, JsonValue)> {
    let mut members: Vec<(String, JsonValue)> = members
        .into_iter()
        .map(|(k, v)| (k.to_string(), JsonValue::String(v.to_string())))
        .collect();
    members.sort_by(|a, b| a.0.cmp(&b.0));
    members
}

#[test]
fn imports_image_folder_by_matching_path_filenames() {
    let items = vec![
        FolderItem { id: "A".into(), fields: object(vec![("name", "A"), ("image", "legacy/a.png")]) },
        FolderItem { id: "B".into(), fields: object(vec![("name", "B"), ("image", "b.jpg")]) },
        FolderItem { id: "C".into(), fields: object(vec![("name", "C"), ("image", "missing.webp")]) },
    ];
    let files = strings(&["a.png", "b.jpg"]);
    let matched = MediaService::match_folder_images(&files, &items, &strings(&["image"])).unwrap();
    assert_eq!(matched.result.image_file_count, 2);
    assert_eq!(matched.result.matched_item_count, 2);
    assert_eq!(matched.result.matched_asset_count, 2);
    assert_eq!(matched.result.unmatched_item_count, 1);
    assert_eq!(matched.assets[0].item_id, "A");
    assert_eq!(matched.assets[0].file, 0);
    assert_eq!(matched.assets[1].file, 1);
}

#[test]
fn folder_matching_prefers_paths_and_refuses_ambiguous_names() {
    let items = vec![
        FolderItem { id: "A".into(), fields: object(vec![("image", "x/Cover.png?v=2")]) },
        FolderItem { id: "B".into(), fields: object(vec![("image", "dup.png")]) },
        FolderItem { id: "C".into(), fields: object(vec![("image", "https://example.com/c.png")]) },
    ];
    let files = strings(&["x/cover.png", "y/dup.png", "z/dup.png"]);
    let matched = MediaService::match_folder_images(&files, &items, &strings(&["image"])).unwrap();
    assert_eq!(matched.assets.len(), 1);
    assert_eq!(matched.assets[0].reference, "x/Cover.png?v=2");
    assert_eq!(matched.assets[0].file, 0);
    assert_eq!(matched.result.unmatched_item_count, 1);
    assert!(matches!(
        MediaService::match_folder_images(&files, &items, &vec![]),
        Err(AppError::InvalidInput(message)) if message == "当前数据表没有图片相关字段"
    ));
    assert!(matches!(
        MediaService::match_folder_images(&vec![], &items, &strings(&["image"])),
        Err(AppError::InvalidInput(message)) if message == "所选文件夹中没有支持的图片文件"
    ));
    assert!(MediaService::check_image_file_count(10_000).is_ok());
    assert!(MediaService::check_image_file_count(10_001).is_err());
}

#[test]
fn copies_local_images_and_blocks_remote_images_by_default() {
    let import = ImportService::import_markdown(
        "| name | image |\n| --- | --- |\n| A | cover.png |\n| B | https://example.com/b.webp |",
        false,
    )
    .unwrap();
    let references = MediaService::imported_references(&import);
    assert_eq!(references.len(), 2);
    assert_eq!(references[0].reference, "cover.png");
    assert!(!references[0].remote);
    assert!(references[1].remote);

    let remote = Some(MediaAssetRecord {
        id: "m".into(),
        dataset_id: "d".into(),
        item_id: "B".into(),
        field_name: "image".into(),
        source_kind: "remote".into(),
        source_value: "https://example.com/b.webp".into(),
        local_path: None,
        created_at: "t".into(),
    });
    assert!(matches!(MediaService::preview(&remote, false), PreviewStep::Done(MediaPreview::RemoteBlocked)));
    match MediaService::preview(&remote, true) {
        PreviewStep::Done(MediaPreview::RemoteReady { url }) => assert_eq!(url, "https://example.com/b.webp"),
        other => panic!("unexpected {other:?}"),
    }
    assert!(matches!(MediaService::preview(&None, true), PreviewStep::Done(MediaPreview::Missing)));
    let local = MediaService::local_ready("assets/media/x.png", b"fake-png").unwrap();
    assert_eq!(local, MediaPreview::LocalReady { data_url: "data:image/png;base64,ZmFrZS1wbmc=".into() });
    assert!(matches!(MediaService::check_local_file(false, 1), Some(MediaPreview::Missing)));
    assert!(matches!(MediaService::check_local_file(true, 20 * 1024 * 1024 + 1), Some(MediaPreview::TooLarge)));
    assert!(MediaService::check_local_file(true, 20 * 1024 * 1024).is_none());
}
