use personal_ranker::sort_task::{CreateSortTask, CreationFacts, InitialOrder};
use personal_ranker::sort_task::SortTaskRow;
use personal_ranker::sort_task::SortDirection;
use personal_ranker::import::ImportedFieldType;
use personal_ranker::comparison::{
    comparison_history_label, group_label, ComparisonDecision, ComparisonEngine,
    ComparisonService, ComparisonSessionState,
};
use personal_ranker::error::AppError;
use personal_ranker::matrix::{sampled_pairs_with_seed, MatrixSessionState};
use personal_ranker::ranking::{rank_assignments, RankRule};
use personal_ranker::slider::SliderService;
use personal_ranker::sort_task::{SortTaskMode, SortTaskService};
use personal_ranker::groups::{check_groups_editable, plan_merge, resolve_active_group_id};

fn ids(names: &[&str]) -> Vec<String> {
    names.iter().map(|s| s.to_string()).collect()
}

#[test]
fn insertion_session_places_every_candidate() {
    let mut state = ComparisonSessionState::initialize(ids(&["A", "B", "C"]));
    assert!(state.is_well_formed());
    // Always answer that the candidate comes first: the final order is reversed.
    state.prepare_active();
    let mut steps = 0;
    while state.midpoint().is_some() && steps < 10 {
        state.answer(ComparisonDecision::LeftBefore).unwrap();
        steps += 1;
    }
    state.prepare_active();
    assert!(state.queue.is_empty());
    assert_eq!(state.sorted_group_ids, ids(&["C", "B", "A"]));
}

#[test]
fn answering_without_a_comparison_is_refused() {
    let mut state = ComparisonSessionState::initialize(ids(&["A"]));
    state.prepare_active();
    match state.answer(ComparisonDecision::Tie) {
        Err(AppError::InvalidInput(message)) => assert_eq!(message, "当前没有需要判断的比较"),
        other => panic!("unexpected {other:?}"),
    }
}

#[test]
fn decisions_have_storage_names() {
    assert_eq!(ComparisonDecision::LeftBefore.as_str(), "left_before");
    assert_eq!(ComparisonDecision::RightBefore.as_str(), "right_before");
    assert_eq!(ComparisonDecision::Tie.as_str(), "tie");
}

#[test]
fn one_v_one_tasks_pick_their_engine() {
    assert_eq!(ComparisonService::engine(SortTaskMode::Matrix).unwrap(), ComparisonEngine::Matrix);
    assert_eq!(
        ComparisonService::engine(SortTaskMode::Comparison).unwrap(),
        ComparisonEngine::Insertion
    );
    match ComparisonService::engine(SortTaskMode::Drag) {
        Err(AppError::InvalidInput(message)) => assert_eq!(message, "该任务不是 1v1 排序任务"),
        other => panic!("unexpected {other:?}"),
    }
    assert_eq!(comparison_history_label(SortTaskMode::Matrix, "保存"), "保存1v1 矩阵排序判断");
    assert_eq!(comparison_history_label(SortTaskMode::Comparison, "撤销"), "撤销1v1 传递排序判断");
}

#[test]
fn seeded_full_matrix_is_sorted_and_complete() {
    let pairs = sampled_pairs_with_seed(4, 100, 7);
    assert_eq!(pairs.len(), 6);
    for window in pairs.windows(2) {
        assert!((window[0].left, window[0].right) < (window[1].left, window[1].right));
    }
    assert!(sampled_pairs_with_seed(1, 100, 7).is_empty());
}

#[test]
fn matrix_orders_results_by_win_count() {
    let mut state = MatrixSessionState::initialize(ids(&["A", "B", "C"]), 100);
    let mut rounds = 0;
    while let Some(pair) = state.current_pair() {
        // The contestant with the lower index always wins.
        let decision = if pair.left < pair.right {
            ComparisonDecision::LeftBefore
        } else {
            ComparisonDecision::RightBefore
        };
        state.answer(decision).unwrap();
        rounds += 1;
        assert!(rounds <= 3);
    }
    assert!(state.completed());
    let (kept, merged) = state.final_groups();
    assert_eq!(kept, ids(&["A", "B", "C"]));
    assert!(merged.is_empty());
    let standings = state.standings();
    assert_eq!(standings[0].group_id, "A");
    assert_eq!(standings[0].wins, 2);
    let progress = state.progress();
    assert_eq!(progress.progress_percent, 100);
}

#[test]
fn undoing_a_matrix_answer_restores_the_session() {
    let mut state = MatrixSessionState::initialize(ids(&["A", "B"]), 100);
    let history = state.answer(ComparisonDecision::Tie).unwrap();
    assert!(state.completed());
    state.undo("tie", &history).unwrap();
    assert!(!state.completed());
    assert_eq!(state.contestants[0].ties, 0);
    assert_eq!(state.contestants[1].ties, 0);
}

#[test]
fn writes_competition_dense_and_ordinal_ranks_for_ties() {
    // A and B share a group; C follows.
    let groups = ids(&["g1", "g1", "g2"]);
    assert_eq!(rank_assignments(&groups, RankRule::Competition), [1, 1, 3]);
    assert_eq!(rank_assignments(&groups, RankRule::Dense), [1, 1, 2]);
    assert_eq!(rank_assignments(&groups, RankRule::Ordinal), [1, 2, 3]);
}

#[test]
fn rejects_matrix_tasks_above_one_hundred_items() {
    let result = SortTaskService::create(
        CreateSortTask {
            project_path: "/p".into(),
            dataset_id: "d".into(),
            name: "过大矩阵".into(),
            criteria: "重要性".into(),
            mode: SortTaskMode::Matrix,
            initial_order: InitialOrder::Import,
        },
        &facts(true, 101),
    );
    assert!(matches!(result, Err(AppError::InvalidInput(message)) if message.contains("100")));
    assert!(SortTaskService::check_task_shape(SortTaskMode::Matrix, 100, None).is_ok());
    assert!(SortTaskService::check_task_shape(SortTaskMode::Drag, 1, None).is_err());
}

#[test]
fn slider_ratings_are_checked_in_order() {
    let refused = |mode, status, value, next| match SliderService::check_rating(mode, status, value, next, 0, 3) {
        Err(AppError::InvalidInput(message)) => message,
        other => panic!("unexpected {other:?}"),
    };
    assert_eq!(refused(SortTaskMode::Drag, "sorting", 100, true), "该任务不是滑杆排序任务");
    assert_eq!(
        refused(SortTaskMode::Slider, "confirmed", 100, true),
        "结果已确认并锁定，请先在结果页解锁后再编辑"
    );
    assert_eq!(refused(SortTaskMode::Slider, "sorting", 10001, true), "滑杆位置必须在 0.00 到 100.00 之间");
    assert_eq!(refused(SortTaskMode::Slider, "sorting", 100, false), "滑杆排序已经完成");
    assert!(!SliderService::check_rating(SortTaskMode::Slider, "sorting", 10000, true, 0, 3).unwrap());
    assert!(SliderService::check_rating(SortTaskMode::Slider, "sorting", 0, true, 2, 3).unwrap());
}

#[test]
fn slider_groups_equal_positions() {
    // Highest first: A and C at 80.13, B at 20.00.
    let ratings = vec![("A".to_string(), 8013u16), ("C".to_string(), 8013), ("B".to_string(), 2000)];
    let (kept, merged) = SliderService::finalize(&ratings);
    assert_eq!(kept, ids(&["A", "B"]));
    assert_eq!(merged, vec![("C".to_string(), "A".to_string())]);
}

#[test]
fn rejects_non_numeric_or_date_initial_order_field() {
    let mut text_field = facts(true, 2);
    text_field.order_field_type = Some("text".into());
    let result = SortTaskService::create(
        CreateSortTask {
            project_path: "/p".into(),
            dataset_id: "d".into(),
            name: "错误初排".into(),
            criteria: "测试".into(),
            mode: SortTaskMode::Drag,
            initial_order: InitialOrder::Field { field_name: "内容".into(), direction: SortDirection::Ascending },
        },
        &text_field,
    );
    assert!(matches!(result, Err(AppError::InvalidInput(_))));
    assert!(matches!(SortTaskService::orderable_field_type(Some("text")), Err(AppError::InvalidInput(_))));
    assert!(matches!(
        SortTaskService::orderable_field_type(None),
        Err(AppError::InvalidInput(message)) if message == "找不到用于初始排序的字段"
    ));
    assert!(matches!(
        SortTaskService::orderable_field_type(Some("weird")),
        Err(AppError::InvalidProject(message)) if message == "未知的字段类型：weird"
    ));
    assert_eq!(SortTaskService::orderable_field_type(Some("date")).unwrap(), ImportedFieldType::Date);
}

#[test]
fn field_order_puts_missing_values_last_and_keeps_import_order_for_ties() {
    let keys = vec![Some(5), None, Some(2), Some(5), None];
    let indices = vec![0, 1, 2, 3, 4];
    assert_eq!(SortTaskService::sort_items_by_field(&keys, &indices, SortDirection::Ascending), [2, 0, 3, 1, 4]);
    assert_eq!(SortTaskService::sort_items_by_field(&keys, &indices, SortDirection::Descending), [0, 3, 2, 1, 4]);
    assert!(SortTaskService::sort_items_by_field(&vec![], &vec![], SortDirection::Ascending).is_empty());
}

#[test]
fn stored_task_rows_are_read_or_reported() {
    let row = |mode: &str, status: &str, order_type: &str| SortTaskRow {
        id: "t1".into(),
        dataset_id: "d1".into(),
        name: "任务".into(),
        criteria: "标准".into(),
        mode: mode.into(),
        status: status.into(),
        order_type: order_type.into(),
        order_field: None,
        order_direction: None,
        order_task_id: None,
        matrix_comparison_percent: None,
        rank_group_count: 3,
        created_at: "t".into(),
    };
    let listed = SortTaskService::list(vec![row("drag", "draft", "import")]).unwrap();
    assert_eq!(listed.len(), 1);
    assert_eq!(listed[0].mode, SortTaskMode::Drag);
    assert_eq!(listed[0].rank_group_count, 3);
    match SortTaskService::list(vec![row("drag", "draft", "import"), row("drag", "lost", "import"), row("x", "draft", "import")]) {
        Err(AppError::InvalidProject(message)) => assert_eq!(message, "未知的排序任务状态：lost"),
        other => panic!("unexpected {other:?}"),
    }
    match SortTaskService::list(vec![row("drag", "draft", "sideways")]) {
        Err(AppError::InvalidProject(message)) => assert_eq!(message, "未知的初始排序类型：sideways"),
        other => panic!("unexpected {other:?}"),
    }
}

#[test]
fn workspace_counts_placed_and_waiting_items_by_group_size() {
    let mut state = ComparisonSessionState::initialize(ids(&["A", "B", "C"]));
    state.prepare_active();
    // One answer places B next to A; C still waits.
    state.answer(ComparisonDecision::LeftBefore).unwrap();
    let table = ids(&["A", "B", "C"]);
    let sizes = vec![2, 3, 4];
    assert_eq!(state.sorted_group_ids, ids(&["B", "A"]));
    assert_eq!(state.placement_counts(&table, &sizes), (5, 4));
    // A group the table lacks counts as empty.
    assert_eq!(state.placement_counts(&ids(&["A"]), &vec![2]), (2, 0));
}

#[test]
fn group_labels_prefer_the_name_then_join_members() {
    assert_eq!(group_label(&Some("并列组".to_string()), &ids(&["甲", "乙"])), "并列组");
    assert_eq!(group_label(&None, &ids(&["甲", "乙", "丙"])), "甲、乙、丙");
    assert_eq!(group_label(&None, &ids(&["甲"])), "甲");
}

#[test]
fn creation_checks_dataset_size_mode_and_percentage() {
    let request = |mode: SortTaskMode| CreateSortTask {
        project_path: "/p".into(),
        dataset_id: "d".into(),
        name: " 任务 ".into(),
        criteria: " 越重要越靠前 ".into(),
        mode,
        initial_order: InitialOrder::Import,
    };
    let plan = SortTaskService::create_with_matrix_percent(request(SortTaskMode::Matrix), None, &facts(true, 3)).unwrap();
    assert_eq!(
        (plan.request.name.as_str(), plan.request.criteria.as_str(), plan.matrix_comparison_percent),
        ("任务", "越重要越靠前", Some(100))
    );
    let plan = SortTaskService::create_with_matrix_percent(request(SortTaskMode::Drag), Some(40), &facts(true, 3)).unwrap();
    assert_eq!(plan.matrix_comparison_percent, None);
    assert!(matches!(
        SortTaskService::create_with_matrix_percent(request(SortTaskMode::Matrix), Some(0), &facts(true, 3)),
        Err(AppError::InvalidInput(m)) if m == "矩阵排序的随机抽取比例必须在 1% 到 100% 之间"
    ));
    assert!(matches!(
        SortTaskService::create_with_matrix_percent(request(SortTaskMode::Slider), None, &facts(true, 1)),
        Err(AppError::InvalidInput(m)) if m == "数据集至少需要两个有效条目才能创建排序任务"
    ));
    assert!(matches!(
        SortTaskService::create(request(SortTaskMode::Slider), &facts(false, 3)),
        Err(AppError::InvalidInput(m)) if m == "找不到要创建任务的数据集"
    ));
    let mut blank = request(SortTaskMode::Drag);
    blank.name = "  ".into();
    assert!(matches!(
        SortTaskService::create(blank, &facts(true, 3)),
        Err(AppError::InvalidInput(m)) if m == "排序任务名称不能为空"
    ));
    assert!(matches!(SortTaskService::check_updated(0), Err(AppError::InvalidInput(m)) if m == "找不到要修改的排序任务"));
    assert!(SortTaskService::check_updated(1).is_ok());
}

fn facts(dataset_exists: bool, item_count: usize) -> CreationFacts {
    CreationFacts { dataset_exists, item_count, order_field_type: None, source_status: None, source_rows: Vec::new() }
}

#[test]
fn merge_chains_resolve_to_the_active_group() {
    let merges = vec![
        ("a".to_string(), Some("b".to_string())),
        ("b".to_string(), Some("c".to_string())),
        ("c".to_string(), None),
        ("x".to_string(), Some("y".to_string())),
        ("y".to_string(), Some("x".to_string())),
    ];
    assert_eq!(resolve_active_group_id(&merges, &"a".to_string()).unwrap(), "c");
    assert_eq!(resolve_active_group_id(&merges, &"c".to_string()).unwrap(), "c");
    assert_eq!(resolve_active_group_id(&merges, &"unknown".to_string()).unwrap(), "unknown");
    assert!(matches!(
        resolve_active_group_id(&merges, &"x".to_string()),
        Err(AppError::InvalidProject(m)) if m == "并列组归并关系形成异常循环"
    ));
}

#[test]
fn group_edits_need_an_unlocked_task_and_active_groups() {
    assert!(matches!(check_groups_editable(None, &vec![]), Err(AppError::InvalidInput(m)) if m == "找不到排序任务"));
    assert!(matches!(
        check_groups_editable(Some("confirmed"), &vec![true]),
        Err(AppError::InvalidInput(m)) if m == "结果已确认并锁定，请先解锁后再编辑"
    ));
    assert!(matches!(
        check_groups_editable(Some("sorting"), &vec![true, false]),
        Err(AppError::InvalidInput(m)) if m == "找不到有效的排序组"
    ));
    assert!(check_groups_editable(Some("draft"), &vec![true, true]).is_ok());
}

#[test]
fn merging_drops_the_source_from_the_order() {
    let order = ids(&["a", "b", "c"]);
    assert_eq!(plan_merge(&order, &"b".to_string(), &"a".to_string()).unwrap(), ids(&["a", "c"]));
    assert!(matches!(
        plan_merge(&order, &"b".to_string(), &"b".to_string()),
        Err(AppError::InvalidInput(m)) if m == "不能将排序组与自身合并"
    ));
}
