use personal_ranker::comparison::{ComparisonDecision, ComparisonSessionState};
use personal_ranker::error::AppError;
use personal_ranker::json::JsonValue;
use personal_ranker::result::ResultService;
use personal_ranker::groups::ComparisonRecord;
use personal_ranker::sort_task::{MoveConflictResolution, SortTaskMode, SortTaskService, SortTaskStatus};
use personal_ranker::topology::{restore_topology, GroupState};
use personal_ranker::workspace::{
    comparison_workspace, drag_workspace, result_preview, slider_workspace, DisplayFieldDefinition,
    GroupRow, ItemRow, RatingRow,
};

fn defs() -> Vec<DisplayFieldDefinition> {
    vec![
        DisplayFieldDefinition { name: "名称".into(), is_primary: true, is_auxiliary: false },
        DisplayFieldDefinition { name: "备注".into(), is_primary: false, is_auxiliary: true },
    ]
}

fn item(id: &str, name: &str, original_index: usize) -> ItemRow {
    ItemRow {
        item_id: id.into(),
        original_index,
        is_valid: true,
        fields: vec![("名称".to_string(), JsonValue::String(name.into()))],
    }
}

fn group(id: &str, name: Option<&str>, position: usize, items: Vec<ItemRow>) -> GroupRow {
    GroupRow {
        group_id: id.into(),
        name: name.map(|n| n.to_string()),
        position,
        initial_position: 10 + position,
        items,
    }
}

fn three_groups() -> Vec<GroupRow> {
    vec![
        group("g1", Some("并列组1"), 0, vec![item("i1", "甲", 2), item("i2", "乙", 0)]),
        group("g2", None, 1, vec![item("i3", "丙", 1)]),
        group("g3", None, 2, vec![item("i4", "丁", 3)]),
    ]
}

#[test]
fn drag_workspace_lists_groups_with_starting_ranks_and_items_in_order() {
    let w = drag_workspace(
        "t".into(), "任务".into(), "标准".into(), SortTaskMode::Drag, false, SortTaskStatus::Sorting,
        &defs(), &three_groups(), true, true, false,
    )
    .unwrap();
    let ranks: Vec<usize> = w.groups.iter().map(|g| g.starting_rank).collect();
    assert_eq!(ranks, [1, 3, 4]);
    let positions: Vec<usize> = w.groups.iter().map(|g| g.position).collect();
    assert_eq!(positions, [0, 1, 2]);
    let labels: Vec<&str> = w.items.iter().map(|i| i.primary_label.as_str()).collect();
    assert_eq!(labels, ["甲", "乙", "丙", "丁"]);
    assert_eq!(w.items[2].original_position, 11);
    assert_eq!(w.items[0].fields.len(), 2);
    assert!(matches!(w.items[0].fields[1].value, JsonValue::Null));
    assert_eq!(w.items[0].auxiliary_fields.len(), 1);
    assert_eq!(w.items[0].auxiliary_fields[0].name, "备注");
    assert!(w.has_comparisons && w.can_undo && !w.can_redo);
}

#[test]
fn drag_workspace_waits_for_unfinished_sessions() {
    let refused = drag_workspace(
        "t".into(), "任务".into(), "标准".into(), SortTaskMode::Comparison, false,
        SortTaskStatus::Sorting, &defs(), &three_groups(), false, false, false,
    );
    assert!(matches!(refused, Err(AppError::InvalidInput(m)) if m == "请先完成 1v1 排序，再进入拖拽微调"));
    let refused = drag_workspace(
        "t".into(), "任务".into(), "标准".into(), SortTaskMode::Slider, false,
        SortTaskStatus::Sorting, &defs(), &three_groups(), false, false, false,
    );
    assert!(matches!(refused, Err(AppError::InvalidInput(m)) if m == "请先完成滑杆排序，再进入拖拽微调"));
    let no_primary = vec![DisplayFieldDefinition { name: "名称".into(), is_primary: false, is_auxiliary: false }];
    let refused = drag_workspace(
        "t".into(), "任务".into(), "标准".into(), SortTaskMode::Drag, false,
        SortTaskStatus::Sorting, &no_primary, &three_groups(), false, false, false,
    );
    assert!(matches!(refused, Err(AppError::InvalidProject(m)) if m == "数据集缺少主标识字段"));
}

#[test]
fn result_preview_ranks_items_by_earlier_groups_and_checks_integrity() {
    let p = result_preview(
        "t".into(), "任务".into(), SortTaskStatus::Sorting, &defs(), &three_groups(), 4, true, None,
        None, None,
    )
    .unwrap();
    let ranks: Vec<usize> = p.items.iter().map(|i| i.rank).collect();
    assert_eq!(ranks, [1, 1, 3, 4]);
    let ties: Vec<usize> = p.items.iter().map(|i| i.tie_size).collect();
    assert_eq!(ties, [2, 2, 1, 1]);
    let changes: Vec<i64> = p.items.iter().map(|i| i.rank_change).collect();
    assert_eq!(changes, [2, 0, -1, 0]);
    assert_eq!(p.items[0].group_name.as_deref(), Some("并列组1"));
    assert!(p.integrity.is_valid());
    assert!(p.can_confirm);
    let short = result_preview(
        "t".into(), "任务".into(), SortTaskStatus::Sorting, &defs(), &three_groups(), 5, true, None,
        None, None,
    )
    .unwrap();
    assert!(!short.can_confirm);
    assert_eq!(short.integrity.problems, ["结果包含 4 个条目，但数据集有 5 个有效条目"]);
}

#[test]
fn comparison_workspace_shows_the_pair_counts_and_placed_order() {
    let groups = vec![
        group("A", None, 0, vec![item("a1", "甲", 0), item("a2", "乙", 1)]),
        group("B", None, 1, vec![item("b1", "丙", 2)]),
        group("C", Some("命名组"), 2, vec![item("c1", "丁", 3)]),
    ];
    let mut state = ComparisonSessionState::initialize(vec!["A".into(), "B".into(), "C".into()]);
    state.prepare_active();
    let w = comparison_workspace(
        "t".into(), "任务".into(), "标准".into(), SortTaskStatus::Sorting, &state, &defs(), &groups, 0,
    )
    .unwrap();
    assert_eq!(w.left.as_ref().unwrap().group_id, "B");
    assert_eq!(w.right.as_ref().unwrap().group_id, "A");
    assert_eq!(w.right.as_ref().unwrap().primary_label, "甲、乙");
    assert_eq!((w.located_count, w.pending_count, w.total_count), (2, 2, 4));
    assert_eq!(w.progress_percent, 50);
    assert_eq!(w.estimated_remaining, 3);
    assert_eq!(w.planned_comparison_count, Some(3));
    assert!(!w.can_undo && !w.completed);
    state.answer(ComparisonDecision::RightBefore).unwrap();
    let w = comparison_workspace(
        "t".into(), "任务".into(), "标准".into(), SortTaskStatus::Sorting, &state, &defs(), &groups, 1,
    )
    .unwrap();
    let order: Vec<&str> = w.ordered_items.iter().map(|i| i.group_id.as_str()).collect();
    assert_eq!(order, ["A", "B"]);
    assert_eq!(w.left.as_ref().unwrap().primary_label, "命名组");
    assert!(w.can_undo);
    let empty = vec![group("A", None, 0, vec![])];
    let refused = comparison_workspace(
        "t".into(), "任务".into(), "标准".into(), SortTaskStatus::Sorting, &state, &defs(), &empty, 0,
    );
    assert!(matches!(refused, Err(AppError::InvalidProject(m)) if m == "活动排序组没有条目"));
}

#[test]
fn slider_workspace_offers_the_first_unrated_item() {
    let groups = three_groups();
    let ratings = vec![RatingRow { group_id: "g1".into(), item: item("i1", "甲", 2), value_hundredths: 250 }];
    let w = slider_workspace(
        "t".into(), "任务".into(), "标准".into(), SortTaskStatus::Sorting, &defs(), &groups, &ratings, 4,
    )
    .unwrap();
    let current = w.current.unwrap();
    assert_eq!(current.item_id, "i2");
    assert_eq!(current.primary_label, "乙");
    assert_eq!(current.member_labels, ["乙"]);
    assert_eq!((w.completed_count, w.total_count, w.progress_percent), (1, 4, 25));
    assert!(!w.completed);
    assert_eq!(w.ratings[0].value_hundredths, 250);
    let all: Vec<RatingRow> = ["i1", "i2", "i3", "i4"]
        .iter()
        .map(|id| RatingRow { group_id: "g".into(), item: item(id, "x", 0), value_hundredths: 0 })
        .collect();
    let done = slider_workspace(
        "t".into(), "任务".into(), "标准".into(), SortTaskStatus::Sorting, &defs(), &groups, &all, 4,
    )
    .unwrap();
    assert!(done.current.is_none() && done.completed);
    assert_eq!(done.progress_percent, 100);
}

#[test]
fn answers_that_follow_a_ranking_end_in_that_ranking() {
    // The true order is by the number in each id; answers always follow it.
    let ids: Vec<String> = ["g07", "g03", "g09", "g01", "g05", "g02", "g08", "g04", "g06", "g10"]
        .iter()
        .map(|s| s.to_string())
        .collect();
    let mut state = ComparisonSessionState::initialize(ids);
    let mut answers = 0;
    loop {
        state.prepare_active();
        let Some(mid) = state.midpoint() else { break };
        let left = state.queue[0].group_id.clone();
        let right = state.sorted_group_ids[mid].clone();
        let decision = if left < right { ComparisonDecision::LeftBefore } else { ComparisonDecision::RightBefore };
        state.answer(decision).unwrap();
        answers += 1;
        assert!(answers < 100);
    }
    assert!(state.queue.is_empty());
    let expected: Vec<String> = (1..=10).map(|n| format!("g{n:02}")).collect();
    assert_eq!(state.sorted_group_ids, expected);
}

#[test]
fn following_the_drag_withdraws_exactly_the_reversed_judgments() {
    let order: Vec<String> = ["A", "B", "C"].iter().map(|s| s.to_string()).collect();
    let labels: Vec<String> = ["甲", "乙", "丙"].iter().map(|s| s.to_string()).collect();
    let records = vec![
        ComparisonRecord { id: "r1".into(), left_group_id: "A".into(), right_group_id: "B".into(), result: "left_before".into() },
        ComparisonRecord { id: "r2".into(), left_group_id: "B".into(), right_group_id: "C".into(), result: "left_before".into() },
        ComparisonRecord { id: "r3".into(), left_group_id: "C".into(), right_group_id: "A".into(), result: "right_before".into() },
    ];
    // Moving C to the top reverses r2 (B before C) and r3 (A before C).
    let withdrawn = SortTaskService::withdrawn_judgments(
        &order, &"C".to_string(), 0, MoveConflictResolution::UpdateRelations, &order, &labels, &records,
    )
    .unwrap();
    assert_eq!(withdrawn, ["r2", "r3"]);
    let kept = SortTaskService::withdrawn_judgments(
        &order, &"C".to_string(), 0, MoveConflictResolution::Temporary, &order, &labels, &records,
    )
    .unwrap();
    assert!(kept.is_empty());
    assert!(matches!(
        SortTaskService::withdrawn_judgments(
            &order, &"Z".to_string(), 0, MoveConflictResolution::UpdateRelations, &order, &labels, &records,
        ),
        Err(AppError::InvalidInput(m)) if m == "找不到要移动的排序组"
    ));
}

fn state(id: &str, position: usize, active: bool, merged_into: Option<&str>, items: &[&str]) -> GroupState {
    GroupState {
        id: id.into(),
        position,
        name: None,
        is_active: active,
        merged_into: merged_into.map(|m| m.to_string()),
        items: items.iter().map(|s| s.to_string()).collect(),
    }
}

#[test]
fn undoing_a_merge_and_a_split_restores_the_captured_groups() {
    // Captured before merging B into A: both active, one item each.
    let captured = vec![state("A", 0, true, None, &["a"]), state("B", 1, true, None, &["b"])];
    // After the merge and a split that made group N.
    let current = vec![
        state("A", 0, true, None, &["a"]),
        state("B", 2, false, Some("A"), &[]),
        state("N", 1, true, None, &["b"]),
    ];
    let restored = restore_topology(&current, &captured);
    assert_eq!(restored.len(), 3);
    assert_eq!((restored[0].id.as_str(), restored[0].position, restored[0].is_active), ("A", 0, true));
    assert_eq!(restored[0].items, ["a"]);
    assert_eq!((restored[1].id.as_str(), restored[1].position, restored[1].is_active), ("B", 1, true));
    assert_eq!(restored[1].merged_into, None);
    assert_eq!(restored[1].items, ["b"]);
    // N was made after the capture: inactive, empty, moved past 2 + 2 + 1.
    assert_eq!((restored[2].id.as_str(), restored[2].position, restored[2].is_active), ("N", 6, false));
    assert!(restored[2].items.is_empty());
}

#[test]
fn unlocking_retains_latest_confirmation_snapshot() {
    let first_time = "2026-01-02T03:04:05+00:00".to_string();
    let confirmed = result_preview(
        "t".into(), "确认".into(), SortTaskStatus::Confirmed, &defs(), &three_groups(), 4, true,
        Some(first_time.clone()), None, None,
    )
    .unwrap();
    assert_eq!(confirmed.confirmed_at.as_deref(), Some(first_time.as_str()));
    let lock = ResultService::unlock(true).unwrap();
    let unlocked = result_preview(
        "t".into(), "确认".into(), lock.status, &defs(), &three_groups(), 4, true,
        confirmed.confirmed_at.clone(), lock.rank_written_at, lock.rank_written_field,
    )
    .unwrap();
    assert_eq!(unlocked.status, SortTaskStatus::Sorting);
    assert_eq!(unlocked.confirmed_at, confirmed.confirmed_at);
}

#[test]
fn unlocking_a_missing_task_is_refused() {
    assert!(matches!(ResultService::unlock(false), Err(AppError::InvalidInput(m)) if m == "找不到排序任务"));
}

#[test]
fn statuses_are_stored_by_name() {
    for status in [SortTaskStatus::Draft, SortTaskStatus::Sorting, SortTaskStatus::Confirmed] {
        assert_eq!(SortTaskStatus::from_storage(status.as_str()), Some(status));
    }
    assert_eq!(SortTaskStatus::Sorting.as_str(), "sorting");
}
