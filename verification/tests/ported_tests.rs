use personal_ranker::comparison::{CandidateState, ComparisonDecision, ComparisonSessionState};
use personal_ranker::error::AppError;
use personal_ranker::groups::{
    order_without, plan_local_reorder, plan_rank_group_move, plan_split, replay_move, replay_range_order,
    tie_group_name, validate_group_name, ComparisonRecord,
};
use personal_ranker::import::ImportService;
use personal_ranker::json::JsonValue;
use personal_ranker::matrix::MatrixSessionState;
use personal_ranker::sort_task::{
    CreateSortTask, CreationFacts, InitialOrder, MoveConflictResolution, SortDirection, SortTaskMode,
    SortTaskService, SortTaskStatus,
};
use personal_ranker::topology::{restore_topology, GroupState};
use personal_ranker::workspace::{
    comparison_workspace, drag_workspace, result_preview, ComparisonWorkspace, DisplayFieldDefinition, DragWorkspace,
    GroupRow, ItemRow,
};

fn strings(v: &[&str]) -> Vec<String> {
    v.iter().map(|s| s.to_string()).collect()
}

fn defs() -> Vec<DisplayFieldDefinition> {
    vec![DisplayFieldDefinition { name: "内容".into(), is_primary: true, is_auxiliary: false }]
}

fn item(label: &str, original_index: usize) -> ItemRow {
    ItemRow {
        item_id: format!("i{label}"),
        original_index,
        is_valid: true,
        fields: vec![("内容".to_string(), JsonValue::String(label.into()))],
    }
}

/// Stored groups in the given order: group `g<label>` holds the items
/// named by its members; the initial position is the import position of
/// its first member among `labels`.
fn stored(order: &[(String, Option<String>, Vec<String>)], labels: &[&str]) -> Vec<GroupRow> {
    order
        .iter()
        .enumerate()
        .map(|(position, (id, name, members))| GroupRow {
            group_id: id.clone(),
            name: name.clone(),
            position,
            initial_position: labels.iter().position(|l| *l == members[0].as_str()).unwrap(),
            items: members
                .iter()
                .map(|m| item(m, labels.iter().position(|l| *l == m.as_str()).unwrap()))
                .collect(),
        })
        .collect()
}

fn singles(order: &[String]) -> Vec<(String, Option<String>, Vec<String>)> {
    order.iter().map(|id| (id.clone(), None, vec![id.trim_start_matches('g').to_string()])).collect()
}

fn drag(groups: &Vec<GroupRow>) -> DragWorkspace {
    drag_workspace(
        "t".into(), "任务".into(), "标准".into(), SortTaskMode::Drag, true, SortTaskStatus::Sorting, &defs(), groups,
        false, false, false,
    )
    .unwrap()
}

fn workspace_labels(workspace: &DragWorkspace) -> Vec<&str> {
    workspace.items.iter().map(|item| item.primary_label.as_str()).collect()
}

fn no_facts(item_count: usize) -> CreationFacts {
    CreationFacts { dataset_exists: true, item_count, order_field_type: None, source_status: None, source_rows: Vec::new() }
}

fn request(name: &str, criteria: &str, mode: SortTaskMode, initial_order: InitialOrder) -> CreateSortTask {
    CreateSortTask {
        project_path: "/p".into(),
        dataset_id: "d".into(),
        name: name.into(),
        criteria: criteria.into(),
        mode,
        initial_order,
    }
}

#[test]
fn creates_multiple_tasks_and_single_member_rank_groups() {
    let import = ImportService::import_csv("name,score,date\nA,2,2026-08-02\nB,1,2026-08-01\nC,3,2026-08-03", false)
        .unwrap();
    let score_type = import.fields.iter().find(|f| f.name == "score").unwrap().field_type.as_str();
    let imported = SortTaskService::create(
        request("导入顺序", "更重要的排在前面", SortTaskMode::Drag, InitialOrder::Import),
        &no_facts(import.items.len()),
    )
    .unwrap();
    let mut by_score_facts = no_facts(import.items.len());
    by_score_facts.order_field_type = Some(score_type.to_string());
    let by_score = SortTaskService::create(
        request(
            "按分数初排",
            "分数更高的排在前面",
            SortTaskMode::Matrix,
            InitialOrder::Field { field_name: "score".into(), direction: SortDirection::Descending },
        ),
        &by_score_facts,
    )
    .unwrap();
    let by_slider = SortTaskService::create(
        request("滑杆评分", "评分更高的排在前面", SortTaskMode::Slider, InitialOrder::Import),
        &no_facts(import.items.len()),
    )
    .unwrap();
    assert_eq!(imported.matrix_comparison_percent, None);
    assert_eq!(by_score.matrix_comparison_percent, Some(100));
    assert_eq!(by_score.request.mode, SortTaskMode::Matrix);
    assert_eq!(by_slider.request.mode, SortTaskMode::Slider);
    assert_eq!(by_score.order_field_type.map(|t| t.as_str()), Some("number"));

    // The score order: one single-member group per item, highest first.
    let score = |i: usize| match &import.items[i].fields.iter().find(|(n, _)| n == "score").unwrap().1 {
        JsonValue::String(s) => s.clone(),
        JsonValue::Number(s) => s.clone(),
        _ => String::new(),
    };
    let keys: Vec<Option<i64>> = (0..3).map(|i| score(i).parse::<i64>().ok()).collect();
    let indices: Vec<usize> = import.items.iter().map(|i| i.original_index).collect();
    let order = SortTaskService::sort_items_by_field(&keys, &indices, SortDirection::Descending);
    assert_eq!(order.len(), 3);
    let values: Vec<String> = order.iter().map(|&i| score(i)).collect();
    assert_eq!(values, ["3", "2", "1"]);

    assert_eq!(SortTaskService::update_criteria("  新的排序标准  ").unwrap(), "新的排序标准");
    assert!(matches!(SortTaskService::update_criteria(" "), Err(AppError::InvalidInput(_))));
    assert_eq!(by_score.request.initial_order.storage_columns().0, "field");
}

#[test]
fn creates_task_from_confirmed_result_with_tie_groups() {
    // The source task over A, B, C after merging B's group into A's.
    let rows: Vec<(String, Option<String>, String)> = vec![
        ("g1".into(), Some("并列组1".into()), "iA".into()),
        ("g1".into(), Some("并列组1".into()), "iB".into()),
        ("g3".into(), None, "iC".into()),
    ];
    let facts = |status: Option<&str>| CreationFacts {
        dataset_exists: true,
        item_count: 3,
        order_field_type: None,
        source_status: status.map(|s| s.to_string()),
        source_rows: rows.clone(),
    };
    let copy = || request("复用结果", "新的判断标准", SortTaskMode::Drag, InitialOrder::TaskResult { task_id: "source".into() });
    let copied = SortTaskService::create(copy(), &facts(Some("confirmed"))).unwrap();
    let groups = copied.copied_groups.unwrap();
    assert_eq!(groups.len(), 2);
    assert_eq!(groups[0].item_ids.len(), 2);
    let labels: Vec<String> = groups.iter().flat_map(|g| g.item_ids.iter().map(|i| i.trim_start_matches('i').to_string())).collect();
    assert_eq!(labels, ["A", "B", "C"]);
    assert!(matches!(SortTaskService::create(copy(), &facts(Some("sorting"))), Err(AppError::InvalidInput(_))));
    assert!(matches!(SortTaskService::create(copy(), &facts(None)), Err(AppError::InvalidInput(_))));
    assert!(SortTaskService::delete(1).is_ok());
}

#[test]
fn applies_local_range_as_one_undoable_operation() {
    let initial = strings(&["gA", "gB", "gC", "gD"]);
    let labels = ["A", "B", "C", "D"];
    let reversed = strings(&["gC", "gB"]);
    let reordered = plan_local_reorder(&initial, 1, &reversed).unwrap().unwrap();
    assert_eq!(workspace_labels(&drag(&stored(&singles(&reordered), &labels))), ["A", "C", "B", "D"]);
    let undone = replay_range_order(&reordered, &initial).unwrap();
    assert_eq!(workspace_labels(&drag(&stored(&singles(&undone), &labels))), ["A", "B", "C", "D"]);
    let redone = replay_range_order(&undone, &reordered).unwrap();
    assert_eq!(workspace_labels(&drag(&stored(&singles(&redone), &labels))), ["A", "C", "B", "D"]);
}

#[test]
fn moves_persists_undoes_and_redoes_drag_order() {
    let labels = ["A", "B", "C"];
    let initial = strings(&["gA", "gB", "gC"]);
    let first = drag(&stored(&singles(&initial), &labels));
    assert_eq!(workspace_labels(&first), ["A", "B", "C"]);
    let plan = plan_rank_group_move(&initial, &"gC".to_string(), 0).unwrap().unwrap();
    let moved = drag(&stored(&singles(&plan.order), &labels));
    assert_eq!(workspace_labels(&moved), ["C", "A", "B"]);
    assert_eq!(moved.items[0].original_position, 2);
    assert_eq!(moved.items[1].original_position, 0);
    let undone = replay_move(&plan.order, &plan.inverse).unwrap();
    assert_eq!(workspace_labels(&drag(&stored(&singles(&undone), &labels))), ["A", "B", "C"]);
    let redone = replay_move(&undone, &plan.forward).unwrap();
    assert_eq!(workspace_labels(&drag(&stored(&singles(&redone), &labels))), ["C", "A", "B"]);
    let undone_again = replay_move(&redone, &plan.inverse).unwrap();
    let branched = plan_rank_group_move(&undone_again, &"gB".to_string(), 0).unwrap().unwrap();
    assert_eq!(workspace_labels(&drag(&stored(&singles(&branched.order), &labels))), ["B", "A", "C"]);
}

#[test]
fn handles_one_thousand_drag_items() {
    let names: Vec<String> = (1..=1000).map(|index| format!("条目{index:04}")).collect();
    let labels: Vec<&str> = names.iter().map(|s| s.as_str()).collect();
    let initial: Vec<String> = names.iter().map(|n| format!("g{n}")).collect();
    let first = drag(&stored(&singles(&initial), &labels));
    assert_eq!(first.items.len(), 1000);
    let last_group = first.items[999].group_id.clone();
    let plan = plan_rank_group_move(&initial, &last_group, 0).unwrap().unwrap();
    let reopened = drag(&stored(&singles(&plan.order), &labels));
    assert_eq!(reopened.items[0].primary_label, "条目1000");
    assert_eq!(reopened.items[0].position, 0);
    assert_eq!(reopened.items[0].original_position, 999);
}

fn state(id: &str, position: usize, name: Option<&str>, active: bool, merged: Option<&str>, items: &[&str]) -> GroupState {
    GroupState {
        id: id.into(),
        position,
        name: name.map(|n| n.to_string()),
        is_active: active,
        merged_into: merged.map(|m| m.to_string()),
        items: strings(items),
    }
}

/// The active groups of a stored topology, in position order, as rows.
fn active_rows(states: &[GroupState], labels: &[&str]) -> Vec<GroupRow> {
    let mut active: Vec<&GroupState> = states.iter().filter(|g| g.is_active).collect();
    active.sort_by_key(|g| g.position);
    let order: Vec<(String, Option<String>, Vec<String>)> = active
        .iter()
        .map(|g| (g.id.clone(), g.name.clone(), g.items.clone()))
        .collect();
    stored(&order, labels)
}

fn copy_states(states: &[GroupState]) -> Vec<GroupState> {
    states
        .iter()
        .map(|g| GroupState {
            id: g.id.clone(),
            position: g.position,
            name: g.name.clone(),
            is_active: g.is_active,
            merged_into: g.merged_into.clone(),
            items: g.items.clone(),
        })
        .collect()
}

#[test]
fn creates_renames_and_splits_tied_groups() {
    let labels = ["A", "B", "C"];
    let before_merge = vec![
        state("gA", 0, None, true, None, &["A"]),
        state("gB", 1, None, true, None, &["B"]),
        state("gC", 2, None, true, None, &["C"]),
    ];
    // Merging B's group into A's names the new tie group.
    let name = tie_group_name(0);
    assert_eq!(name, "并列组1");
    let remaining = order_without(&strings(&["gA", "gB", "gC"]), &"gB".to_string());
    assert_eq!(remaining, ["gA", "gC"]);
    let tied_states = vec![
        state("gA", 0, Some(&name), true, None, &["A", "B"]),
        state("gB", 3, None, false, Some("gA"), &[]),
        state("gC", 1, None, true, None, &["C"]),
    ];
    let tied = drag(&active_rows(&tied_states, &labels));
    assert_eq!(tied.groups.len(), 2);
    assert_eq!(tied.groups[0].items.len(), 2);
    assert_eq!(tied.groups[0].starting_rank, 1);
    assert_eq!(tied.groups[1].starting_rank, 3);
    assert_eq!(tied.groups[0].name.as_deref(), Some("并列组1"));

    let untied_states = restore_topology(&tied_states, &before_merge);
    let untied = drag(&active_rows(&untied_states, &labels));
    assert_eq!(untied.groups.len(), 3);
    assert!(untied.groups.iter().all(|group| group.items.len() == 1));
    let retied_states = restore_topology(&untied_states, &tied_states);
    let retied = drag(&active_rows(&retied_states, &labels));
    assert_eq!(retied.groups.len(), 2);
    assert_eq!(retied.groups[0].items.len(), 2);

    let renamed_name = validate_group_name("第一梯队").unwrap();
    let mut renamed_states = copy_states(&retied_states);
    renamed_states[0].name = Some(renamed_name);
    let renamed = drag(&active_rows(&renamed_states, &labels));
    assert_eq!(renamed.groups[0].name.as_deref(), Some("第一梯队"));

    let split_order =
        plan_split(&strings(&["gA", "gC"]), &"gA".to_string(), &strings(&["A", "B"]), &"B".to_string(), "gN".into())
            .unwrap();
    assert_eq!(split_order, ["gA", "gN", "gC"]);
    let split_states = vec![
        state("gA", 0, Some("第一梯队"), true, None, &["A"]),
        state("gB", 3, None, false, Some("gA"), &[]),
        state("gC", 2, None, true, None, &["C"]),
        state("gN", 1, None, true, None, &["B"]),
    ];
    let split = drag(&active_rows(&split_states, &labels));
    assert_eq!(split.groups.len(), 3);
    assert!(split.groups.iter().all(|group| group.items.len() == 1));
    let restored_states = restore_topology(&split_states, &renamed_states);
    let restored_tie = drag(&active_rows(&restored_states, &labels));
    assert_eq!(restored_tie.groups.len(), 2);
    assert_eq!(restored_tie.groups[0].items.len(), 2);
    assert_eq!(restored_tie.groups[0].name.as_deref(), Some("第一梯队"));
    let split_again_states = restore_topology(&restored_states, &split_states);
    let split_again = drag(&active_rows(&split_again_states, &labels));
    assert_eq!(split_again.groups.len(), 3);
    assert!(split_again.groups.iter().all(|group| group.items.len() == 1));
}

fn copy_session(state: &ComparisonSessionState) -> ComparisonSessionState {
    ComparisonSessionState {
        sorted_group_ids: state.sorted_group_ids.clone(),
        queue: state
            .queue
            .iter()
            .map(|c| CandidateState { group_id: c.group_id.clone(), low: c.low, high: c.high })
            .collect(),
    }
}

fn insertion_view(state: &ComparisonSessionState, groups: &Vec<GroupRow>, comparisons: usize) -> ComparisonWorkspace {
    let mut prepared = copy_session(state);
    prepared.prepare_active();
    comparison_workspace(
        "t".into(), "任务".into(), "标准".into(), SortTaskStatus::Sorting, &prepared, &defs(), groups,
        comparisons,
    )
    .unwrap()
}

#[test]
fn sorts_one_hundred_items_with_pause_resume_and_undo() {
    let names: Vec<String> = (1..=100).map(|index| format!("条目{index:03}")).collect();
    let labels: Vec<&str> = names.iter().map(|s| s.as_str()).collect();
    let ids: Vec<String> = names.iter().map(|n| format!("g{n}")).collect();
    let groups = stored(&singles(&ids), &labels);
    let mut state = ComparisonSessionState::initialize(ids.clone());
    let mut count = 0;
    let initial = insertion_view(&state, &groups, count);
    assert_eq!(initial.located_count, 1);
    assert_eq!(initial.total_count, 100);
    assert_eq!(initial.planned_comparison_count, Some(initial.comparison_count + initial.estimated_remaining));

    let before = copy_session(&state);
    state.prepare_active();
    state.answer(ComparisonDecision::RightBefore).unwrap();
    count += 1;
    let after_first = insertion_view(&state, &groups, count);
    assert_eq!(after_first.comparison_count, 1);
    assert_eq!(after_first.planned_comparison_count, Some(after_first.comparison_count + after_first.estimated_remaining));
    // Undoing restores the session stored before the answer.
    state = before;
    count -= 1;
    let undone = insertion_view(&state, &groups, count);
    assert_eq!(undone.comparison_count, 0);
    assert_eq!(undone.left.as_ref().unwrap().group_id, initial.left.as_ref().unwrap().group_id);
    assert_eq!(undone.right.as_ref().unwrap().group_id, initial.right.as_ref().unwrap().group_id);

    for _ in 0..12 {
        state.prepare_active();
        state.answer(ComparisonDecision::RightBefore).unwrap();
        count += 1;
    }
    // Pausing keeps the stored session; resuming reads it back.
    let paused = insertion_view(&state, &groups, count);
    let resumed_state = copy_session(&state);
    let resumed = insertion_view(&resumed_state, &groups, count);
    assert_eq!(resumed.comparison_count, paused.comparison_count);
    assert_eq!(resumed.left.as_ref().unwrap().group_id, paused.left.as_ref().unwrap().group_id);
    assert_eq!(resumed.right.as_ref().unwrap().group_id, paused.right.as_ref().unwrap().group_id);

    let mut workspace = resumed;
    while !workspace.completed {
        state.prepare_active();
        state.answer(ComparisonDecision::RightBefore).unwrap();
        count += 1;
        workspace = insertion_view(&state, &groups, count);
    }
    assert_eq!(workspace.located_count, 100);
    assert_eq!(workspace.pending_count, 0);
    assert_eq!(workspace.progress_percent, 100);
    assert!(workspace.comparison_count < 700);
    assert!(workspace.comparison_count < 100 * 99 / 2);
    assert_eq!(workspace.ordered_items[0].primary_label, "条目001");
    assert_eq!(workspace.ordered_items[99].primary_label, "条目100");
}

#[test]
fn skips_candidate_without_recording_comparison() {
    let labels = ["A", "B", "C", "D"];
    let ids = strings(&["gA", "gB", "gC", "gD"]);
    let groups = stored(&singles(&ids), &labels);
    let mut state = ComparisonSessionState::initialize(ids);
    let before = insertion_view(&state, &groups, 0);
    state.skip();
    let skipped = insertion_view(&state, &groups, 0);
    assert_ne!(skipped.left.as_ref().unwrap().group_id, before.left.as_ref().unwrap().group_id);
    assert_eq!(skipped.comparison_count, 0);
    assert!(!skipped.can_undo);
    let reopened = insertion_view(&copy_session(&state), &groups, 0);
    assert_eq!(reopened.left.as_ref().unwrap().group_id, skipped.left.as_ref().unwrap().group_id);
}

#[test]
fn creates_tied_group_and_undoes_tie_judgment() {
    let labels = ["A", "B", "C"];
    let ids = strings(&["gA", "gB", "gC"]);
    let mut state = ComparisonSessionState::initialize(ids.clone());
    let before = copy_session(&state);
    state.prepare_active();
    let (candidate, placed) = state.answer(ComparisonDecision::Tie).unwrap();
    assert_eq!((candidate.as_str(), placed.as_str()), ("gB", "gA"));
    // The tie merges B's group into A's.
    let tied_groups = stored(
        &[
            ("gA".to_string(), None, strings(&["A", "B"])),
            ("gC".to_string(), None, strings(&["C"])),
        ],
        &labels,
    );
    let tied = insertion_view(&state, &tied_groups, 1);
    assert_eq!(tied.located_count, 2);
    assert_eq!(tied.ordered_items[0].member_labels, ["A", "B"]);
    assert_eq!(tied.planned_comparison_count, Some(tied.comparison_count + tied.estimated_remaining));
    let renamed_groups = stored(
        &[
            ("gA".to_string(), Some(validate_group_name("第一梯队").unwrap()), strings(&["A", "B"])),
            ("gC".to_string(), None, strings(&["C"])),
        ],
        &labels,
    );
    let renamed = insertion_view(&state, &renamed_groups, 1);
    assert_eq!(renamed.ordered_items[0].group_name.as_deref(), Some("第一梯队"));
    let drag_refused = drag_workspace(
        "t".into(), "任务".into(), "标准".into(), SortTaskMode::Comparison, false,
        SortTaskStatus::Sorting, &defs(), &renamed_groups, true, false, false,
    );
    assert!(drag_refused.is_err(), "比较未完成前不能进入混合拖拽");
    // Undoing restores the stored session and the groups before the tie.
    let undone = insertion_view(&before, &stored(&singles(&ids), &labels), 0);
    assert_eq!(undone.located_count, 1);
    assert_eq!(undone.left.unwrap().member_labels, ["B"]);
    assert_eq!(stored(&singles(&ids), &labels).len(), 3);
}

#[test]
fn detects_and_resolves_mixed_sort_conflicts() {
    let ids = strings(&["gA", "gB", "gC"]);
    let labels = strings(&["A", "B", "C"]);
    let mut state = ComparisonSessionState::initialize(ids.clone());
    let mut records: Vec<ComparisonRecord> = Vec::new();
    loop {
        state.prepare_active();
        if state.midpoint().is_none() {
            break;
        }
        let (left, right) = state.answer(ComparisonDecision::RightBefore).unwrap();
        records.push(ComparisonRecord {
            id: format!("r{}", records.len()),
            left_group_id: left,
            right_group_id: right,
            result: "right_before".into(),
        });
    }
    assert_eq!(state.sorted_group_ids, ids);
    let order = state.sorted_group_ids.clone();
    let conflict =
        SortTaskService::preview_rank_group_move(&order, &order[0], 2, &order, &labels, &records).unwrap();
    assert!(conflict.conflict_count > 0);
    let withdrawn = SortTaskService::withdrawn_judgments(
        &order, &order[0], 2, MoveConflictResolution::UpdateRelations, &order, &labels, &records,
    )
    .unwrap();
    let kept: Vec<ComparisonRecord> = records
        .iter()
        .filter(|r| !withdrawn.contains(&r.id))
        .map(|r| ComparisonRecord {
            id: r.id.clone(),
            left_group_id: r.left_group_id.clone(),
            right_group_id: r.right_group_id.clone(),
            result: r.result.clone(),
        })
        .collect();
    let moved = plan_rank_group_move(&order, &order[0], 2).unwrap().unwrap().order;
    let after = SortTaskService::preview_rank_group_move(&moved, &order[0], 2, &order, &labels, &kept).unwrap();
    assert_eq!(after.conflict_count, 0);
}

#[test]
fn completes_full_matrix_groups_equal_wins_and_undoes_finalization() {
    let ids = strings(&["gA", "gB", "gC", "gD"]);
    let labels = ["A", "B", "C", "D"];
    let plan = SortTaskService::create_with_matrix_percent(
        request("矩阵比较", "同等重要", SortTaskMode::Matrix, InitialOrder::Import),
        Some(100),
        &no_facts(4),
    )
    .unwrap();
    assert_eq!(plan.matrix_comparison_percent, Some(100));
    let mut state = MatrixSessionState::initialize(ids.clone(), 100);
    assert_eq!(state.progress().planned_count, 6);
    let mut last = None;
    while !state.completed() {
        last = Some(state.answer(ComparisonDecision::Tie).unwrap());
    }
    assert_eq!(state.progress().comparison_count, 6);
    assert!(state.standings().iter().all(|s| s.wins == 0 && s.losses == 0 && s.ties == 3));
    // Finishing merges every group tied on wins into the first one.
    let (kept, merged) = state.final_groups();
    assert_eq!(kept.len(), 1);
    assert_eq!(merged.len(), 3);
    let finished = stored(&[(kept[0].clone(), None, strings(&labels))], &labels);
    let preview = result_preview(
        "t".into(), "任务".into(), SortTaskStatus::Sorting, &defs(), &finished, 4, true, None, None, None,
    )
    .unwrap();
    assert!(preview.can_confirm);
    assert_eq!(preview.items.len(), 4);
    assert!(preview.items.iter().all(|item| item.rank == 1));
    // Undoing the last answer withdraws it and restores the groups.
    state.undo("tie", &last.unwrap()).unwrap();
    assert!(!state.completed());
    assert_eq!(state.progress().comparison_count, 5);
    let before: Vec<GroupState> =
        ids.iter().enumerate().map(|(k, id)| state_of(id, k, labels[k])).collect();
    let after_finish: Vec<GroupState> = ids
        .iter()
        .enumerate()
        .map(|(k, id)| if k == 0 {
            GroupState { id: id.clone(), position: 0, name: None, is_active: true, merged_into: None, items: strings(&labels) }
        } else {
            GroupState { id: id.clone(), position: 4 + k, name: None, is_active: false, merged_into: Some("gA".into()), items: vec![] }
        })
        .collect();
    let restored = restore_topology(&after_finish, &before);
    assert_eq!(restored.iter().filter(|g| g.is_active).count(), 4);
}

fn state_of(id: &str, position: usize, label: &str) -> GroupState {
    GroupState { id: id.into(), position, name: None, is_active: true, merged_into: None, items: strings(&[label]) }
}

#[test]
fn sampled_matrix_persists_a_bounded_union_of_pairs() {
    let ids: Vec<String> = (1..=10).map(|index| format!("g条目{index}")).collect();
    let plan = SortTaskService::create_with_matrix_percent(
        request("半量矩阵", "重要性", SortTaskMode::Matrix, InitialOrder::Import),
        Some(50),
        &no_facts(10),
    )
    .unwrap();
    assert_eq!(plan.matrix_comparison_percent, Some(50));
    let state = MatrixSessionState::initialize(ids, 50);
    let planned = state.progress().planned_count;
    assert!(planned > 10 * 9 / 4);
    assert!(planned <= 10 * 9 / 2);
    // The stored session keeps its pairs: reading it back plans the same.
    assert_eq!(state.pairs.len(), planned);
    assert_eq!(state.comparison_percent, 50);
}
