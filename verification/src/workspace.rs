//! What the sorting views show: the stored groups and items of a task, read
//! as rows, turned into the drag, 1v1, slider and result workspaces.

use vstd::prelude::*;

use crate::error::{invalid_input, invalid_project, AppError};
use crate::json::{display_value, find_member, json_clone, lookup, members_view, spec_display_value, JsonValue, JsonView};
use crate::comparison::{
    estimate_remaining, group_label, progress_percent, queue_groups, session_wf, spec_estimate_remaining,
    spec_group_label, spec_midpoint, spec_progress_percent, total_size, ComparisonSessionState,
};
use crate::groups::{lemma_starting_rank_monotone, spec_starting_rank};
use crate::paths::opt_text;
use crate::result::{can_confirm, check_integrity, rank_change, spec_problems, ResultIntegrity};
use crate::sort_task::{SortTaskMode, SortTaskStatus};
use crate::text::{contains_string, first_position, position_of, views};
use crate::matrix::MatrixStanding;

verus! {

broadcast use vstd::seq_lib::group_seq_properties;

/// A dataset field as the views show it: its name, whether it is the
/// primary identifier, whether it is an auxiliary identifier.
pub struct DisplayFieldDefinition {
    pub name: String,
    pub is_primary: bool,
    pub is_auxiliary: bool,
}

/// A field of an item with its value.
#[derive(Debug)]
pub struct SortDisplayField {
    pub name: String,
    pub value: JsonValue,
}

/// One item of a group, as stored: its id, import position, validity and
/// field values.
pub struct ItemRow {
    pub item_id: String,
    pub original_index: usize,
    pub is_valid: bool,
    pub fields: Vec<(String, JsonValue)>,
}

/// One active rank group, as stored: its id, name, stored and initial
/// position, and its items in order.
pub struct GroupRow {
    pub group_id: String,
    pub name: Option<String>,
    pub position: usize,
    pub initial_position: usize,
    pub items: Vec<ItemRow>,
}

pub open spec fn def_view(d: DisplayFieldDefinition) -> (Seq<char>, bool, bool) {
    (d.name@, d.is_primary, d.is_auxiliary)
}

pub open spec fn defs_view(defs: Seq<DisplayFieldDefinition>) -> Seq<(Seq<char>, bool, bool)> {
    defs.map_values(|d: DisplayFieldDefinition| def_view(d))
}

/// The names and values of shown fields.
pub open spec fn shown(fs: Seq<SortDisplayField>) -> Seq<(Seq<char>, JsonView)> {
    fs.map_values(|f: SortDisplayField| (f.name@, f.value@))
}

/// The field values of an item row.
pub open spec fn row_fields(row: ItemRow) -> Seq<(Seq<char>, JsonView)> {
    members_view(row.fields@, row.fields@.len())
}

/// The value of field `name`: null where the item has none.
pub open spec fn field_value(ms: Seq<(Seq<char>, JsonView)>, name: Seq<char>) -> JsonView {
    match lookup(ms, name) {
        Some(v) => v,
        None => JsonView::Null,
    }
}

/// Every dataset field with the item's value, in field order.
pub open spec fn spec_all_fields(
    defs: Seq<(Seq<char>, bool, bool)>,
    ms: Seq<(Seq<char>, JsonView)>,
) -> Seq<(Seq<char>, JsonView)> {
    defs.map_values(|d: (Seq<char>, bool, bool)| (d.0, field_value(ms, d.0)))
}

/// The auxiliary identifier fields with the item's value, in field order.
pub open spec fn spec_auxiliary_fields(
    defs: Seq<(Seq<char>, bool, bool)>,
    ms: Seq<(Seq<char>, JsonView)>,
) -> Seq<(Seq<char>, JsonView)>
    decreases defs.len(),
{
    if defs.len() == 0 {
        Seq::empty()
    } else {
        let rest = spec_auxiliary_fields(defs.drop_last(), ms);
        if defs.last().2 {
            rest.push((defs.last().0, field_value(ms, defs.last().0)))
        } else {
            rest
        }
    }
}

/// The name of the first field marked as primary identifier.
pub open spec fn spec_primary_name(defs: Seq<(Seq<char>, bool, bool)>) -> Option<Seq<char>>
    decreases defs.len(),
{
    if defs.len() == 0 {
        None
    } else if defs[0].1 {
        Some(defs[0].0)
    } else {
        spec_primary_name(defs.drop_first())
    }
}

/// The label of an item: its primary field's value as shown.
pub open spec fn spec_item_label(row: ItemRow, primary: Seq<char>) -> Seq<char> {
    spec_display_value(lookup(row_fields(row), primary))
}

/// The name of the primary identifier field; `InvalidProject` when no field
/// is marked as one.
pub fn primary_field(defs: &Vec<DisplayFieldDefinition>) -> (r: Result<String, AppError>)
    ensures
        spec_primary_name(defs_view(defs@)) matches Some(n) ==> (r matches Ok(s) && s@ == n),
        spec_primary_name(defs_view(defs@)) is None ==> (r matches Err(AppError::InvalidProject(m)) && m@
            == "数据集缺少主标识字段"@),
{
    let ghost dv = defs_view(defs@);
    for i in 0..defs.len()
        invariant
            dv == defs_view(defs@),
            spec_primary_name(dv) == spec_primary_name(dv.skip(i as int)),
    {
        assert(dv.skip(i as int).drop_first() =~= dv.skip(i + 1));
        assert(dv.skip(i as int)[0] == def_view(defs@[i as int]));
        if defs[i].is_primary {
            return Ok(defs[i].name.clone());
        }
    }
    assert(dv.skip(defs.len() as int).len() == 0);
    Err(invalid_project("数据集缺少主标识字段"))
}

/// The value of field `name` of an item: null where it has none.
fn field_of(fields: &Vec<(String, JsonValue)>, name: &str) -> (r: JsonValue)
    ensures
        r@ == field_value(members_view(fields@, fields@.len()), name@),
{
    match find_member(fields, name) {
        Some(i) => json_clone(&fields[i].1),
        None => JsonValue::Null,
    }
}

/// The label of an item: its primary field's value as shown.
pub fn item_label(row: &ItemRow, primary: &str) -> (r: String)
    ensures
        r@ == spec_item_label(*row, primary@),
{
    match find_member(&row.fields, primary) {
        Some(i) => display_value(Some(&row.fields[i].1)),
        None => display_value(None),
    }
}

/// Every dataset field with the item's value, and the auxiliary identifier
/// fields alone, both in field order.
pub fn item_fields(defs: &Vec<DisplayFieldDefinition>, row: &ItemRow) -> (r: (Vec<SortDisplayField>, Vec<SortDisplayField>))
    ensures
        shown(r.0@) == spec_all_fields(defs_view(defs@), row_fields(*row)),
        shown(r.1@) == spec_auxiliary_fields(defs_view(defs@), row_fields(*row)),
{
    let ghost dv = defs_view(defs@);
    let ghost ms = row_fields(*row);
    let mut all: Vec<SortDisplayField> = Vec::new();
    let mut aux: Vec<SortDisplayField> = Vec::new();
    for k in 0..defs.len()
        invariant
            dv == defs_view(defs@),
            ms == row_fields(*row),
            shown(all@) == spec_all_fields(dv.take(k as int), ms),
            shown(aux@) == spec_auxiliary_fields(dv.take(k as int), ms),
    {
        assert(dv.take(k + 1).drop_last() =~= dv.take(k as int));
        assert(dv.take(k + 1).last() == def_view(defs@[k as int]));
        let v = field_of(&row.fields, defs[k].name.as_str());
        let nm = defs[k].name.clone();
        assert(nm@ == dv[k as int].0);
        let ghost before = all@;
        all.push(SortDisplayField { name: nm, value: v });
        assert(shown(all@) =~= shown(before).push((dv[k as int].0, field_value(ms, dv[k as int].0))));
        assert(shown(all@) =~= spec_all_fields(dv.take(k + 1), ms));
        if defs[k].is_auxiliary {
            let w = field_of(&row.fields, defs[k].name.as_str());
            let nm2 = defs[k].name.clone();
            let ghost before2 = aux@;
            aux.push(SortDisplayField { name: nm2, value: w });
            assert(shown(aux@) =~= shown(before2).push((dv[k as int].0, field_value(ms, dv[k as int].0))));
            assert(shown(aux@) =~= spec_auxiliary_fields(dv.take(k + 1), ms));
        }
    }
    assert(dv.take(defs.len() as int) =~= dv);
    (all, aux)
}


/// A copy of an optional group name.
fn clone_name(o: &Option<String>) -> (r: Option<String>)
    ensures
        opt_text(r) == opt_text(*o),
{
    match o {
        Some(s) => Some(s.clone()),
        None => None,
    }
}

/// An item of the drag workspace.
#[derive(Debug)]
pub struct RankedItem {
    pub group_id: String,
    pub item_id: String,
    pub position: usize,
    pub original_position: usize,
    pub primary_label: String,
    pub auxiliary_fields: Vec<SortDisplayField>,
    pub fields: Vec<SortDisplayField>,
}

/// A rank group of the drag workspace, with the rank of its first item.
#[derive(Debug)]
pub struct RankedGroup {
    pub group_id: String,
    pub name: Option<String>,
    pub position: usize,
    pub starting_rank: usize,
    pub items: Vec<RankedItem>,
}

/// What the drag view shows of a task.
#[derive(Debug)]
pub struct DragWorkspace {
    pub task_id: String,
    pub task_name: String,
    pub criteria: String,
    pub status: SortTaskStatus,
    pub items: Vec<RankedItem>,
    pub groups: Vec<RankedGroup>,
    pub has_comparisons: bool,
    pub can_undo: bool,
    pub can_redo: bool,
}

pub open spec fn ranked_view(it: RankedItem) -> (
    Seq<char>,
    Seq<char>,
    usize,
    usize,
    Seq<char>,
    Seq<(Seq<char>, JsonView)>,
    Seq<(Seq<char>, JsonView)>,
) {
    (
        it.group_id@,
        it.item_id@,
        it.position,
        it.original_position,
        it.primary_label@,
        shown(it.auxiliary_fields@),
        shown(it.fields@),
    )
}

pub open spec fn ranked_views(s: Seq<RankedItem>) -> Seq<
    (Seq<char>, Seq<char>, usize, usize, Seq<char>, Seq<(Seq<char>, JsonView)>, Seq<(Seq<char>, JsonView)>),
> {
    s.map_values(|it: RankedItem| ranked_view(it))
}

/// How the drag view shows item `row` of group `g`: the group's stored and
/// initial positions, the item's label, auxiliary fields and all fields.
pub open spec fn spec_ranked_item(
    g: GroupRow,
    row: ItemRow,
    defs: Seq<(Seq<char>, bool, bool)>,
    primary: Seq<char>,
) -> (Seq<char>, Seq<char>, usize, usize, Seq<char>, Seq<(Seq<char>, JsonView)>, Seq<(Seq<char>, JsonView)>) {
    (
        g.group_id@,
        row.item_id@,
        g.position,
        g.initial_position,
        spec_item_label(row, primary),
        spec_auxiliary_fields(defs, row_fields(row)),
        spec_all_fields(defs, row_fields(row)),
    )
}

/// The items of group `g` as the drag view shows them, in order.
pub open spec fn spec_group_items(
    g: GroupRow,
    defs: Seq<(Seq<char>, bool, bool)>,
    primary: Seq<char>,
) -> Seq<(Seq<char>, Seq<char>, usize, usize, Seq<char>, Seq<(Seq<char>, JsonView)>, Seq<(Seq<char>, JsonView)>)> {
    Seq::new(g.items@.len(), |j: int| spec_ranked_item(g, g.items@[j], defs, primary))
}

/// The items of the first `n` groups, one group after the other.
pub open spec fn spec_drag_items(
    gs: Seq<GroupRow>,
    n: int,
    defs: Seq<(Seq<char>, bool, bool)>,
    primary: Seq<char>,
) -> Seq<(Seq<char>, Seq<char>, usize, usize, Seq<char>, Seq<(Seq<char>, JsonView)>, Seq<(Seq<char>, JsonView)>)>
    decreases n,
{
    if n <= 0 {
        Seq::empty()
    } else {
        spec_drag_items(gs, n - 1, defs, primary) + spec_group_items(gs[n - 1], defs, primary)
    }
}

/// The number of items of each group.
pub open spec fn group_sizes(gs: Seq<GroupRow>) -> Seq<usize> {
    gs.map_values(|g: GroupRow| g.items@.len() as usize)
}

/// The drag view's group at `k`: the stored group's id and name, position
/// `k`, the rank of its first item, and its items.
pub open spec fn ranked_group_matches(
    rg: RankedGroup,
    gs: Seq<GroupRow>,
    k: int,
    defs: Seq<(Seq<char>, bool, bool)>,
    primary: Seq<char>,
) -> bool {
    &&& rg.group_id@ == gs[k].group_id@
    &&& opt_text(rg.name) == opt_text(gs[k].name)
    &&& rg.position == k
    &&& rg.starting_rank == spec_starting_rank(group_sizes(gs), k)
    &&& ranked_views(rg.items@) == spec_group_items(gs[k], defs, primary)
}

/// The item `row` of group `g` as the drag view shows it.
fn ranked_item(g: &GroupRow, row: &ItemRow, defs: &Vec<DisplayFieldDefinition>, primary: &String) -> (r: RankedItem)
    ensures
        ranked_view(r) == spec_ranked_item(*g, *row, defs_view(defs@), primary@),
{
    let (fields, auxiliary_fields) = item_fields(defs, row);
    RankedItem {
        group_id: g.group_id.clone(),
        item_id: row.item_id.clone(),
        position: g.position,
        original_position: g.initial_position,
        primary_label: item_label(row, primary.as_str()),
        auxiliary_fields,
        fields,
    }
}

/// Refuses to open the drag view of a 1v1 or slider task whose session is
/// not finished.
pub fn check_drag_loadable(mode: SortTaskMode, session_complete: bool) -> (r: Result<(), AppError>)
    ensures
        (mode == SortTaskMode::Matrix || mode == SortTaskMode::Comparison) && !session_complete ==> (r matches Err(
            AppError::InvalidInput(m),
        ) && m@ == "请先完成 1v1 排序，再进入拖拽微调"@),
        mode == SortTaskMode::Slider && !session_complete ==> (r matches Err(AppError::InvalidInput(m)) && m@
            == "请先完成滑杆排序，再进入拖拽微调"@),
        mode == SortTaskMode::Drag || session_complete ==> r is Ok,
{
    match mode {
        SortTaskMode::Matrix | SortTaskMode::Comparison => {
            if !session_complete {
                return Err(invalid_input("请先完成 1v1 排序，再进入拖拽微调"));
            }
        },
        SortTaskMode::Slider => {
            if !session_complete {
                return Err(invalid_input("请先完成滑杆排序，再进入拖拽微调"));
            }
        },
        SortTaskMode::Drag => {},
    }
    Ok(())
}

/// The drag view of a task from its active groups in order: each group with
/// its position and the rank of its first item, and all items one group
/// after the other. Refused for an unfinished 1v1 or slider task, and for a
/// dataset without primary identifier.
pub fn drag_workspace(
    task_id: String,
    task_name: String,
    criteria: String,
    mode: SortTaskMode,
    session_complete: bool,
    status: SortTaskStatus,
    defs: &Vec<DisplayFieldDefinition>,
    groups: &Vec<GroupRow>,
    has_comparisons: bool,
    can_undo: bool,
    can_redo: bool,
) -> (r: Result<DragWorkspace, AppError>)
    requires
        spec_starting_rank(group_sizes(groups@), groups@.len() as int) <= usize::MAX,
    ensures
        (mode == SortTaskMode::Matrix || mode == SortTaskMode::Comparison) && !session_complete ==> (r matches Err(
            AppError::InvalidInput(m),
        ) && m@ == "请先完成 1v1 排序，再进入拖拽微调"@),
        mode == SortTaskMode::Slider && !session_complete ==> (r matches Err(AppError::InvalidInput(m)) && m@
            == "请先完成滑杆排序，再进入拖拽微调"@),
        (mode == SortTaskMode::Drag || session_complete) && spec_primary_name(defs_view(defs@)) is None ==> (
        r matches Err(AppError::InvalidProject(m)) && m@ == "数据集缺少主标识字段"@),
        spec_primary_name(defs_view(defs@)) matches Some(p) ==> ((mode == SortTaskMode::Drag
            || session_complete) ==> (r matches Ok(w) && {
            &&& w.task_id == task_id && w.task_name == task_name && w.criteria == criteria
            &&& w.status == status && w.has_comparisons == has_comparisons
            &&& w.can_undo == can_undo && w.can_redo == can_redo
            &&& w.groups@.len() == groups@.len()
            &&& forall|k: int|
                0 <= k < groups@.len() ==> #[trigger] ranked_group_matches(
                    w.groups@[k],
                    groups@,
                    k,
                    defs_view(defs@),
                    p,
                )
            &&& ranked_views(w.items@) == spec_drag_items(groups@, groups@.len() as int, defs_view(defs@), p)
        })),
{
    check_drag_loadable(mode, session_complete)?;
    let primary = match primary_field(defs) {
        Ok(p) => p,
        Err(e) => return Err(e),
    };
    let ghost dv = defs_view(defs@);
    let ghost gs = groups@;
    let ghost sizes = group_sizes(gs);
    let mut items: Vec<RankedItem> = Vec::new();
    let mut out: Vec<RankedGroup> = Vec::new();
    let mut occupied: usize = 0;
    for k in 0..groups.len()
        invariant
            gs == groups@,
            dv == defs_view(defs@),
            sizes == group_sizes(gs),
            spec_starting_rank(sizes, gs.len() as int) <= usize::MAX,
            out@.len() == k,
            occupied + 1 == spec_starting_rank(sizes, k as int),
            forall|i: int| 0 <= i < k ==> #[trigger] ranked_group_matches(out@[i], gs, i, dv, primary@),
            ranked_views(items@) == spec_drag_items(gs, k as int, dv, primary@),
    {
        let g = &groups[k];
        let ghost expected = spec_group_items(gs[k as int], dv, primary@);
        let ghost before = ranked_views(items@);
        let mut members: Vec<RankedItem> = Vec::new();
        for j in 0..g.items.len()
            invariant
                g == groups@[k as int],
                gs == groups@,
                dv == defs_view(defs@),
                expected == spec_group_items(gs[k as int], dv, primary@),
                ranked_views(members@) == expected.take(j as int),
                ranked_views(items@) == before + expected.take(j as int),
        {
            let a = ranked_item(g, &g.items[j], defs, &primary);
            let b = ranked_item(g, &g.items[j], defs, &primary);
            assert(ranked_view(b) == expected[j as int]);
            let ghost old_items = items@;
            members.push(a);
            items.push(b);
            assert(ranked_views(members@) =~= expected.take(j + 1));
            assert(ranked_views(items@) =~= ranked_views(old_items).push(expected[j as int]));
            assert(expected.take(j + 1) =~= expected.take(j as int).push(expected[j as int]));
            assert(ranked_views(items@) =~= before + expected.take(j + 1));
        }
        assert(expected.take(g.items.len() as int) =~= expected);
        proof {
            lemma_starting_rank_monotone(sizes, k + 1, sizes.len() as int);
            assert(sizes[k as int] == g.items@.len());
        }
        let start = occupied + 1;
        out.push(RankedGroup {
            group_id: g.group_id.clone(),
            name: clone_name(&g.name),
            position: k,
            starting_rank: start,
            items: members,
        });
        occupied = occupied + g.items.len();
        assert(ranked_group_matches(out@[k as int], gs, k as int, dv, primary@));
    }
    Ok(DragWorkspace {
        task_id,
        task_name,
        criteria,
        status,
        items,
        groups: out,
        has_comparisons,
        can_undo,
        can_redo,
    })
}


/// An item of the result preview.
#[derive(Debug)]
pub struct ResultItem {
    pub group_id: String,
    pub group_name: Option<String>,
    pub tie_size: usize,
    pub item_id: String,
    pub rank: usize,
    pub original_rank: usize,
    pub rank_change: i64,
    pub primary_label: String,
    pub fields: Vec<SortDisplayField>,
}

/// The result of a task as shown before and after confirmation.
#[derive(Debug)]
pub struct ResultPreview {
    pub task_id: String,
    pub task_name: String,
    pub status: SortTaskStatus,
    pub items: Vec<ResultItem>,
    pub integrity: ResultIntegrity,
    pub can_confirm: bool,
    pub confirmed_at: Option<String>,
    pub rank_written_at: Option<String>,
    pub rank_written_field: Option<String>,
}

pub open spec fn result_view(it: ResultItem) -> (
    Seq<char>,
    Option<Seq<char>>,
    int,
    Seq<char>,
    int,
    int,
    int,
    Seq<char>,
    Seq<(Seq<char>, JsonView)>,
) {
    (
        it.group_id@,
        opt_text(it.group_name),
        it.tie_size as int,
        it.item_id@,
        it.rank as int,
        it.original_rank as int,
        it.rank_change as int,
        it.primary_label@,
        shown(it.fields@),
    )
}

pub open spec fn result_views(s: Seq<ResultItem>) -> Seq<
    (Seq<char>, Option<Seq<char>>, int, Seq<char>, int, int, int, Seq<char>, Seq<(Seq<char>, JsonView)>),
> {
    s.map_values(|it: ResultItem| result_view(it))
}

/// How the preview shows item `row` of group `k`: the group, its size as
/// tie size, the rank one more than the items of earlier groups, the import
/// rank, their difference, the label and the fields.
pub open spec fn spec_result_item(
    gs: Seq<GroupRow>,
    k: int,
    row: ItemRow,
    defs: Seq<(Seq<char>, bool, bool)>,
    primary: Seq<char>,
) -> (Seq<char>, Option<Seq<char>>, int, Seq<char>, int, int, int, Seq<char>, Seq<(Seq<char>, JsonView)>) {
    let rank = spec_starting_rank(group_sizes(gs), k);
    (
        gs[k].group_id@,
        opt_text(gs[k].name),
        gs[k].items@.len() as int,
        row.item_id@,
        rank,
        row.original_index + 1,
        row.original_index + 1 - rank,
        spec_item_label(row, primary),
        spec_all_fields(defs, row_fields(row)),
    )
}

/// The preview items of group `k`, in order.
pub open spec fn spec_result_group(
    gs: Seq<GroupRow>,
    k: int,
    defs: Seq<(Seq<char>, bool, bool)>,
    primary: Seq<char>,
) -> Seq<(Seq<char>, Option<Seq<char>>, int, Seq<char>, int, int, int, Seq<char>, Seq<(Seq<char>, JsonView)>)> {
    Seq::new(gs[k].items@.len(), |j: int| spec_result_item(gs, k, gs[k].items@[j], defs, primary))
}

/// The preview items of the first `n` groups, one group after the other.
pub open spec fn spec_result_items(
    gs: Seq<GroupRow>,
    n: int,
    defs: Seq<(Seq<char>, bool, bool)>,
    primary: Seq<char>,
) -> Seq<(Seq<char>, Option<Seq<char>>, int, Seq<char>, int, int, int, Seq<char>, Seq<(Seq<char>, JsonView)>)>
    decreases n,
{
    if n <= 0 {
        Seq::empty()
    } else {
        spec_result_items(gs, n - 1, defs, primary) + spec_result_group(gs, n - 1, defs, primary)
    }
}

/// The item ids of the first `n` groups, in order.
pub open spec fn spec_flat_ids(gs: Seq<GroupRow>, n: int) -> Seq<Seq<char>>
    decreases n,
{
    if n <= 0 {
        Seq::empty()
    } else {
        spec_flat_ids(gs, n - 1) + gs[n - 1].items@.map_values(|row: ItemRow| row.item_id@)
    }
}

/// The validity flags of the items of the first `n` groups, in order.
pub open spec fn spec_flat_flags(gs: Seq<GroupRow>, n: int) -> Seq<bool>
    decreases n,
{
    if n <= 0 {
        Seq::empty()
    } else {
        spec_flat_flags(gs, n - 1) + gs[n - 1].items@.map_values(|row: ItemRow| row.is_valid)
    }
}

/// Every item's import position leaves room for its import rank.
pub open spec fn indices_fit(gs: Seq<GroupRow>) -> bool {
    forall|k: int, j: int|
        0 <= k < gs.len() && 0 <= j < gs[k].items@.len() ==> #[trigger] gs[k].items@[j].original_index < i64::MAX
            && gs[k].items@[j].original_index < usize::MAX
}

/// The result preview of a task from its active groups in order: each item
/// with its group, tie size and rank, and the integrity checks over all
/// items. `InvalidProject` for a dataset without primary identifier.
pub fn result_preview(
    task_id: String,
    task_name: String,
    status: SortTaskStatus,
    defs: &Vec<DisplayFieldDefinition>,
    groups: &Vec<GroupRow>,
    valid_dataset_count: usize,
    session_complete: bool,
    confirmed_at: Option<String>,
    rank_written_at: Option<String>,
    rank_written_field: Option<String>,
) -> (r: Result<ResultPreview, AppError>)
    requires
        spec_starting_rank(group_sizes(groups@), groups@.len() as int) <= i64::MAX,
        spec_starting_rank(group_sizes(groups@), groups@.len() as int) <= usize::MAX,
        indices_fit(groups@),
    ensures
        spec_primary_name(defs_view(defs@)) is None ==> (r matches Err(AppError::InvalidProject(m)) && m@
            == "数据集缺少主标识字段"@),
        spec_primary_name(defs_view(defs@)) matches Some(p) ==> (r matches Ok(w) && {
            let ids = spec_flat_ids(groups@, groups@.len() as int);
            let flags = spec_flat_flags(groups@, groups@.len() as int);
            &&& w.task_id == task_id && w.task_name == task_name && w.status == status
            &&& w.confirmed_at == confirmed_at && w.rank_written_at == rank_written_at
            &&& w.rank_written_field == rank_written_field
            &&& result_views(w.items@) == spec_result_items(groups@, groups@.len() as int, defs_view(defs@), p)
            &&& w.integrity.all_items_included == (ids.len() == valid_dataset_count)
            &&& w.integrity.no_unresolved_comparisons == session_complete
            &&& w.integrity.no_duplicate_items == ids.no_duplicates()
            &&& w.integrity.no_invalid_items == (forall|i: int| 0 <= i < flags.len() ==> #[trigger] flags[i])
            &&& views(w.integrity.problems@) == spec_problems(
                ids.len(),
                valid_dataset_count as nat,
                w.integrity.all_items_included,
                w.integrity.no_unresolved_comparisons,
                w.integrity.no_duplicate_items,
                w.integrity.no_invalid_items,
            )
            &&& w.can_confirm == (w.integrity.spec_is_valid() && status != SortTaskStatus::Confirmed)
        }),
{
    let primary = match primary_field(defs) {
        Ok(p) => p,
        Err(e) => return Err(e),
    };
    let ghost dv = defs_view(defs@);
    let ghost gs = groups@;
    let ghost sizes = group_sizes(gs);
    let mut items: Vec<ResultItem> = Vec::new();
    let mut ids: Vec<String> = Vec::new();
    let mut flags: Vec<bool> = Vec::new();
    let mut occupied: usize = 0;
    for k in 0..groups.len()
        invariant
            gs == groups@,
            dv == defs_view(defs@),
            sizes == group_sizes(gs),
            spec_starting_rank(sizes, gs.len() as int) <= i64::MAX,
            spec_starting_rank(sizes, gs.len() as int) <= usize::MAX,
            indices_fit(gs),
            occupied + 1 == spec_starting_rank(sizes, k as int),
            result_views(items@) == spec_result_items(gs, k as int, dv, primary@),
            views(ids@) == spec_flat_ids(gs, k as int),
            flags@ == spec_flat_flags(gs, k as int),
    {
        let g = &groups[k];
        proof {
            lemma_starting_rank_monotone(sizes, k + 1, sizes.len() as int);
            assert(sizes[k as int] == g.items@.len());
        }
        let rank = occupied + 1;
        let size = g.items.len();
        let ghost expected = spec_result_group(gs, k as int, dv, primary@);
        let ghost idg = g.items@.map_values(|row: ItemRow| row.item_id@);
        let ghost flg = g.items@.map_values(|row: ItemRow| row.is_valid);
        let ghost before = result_views(items@);
        let ghost before_ids = views(ids@);
        let ghost before_flags = flags@;
        for j in 0..g.items.len()
            invariant
                g == groups@[k as int],
                gs == groups@,
                dv == defs_view(defs@),
                indices_fit(gs),
                0 <= k < gs.len(),
                rank == spec_starting_rank(group_sizes(gs), k as int),
                rank <= i64::MAX,
                size == g.items@.len(),
                expected == spec_result_group(gs, k as int, dv, primary@),
                idg == g.items@.map_values(|row: ItemRow| row.item_id@),
                flg == g.items@.map_values(|row: ItemRow| row.is_valid),
                result_views(items@) == before + expected.take(j as int),
                views(ids@) == before_ids + idg.take(j as int),
                flags@ == before_flags + flg.take(j as int),
        {
            let row = &g.items[j];
            assert(row.original_index < i64::MAX);
            let (fields, _) = item_fields(defs, row);
            let it = ResultItem {
                group_id: g.group_id.clone(),
                group_name: clone_name(&g.name),
                tie_size: size,
                item_id: row.item_id.clone(),
                rank,
                original_rank: row.original_index + 1,
                rank_change: rank_change(rank, row.original_index),
                primary_label: item_label(row, primary.as_str()),
                fields,
            };
            assert(result_view(it) == expected[j as int]);
            let ghost old_items = items@;
            let ghost old_ids = ids@;
            items.push(it);
            ids.push(row.item_id.clone());
            flags.push(row.is_valid);
            assert(result_views(items@) =~= result_views(old_items).push(expected[j as int]));
            assert(expected.take(j + 1) =~= expected.take(j as int).push(expected[j as int]));
            assert(views(ids@) =~= views(old_ids).push(idg[j as int]));
            assert(idg.take(j + 1) =~= idg.take(j as int).push(idg[j as int]));
            assert(flg.take(j + 1) =~= flg.take(j as int).push(flg[j as int]));
            assert(flags@ =~= before_flags + flg.take(j + 1));
        }
        assert(expected.take(size as int) =~= expected);
        assert(idg.take(size as int) =~= idg);
        assert(flg.take(size as int) =~= flg);
        occupied = occupied + size;
    }
    let integrity = check_integrity(&ids, &flags, valid_dataset_count, session_complete);
    let confirmable = can_confirm(&integrity, status);
    Ok(ResultPreview {
        task_id,
        task_name,
        status,
        items,
        integrity,
        can_confirm: confirmable,
        confirmed_at,
        rank_written_at,
        rank_written_field,
    })
}


/// A rank group as the 1v1 views show it.
#[derive(Debug)]
pub struct ComparisonItem {
    pub group_id: String,
    pub item_id: String,
    pub item_ids: Vec<String>,
    pub member_labels: Vec<String>,
    pub group_name: Option<String>,
    pub primary_label: String,
    pub auxiliary_fields: Vec<SortDisplayField>,
    pub fields: Vec<SortDisplayField>,
}

/// The labels of a group's members, in order.
pub open spec fn spec_member_labels(g: GroupRow, primary: Seq<char>) -> Seq<Seq<char>> {
    Seq::new(g.items@.len(), |j: int| spec_item_label(g.items@[j], primary))
}

/// How the 1v1 views show group `g`: its members' ids and labels, its name,
/// its label (the name, or else the members' labels joined), and the fields
/// of its first member.
pub open spec fn comparison_item_matches(
    c: ComparisonItem,
    g: GroupRow,
    defs: Seq<(Seq<char>, bool, bool)>,
    primary: Seq<char>,
) -> bool {
    &&& g.items@.len() > 0
    &&& c.group_id@ == g.group_id@
    &&& c.item_id@ == g.items@[0].item_id@
    &&& views(c.item_ids@) == g.items@.map_values(|row: ItemRow| row.item_id@)
    &&& views(c.member_labels@) == spec_member_labels(g, primary)
    &&& opt_text(c.group_name) == opt_text(g.name)
    &&& c.primary_label@ == spec_group_label(opt_text(g.name), spec_member_labels(g, primary))
    &&& shown(c.fields@) == spec_all_fields(defs, row_fields(g.items@[0]))
    &&& shown(c.auxiliary_fields@) == spec_auxiliary_fields(defs, row_fields(g.items@[0]))
}

/// Group `g` as the 1v1 views show it.
pub fn comparison_item(g: &GroupRow, defs: &Vec<DisplayFieldDefinition>, primary: &String) -> (c: ComparisonItem)
    requires
        g.items@.len() > 0,
    ensures
        comparison_item_matches(c, *g, defs_view(defs@), primary@),
{
    let ghost idv = g.items@.map_values(|row: ItemRow| row.item_id@);
    let ghost lv = spec_member_labels(*g, primary@);
    let mut item_ids: Vec<String> = Vec::new();
    let mut labels: Vec<String> = Vec::new();
    for j in 0..g.items.len()
        invariant
            idv == g.items@.map_values(|row: ItemRow| row.item_id@),
            lv == spec_member_labels(*g, primary@),
            views(item_ids@) == idv.take(j as int),
            views(labels@) == lv.take(j as int),
    {
        let id = g.items[j].item_id.clone();
        let label = item_label(&g.items[j], primary.as_str());
        let ghost old_ids = item_ids@;
        let ghost old_labels = labels@;
        item_ids.push(id);
        labels.push(label);
        assert(views(item_ids@) =~= views(old_ids).push(idv[j as int]));
        assert(idv.take(j + 1) =~= idv.take(j as int).push(idv[j as int]));
        assert(views(labels@) =~= views(old_labels).push(lv[j as int]));
        assert(lv.take(j + 1) =~= lv.take(j as int).push(lv[j as int]));
    }
    assert(idv.take(g.items.len() as int) =~= idv);
    assert(lv.take(g.items.len() as int) =~= lv);
    let (fields, auxiliary_fields) = item_fields(defs, &g.items[0]);
    let primary_label = group_label(&g.name, &labels);
    ComparisonItem {
        group_id: g.group_id.clone(),
        item_id: g.items[0].item_id.clone(),
        item_ids,
        member_labels: labels,
        group_name: clone_name(&g.name),
        primary_label,
        auxiliary_fields,
        fields,
    }
}

/// What the 1v1 insertion view shows of a task.
#[derive(Debug)]
pub struct ComparisonWorkspace {
    pub task_id: String,
    pub task_name: String,
    pub criteria: String,
    pub status: SortTaskStatus,
    pub mode: SortTaskMode,
    pub left: Option<ComparisonItem>,
    pub right: Option<ComparisonItem>,
    pub located_count: usize,
    pub total_count: usize,
    pub comparison_count: usize,
    pub estimated_remaining: usize,
    pub pending_count: usize,
    pub progress_percent: usize,
    pub can_undo: bool,
    pub completed: bool,
    pub ordered_items: Vec<ComparisonItem>,
    pub planned_comparison_count: Option<usize>,
    pub matrix_comparison_percent: Option<u8>,
    pub standings: Vec<MatrixStanding>,
}

/// The ids of the groups, in order.
pub open spec fn group_ids_of(gs: Seq<GroupRow>) -> Seq<String> {
    gs.map_values(|g: GroupRow| g.group_id)
}

/// `o` shows the group with id `id`, when the groups hold one; else nothing.
pub open spec fn shows_group(
    o: Option<ComparisonItem>,
    gs: Seq<GroupRow>,
    id: Option<Seq<char>>,
    defs: Seq<(Seq<char>, bool, bool)>,
    primary: Seq<char>,
) -> bool {
    match id {
        None => o is None,
        Some(x) => match first_position(group_ids_of(gs), x) {
            None => o is None,
            Some(i) => o matches Some(c) && comparison_item_matches(c, gs[i], defs, primary),
        },
    }
}

/// The positions, among the groups, of the placed groups the groups hold,
/// in placed order.
pub open spec fn spec_ordered_positions(gs: Seq<GroupRow>, sorted: Seq<Seq<char>>) -> Seq<int>
    decreases sorted.len(),
{
    if sorted.len() == 0 {
        Seq::empty()
    } else {
        let rest = spec_ordered_positions(gs, sorted.drop_last());
        match first_position(group_ids_of(gs), sorted.last()) {
            Some(i) => rest.push(i),
            None => rest,
        }
    }
}

/// Every group has at least one item.
pub open spec fn all_nonempty(gs: Seq<GroupRow>) -> bool {
    forall|k: int| 0 <= k < gs.len() ==> (#[trigger] gs[k]).items@.len() > 0
}

/// The group a candidate or placed id shows, if the groups hold it.
fn group_item(
    groups: &Vec<GroupRow>,
    ids: &Vec<String>,
    id: &String,
    defs: &Vec<DisplayFieldDefinition>,
    primary: &String,
) -> (r: Option<ComparisonItem>)
    requires
        ids@ == group_ids_of(groups@),
        all_nonempty(groups@),
    ensures
        shows_group(r, groups@, Some(id@), defs_view(defs@), primary@),
{
    match position_of(ids, id) {
        Some(i) => {
            assert(groups@[i as int].items@.len() > 0);
            Some(comparison_item(&groups[i], defs, primary))
        },
        None => None,
    }
}

/// The group of the active candidate, if any.
pub open spec fn spec_left_id(v: crate::comparison::SessionView) -> Option<Seq<char>> {
    if v.queue.len() > 0 {
        Some(v.queue[0].group)
    } else {
        None
    }
}

/// The placed group the active candidate is compared with, if any.
pub open spec fn spec_right_id(v: crate::comparison::SessionView) -> Option<Seq<char>> {
    match spec_midpoint(v) {
        Some(m) => if m < v.sorted.len() {
            Some(v.sorted[m as int])
        } else {
            None
        },
        None => None,
    }
}

/// `a + b`, or the largest `usize` where that is larger.
pub open spec fn saturating_sum(a: nat, b: nat) -> usize {
    if a + b > usize::MAX {
        usize::MAX
    } else {
        (a + b) as usize
    }
}

/// The 1v1 insertion view of a task: the active candidate (left) and the
/// placed group it is compared with (right), the placed groups in order,
/// how many items are placed and waiting, the judgments made and expected.
/// `InvalidProject` for a dataset without primary identifier or a group
/// without items.
pub fn comparison_workspace(
    task_id: String,
    task_name: String,
    criteria: String,
    status: SortTaskStatus,
    state: &ComparisonSessionState,
    defs: &Vec<DisplayFieldDefinition>,
    groups: &Vec<GroupRow>,
    comparison_count: usize,
) -> (r: Result<ComparisonWorkspace, AppError>)
    requires
        session_wf(state@),
        state@.queue.len() * 64 <= usize::MAX,
        state@.sorted.len() + state@.queue.len() < usize::MAX,
        total_size(group_ids_of(groups@), group_sizes(groups@), state@.sorted) + total_size(
            group_ids_of(groups@),
            group_sizes(groups@),
            queue_groups(state@.queue),
        ) <= usize::MAX,
    ensures
        spec_primary_name(defs_view(defs@)) is None ==> (r matches Err(AppError::InvalidProject(m)) && m@
            == "数据集缺少主标识字段"@),
        spec_primary_name(defs_view(defs@)) is Some && !all_nonempty(groups@) ==> (r matches Err(
            AppError::InvalidProject(m),
        ) && m@ == "活动排序组没有条目"@),
        spec_primary_name(defs_view(defs@)) matches Some(p) ==> (all_nonempty(groups@) ==> (r matches Ok(w) && {
            let ids = group_ids_of(groups@);
            let sizes = group_sizes(groups@);
            let located = total_size(ids, sizes, state@.sorted);
            let pending = total_size(ids, sizes, queue_groups(state@.queue));
            let estimate = spec_estimate_remaining(state@);
            let positions = spec_ordered_positions(groups@, state@.sorted);
            &&& w.task_id == task_id && w.task_name == task_name && w.criteria == criteria
            &&& w.status == status && w.mode == SortTaskMode::Comparison
            &&& shows_group(w.left, groups@, spec_left_id(state@), defs_view(defs@), p)
            &&& shows_group(w.right, groups@, spec_right_id(state@), defs_view(defs@), p)
            &&& w.located_count == located && w.pending_count == pending
            &&& w.total_count == located + pending
            &&& w.comparison_count == comparison_count
            &&& w.estimated_remaining == estimate
            &&& w.planned_comparison_count == Some(saturating_sum(comparison_count as nat, estimate))
            &&& w.progress_percent == spec_progress_percent(located, located + pending)
            &&& w.can_undo == (comparison_count > 0)
            &&& w.completed == (state@.queue.len() == 0)
            &&& w.ordered_items@.len() == positions.len()
            &&& forall|k: int|
                0 <= k < positions.len() ==> #[trigger] comparison_item_matches(
                    w.ordered_items@[k],
                    groups@[positions[k]],
                    defs_view(defs@),
                    p,
                )
            &&& w.matrix_comparison_percent is None
            &&& w.standings@.len() == 0
        })),
{
    let primary = match primary_field(defs) {
        Ok(p) => p,
        Err(e) => return Err(e),
    };
    let ghost gs = groups@;
    let ghost dv = defs_view(defs@);
    let mut ids: Vec<String> = Vec::new();
    let mut sizes: Vec<usize> = Vec::new();
    for k in 0..groups.len()
        invariant
            gs == groups@,
            spec_primary_name(defs_view(defs@)) == Some(primary@),
            ids@ == group_ids_of(gs).take(k as int),
            sizes@ == group_sizes(gs).take(k as int),
            forall|i: int| 0 <= i < k ==> (#[trigger] gs[i]).items@.len() > 0,
    {
        if groups[k].items.len() == 0 {
            assert(!all_nonempty(gs));
            return Err(invalid_project("活动排序组没有条目"));
        }
        ids.push(groups[k].group_id.clone());
        sizes.push(groups[k].items.len());
        assert(ids@ =~= group_ids_of(gs).take(k + 1));
        assert(sizes@ =~= group_sizes(gs).take(k + 1));
    }
    assert(ids@ =~= group_ids_of(gs));
    assert(sizes@ =~= group_sizes(gs));
    assert(all_nonempty(gs));
    let (located, pending) = state.placement_counts(&ids, &sizes);
    let total = located + pending;
    let estimated = estimate_remaining(state);
    let left = if state.queue.len() > 0 {
        assert(state@.queue[0] == state.queue@[0]@);
        group_item(groups, &ids, &state.queue[0].group_id, defs, &primary)
    } else {
        None
    };
    let right = match state.midpoint() {
        Some(m) => {
            if m < state.sorted_group_ids.len() {
                group_item(groups, &ids, &state.sorted_group_ids[m], defs, &primary)
            } else {
                None
            }
        },
        None => None,
    };
    let ghost sorted = state@.sorted;
    let ghost mut pos: Seq<int> = Seq::empty();
    let mut ordered: Vec<ComparisonItem> = Vec::new();
    for k in 0..state.sorted_group_ids.len()
        invariant
            gs == groups@,
            dv == defs_view(defs@),
            sorted == state@.sorted,
            ids@ == group_ids_of(gs),
            all_nonempty(gs),
            pos == spec_ordered_positions(gs, sorted.take(k as int)),
            ordered@.len() == pos.len(),
            forall|i: int|
                0 <= i < ordered@.len() ==> #[trigger] comparison_item_matches(ordered@[i], gs[pos[i]], dv, primary@),
    {
        assert(sorted.take(k + 1).drop_last() =~= sorted.take(k as int));
        assert(sorted.take(k + 1).last() == state.sorted_group_ids@[k as int]@);
        match position_of(&ids, &state.sorted_group_ids[k]) {
            Some(i) => {
                assert(gs[i as int].items@.len() > 0);
                let c = comparison_item(&groups[i], defs, &primary);
                let ghost old_ordered = ordered@;
                let ghost old_pos = pos;
                ordered.push(c);
                proof {
                    pos = pos.push(i as int);
                    assert forall|j: int| 0 <= j < ordered@.len() implies #[trigger] comparison_item_matches(
                        ordered@[j],
                        gs[pos[j]],
                        dv,
                        primary@,
                    ) by {
                        if j < old_ordered.len() {
                            assert(ordered@[j] == old_ordered[j]);
                            assert(pos[j] == old_pos[j]);
                        }
                    }
                }
            },
            None => {},
        }
    }
    assert(sorted.take(state.sorted_group_ids.len() as int) =~= sorted);
    let planned = comparison_count.saturating_add(estimated);
    let progress = progress_percent(located, total);
    Ok(ComparisonWorkspace {
        task_id,
        task_name,
        criteria,
        status,
        mode: SortTaskMode::Comparison,
        left,
        right,
        located_count: located,
        total_count: total,
        comparison_count,
        estimated_remaining: estimated,
        pending_count: pending,
        progress_percent: progress,
        can_undo: comparison_count > 0,
        completed: state.queue.len() == 0,
        ordered_items: ordered,
        planned_comparison_count: Some(planned),
        matrix_comparison_percent: None,
        standings: Vec::new(),
    })
}


/// One item `row` of group `group_id` shown on its own in the 1v1 views:
/// its id as the only member, its label, no group name, its fields.
pub open spec fn single_item_matches(
    c: ComparisonItem,
    group_id: Seq<char>,
    row: ItemRow,
    defs: Seq<(Seq<char>, bool, bool)>,
    primary: Seq<char>,
) -> bool {
    &&& c.group_id@ == group_id
    &&& c.item_id@ == row.item_id@
    &&& views(c.item_ids@) == seq![row.item_id@]
    &&& views(c.member_labels@) == seq![spec_item_label(row, primary)]
    &&& c.group_name is None
    &&& c.primary_label@ == spec_item_label(row, primary)
    &&& shown(c.fields@) == spec_all_fields(defs, row_fields(row))
    &&& shown(c.auxiliary_fields@) == spec_auxiliary_fields(defs, row_fields(row))
}

/// Item `row` of group `group_id`, shown on its own.
pub fn single_item(group_id: &String, row: &ItemRow, defs: &Vec<DisplayFieldDefinition>, primary: &String) -> (c:
    ComparisonItem)
    ensures
        single_item_matches(c, group_id@, *row, defs_view(defs@), primary@),
{
    let label = item_label(row, primary.as_str());
    let mut item_ids: Vec<String> = Vec::new();
    item_ids.push(row.item_id.clone());
    let mut labels: Vec<String> = Vec::new();
    labels.push(label.clone());
    let (fields, auxiliary_fields) = item_fields(defs, row);
    assert(views(item_ids@) =~= seq![row.item_id@]);
    assert(views(labels@) =~= seq![spec_item_label(*row, primary@)]);
    ComparisonItem {
        group_id: group_id.clone(),
        item_id: row.item_id.clone(),
        item_ids,
        member_labels: labels,
        group_name: None,
        primary_label: label,
        auxiliary_fields,
        fields,
    }
}

/// A stored slider rating: the item, the group it was rated in, and the
/// value in hundredths.
pub struct RatingRow {
    pub group_id: String,
    pub item: ItemRow,
    pub value_hundredths: u16,
}

/// A rating as the slider view shows it.
#[derive(Debug)]
pub struct SliderRating {
    pub item: ComparisonItem,
    pub value_hundredths: u16,
}

/// What the slider view shows of a task.
#[derive(Debug)]
pub struct SliderWorkspace {
    pub task_id: String,
    pub task_name: String,
    pub criteria: String,
    pub status: SortTaskStatus,
    pub current: Option<ComparisonItem>,
    pub completed_count: usize,
    pub total_count: usize,
    pub progress_percent: usize,
    pub completed: bool,
    pub ratings: Vec<SliderRating>,
}

/// Item `j` of group `k` among the groups.
pub open spec fn item_at(gs: Seq<GroupRow>, k: int, j: int) -> ItemRow {
    gs[k].items@[j]
}

/// Every item before item `j` of group `k` (in group order, then item
/// order) has an id among `rated`.
pub open spec fn rated_before(gs: Seq<GroupRow>, k: int, j: int, rated: Seq<Seq<char>>) -> bool {
    forall|a: int, b: int|
        0 <= a < gs.len() && 0 <= b < gs[a].items@.len() && (a < k || (a == k && b < j)) ==> rated.contains(
            #[trigger] item_at(gs, a, b).item_id@,
        )
}

/// The first item, in group order then item order, whose id is not among
/// `rated`.
pub fn first_unrated(groups: &Vec<GroupRow>, rated: &Vec<String>) -> (r: Option<(usize, usize)>)
    ensures
        r is None ==> rated_before(groups@, groups@.len() as int, 0, views(rated@)),
        r matches Some((k, j)) ==> k < groups@.len() && j < groups@[k as int].items@.len()
            && !views(rated@).contains(item_at(groups@, k as int, j as int).item_id@) && rated_before(
            groups@,
            k as int,
            j as int,
            views(rated@),
        ),
{
    let ghost gs = groups@;
    let ghost rv = views(rated@);
    for k in 0..groups.len()
        invariant
            gs == groups@,
            rv == views(rated@),
            rated_before(gs, k as int, 0, rv),
    {
        let size = groups[k].items.len();
        for j in 0..size
            invariant
                size == gs[k as int].items@.len(),
                gs == groups@,
                rv == views(rated@),
                0 <= k < gs.len(),
                rated_before(gs, k as int, j as int, rv),
        {
            if !contains_string(rated, &groups[k].items[j].item_id) {
                return Some((k, j));
            }
            assert(rv.contains(item_at(gs, k as int, j as int).item_id@));
        }
        assert(rated_before(gs, k + 1, 0, rv));
    }
    None
}

/// The slider view of a task: the first item not yet rated, the ratings in
/// the order they were made, how many of the task's items are rated.
/// `InvalidProject` for a dataset without primary identifier.
pub fn slider_workspace(
    task_id: String,
    task_name: String,
    criteria: String,
    status: SortTaskStatus,
    defs: &Vec<DisplayFieldDefinition>,
    groups: &Vec<GroupRow>,
    ratings: &Vec<RatingRow>,
    total_count: usize,
) -> (r: Result<SliderWorkspace, AppError>)
    ensures
        spec_primary_name(defs_view(defs@)) is None ==> (r matches Err(AppError::InvalidProject(m)) && m@
            == "数据集缺少主标识字段"@),
        spec_primary_name(defs_view(defs@)) matches Some(p) ==> (r matches Ok(w) && {
            let rated = ratings@.map_values(|x: RatingRow| x.item.item_id@);
            &&& w.task_id == task_id && w.task_name == task_name && w.criteria == criteria
            &&& w.status == status
            &&& (w.current is None <==> rated_before(groups@, groups@.len() as int, 0, rated))
            &&& (w.current matches Some(c) ==> exists|k: int, j: int|
                0 <= k < groups@.len() && 0 <= j < groups@[k].items@.len() && !rated.contains(
                    item_at(groups@, k, j).item_id@,
                ) && rated_before(groups@, k, j, rated) && #[trigger] single_item_matches(
                    c,
                    groups@[k].group_id@,
                    item_at(groups@, k, j),
                    defs_view(defs@),
                    p,
                ))
            &&& w.ratings@.len() == ratings@.len()
            &&& forall|i: int|
                0 <= i < ratings@.len() ==> #[trigger] single_item_matches(
                    w.ratings@[i].item,
                    ratings@[i].group_id@,
                    ratings@[i].item,
                    defs_view(defs@),
                    p,
                ) && w.ratings@[i].value_hundredths == ratings@[i].value_hundredths
            &&& w.completed_count == ratings@.len()
            &&& w.total_count == total_count
            &&& w.completed == (ratings@.len() == total_count)
            &&& w.progress_percent == spec_progress_percent(ratings@.len() as nat, total_count as nat)
        }),
{
    let primary = match primary_field(defs) {
        Ok(p) => p,
        Err(e) => return Err(e),
    };
    let ghost rated = ratings@.map_values(|x: RatingRow| x.item.item_id@);
    let mut rated_ids: Vec<String> = Vec::new();
    let mut shown_ratings: Vec<SliderRating> = Vec::new();
    for i in 0..ratings.len()
        invariant
            rated == ratings@.map_values(|x: RatingRow| x.item.item_id@),
            views(rated_ids@) == rated.take(i as int),
            shown_ratings@.len() == i,
            forall|m: int|
                0 <= m < i ==> #[trigger] single_item_matches(
                    shown_ratings@[m].item,
                    ratings@[m].group_id@,
                    ratings@[m].item,
                    defs_view(defs@),
                    primary@,
                ),
            forall|m: int| 0 <= m < i ==> #[trigger] shown_ratings@[m].value_hundredths == ratings@[m].value_hundredths,
    {
        let row = &ratings[i];
        let ghost old_ids = rated_ids@;
        rated_ids.push(row.item.item_id.clone());
        assert(views(rated_ids@) =~= views(old_ids).push(rated[i as int]));
        assert(rated.take(i + 1) =~= rated.take(i as int).push(rated[i as int]));
        let item = single_item(&row.group_id, &row.item, defs, &primary);
        let ghost old_shown = shown_ratings@;
        shown_ratings.push(SliderRating { item, value_hundredths: row.value_hundredths });
        assert forall|m: int| 0 <= m < i + 1 implies #[trigger] single_item_matches(
            shown_ratings@[m].item,
            ratings@[m].group_id@,
            ratings@[m].item,
            defs_view(defs@),
            primary@,
        ) by {
            if m < i {
                assert(shown_ratings@[m] == old_shown[m]);
            }
        }
        assert forall|m: int| 0 <= m < i + 1 implies #[trigger] shown_ratings@[m].value_hundredths
            == ratings@[m].value_hundredths by {
            if m < i {
                assert(shown_ratings@[m] == old_shown[m]);
            }
        }
    }
    assert(rated.take(ratings.len() as int) =~= rated);
    let current = match first_unrated(groups, &rated_ids) {
        Some((k, j)) => {
            let c = single_item(&groups[k].group_id, &groups[k].items[j], defs, &primary);
            assert(single_item_matches(
                c,
                groups@[k as int].group_id@,
                item_at(groups@, k as int, j as int),
                defs_view(defs@),
                primary@,
            ));
            proof {
                if rated_before(groups@, groups@.len() as int, 0, rated) {
                    assert(rated.contains(item_at(groups@, k as int, j as int).item_id@));
                }
            }
            Some(c)
        },
        None => None,
    };
    let done = ratings.len();
    Ok(SliderWorkspace {
        task_id,
        task_name,
        criteria,
        status,
        current,
        completed_count: done,
        total_count,
        progress_percent: progress_percent(done, total_count),
        completed: done == total_count,
        ratings: shown_ratings,
    })
}

} // verus!
