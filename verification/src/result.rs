//! Final results: integrity checks, confirmation, the rank field written
//! back, and export into text formats.

use vstd::prelude::*;

use crate::error::{invalid_input, AppError};
use crate::json::{
    find_member, json_clone, json_text, json_view, lemma_object_view, lookup, members_view, push_json_text, JsonValue,
    JsonView,
};
use crate::sort_task::SortTaskStatus;
use crate::paths::{parent, parent_of, path_starts_with, path_starts_with_of};
use crate::text::{
    char_count, chars_of, concat, concat3, decimal, decimal_string, has_control, is_control, joined, owned, str_eq,
    string_from_chars, trim, trimmed, views,
};

verus! {

broadcast use vstd::seq_lib::group_seq_properties;

/// The checks a result must pass before it can be confirmed.
#[derive(Debug)]
pub struct ResultIntegrity {
    pub all_items_included: bool,
    pub no_unresolved_comparisons: bool,
    pub no_duplicate_items: bool,
    pub no_invalid_items: bool,
    pub problems: Vec<String>,
}

impl ResultIntegrity {
    pub open spec fn spec_is_valid(&self) -> bool {
        self.all_items_included && self.no_unresolved_comparisons && self.no_duplicate_items
            && self.no_invalid_items
    }

    /// Whether every check passed.
    pub fn is_valid(&self) -> (r: bool)
        ensures
            r == self.spec_is_valid(),
    {
        self.all_items_included && self.no_unresolved_comparisons && self.no_duplicate_items
            && self.no_invalid_items
    }
}

/// The problems reported for failed checks, in order.
pub open spec fn spec_problems(
    item_count: nat,
    valid_dataset_count: nat,
    all_items_included: bool,
    no_unresolved_comparisons: bool,
    no_duplicate_items: bool,
    no_invalid_items: bool,
) -> Seq<Seq<char>> {
    let a = if all_items_included {
        Seq::empty()
    } else {
        seq![
            "结果包含 "@ + decimal(item_count) + " 个条目，但数据集有 "@ + decimal(valid_dataset_count)
                + " 个有效条目"@,
        ]
    };
    let b = if no_unresolved_comparisons {
        Seq::empty()
    } else {
        seq!["排序尚未完成，仍有待处理条目"@]
    };
    let c = if no_duplicate_items {
        Seq::empty()
    } else {
        seq!["结果中存在重复条目"@]
    };
    let d = if no_invalid_items {
        Seq::empty()
    } else {
        seq!["结果中包含无效条目"@]
    };
    a + b + c + d
}

/// Checks a result: the items listed (by id, in rank order) with their
/// validity against the dataset's number of valid items, and whether the
/// sorting session is complete.
pub fn check_integrity(
    item_ids: &Vec<String>,
    valid_flags: &Vec<bool>,
    valid_dataset_count: usize,
    session_complete: bool,
) -> (r: ResultIntegrity)
    ensures
        r.all_items_included == (item_ids@.len() == valid_dataset_count),
        r.no_unresolved_comparisons == session_complete,
        r.no_duplicate_items == views(item_ids@).no_duplicates(),
        r.no_invalid_items == forall|i: int| 0 <= i < valid_flags@.len() ==> #[trigger] valid_flags@[i],
        views(r.problems@) == spec_problems(
            item_ids@.len() as nat,
            valid_dataset_count as nat,
            r.all_items_included,
            r.no_unresolved_comparisons,
            r.no_duplicate_items,
            r.no_invalid_items,
        ),
{
    let ghost ids = views(item_ids@);
    let all_items_included = item_ids.len() == valid_dataset_count;
    let mut no_duplicate_items = true;
    for i in 0..item_ids.len()
        invariant
            ids == views(item_ids@),
            no_duplicate_items == forall|a: int, b: int| 0 <= a < b < i ==> ids[a] != ids[b],
    {
        for j in 0..i
            invariant
                ids == views(item_ids@),
                i < item_ids@.len(),
                no_duplicate_items == ((forall|a: int, b: int| 0 <= a < b < i ==> ids[a] != ids[b]) && forall|a: int|
                    0 <= a < j ==> ids[a] != ids[i as int]),
        {
            assert(ids[j as int] == item_ids@[j as int]@ && ids[i as int] == item_ids@[i as int]@);
            if item_ids[j] == item_ids[i] {
                no_duplicate_items = false;
            }
        }
    }
    let mut no_invalid_items = true;
    for i in 0..valid_flags.len()
        invariant
            no_invalid_items == forall|k: int| 0 <= k < i ==> #[trigger] valid_flags@[k],
    {
        if !valid_flags[i] {
            no_invalid_items = false;
        }
    }
    let mut problems: Vec<String> = Vec::new();
    let ghost mut expected: Seq<Seq<char>> = Seq::empty();
    if !all_items_included {
        let first = concat("结果包含 ", decimal_string(item_ids.len() as u128).as_str());
        let second = concat(first.as_str(), " 个条目，但数据集有 ");
        let third = concat(second.as_str(), decimal_string(valid_dataset_count as u128).as_str());
        problems.push(concat(third.as_str(), " 个有效条目"));
    }
    if !session_complete {
        problems.push(owned("排序尚未完成，仍有待处理条目"));
    }
    if !no_duplicate_items {
        problems.push(owned("结果中存在重复条目"));
    }
    if !no_invalid_items {
        problems.push(owned("结果中包含无效条目"));
    }
    proof {
        assert(views(item_ids@).no_duplicates() == no_duplicate_items);
        assert(views(problems@) =~= spec_problems(
            item_ids@.len() as nat,
            valid_dataset_count as nat,
            all_items_included,
            session_complete,
            no_duplicate_items,
            no_invalid_items,
        ));
    }
    ResultIntegrity {
        all_items_included,
        no_unresolved_comparisons: session_complete,
        no_duplicate_items,
        no_invalid_items,
        problems,
    }
}

/// Whether a result can be confirmed: its checks pass and it is not
/// confirmed yet.
pub fn can_confirm(integrity: &ResultIntegrity, status: SortTaskStatus) -> (r: bool)
    ensures
        r == (integrity.spec_is_valid() && status != SortTaskStatus::Confirmed),
{
    integrity.is_valid() && status != SortTaskStatus::Confirmed
}

/// How far an item moved: its place in the import minus its final rank.
pub fn rank_change(rank: usize, original_index: usize) -> (r: i64)
    requires
        rank <= i64::MAX,
        original_index < i64::MAX,
    ensures
        r == (original_index + 1) - rank,
{
    (original_index as i64 + 1) - rank as i64
}

/// What confirming a result needs: its checks pass. Confirming a confirmed
/// result again changes nothing; `Ok(true)` says there is something to
/// record.
pub fn check_confirmation(integrity: &ResultIntegrity, status: SortTaskStatus) -> (r: Result<bool, AppError>)
    ensures
        !integrity.spec_is_valid() ==> (r matches Err(AppError::InvalidInput(m)) && m@
            == "结果完整性检查未通过："@ + joined(views(integrity.problems@), "；"@)),
        integrity.spec_is_valid() ==> r == Ok::<bool, AppError>(status != SortTaskStatus::Confirmed),
{
    if !integrity.is_valid() {
        let problems = crate::text::join(&integrity.problems, "；");
        return Err(AppError::InvalidInput(concat("结果完整性检查未通过：", problems.as_str())));
    }
    Ok(status != SortTaskStatus::Confirmed)
}

/// Where a task stands on locking: its status and the rank field last
/// written, with when.
#[derive(Debug)]
pub struct LockState {
    pub status: SortTaskStatus,
    pub rank_written_at: Option<String>,
    pub rank_written_field: Option<String>,
}

/// Checks the name of the field a rank is written to: trimmed, it must not
/// be empty nor hold control characters.
pub fn validate_field_name(field_name: &str) -> (r: Result<String, AppError>)
    ensures
        trimmed(field_name@).len() == 0 ==> (r matches Err(AppError::InvalidInput(m)) && m@
            == "排名字段名称不能为空"@),
        trimmed(field_name@).len() > 0 && (exists|i: int|
            0 <= i < trimmed(field_name@).len() && is_control(#[trigger] trimmed(field_name@)[i])) ==> (r matches Err(
            AppError::InvalidInput(m),
        ) && m@ == "排名字段名称不能包含控制字符"@),
        trimmed(field_name@).len() > 0 && !(exists|i: int|
            0 <= i < trimmed(field_name@).len() && is_control(#[trigger] trimmed(field_name@)[i])) ==> (r matches Ok(
            n,
        ) && n@ == trimmed(field_name@)),
{
    let t = trim(field_name);
    if crate::text::char_count(t.as_str()) == 0 {
        return Err(invalid_input("排名字段名称不能为空"));
    }
    if has_control(t.as_str()) {
        return Err(invalid_input("排名字段名称不能包含控制字符"));
    }
    Ok(t)
}

/// Checks that a rank may be written to `field_name`: the result is
/// confirmed, and a field of that name, if the dataset has one, may be
/// overwritten and holds numbers.
pub fn check_rank_field(
    field_name: &String,
    status: SortTaskStatus,
    existing_type: Option<String>,
    overwrite: bool,
) -> (r: Result<(), AppError>)
    ensures
        status != SortTaskStatus::Confirmed ==> (r matches Err(AppError::InvalidInput(m)) && m@
            == "请先确认排序结果，再写入排名字段"@),
        status == SortTaskStatus::Confirmed && existing_type is Some && !overwrite ==> (r matches Err(
            AppError::ConfirmationRequired(m),
        ) && m@ == "字段“"@ + field_name@ + "”已存在，写入排名会覆盖其当前值"@),
        existing_type matches Some(t) ==> (status == SortTaskStatus::Confirmed && overwrite && t@ != "number"@ ==> (
        r matches Err(AppError::InvalidInput(m)) && m@ == "已有字段“"@ + field_name@ + "”不是数字类型，不能写入排名"@)),
        existing_type matches Some(t) ==> (status == SortTaskStatus::Confirmed && overwrite && t@ == "number"@
            ==> r is Ok),
        status == SortTaskStatus::Confirmed && existing_type is None ==> r is Ok,
{
    if status != SortTaskStatus::Confirmed {
        return Err(invalid_input("请先确认排序结果，再写入排名字段"));
    }
    match existing_type {
        Some(t) => {
            if !overwrite {
                let a = concat("字段“", field_name.as_str());
                return Err(AppError::ConfirmationRequired(concat(a.as_str(), "”已存在，写入排名会覆盖其当前值")));
            }
            if !str_eq(t.as_str(), "number") {
                let a = concat("已有字段“", field_name.as_str());
                return Err(AppError::InvalidInput(concat(a.as_str(), "”不是数字类型，不能写入排名")));
            }
            Ok(())
        },
        None => Ok(()),
    }
}


/// File formats a result can be exported to.
#[derive(Debug, Clone, Copy, PartialEq, Eq, Structural)]
pub enum ExportFormat {
    Csv,
    Json,
    MarkdownTable,
    MarkdownList,
    Text,
}

/// The order of exported rows.
#[derive(Debug, Clone, Copy, PartialEq, Eq, Structural)]
pub enum ExportOrder {
    /// By final rank.
    Final,
    /// In the order of the import.
    Original,
}

/// A request to export a confirmed result.
#[derive(Debug)]
pub struct ExportResultRequest {
    pub project_path: String,
    pub task_id: String,
    pub target_path: String,
    pub format: ExportFormat,
    pub order: ExportOrder,
    pub selected_fields: Vec<String>,
    pub include_rank: bool,
    pub rank_field_name: String,
    pub include_original_index: bool,
    pub overwrite: bool,
}

/// What an export wrote.
#[derive(Debug)]
pub struct ExportResultReceipt {
    pub path: String,
    pub row_count: usize,
    pub format: ExportFormat,
}

/// A row of a confirmed result: its rank, its place in the import, its
/// values, and the score of the row as the score format writes it, when a
/// score format applies.
#[derive(Debug)]
pub struct ExportRow {
    pub final_rank: usize,
    pub original_index: usize,
    pub fields: Vec<(String, JsonValue)>,
    pub score_text: Option<String>,
}

/// The column holding a row's place in the import.
pub open spec fn original_index_column() -> Seq<char> {
    "original_index"@
}

/// `start` followed by the selected names not already present, in order.
pub open spec fn add_unique(start: Seq<Seq<char>>, selected: Seq<Seq<char>>, n: nat) -> Seq<Seq<char>>
    decreases n,
{
    if n == 0 {
        start
    } else {
        let h = add_unique(start, selected, (n - 1) as nat);
        if h.contains(selected[n - 1]) {
            h
        } else {
            h.push(selected[n - 1])
        }
    }
}

/// The exported columns: the rank column, then the original index column,
/// when asked for, then each selected field once.
pub open spec fn spec_export_headers(
    selected: Seq<Seq<char>>,
    include_rank: bool,
    rank_field_name: Seq<char>,
    include_original_index: bool,
) -> Seq<Seq<char>> {
    let start = (if include_rank {
        seq![rank_field_name]
    } else {
        Seq::empty()
    }) + (if include_original_index {
        seq![original_index_column()]
    } else {
        Seq::empty()
    });
    add_unique(start, selected, selected.len())
}

/// The columns of an export.
pub fn export_headers(
    selected_fields: &Vec<String>,
    include_rank: bool,
    rank_field_name: &str,
    include_original_index: bool,
) -> (r: Vec<String>)
    ensures
        views(r@) == spec_export_headers(views(selected_fields@), include_rank, rank_field_name@, include_original_index),
{
    let ghost sel = views(selected_fields@);
    let mut headers: Vec<String> = Vec::new();
    if include_rank {
        headers.push(owned(rank_field_name));
    }
    if include_original_index {
        headers.push(owned("original_index"));
    }
    assert(views(headers@) =~= (if include_rank {
        seq![rank_field_name@]
    } else {
        Seq::empty()
    }) + (if include_original_index {
        seq![original_index_column()]
    } else {
        Seq::empty()
    }));
    let ghost start = views(headers@);
    for i in 0..selected_fields.len()
        invariant
            sel == views(selected_fields@),
            views(headers@) == add_unique(start, sel, i as nat),
    {
        if !crate::text::contains_string(&headers, &selected_fields[i]) {
            let ghost before = headers@;
            headers.push(selected_fields[i].clone());
            assert(views(headers@) =~= views(before).push(sel[i as int]));
        }
    }
    headers
}

/// The export text of a value: nothing for none or null, text as is,
/// booleans and numbers as written, arrays and objects as compact JSON.
pub open spec fn spec_csv_value(v: Option<JsonView>) -> Seq<char> {
    match v {
        None => Seq::empty(),
        Some(JsonView::Null) => Seq::empty(),
        Some(JsonView::Str(t)) => t,
        Some(other) => json_text(other),
    }
}

/// The export text of a value.
pub fn csv_value(v: Option<&JsonValue>) -> (r: String)
    ensures
        r@ == spec_csv_value(match v {
            Some(x) => Some(x@),
            None => None,
        }),
{
    match v {
        None => String::new(),
        Some(JsonValue::Null) => String::new(),
        Some(JsonValue::String(t)) => t.clone(),
        Some(other) => {
            let mut out: Vec<char> = Vec::new();
            push_json_text(&mut out, other);
            assert(out@ =~= json_text(other@));
            string_from_chars(out.as_slice())
        },
    }
}

/// The view of an export row.
pub open spec fn row_fields_view(row: ExportRow) -> Seq<(Seq<char>, JsonView)> {
    members_view(row.fields@, row.fields@.len())
}

/// The text exported for a row under a column: the rank or the original
/// index in their columns, the row's score text in the score column when it
/// has one, else the value's export text.
pub open spec fn spec_cell(
    row: ExportRow,
    header: Seq<char>,
    include_rank: bool,
    rank_field_name: Seq<char>,
    include_original_index: bool,
    score_field: Option<Seq<char>>,
) -> Seq<char> {
    if include_rank && header == rank_field_name {
        decimal(row.final_rank as nat)
    } else if include_original_index && header == original_index_column() {
        decimal(row.original_index as nat)
    } else if score_field == Some(header) && row.score_text is Some {
        row.score_text->0@
    } else {
        spec_csv_value(lookup(row_fields_view(row), header))
    }
}

pub open spec fn opt_string(o: Option<String>) -> Option<Seq<char>> {
    match o {
        Some(s) => Some(s@),
        None => None,
    }
}

/// The texts exported for a row, column by column.
pub fn export_row_values(
    row: &ExportRow,
    headers: &Vec<String>,
    include_rank: bool,
    rank_field_name: &str,
    include_original_index: bool,
    score_field: &Option<String>,
) -> (r: Vec<String>)
    ensures
        r@.len() == headers@.len(),
        forall|k: int|
            0 <= k < headers@.len() ==> (#[trigger] r@[k])@ == spec_cell(
                *row,
                headers@[k]@,
                include_rank,
                rank_field_name@,
                include_original_index,
                opt_string(*score_field),
            ),
{
    let mut out: Vec<String> = Vec::new();
    for k in 0..headers.len()
        invariant
            out@.len() == k,
            forall|m: int|
                0 <= m < k ==> (#[trigger] out@[m])@ == spec_cell(
                    *row,
                    headers@[m]@,
                    include_rank,
                    rank_field_name@,
                    include_original_index,
                    opt_string(*score_field),
                ),
    {
        let header = &headers[k];
        let value = if include_rank && str_eq(header.as_str(), rank_field_name) {
            decimal_string(row.final_rank as u128)
        } else if include_original_index && str_eq(header.as_str(), "original_index") {
            decimal_string(row.original_index as u128)
        } else {
            let scored = match (score_field, &row.score_text) {
                (Some(f), Some(t)) => if *f == *header {
                    Some(t.clone())
                } else {
                    None
                },
                _ => None,
            };
            match scored {
                Some(t) => t,
                None => match find_member(&row.fields, header.as_str()) {
                    Some(i) => csv_value(Some(&row.fields[i].1)),
                    None => csv_value(None),
                },
            }
        };
        out.push(value);
    }
    out
}

/// Whether a selected field is left out of a JSON row because the rank or
/// the original index already stands under its name.
pub open spec fn json_column_taken(
    field: Seq<char>,
    include_rank: bool,
    rank_field_name: Seq<char>,
    include_original_index: bool,
) -> bool {
    (include_rank && field == rank_field_name) || (include_original_index && field == original_index_column())
}

/// The members a JSON row gets from the first `n` selected fields: each
/// field not taken by the rank or original index, with the row's value or
/// null.
pub open spec fn json_field_members(
    fields: Seq<(Seq<char>, JsonView)>,
    selected: Seq<Seq<char>>,
    include_rank: bool,
    rank_field_name: Seq<char>,
    include_original_index: bool,
    n: nat,
) -> Seq<(Seq<char>, JsonView)>
    decreases n,
{
    if n == 0 || n > selected.len() {
        Seq::empty()
    } else {
        let before = json_field_members(
            fields,
            selected,
            include_rank,
            rank_field_name,
            include_original_index,
            (n - 1) as nat,
        );
        let field = selected[n - 1];
        if json_column_taken(field, include_rank, rank_field_name, include_original_index) {
            before
        } else {
            before.push(
                (
                    field,
                    match lookup(fields, field) {
                        Some(v) => v,
                        None => JsonView::Null,
                    },
                ),
            )
        }
    }
}

/// The members of a row's JSON object, in the order they are set: the rank
/// and the original index as numbers when asked for, then the selected
/// fields. Where a name comes twice the later member is the one kept.
pub open spec fn spec_json_row(
    row: ExportRow,
    selected: Seq<Seq<char>>,
    include_rank: bool,
    rank_field_name: Seq<char>,
    include_original_index: bool,
) -> Seq<(Seq<char>, JsonView)> {
    (if include_rank {
        seq![(rank_field_name, JsonView::Number(decimal(row.final_rank as nat)))]
    } else {
        Seq::empty()
    }) + (if include_original_index {
        seq![(original_index_column(), JsonView::Number(decimal(row.original_index as nat)))]
    } else {
        Seq::empty()
    }) + json_field_members(
        row_fields_view(row),
        selected,
        include_rank,
        rank_field_name,
        include_original_index,
        selected.len(),
    )
}

/// The members of one row's JSON object.
fn export_json_row(
    row: &ExportRow,
    selected_fields: &Vec<String>,
    include_rank: bool,
    rank_field_name: &str,
    include_original_index: bool,
) -> (r: Vec<(String, JsonValue)>)
    ensures
        members_view(r@, r@.len()) == spec_json_row(
            *row,
            views(selected_fields@),
            include_rank,
            rank_field_name@,
            include_original_index,
        ),
{
    let ghost sel = views(selected_fields@);
    let ghost fv = row_fields_view(*row);
    let mut out: Vec<(String, JsonValue)> = Vec::new();
    if include_rank {
        out.push((owned(rank_field_name), JsonValue::Number(decimal_string(row.final_rank as u128))));
    }
    if include_original_index {
        out.push((owned("original_index"), JsonValue::Number(decimal_string(row.original_index as u128))));
    }
    proof {
        lemma_object_view(out@);
        assert(members_view(out@, out@.len()) =~= (if include_rank {
            seq![(rank_field_name@, JsonView::Number(decimal(row.final_rank as nat)))]
        } else {
            Seq::empty()
        }) + (if include_original_index {
            seq![(original_index_column(), JsonView::Number(decimal(row.original_index as nat)))]
        } else {
            Seq::empty()
        }));
    }
    let ghost start = members_view(out@, out@.len());
    for i in 0..selected_fields.len()
        invariant
            sel == views(selected_fields@),
            fv == row_fields_view(*row),
            members_view(out@, out@.len()) == start + json_field_members(
                fv,
                sel,
                include_rank,
                rank_field_name@,
                include_original_index,
                i as nat,
            ),
    {
        let field = &selected_fields[i];
        let taken = (include_rank && str_eq(field.as_str(), rank_field_name)) || (include_original_index && str_eq(
            field.as_str(),
            "original_index",
        ));
        if !taken {
            let value = match find_member(&row.fields, field.as_str()) {
                Some(k) => json_clone(&row.fields[k].1),
                None => JsonValue::Null,
            };
            let ghost before = out@;
            out.push((field.clone(), value));
            proof {
                lemma_object_view(before);
                lemma_object_view(out@);
                assert(members_view(out@, out@.len()) =~= members_view(before, before.len()).push(
                    (sel[i as int], json_view(value)),
                ));
            }
        }
    }
    out
}

/// The rows of a JSON export, one object per row in the given order.
/// Floating-point score places are not applied here.
pub fn export_json_rows(
    rows: &Vec<ExportRow>,
    selected_fields: &Vec<String>,
    include_rank: bool,
    rank_field_name: &str,
    include_original_index: bool,
) -> (r: Vec<JsonValue>)
    ensures
        r@.len() == rows@.len(),
        forall|i: int|
            0 <= i < rows@.len() ==> #[trigger] json_view(r@[i]) == JsonView::Object(
                spec_json_row(rows@[i], views(selected_fields@), include_rank, rank_field_name@, include_original_index),
            ),
{
    let mut out: Vec<JsonValue> = Vec::new();
    for i in 0..rows.len()
        invariant
            out@.len() == i,
            forall|m: int|
                0 <= m < i ==> #[trigger] json_view(out@[m]) == JsonView::Object(
                    spec_json_row(rows@[m], views(selected_fields@), include_rank, rank_field_name@, include_original_index),
                ),
    {
        let members = export_json_row(&rows[i], selected_fields, include_rank, rank_field_name, include_original_index);
        out.push(JsonValue::Object(members));
    }
    out
}

/// How a Markdown table cell writes one character: backslash and pipe
/// escaped, a line break as `<br>`.
pub open spec fn cell_char(c: char) -> Seq<char> {
    if c == '\\' {
        seq!['\\', '\\']
    } else if c == '|' {
        seq!['\\', '|']
    } else if c == '\r' || c == '\n' {
        "<br>"@
    } else {
        seq![c]
    }
}

/// A value written into a Markdown table cell; a CR LF pair becomes one
/// `<br>`.
pub open spec fn spec_markdown_cell(s: Seq<char>) -> Seq<char>
    decreases s.len(),
{
    if s.len() >= 2 && s[0] == '\r' && s[1] == '\n' {
        "<br>"@ + spec_markdown_cell(s.skip(2))
    } else if s.len() == 0 {
        Seq::empty()
    } else {
        cell_char(s[0]) + spec_markdown_cell(s.skip(1))
    }
}

proof fn lemma_cell_step(s: Seq<char>, i: int)
    requires
        0 <= i < s.len(),
    ensures
        i + 1 < s.len() && s[i] == '\r' && s[i + 1] == '\n' ==> spec_markdown_cell(s.skip(i)) == "<br>"@
            + spec_markdown_cell(s.skip(i + 2)),
        !(i + 1 < s.len() && s[i] == '\r' && s[i + 1] == '\n') ==> spec_markdown_cell(s.skip(i)) == cell_char(s[i])
            + spec_markdown_cell(s.skip(i + 1)),
{
    let rest = s.skip(i);
    assert(rest[0] == s[i]);
    if i + 1 < s.len() {
        assert(rest[1] == s[i + 1]);
        assert(rest.skip(2) =~= s.skip(i + 2));
    }
    assert(rest.skip(1) =~= s.skip(i + 1));
}

fn push_str_chars(out: &mut Vec<char>, s: &str)
    ensures
        final(out)@ == old(out)@ + s@,
{
    let v = chars_of(s);
    let ghost start = out@;
    for i in 0..v.len()
        invariant
            v@ == s@,
            out@ == start + s@.take(i as int),
    {
        out.push(v[i]);
        assert(out@ =~= start + s@.take(i + 1));
    }
    assert(s@.take(s@.len() as int) =~= s@);
}

/// Escapes a value for a Markdown table cell.
#[verifier::spinoff_prover]
pub fn markdown_cell(value: &str) -> (r: String)
    ensures
        r@ == spec_markdown_cell(value@),
{
    let s = chars_of(value);
    let n = s.len();
    let mut out: Vec<char> = Vec::new();
    let mut i: usize = 0;
    assert(value@.skip(0) =~= value@);
    while i < n
        invariant
            s@ == value@,
            n == value@.len(),
            i <= n,
            out@ + spec_markdown_cell(value@.skip(i as int)) == spec_markdown_cell(value@),
        decreases n - i,
    {
        proof {
            lemma_cell_step(value@, i as int);
        }
        let ghost before = out@;
        if i + 1 < n && s[i] == '\r' && s[i + 1] == '\n' {
            push_str_chars(&mut out, "<br>");
            assert(before + ("<br>"@ + spec_markdown_cell(value@.skip(i + 2))) =~= out@ + spec_markdown_cell(
                value@.skip(i + 2),
            ));
            i = i + 2;
        } else {
            let c = s[i];
            if c == '\\' {
                out.push('\\');
                out.push('\\');
            } else if c == '|' {
                out.push('\\');
                out.push('|');
            } else if c == '\r' || c == '\n' {
                push_str_chars(&mut out, "<br>");
            } else {
                out.push(c);
            }
            assert(out@ =~= before + cell_char(value@[i as int]));
            assert(before + (cell_char(value@[i as int]) + spec_markdown_cell(value@.skip(i + 1))) =~= out@
                + spec_markdown_cell(value@.skip(i + 1)));
            i = i + 1;
        }
    }
    assert(value@.skip(n as int) =~= Seq::<char>::empty());
    assert(out@ + Seq::<char>::empty() =~= out@);
    string_from_chars(out.as_slice())
}

/// How inline Markdown writes one character: backslash, `*` and `_`
/// escaped, a line break as a space.
pub open spec fn inline_char(c: char) -> Seq<char> {
    if c == '\\' {
        seq!['\\', '\\']
    } else if c == '\r' || c == '\n' {
        seq![' ']
    } else if c == '*' {
        seq!['\\', '*']
    } else if c == '_' {
        seq!['\\', '_']
    } else {
        seq![c]
    }
}

/// A value written as inline Markdown.
pub open spec fn spec_markdown_inline(s: Seq<char>) -> Seq<char>
    decreases s.len(),
{
    if s.len() == 0 {
        Seq::empty()
    } else {
        spec_markdown_inline(s.drop_last()) + inline_char(s.last())
    }
}

/// Escapes a value for inline Markdown.
pub fn markdown_inline(value: &str) -> (r: String)
    ensures
        r@ == spec_markdown_inline(value@),
{
    let s = chars_of(value);
    let mut out: Vec<char> = Vec::new();
    for i in 0..s.len()
        invariant
            s@ == value@,
            out@ == spec_markdown_inline(value@.take(i as int)),
    {
        let c = s[i];
        let ghost before = out@;
        assert(value@.take(i + 1).drop_last() =~= value@.take(i as int));
        if c == '\\' {
            out.push('\\');
            out.push('\\');
        } else if c == '\r' || c == '\n' {
            out.push(' ');
        } else if c == '*' {
            out.push('\\');
            out.push('*');
        } else if c == '_' {
            out.push('\\');
            out.push('_');
        } else {
            out.push(c);
        }
        assert(out@ =~= before + inline_char(value@[i as int]));
    }
    assert(value@.take(value@.len() as int) =~= value@);
    string_from_chars(out.as_slice())
}

/// A value with its line breaks replaced by spaces.
pub open spec fn spec_single_line(s: Seq<char>) -> Seq<char> {
    s.map_values(|c: char| if c == '\r' || c == '\n' { ' ' } else { c })
}

fn single_line(value: &String) -> (r: String)
    ensures
        r@ == spec_single_line(value@),
{
    let s = chars_of(value.as_str());
    let mut out: Vec<char> = Vec::new();
    for i in 0..s.len()
        invariant
            s@ == value@,
            out@ == spec_single_line(value@.take(i as int)),
    {
        let c = s[i];
        out.push(if c == '\r' || c == '\n' {
            ' '
        } else {
            c
        });
        assert(out@ =~= spec_single_line(value@.take(i + 1)));
    }
    assert(value@.take(value@.len() as int) =~= value@);
    string_from_chars(out.as_slice())
}

/// The exported texts of every row.
pub open spec fn row_texts(
    rows: Seq<ExportRow>,
    headers: Seq<Seq<char>>,
    include_rank: bool,
    rank_field_name: Seq<char>,
    include_original_index: bool,
    score_field: Option<Seq<char>>,
) -> Seq<Seq<Seq<char>>> {
    rows.map_values(
        |row: ExportRow|
            headers.map_values(
                |h: Seq<char>| spec_cell(row, h, include_rank, rank_field_name, include_original_index, score_field),
            ),
    )
}

fn row_values_view(
    row: &ExportRow,
    headers: &Vec<String>,
    include_rank: bool,
    rank_field_name: &str,
    include_original_index: bool,
    score_field: &Option<String>,
) -> (r: Vec<String>)
    ensures
        views(r@) == views(headers@).map_values(
            |h: Seq<char>| spec_cell(*row, h, include_rank, rank_field_name@, include_original_index, opt_string(*score_field)),
        ),
{
    let r = export_row_values(row, headers, include_rank, rank_field_name, include_original_index, score_field);
    assert(views(r@) =~= views(headers@).map_values(
        |h: Seq<char>| spec_cell(*row, h, include_rank, rank_field_name@, include_original_index, opt_string(*score_field)),
    ));
    r
}

/// Plain text: one line per row, values separated by tabs, line breaks in
/// values turned into spaces.
pub open spec fn spec_export_text(cells: Seq<Seq<Seq<char>>>) -> Seq<char> {
    joined(
        cells.map_values(|values: Seq<Seq<char>>| joined(values.map_values(|v: Seq<char>| spec_single_line(v)), "\t"@)),
        "\n"@,
    )
}

/// Exports rows as plain text.
pub fn export_text(
    rows: &Vec<ExportRow>,
    selected_fields: &Vec<String>,
    include_rank: bool,
    rank_field_name: &str,
    include_original_index: bool,
    score_field: &Option<String>,
) -> (r: String)
    ensures
        r@ == spec_export_text(
            row_texts(
                rows@,
                spec_export_headers(views(selected_fields@), include_rank, rank_field_name@, include_original_index),
                include_rank,
                rank_field_name@,
                include_original_index,
                opt_string(*score_field),
            ),
        ),
{
    let headers = export_headers(selected_fields, include_rank, rank_field_name, include_original_index);
    let ghost cells = row_texts(rows@, views(headers@), include_rank, rank_field_name@, include_original_index, opt_string(*score_field));
    let mut lines: Vec<String> = Vec::new();
    for i in 0..rows.len()
        invariant
            cells == row_texts(rows@, views(headers@), include_rank, rank_field_name@, include_original_index, opt_string(*score_field)),
            lines@.len() == i,
            forall|k: int|
                0 <= k < i ==> (#[trigger] lines@[k])@ == joined(
                    cells[k].map_values(|v: Seq<char>| spec_single_line(v)),
                    "\t"@,
                ),
    {
        let values = row_values_view(&rows[i], &headers, include_rank, rank_field_name, include_original_index, score_field);
        let mut parts: Vec<String> = Vec::new();
        for k in 0..values.len()
            invariant
                parts@.len() == k,
                forall|m: int| 0 <= m < k ==> (#[trigger] parts@[m])@ == spec_single_line(values@[m]@),
        {
            parts.push(single_line(&values[k]));
        }
        assert(views(parts@) =~= cells[i as int].map_values(|v: Seq<char>| spec_single_line(v)));
        lines.push(crate::text::join(&parts, "\t"));
    }
    assert(views(lines@) =~= cells.map_values(
        |values: Seq<Seq<char>>| joined(values.map_values(|v: Seq<char>| spec_single_line(v)), "\t"@),
    ));
    crate::text::join(&lines, "\n")
}

/// The lines of a Markdown table, concatenated.
pub open spec fn concat_all(parts: Seq<Seq<char>>) -> Seq<char>
    decreases parts.len(),
{
    if parts.len() == 0 {
        Seq::empty()
    } else {
        concat_all(parts.drop_last()) + parts.last()
    }
}

/// A Markdown table row of cells.
pub open spec fn table_line(values: Seq<Seq<char>>) -> Seq<char> {
    "| "@ + joined(values.map_values(|v: Seq<char>| spec_markdown_cell(v)), " | "@) + " |\n"@
}

/// A Markdown table: header row, separator row, then a row per result row.
pub open spec fn spec_markdown_table(headers: Seq<Seq<char>>, cells: Seq<Seq<Seq<char>>>) -> Seq<char> {
    "| "@ + joined(headers.map_values(|h: Seq<char>| spec_markdown_cell(h)), " | "@) + " |\n|"@ + joined(
        headers.map_values(|h: Seq<char>| " --- "@),
        "|"@,
    ) + "|\n"@ + concat_all(cells.map_values(|values: Seq<Seq<char>>| table_line(values)))
}

fn cells_line(values: &Vec<String>) -> (r: String)
    ensures
        r@ == table_line(views(values@)),
{
    let mut parts: Vec<String> = Vec::new();
    for k in 0..values.len()
        invariant
            parts@.len() == k,
            forall|m: int| 0 <= m < k ==> (#[trigger] parts@[m])@ == spec_markdown_cell(values@[m]@),
    {
        parts.push(markdown_cell(values[k].as_str()));
    }
    assert(views(parts@) =~= views(values@).map_values(|v: Seq<char>| spec_markdown_cell(v)));
    let inner = crate::text::join(&parts, " | ");
    let a = concat("| ", inner.as_str());
    concat(a.as_str(), " |\n")
}

/// Exports rows as a Markdown table.
pub fn export_markdown_table(
    rows: &Vec<ExportRow>,
    selected_fields: &Vec<String>,
    include_rank: bool,
    rank_field_name: &str,
    include_original_index: bool,
    score_field: &Option<String>,
) -> (r: String)
    ensures
        ({
            let headers = spec_export_headers(views(selected_fields@), include_rank, rank_field_name@, include_original_index);
            r@ == spec_markdown_table(
                headers,
                row_texts(rows@, headers, include_rank, rank_field_name@, include_original_index, opt_string(*score_field)),
            )
        }),
{
    let headers = export_headers(selected_fields, include_rank, rank_field_name, include_original_index);
    let ghost hv = views(headers@);
    let ghost cells = row_texts(rows@, hv, include_rank, rank_field_name@, include_original_index, opt_string(*score_field));
    let mut head_cells: Vec<String> = Vec::new();
    let mut dashes: Vec<String> = Vec::new();
    for k in 0..headers.len()
        invariant
            hv == views(headers@),
            head_cells@.len() == k,
            dashes@.len() == k,
            forall|m: int| 0 <= m < k ==> (#[trigger] head_cells@[m])@ == spec_markdown_cell(hv[m]),
            forall|m: int| 0 <= m < k ==> (#[trigger] dashes@[m])@ == " --- "@,
    {
        head_cells.push(markdown_cell(headers[k].as_str()));
        dashes.push(owned(" --- "));
    }
    assert(views(head_cells@) =~= hv.map_values(|h: Seq<char>| spec_markdown_cell(h)));
    assert(views(dashes@) =~= hv.map_values(|h: Seq<char>| " --- "@));
    let a = concat("| ", crate::text::join(&head_cells, " | ").as_str());
    let b = concat(a.as_str(), " |\n|");
    let c = concat(b.as_str(), crate::text::join(&dashes, "|").as_str());
    let mut out = concat(c.as_str(), "|\n");
    let ghost head = out@;
    for i in 0..rows.len()
        invariant
            hv == views(headers@),
            cells == row_texts(rows@, hv, include_rank, rank_field_name@, include_original_index, opt_string(*score_field)),
            out@ == head + concat_all(cells.take(i as int).map_values(|values: Seq<Seq<char>>| table_line(values))),
    {
        let values = row_values_view(&rows[i], &headers, include_rank, rank_field_name, include_original_index, score_field);
        let line = cells_line(&values);
        let ghost before = out@;
        out = concat(out.as_str(), line.as_str());
        proof {
            let f = |values: Seq<Seq<char>>| table_line(values);
            assert(cells.take(i + 1).map_values(f).drop_last() =~= cells.take(i as int).map_values(f));
            assert(cells.take(i + 1).map_values(f).last() == table_line(views(values@)));
            assert(out@ =~= head + concat_all(cells.take(i + 1).map_values(f)));
        }
    }
    assert(cells.take(rows@.len() as int) =~= cells);
    out
}

/// A Markdown list item: a single column's value, or each column as
/// `**name**: value`, separated by ` · `.
pub open spec fn list_line(headers: Seq<Seq<char>>, values: Seq<Seq<char>>) -> Seq<char> {
    "- "@ + (if headers.len() == 1 {
        spec_markdown_inline(values[0])
    } else {
        joined(
            Seq::new(
                headers.len(),
                |k: int| "**"@ + spec_markdown_inline(headers[k]) + "**: "@ + spec_markdown_inline(values[k]),
            ),
            " · "@,
        )
    }) + "\n"@
}

/// A Markdown list with an item per row.
pub open spec fn spec_markdown_list(headers: Seq<Seq<char>>, cells: Seq<Seq<Seq<char>>>) -> Seq<char> {
    concat_all(cells.map_values(|values: Seq<Seq<char>>| list_line(headers, values)))
}

/// Exports rows as a Markdown list.
pub fn export_markdown_list(
    rows: &Vec<ExportRow>,
    selected_fields: &Vec<String>,
    include_rank: bool,
    rank_field_name: &str,
    include_original_index: bool,
    score_field: &Option<String>,
) -> (r: String)
    ensures
        ({
            let headers = spec_export_headers(views(selected_fields@), include_rank, rank_field_name@, include_original_index);
            r@ == spec_markdown_list(
                headers,
                row_texts(rows@, headers, include_rank, rank_field_name@, include_original_index, opt_string(*score_field)),
            )
        }),
{
    let headers = export_headers(selected_fields, include_rank, rank_field_name, include_original_index);
    let ghost hv = views(headers@);
    let ghost cells = row_texts(rows@, hv, include_rank, rank_field_name@, include_original_index, opt_string(*score_field));
    let mut out = String::new();
    for i in 0..rows.len()
        invariant
            hv == views(headers@),
            cells == row_texts(rows@, hv, include_rank, rank_field_name@, include_original_index, opt_string(*score_field)),
            out@ == concat_all(cells.take(i as int).map_values(|values: Seq<Seq<char>>| list_line(hv, values))),
    {
        let values = row_values_view(&rows[i], &headers, include_rank, rank_field_name, include_original_index, score_field);
        let ghost vv = views(values@);
        assert(vv.len() == hv.len());
        assert(values@.len() == headers@.len());
        let body = if headers.len() == 1 {
            assert(vv[0] == values@[0]@);
            markdown_inline(values[0].as_str())
        } else {
            let mut parts: Vec<String> = Vec::new();
            for k in 0..headers.len()
                invariant
                    vv == views(values@),
                    vv.len() == hv.len(),
                    hv == views(headers@),
                    parts@.len() == k,
                    forall|m: int|
                        0 <= m < k ==> (#[trigger] parts@[m])@ == "**"@ + spec_markdown_inline(hv[m]) + "**: "@
                            + spec_markdown_inline(vv[m]),
            {
                let h = markdown_inline(headers[k].as_str());
                let v = markdown_inline(values[k].as_str());
                let a = concat("**", h.as_str());
                let b = concat(a.as_str(), "**: ");
                parts.push(concat(b.as_str(), v.as_str()));
            }
            assert(views(parts@) =~= Seq::new(
                hv.len(),
                |k: int| "**"@ + spec_markdown_inline(hv[k]) + "**: "@ + spec_markdown_inline(vv[k]),
            ));
            crate::text::join(&parts, " · ")
        };
        let a = concat("- ", body.as_str());
        let line = concat(a.as_str(), "\n");
        assert(line@ == list_line(hv, vv));
        let ghost before = out@;
        out = concat(out.as_str(), line.as_str());
        proof {
            let f = |values: Seq<Seq<char>>| list_line(hv, values);
            assert(cells.take(i + 1).map_values(f).drop_last() =~= cells.take(i as int).map_values(f));
            assert(cells.take(i + 1).map_values(f).last() == list_line(hv, vv));
            assert(out@ =~= concat_all(cells.take(i + 1).map_values(f)));
        }
    }
    assert(cells.take(rows@.len() as int) =~= cells);
    out
}

/// Checks an export request against the dataset's field names: every
/// selected field must exist, and an included rank column needs a name.
/// Returns the trimmed rank column name.
pub fn check_export_fields(
    selected_fields: &Vec<String>,
    known_fields: &Vec<String>,
    include_rank: bool,
    rank_field_name: &str,
) -> (r: Result<String, AppError>)
    ensures
        ({
            let invalid = views(selected_fields@).filter(|f: Seq<char>| !views(known_fields@).contains(f));
            &&& invalid.len() > 0 ==> (r matches Err(AppError::InvalidInput(m)) && m@ == "导出字段不存在："@
                + joined(invalid, "、"@))
            &&& invalid.len() == 0 && include_rank && trimmed(rank_field_name@).len() == 0 ==> (r matches Err(
                AppError::InvalidInput(m),
            ) && m@ == "导出排名字段名称不能为空"@)
            &&& invalid.len() == 0 && !(include_rank && trimmed(rank_field_name@).len() == 0) ==> (r matches Ok(
                n,
            ) && n@ == trimmed(rank_field_name@))
        }),
{
    let ghost known = views(known_fields@);
    let ghost pred = |f: Seq<char>| !known.contains(f);
    let mut invalid: Vec<String> = Vec::new();
    for i in 0..selected_fields.len()
        invariant
            known == views(known_fields@),
            pred == (|f: Seq<char>| !known.contains(f)),
            views(invalid@) == views(selected_fields@.take(i as int)).filter(pred),
    {
        assert(views(selected_fields@.take(i + 1)) =~= views(selected_fields@.take(i as int)).push(
            selected_fields@[i as int]@,
        ));
        proof {
            views(selected_fields@.take(i as int)).lemma_filter_push(selected_fields@[i as int]@, pred);
        }
        if !crate::text::contains_string(known_fields, &selected_fields[i]) {
            let ghost before = invalid@;
            invalid.push(selected_fields[i].clone());
            assert(views(invalid@) =~= views(before).push(selected_fields@[i as int]@));
        }
    }
    assert(selected_fields@.take(selected_fields@.len() as int) =~= selected_fields@);
    if invalid.len() > 0 {
        let names = crate::text::join(&invalid, "、");
        return Err(AppError::InvalidInput(concat("导出字段不存在：", names.as_str())));
    }
    let rank_name = trim(rank_field_name);
    if include_rank && crate::text::char_count(rank_name.as_str()) == 0 {
        return Err(invalid_input("导出排名字段名称不能为空"));
    }
    Ok(rank_name)
}

/// Sort keys that put rows in import order under a descending sort.
pub open spec fn import_order_keys(rows: Seq<ExportRow>) -> Seq<usize> {
    rows.map_values(|row: ExportRow| (usize::MAX - row.original_index) as usize)
}

/// Ordering by these keys is import order: for any order `p` that ranks
/// the rows by `import_order_keys`, the rows taken in that order are all
/// the rows, each once, with non-decreasing places in the import, and rows
/// with the same place keep their relative order.
pub proof fn lemma_import_order(rows: Seq<ExportRow>, p: Seq<usize>)
    requires
        crate::ranking::ranked_by_key(import_order_keys(rows), p),
    ensures
        p.len() == rows.len(),
        forall|x: usize| x < rows.len() ==> #[trigger] p.contains(x),
        forall|i: int| 0 <= i < p.len() ==> #[trigger] p[i] < rows.len(),
        forall|i: int, j: int|
            0 <= i < j < p.len() ==> rows[#[trigger] p[i] as int].original_index <= rows[#[trigger] p[j] as int].original_index,
        forall|i: int, j: int|
            0 <= i < j < p.len() && rows[#[trigger] p[i] as int].original_index == rows[#[trigger] p[j] as int].original_index
                ==> p[i] < p[j],
{
    let keys = import_order_keys(rows);
    assert forall|i: int, j: int| 0 <= i < j < p.len() implies rows[#[trigger] p[i] as int].original_index <= rows[#[trigger] p[j] as int].original_index
        && (rows[p[i] as int].original_index == rows[p[j] as int].original_index ==> p[i] < p[j]) by {
        assert(crate::ranking::key_before(keys, p[i], p[j]));
        assert(keys[p[i] as int] == usize::MAX - rows[p[i] as int].original_index);
        assert(keys[p[j] as int] == usize::MAX - rows[p[j] as int].original_index);
    }
}

/// The rows in the order asked for: as given (by final rank), or ordered by
/// their place in the import, rows with equal places keeping their order.
pub fn order_rows(rows: Vec<ExportRow>, order: ExportOrder) -> (r: Vec<ExportRow>)
    ensures
        order == ExportOrder::Final ==> r@ == rows@,
        order == ExportOrder::Original ==> exists|p: Seq<usize>|
            #[trigger] crate::ranking::ranked_by_key(import_order_keys(rows@), p) && r@ == p.map_values(
                |i: usize| rows@[i as int],
            ),
        order == ExportOrder::Original ==> r@.len() == rows@.len() && forall|i: int, j: int|
            0 <= i < j < r@.len() ==> (#[trigger] r@[i]).original_index <= (#[trigger] r@[j]).original_index,
{
    if order == ExportOrder::Final {
        return rows;
    }
    let mut keys: Vec<usize> = Vec::new();
    for i in 0..rows.len()
        invariant
            keys@ == rows@.take(i as int).map_values(|row: ExportRow| (usize::MAX - row.original_index) as usize),
    {
        keys.push(usize::MAX - rows[i].original_index);
        assert(keys@ =~= rows@.take(i + 1).map_values(|row: ExportRow| (usize::MAX - row.original_index) as usize));
    }
    assert(rows@.take(rows@.len() as int) =~= rows@);
    assert(keys@ =~= import_order_keys(rows@));
    let p = crate::ranking::order_by_key_desc(&keys);
    let mut slots: Vec<Option<ExportRow>> = Vec::new();
    let mut rows = rows;
    let ghost original = rows@;
    let n = rows.len();
    for i in 0..n
        invariant
            n == original.len(),
            rows@.len() == n - i,
            slots@.len() == i,
            forall|k: int| 0 <= k < i ==> #[trigger] slots@[k] == Some(original[k]),
            forall|k: int| 0 <= k < n - i ==> #[trigger] rows@[k] == original[i + k],
    {
        let row = rows.remove(0);
        slots.push(Some(row));
    }
    let mut out: Vec<ExportRow> = Vec::new();
    for j in 0..p.len()
        invariant
            n == original.len(),
            p@.len() == n,
            crate::ranking::ranked_by_key(keys@, p@),
            keys@.len() == n,
            slots@.len() == n,
            out@.len() == j,
            forall|k: int| 0 <= k < j ==> #[trigger] out@[k] == original[p@[k] as int],
            forall|k: int| 0 <= k < n ==> (#[trigger] slots@[k] is Some) ==> slots@[k] == Some(original[k]),
            forall|k: int| j <= k < n ==> #[trigger] slots@[p@[k] as int] is Some,
    {
        let index = p[j];
        assert(index < n);
        let taken = slots.remove(index);
        slots.insert(index, None);
        match taken {
            Some(row) => {
                out.push(row);
            },
            None => {
                assert(false);
                return out;
            },
        }
        proof {
            assert forall|k: int| j + 1 <= k < n implies #[trigger] slots@[p@[k] as int] is Some by {
                assert(p@[k] != p@[j as int]) by {
                    assert(crate::ranking::key_before(keys@, p@[j as int], p@[k]));
                }
            }
        }
    }
    assert(out@ =~= p@.map_values(|i: usize| original[i as int]));
    proof {
        lemma_import_order(original, p@);
        assert forall|i: int, j: int| 0 <= i < j < out@.len() implies (#[trigger] out@[i]).original_index <= (
        #[trigger] out@[j]).original_index by {
            assert(out@[i] == original[p@[i] as int]);
            assert(out@[j] == original[p@[j] as int]);
        }
    }
    out
}

/// What a `csv::Writer` with default settings writes for one record: the
/// bytes, or the message of its error.
pub uninterp spec fn csv_record_output(fields: Seq<Seq<char>>) -> Result<Seq<u8>, Seq<char>>;

/// Writes one record with a default `csv::Writer` and returns its bytes.
#[verifier::external_body]
fn csv_record(fields: &Vec<String>) -> (r: Result<Vec<u8>, String>)
    ensures
        match (r, csv_record_output(views(fields@))) {
            (Ok(b), Ok(v)) => b@ == v,
            (Err(m), Err(v)) => m@ == v,
            _ => false,
        },
{
    let mut writer = csv::WriterBuilder::new().from_writer(Vec::new());
    match writer.write_record(fields.iter()) {
        Ok(()) => writer.into_inner().map_err(|e| e.to_string()),
        Err(e) => Err(e.to_string()),
    }
}

/// The CSV export: a byte order mark, then each record as the CSV writer
/// writes it, or the first error.
pub open spec fn spec_export_csv(records: Seq<Seq<Seq<char>>>, n: nat) -> Result<Seq<u8>, Seq<char>>
    decreases n,
{
    if n == 0 {
        Ok(seq![0xEFu8, 0xBBu8, 0xBFu8])
    } else {
        match spec_export_csv(records, (n - 1) as nat) {
            Err(m) => Err(m),
            Ok(before) => match csv_record_output(records[n - 1]) {
                Ok(b) => Ok(before + b),
                Err(m) => Err(m),
            },
        }
    }
}

/// Exports rows as CSV with a header row.
pub fn export_csv(
    rows: &Vec<ExportRow>,
    selected_fields: &Vec<String>,
    include_rank: bool,
    rank_field_name: &str,
    include_original_index: bool,
    score_field: &Option<String>,
) -> (r: Result<Vec<u8>, AppError>)
    ensures
        ({
            let headers = spec_export_headers(views(selected_fields@), include_rank, rank_field_name@, include_original_index);
            let records = seq![headers] + row_texts(
                rows@,
                headers,
                include_rank,
                rank_field_name@,
                include_original_index,
                opt_string(*score_field),
            );
            match spec_export_csv(records, records.len()) {
                Ok(b) => (r matches Ok(x) && x@ == b),
                Err(m) => (r matches Err(AppError::Csv(x)) && x@ == m),
            }
        }),
{
    let headers = export_headers(selected_fields, include_rank, rank_field_name, include_original_index);
    let ghost hv = views(headers@);
    let ghost records = seq![hv] + row_texts(rows@, hv, include_rank, rank_field_name@, include_original_index, opt_string(*score_field));
    let mut out: Vec<u8> = Vec::new();
    out.push(0xEF);
    out.push(0xBB);
    out.push(0xBF);
    assert(out@ =~= seq![0xEFu8, 0xBBu8, 0xBFu8]);
    assert(records[0] == hv);
    assert(spec_export_csv(records, 0) == Ok::<Seq<u8>, Seq<char>>(seq![0xEFu8, 0xBBu8, 0xBFu8]));
    match csv_record(&headers) {
        Ok(bytes) => {
            for k in 0..bytes.len()
                invariant
                    out@ == seq![0xEFu8, 0xBBu8, 0xBFu8] + bytes@.take(k as int),
            {
                out.push(bytes[k]);
                assert(out@ =~= seq![0xEFu8, 0xBBu8, 0xBFu8] + bytes@.take(k + 1));
            }
            assert(bytes@.take(bytes@.len() as int) =~= bytes@);
            assert(spec_export_csv(records, 1) == Ok::<Seq<u8>, Seq<char>>(out@));
        },
        Err(m) => {
            proof {
                assert(spec_export_csv(records, 1) == Err::<Seq<u8>, Seq<char>>(m@));
                lemma_export_csv_error_stays(records, 1, records.len());
            }
            return Err(AppError::Csv(m));
        },
    }
    for i in 0..rows.len()
        invariant
            hv == views(headers@),
            hv == spec_export_headers(views(selected_fields@), include_rank, rank_field_name@, include_original_index),
            records == seq![hv] + row_texts(rows@, hv, include_rank, rank_field_name@, include_original_index, opt_string(*score_field)),
            records.len() == rows@.len() + 1,
            spec_export_csv(records, (i + 1) as nat) == Ok::<Seq<u8>, Seq<char>>(out@),
    {
        let values = row_values_view(&rows[i], &headers, include_rank, rank_field_name, include_original_index, score_field);
        assert(records[i + 1] == views(values@));
        match csv_record(&values) {
            Ok(bytes) => {
                let ghost start = out@;
                for k in 0..bytes.len()
                    invariant
                        out@ == start + bytes@.take(k as int),
                {
                    out.push(bytes[k]);
                    assert(out@ =~= start + bytes@.take(k + 1));
                }
                assert(bytes@.take(bytes@.len() as int) =~= bytes@);
                assert(spec_export_csv(records, (i + 2) as nat) == Ok::<Seq<u8>, Seq<char>>(out@));
            },
            Err(m) => {
                proof {
                    assert(spec_export_csv(records, (i + 2) as nat) == Err::<Seq<u8>, Seq<char>>(m@));
                    lemma_export_csv_error_stays(records, (i + 2) as nat, records.len());
                }
                return Err(AppError::Csv(m));
            },
        }
    }
    Ok(out)
}

proof fn lemma_export_csv_error_stays(records: Seq<Seq<Seq<char>>>, n: nat, m: nat)
    requires
        n <= m <= records.len(),
        spec_export_csv(records, n) is Err,
    ensures
        spec_export_csv(records, m) == spec_export_csv(records, n),
    decreases m - n,
{
    if n < m {
        lemma_export_csv_error_stays(records, n, (m - 1) as nat);
    }
}
/// Why an export target is refused, if it is, given what the file system
/// says of it: no path, no folder part, a folder that does not exist, a
/// source folder or resolved folder that cannot be found (the error of
/// which is reported), a folder inside the project's read-only source
/// folder, or an existing file not to be overwritten.
pub open spec fn export_target_ok(
    target_path: Seq<char>,
    parent_is_dir: bool,
    source_directory: Result<Seq<char>, Seq<char>>,
    resolved_parent: Result<Seq<char>, ()>,
    target_exists: bool,
    overwrite: bool,
) -> bool {
    &&& target_path.len() > 0
    &&& parent_of(target_path) is Some
    &&& parent_is_dir
    &&& source_directory is Ok
    &&& resolved_parent is Ok
    &&& !path_starts_with_of(resolved_parent->Ok_0, source_directory->Ok_0)
    &&& !(target_exists && !overwrite)
}

/// Result previews, confirmation and export.
pub struct ResultService;

impl ResultService {
    /// Unlocks a task's result so that it can be edited again: the task goes
    /// back to sorting and forgets the rank field written from the result.
    /// `InvalidInput` when no such task exists. Confirmation snapshots are
    /// left as they are.
    pub fn unlock(task_exists: bool) -> (r: Result<LockState, AppError>)
        ensures
            !task_exists ==> (r matches Err(AppError::InvalidInput(m)) && m@ == "找不到排序任务"@),
            task_exists ==> (r matches Ok(s) && s.status == SortTaskStatus::Sorting && s.rank_written_at is None
                && s.rank_written_field is None),
    {
        if !task_exists {
            return Err(invalid_input("找不到排序任务"));
        }
        Ok(LockState { status: SortTaskStatus::Sorting, rank_written_at: None, rank_written_field: None })
    }

    /// Checks where an export is written, in order: a path is chosen, it
    /// has a folder part, that folder exists, the project's source folder
    /// and the target folder can be resolved, the target folder is not
    /// inside the read-only source folder, and an existing file is only
    /// replaced when `overwrite` is set.
    pub fn validate_export_target(
        target_path: &str,
        parent_is_dir: bool,
        source_directory: Result<String, String>,
        resolved_parent: Result<String, AppError>,
        target_exists: bool,
        overwrite: bool,
    ) -> (r: Result<(), AppError>)
        ensures
            target_path@.len() == 0 ==> (r matches Err(AppError::InvalidInput(m)) && m@ == "请选择导出文件位置"@),
            target_path@.len() > 0 && parent_of(target_path@) is None ==> (r matches Err(AppError::InvalidInput(m))
                && m@ == "导出路径无效"@),
            target_path@.len() > 0 && parent_of(target_path@) is Some && !parent_is_dir ==> (r matches Err(
                AppError::InvalidInput(m),
            ) && m@ == "导出目录不存在"@),
            target_path@.len() > 0 && parent_of(target_path@) is Some && parent_is_dir ==> (source_directory matches Err(
                e,
            ) ==> (r matches Err(AppError::InvalidProject(m)) && m@ == "无法验证项目源文件目录："@ + e@)),
            target_path@.len() > 0 && parent_of(target_path@) is Some && parent_is_dir && source_directory is Ok ==> (
            resolved_parent matches Err(e) ==> r == Err::<(), AppError>(e)),
            target_path@.len() > 0 && parent_of(target_path@) is Some && parent_is_dir && source_directory is Ok
                && resolved_parent is Ok ==> (path_starts_with_of(
                resolved_parent->Ok_0@,
                source_directory->Ok_0@,
            ) ==> (r matches Err(AppError::InvalidInput(m)) && m@ == "不能导出到项目的只读 source 目录，以免覆盖导入源副本"@)),
            target_path@.len() > 0 && parent_of(target_path@) is Some && parent_is_dir && source_directory is Ok
                && resolved_parent is Ok && !path_starts_with_of(resolved_parent->Ok_0@, source_directory->Ok_0@) ==> (
            (target_exists && !overwrite) ==> (r matches Err(AppError::ConfirmationRequired(m)) && m@ == "文件“"@
                + target_path@ + "”已存在"@)),
            r is Ok <==> export_target_ok(
                target_path@,
                parent_is_dir,
                match source_directory {
                    Ok(s) => Ok(s@),
                    Err(e) => Err(e@),
                },
                match resolved_parent {
                    Ok(p) => Ok(p@),
                    Err(_) => Err(()),
                },
                target_exists,
                overwrite,
            ),
    {
        if char_count(target_path) == 0 {
            return Err(AppError::InvalidInput(owned("请选择导出文件位置")));
        }
        if parent(target_path).is_none() {
            return Err(AppError::InvalidInput(owned("导出路径无效")));
        }
        if !parent_is_dir {
            return Err(AppError::InvalidInput(owned("导出目录不存在")));
        }
        let source = match source_directory {
            Ok(s) => s,
            Err(e) => {
                return Err(AppError::InvalidProject(concat("无法验证项目源文件目录：", e.as_str())));
            },
        };
        let resolved = match resolved_parent {
            Ok(p) => p,
            Err(e) => {
                return Err(e);
            },
        };
        if path_starts_with(resolved.as_str(), source.as_str()) {
            return Err(AppError::InvalidInput(owned("不能导出到项目的只读 source 目录，以免覆盖导入源副本")));
        }
        if target_exists && !overwrite {
            return Err(AppError::ConfirmationRequired(concat3("文件“", target_path, "”已存在")));
        }
        Ok(())
    }
}

} // verus!
