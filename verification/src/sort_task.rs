//! Sort tasks: modes, states, initial orders, and the checks a new or edited
//! task must pass.

use vstd::prelude::*;

use crate::error::{invalid_input, invalid_project, AppError};
use crate::groups::{
    check_source_status, copied_groups, copied_layout, copied_views, item_total, row_view, spec_copied_layout,
    spec_grouped, CopiedRankGroup, CopiedView, MemberRow,
};
use crate::import::ImportedFieldType;
use crate::text::{char_count, concat, str_eq, trim, trimmed};

verus! {

/// How a sort task collects judgments.
#[derive(Debug, Clone, Copy, PartialEq, Eq, Structural)]
pub enum SortTaskMode {
    Drag,
    Matrix,
    Comparison,
    Slider,
}

impl SortTaskMode {
    pub open spec fn spec_name(self) -> Seq<char> {
        match self {
            SortTaskMode::Drag => "drag"@,
            SortTaskMode::Matrix => "matrix"@,
            SortTaskMode::Comparison => "comparison"@,
            SortTaskMode::Slider => "slider"@,
        }
    }

    /// Storage name of the mode.
    pub fn as_str(self) -> (s: &'static str)
        ensures
            s@ == self.spec_name(),
    {
        match self {
            SortTaskMode::Drag => "drag",
            SortTaskMode::Matrix => "matrix",
            SortTaskMode::Comparison => "comparison",
            SortTaskMode::Slider => "slider",
        }
    }

    /// The mode stored under `value`, if any.
    pub open spec fn spec_from_storage(value: Seq<char>) -> Option<SortTaskMode> {
        if value == "drag"@ {
            Some(SortTaskMode::Drag)
        } else if value == "matrix"@ {
            Some(SortTaskMode::Matrix)
        } else if value == "comparison"@ {
            Some(SortTaskMode::Comparison)
        } else if value == "slider"@ {
            Some(SortTaskMode::Slider)
        } else {
            None
        }
    }

    /// Reads a stored mode name.
    pub fn from_storage(value: &str) -> (r: Option<SortTaskMode>)
        ensures
            r == Self::spec_from_storage(value@),
    {
        if str_eq(value, "drag") {
            Some(SortTaskMode::Drag)
        } else if str_eq(value, "matrix") {
            Some(SortTaskMode::Matrix)
        } else if str_eq(value, "comparison") {
            Some(SortTaskMode::Comparison)
        } else if str_eq(value, "slider") {
            Some(SortTaskMode::Slider)
        } else {
            None
        }
    }
}

/// Where a sort task stands.
#[derive(Debug, Clone, Copy, PartialEq, Eq, Structural)]
pub enum SortTaskStatus {
    Draft,
    Sorting,
    Confirmed,
}

impl SortTaskStatus {
    /// Storage name of the status.
    pub open spec fn spec_name(self) -> Seq<char> {
        match self {
            SortTaskStatus::Draft => "draft"@,
            SortTaskStatus::Sorting => "sorting"@,
            SortTaskStatus::Confirmed => "confirmed"@,
        }
    }

    /// Storage name of the status.
    pub fn as_str(self) -> (s: &'static str)
        ensures
            s@ == self.spec_name(),
    {
        match self {
            SortTaskStatus::Draft => "draft",
            SortTaskStatus::Sorting => "sorting",
            SortTaskStatus::Confirmed => "confirmed",
        }
    }

    /// The status stored under `value`, if any.
    pub open spec fn spec_from_storage(value: Seq<char>) -> Option<SortTaskStatus> {
        if value == "draft"@ {
            Some(SortTaskStatus::Draft)
        } else if value == "sorting"@ {
            Some(SortTaskStatus::Sorting)
        } else if value == "confirmed"@ {
            Some(SortTaskStatus::Confirmed)
        } else {
            None
        }
    }

    /// Reads a stored status name.
    pub fn from_storage(value: &str) -> (r: Option<SortTaskStatus>)
        ensures
            r == Self::spec_from_storage(value@),
    {
        if str_eq(value, "draft") {
            Some(SortTaskStatus::Draft)
        } else if str_eq(value, "sorting") {
            Some(SortTaskStatus::Sorting)
        } else if str_eq(value, "confirmed") {
            Some(SortTaskStatus::Confirmed)
        } else {
            None
        }
    }
}

/// Direction of an initial order by a field.
#[derive(Debug, Clone, Copy, PartialEq, Eq, Structural)]
pub enum SortDirection {
    Ascending,
    Descending,
}

impl SortDirection {
    pub open spec fn spec_name(self) -> Seq<char> {
        match self {
            SortDirection::Ascending => "ascending"@,
            SortDirection::Descending => "descending"@,
        }
    }

    /// Storage name of the direction.
    pub fn as_str(self) -> (s: &'static str)
        ensures
            s@ == self.spec_name(),
    {
        match self {
            SortDirection::Ascending => "ascending",
            SortDirection::Descending => "descending",
        }
    }

    /// The direction stored under `value`, if any.
    pub open spec fn spec_from_storage(value: Seq<char>) -> Option<SortDirection> {
        if value == "ascending"@ {
            Some(SortDirection::Ascending)
        } else if value == "descending"@ {
            Some(SortDirection::Descending)
        } else {
            None
        }
    }

    /// Reads a stored direction name.
    pub fn from_storage(value: &str) -> (r: Option<SortDirection>)
        ensures
            r == Self::spec_from_storage(value@),
    {
        if str_eq(value, "ascending") {
            Some(SortDirection::Ascending)
        } else if str_eq(value, "descending") {
            Some(SortDirection::Descending)
        } else {
            None
        }
    }
}

/// Reading back a stored mode gives the mode.
pub proof fn lemma_mode_storage_round_trip(m: SortTaskMode)
    ensures
        SortTaskMode::spec_from_storage(m.spec_name()) == Some(m),
{
    reveal_strlit("drag");
    reveal_strlit("matrix");
    reveal_strlit("comparison");
    reveal_strlit("slider");
    assert("drag"@[0] != "matrix"@[0] && "drag"@[0] != "comparison"@[0] && "drag"@[0] != "slider"@[0]);
    assert("matrix"@[0] != "comparison"@[0] && "matrix"@[0] != "slider"@[0]);
    assert("comparison"@[0] != "slider"@[0]);
}

/// Reading back a stored status gives the status.
pub proof fn lemma_status_storage_round_trip(s: SortTaskStatus)
    ensures
        SortTaskStatus::spec_from_storage(s.spec_name()) == Some(s),
{
    reveal_strlit("draft");
    reveal_strlit("sorting");
    reveal_strlit("confirmed");
    assert("draft"@[0] != "sorting"@[0] && "draft"@[0] != "confirmed"@[0]);
    assert("sorting"@[0] != "confirmed"@[0]);
}

/// Reading back a stored direction gives the direction.
pub proof fn lemma_direction_storage_round_trip(d: SortDirection)
    ensures
        SortDirection::spec_from_storage(d.spec_name()) == Some(d),
{
    reveal_strlit("ascending");
    reveal_strlit("descending");
    assert("ascending"@[0] != "descending"@[0]);
}

/// The order a new task's rank groups start in.
#[derive(Debug)]
pub enum InitialOrder {
    /// The order of the import.
    Import,
    /// By a number or date field.
    Field { field_name: String, direction: SortDirection },
    /// The confirmed result of another task on the same dataset.
    TaskResult { task_id: String },
}

/// Mathematical view of an initial order.
pub enum InitialOrderView {
    Import,
    Field { field_name: Seq<char>, direction: SortDirection },
    TaskResult { task_id: Seq<char> },
}

impl View for InitialOrder {
    type V = InitialOrderView;

    open spec fn view(&self) -> InitialOrderView {
        match self {
            InitialOrder::Import => InitialOrderView::Import,
            InitialOrder::Field { field_name, direction } => InitialOrderView::Field {
                field_name: field_name@,
                direction: *direction,
            },
            InitialOrder::TaskResult { task_id } => InitialOrderView::TaskResult { task_id: task_id@ },
        }
    }
}

/// The stored columns of an initial order: its kind, field, direction and
/// source task.
pub open spec fn spec_order_columns(o: InitialOrderView) -> (
    Seq<char>,
    Option<Seq<char>>,
    Option<Seq<char>>,
    Option<Seq<char>>,
) {
    match o {
        InitialOrderView::Import => ("import"@, None, None, None),
        InitialOrderView::Field { field_name, direction } => (
            "field"@,
            Some(field_name),
            Some(direction.spec_name()),
            None,
        ),
        InitialOrderView::TaskResult { task_id } => ("task_result"@, None, None, Some(task_id)),
    }
}

/// What the stored columns of an initial order read back as: the order, or
/// the message of the error.
pub open spec fn spec_parse_initial_order(
    order_type: Seq<char>,
    field: Option<Seq<char>>,
    direction: Option<Seq<char>>,
    task_id: Option<Seq<char>>,
) -> Result<InitialOrderView, Seq<char>> {
    if order_type == "import"@ {
        Ok(InitialOrderView::Import)
    } else if order_type == "field"@ {
        match field {
            None => Err("字段初排任务缺少字段名"@),
            Some(f) => {
                let d = match direction {
                    Some(d) => d,
                    None => Seq::empty(),
                };
                match SortDirection::spec_from_storage(d) {
                    Some(dir) => Ok(InitialOrderView::Field { field_name: f, direction: dir }),
                    None => Err("字段初排任务缺少有效方向"@),
                }
            },
        }
    } else if order_type == "task_result"@ {
        match task_id {
            Some(t) => Ok(InitialOrderView::TaskResult { task_id: t }),
            None => Err("结果初排任务缺少来源排序任务"@),
        }
    } else {
        Err("未知的初始排序类型："@ + order_type)
    }
}

pub open spec fn opt_view(o: Option<String>) -> Option<Seq<char>> {
    match o {
        Some(s) => Some(s@),
        None => None,
    }
}

impl InitialOrder {
    /// The columns this order is stored in.
    pub fn storage_columns(&self) -> (r: (String, Option<String>, Option<String>, Option<String>))
        ensures
            (r.0@, opt_view(r.1), opt_view(r.2), opt_view(r.3)) == spec_order_columns(self@),
    {
        match self {
            InitialOrder::Import => (crate::text::owned("import"), None, None, None),
            InitialOrder::Field { field_name, direction } => (
                crate::text::owned("field"),
                Some(field_name.clone()),
                Some(crate::text::owned(direction.as_str())),
                None,
            ),
            InitialOrder::TaskResult { task_id } => (
                crate::text::owned("task_result"),
                None,
                None,
                Some(task_id.clone()),
            ),
        }
    }
}

/// Reads an initial order back from its stored columns.
pub fn parse_initial_order(
    order_type: &str,
    field: Option<String>,
    direction: Option<String>,
    task_id: Option<String>,
) -> (r: Result<InitialOrder, AppError>)
    ensures
        spec_parse_initial_order(order_type@, opt_view(field), opt_view(direction), opt_view(task_id)) matches Ok(v)
            ==> (r matches Ok(o) && o@ == v),
        spec_parse_initial_order(order_type@, opt_view(field), opt_view(direction), opt_view(task_id)) matches Err(msg)
            ==> (r matches Err(AppError::InvalidProject(m)) && m@ == msg),
{
    if str_eq(order_type, "import") {
        Ok(InitialOrder::Import)
    } else if str_eq(order_type, "field") {
        let field_name = match field {
            Some(f) => f,
            None => {
                return Err(invalid_project("字段初排任务缺少字段名"));
            },
        };
        let parsed = match &direction {
            Some(d) => SortDirection::from_storage(d.as_str()),
            None => SortDirection::from_storage(""),
        };
        proof {
            reveal_strlit("");
            assert(""@ =~= Seq::<char>::empty());
        }
        match parsed {
            Some(dir) => Ok(InitialOrder::Field { field_name, direction: dir }),
            None => Err(invalid_project("字段初排任务缺少有效方向")),
        }
    } else if str_eq(order_type, "task_result") {
        match task_id {
            Some(t) => Ok(InitialOrder::TaskResult { task_id: t }),
            None => Err(invalid_project("结果初排任务缺少来源排序任务")),
        }
    } else {
        Err(AppError::InvalidProject(concat("未知的初始排序类型：", order_type)))
    }
}

/// An initial order read back from the columns it was stored in is the same
/// order.
pub proof fn lemma_initial_order_round_trip(o: InitialOrderView)
    ensures
        ({
            let (t, f, d, k) = spec_order_columns(o);
            spec_parse_initial_order(t, f, d, k) == Ok::<InitialOrderView, Seq<char>>(o)
        }),
{
    reveal_strlit("import");
    reveal_strlit("field");
    reveal_strlit("task_result");
    assert("import"@[0] != "field"@[0] && "import"@[0] != "task_result"@[0]);
    assert("field"@[0] != "task_result"@[0]);
    if let InitialOrderView::Field { field_name, direction } = o {
        lemma_direction_storage_round_trip(direction);
    }
}

/// A request to create a sort task.
#[derive(Debug)]
pub struct CreateSortTask {
    pub project_path: String,
    pub dataset_id: String,
    pub name: String,
    pub criteria: String,
    pub mode: SortTaskMode,
    pub initial_order: InitialOrder,
}

/// A sort task as listed.
#[derive(Debug)]
pub struct SortTaskOverview {
    pub id: String,
    pub dataset_id: String,
    pub name: String,
    pub criteria: String,
    pub mode: SortTaskMode,
    pub status: SortTaskStatus,
    pub initial_order: InitialOrder,
    pub matrix_comparison_percent: Option<u8>,
    pub rank_group_count: usize,
    pub created_at: String,
}

/// A stored sort task row, its names not yet read.
#[derive(Debug)]
pub struct SortTaskRow {
    pub id: String,
    pub dataset_id: String,
    pub name: String,
    pub criteria: String,
    pub mode: String,
    pub status: String,
    pub order_type: String,
    pub order_field: Option<String>,
    pub order_direction: Option<String>,
    pub order_task_id: Option<String>,
    pub matrix_comparison_percent: Option<u8>,
    pub rank_group_count: usize,
    pub created_at: String,
}

/// How a move that reverses earlier judgments is settled.
#[derive(Debug, Clone, Copy, PartialEq, Eq, Structural)]
pub enum MoveConflictResolution {
    /// The judgments against the move are withdrawn.
    UpdateRelations,
    /// The move is kept as is; the judgments stay.
    Temporary,
}

/// The judgments a move would reverse: how many, and the first few.
#[derive(Debug)]
pub struct MoveConflictPreview {
    pub conflict_count: usize,
    pub descriptions: Vec<String>,
}

/// Most objects a matrix task may hold.
pub const MATRIX_ITEM_LIMIT: usize = 100;

/// Most characters a sort criterion may have.
pub const CRITERIA_MAX_CHARS: usize = 500;

/// Item `a` comes before item `b` when ordering by a field: items with a
/// value before those without; values in the chosen direction; then by
/// position in the import, then by place in the input.
pub open spec fn field_before(keys: Seq<Option<i64>>, indices: Seq<usize>, descending: bool, a: int, b: int) -> bool {
    match (keys[a], keys[b]) {
        (Some(x), Some(y)) => if x == y {
            indices[a] < indices[b] || (indices[a] == indices[b] && a < b)
        } else if descending {
            x > y
        } else {
            x < y
        },
        (Some(_), None) => true,
        (None, Some(_)) => false,
        (None, None) => indices[a] < indices[b] || (indices[a] == indices[b] && a < b),
    }
}

/// `order` lists every item once, in the order `field_before` gives.
pub open spec fn ordered_by_field(keys: Seq<Option<i64>>, indices: Seq<usize>, descending: bool, order: Seq<usize>) -> bool {
    &&& order.len() == keys.len()
    &&& forall|i: int| 0 <= i < order.len() ==> #[trigger] order[i] < keys.len()
    &&& forall|x: usize| x < keys.len() ==> #[trigger] order.contains(x)
    &&& forall|i: int, j: int|
        0 <= i < j < order.len() ==> field_before(keys, indices, descending, #[trigger] order[i] as int, #[trigger] order[j] as int)
}

fn field_before_exec(keys: &Vec<Option<i64>>, indices: &Vec<usize>, descending: bool, a: usize, b: usize) -> (r: bool)
    requires
        a < keys@.len(),
        b < keys@.len(),
        keys@.len() == indices@.len(),
    ensures
        r == field_before(keys@, indices@, descending, a as int, b as int),
{
    let by_place = indices[a] < indices[b] || (indices[a] == indices[b] && a < b);
    match (keys[a], keys[b]) {
        (Some(x), Some(y)) => if x == y {
            by_place
        } else if descending {
            x > y
        } else {
            x < y
        },
        (Some(_), None) => true,
        (None, Some(_)) => false,
        (None, None) => by_place,
    }
}

/// The use cases of sort tasks, apart from storage.
pub struct SortTaskService;

impl SortTaskService {
    /// The order in which items are first placed when ordered by a number
    /// or date field: `keys` are the items' values as order-keeping whole
    /// numbers (none when an item has no usable value), `original_indices`
    /// their positions in the import. The result lists every item once, as
    /// `field_before` orders them.
    pub fn sort_items_by_field(keys: &Vec<Option<i64>>, original_indices: &Vec<usize>, direction: SortDirection) -> (r:
        Vec<usize>)
        requires
            keys@.len() == original_indices@.len(),
        ensures
            ordered_by_field(keys@, original_indices@, direction == SortDirection::Descending, r@),
    {
        let descending = match direction {
            SortDirection::Descending => true,
            SortDirection::Ascending => false,
        };
        let n = keys.len();
        let mut order: Vec<usize> = Vec::new();
        for idx in 0..n
            invariant
                n == keys@.len(),
                keys@.len() == original_indices@.len(),
                order@.len() == idx,
                forall|i: int| 0 <= i < order@.len() ==> #[trigger] order@[i] < idx,
                forall|x: usize| x < idx ==> #[trigger] order@.contains(x),
                forall|i: int, j: int|
                    0 <= i < j < order@.len() ==> field_before(
                        keys@,
                        original_indices@,
                        descending,
                        #[trigger] order@[i] as int,
                        #[trigger] order@[j] as int,
                    ),
        {
            let mut pos: usize = 0;
            while pos < order.len() && !field_before_exec(keys, original_indices, descending, idx, order[pos])
                invariant
                    n == keys@.len(),
                    keys@.len() == original_indices@.len(),
                    idx < n,
                    order@.len() == idx,
                    forall|i: int| 0 <= i < order@.len() ==> #[trigger] order@[i] < idx,
                    pos <= order@.len(),
                    forall|i: int| 0 <= i < pos ==> field_before(keys@, original_indices@, descending, #[trigger] order@[i] as int, idx as int),
                decreases order@.len() - pos,
            {
                pos = pos + 1;
            }
            let ghost before = order@;
            order.insert(pos, idx);
            proof {
                assert forall|i: int, j: int| 0 <= i < j < order@.len() implies field_before(
                    keys@,
                    original_indices@,
                    descending,
                    #[trigger] order@[i] as int,
                    #[trigger] order@[j] as int,
                ) by {
                    if j < pos {
                        assert(order@[i] == before[i] && order@[j] == before[j]);
                    } else if j == pos {
                        assert(order@[i] == before[i]);
                    } else if i < pos {
                        assert(order@[i] == before[i] && order@[j] == before[j - 1]);
                    } else if i == pos {
                        assert(order@[j] == before[j - 1]);
                        if pos < before.len() {
                            assert(field_before(keys@, original_indices@, descending, idx as int, before[pos as int] as int));
                            if j - 1 > pos {
                                assert(field_before(keys@, original_indices@, descending, before[pos as int] as int, before[j - 1] as int));
                            }
                        }
                    } else {
                        assert(order@[i] == before[i - 1] && order@[j] == before[j - 1]);
                    }
                }
                assert forall|x: usize| x < idx + 1 implies #[trigger] order@.contains(x) by {
                    if x == idx {
                        assert(order@[pos as int] == x);
                    } else {
                        assert(before.contains(x));
                        let i = choose|i: int| 0 <= i < before.len() && before[i] == x;
                        if i < pos {
                            assert(order@[i] == x);
                        } else {
                            assert(order@[i + 1] == x);
                        }
                    }
                }
                assert forall|i: int| 0 <= i < order@.len() implies #[trigger] order@[i] < idx + 1 by {
                    if i < pos {
                        assert(order@[i] == before[i]);
                    } else if i > pos {
                        assert(order@[i] == before[i - 1]);
                    }
                }
            }
        }
        order
    }

    /// The type of the field an initial order uses: it must exist and be a
    /// number or date field.
    pub fn orderable_field_type(stored_type: Option<&str>) -> (r: Result<ImportedFieldType, AppError>)
        ensures
            stored_type is None ==> (r matches Err(AppError::InvalidInput(m)) && m@ == "找不到用于初始排序的字段"@),
            stored_type matches Some(t) ==> (ImportedFieldType::spec_from_storage(t@) is None ==> (r matches Err(
                AppError::InvalidProject(m),
            ) && m@ == "未知的字段类型："@ + t@)),
            stored_type matches Some(t) ==> (ImportedFieldType::spec_from_storage(t@) matches Some(ft) ==> (
            (ft == ImportedFieldType::Number || ft == ImportedFieldType::Date) ==> (r matches Ok(g) && g == ft))),
            stored_type matches Some(t) ==> (ImportedFieldType::spec_from_storage(t@) matches Some(ft) ==> (
            !(ft == ImportedFieldType::Number || ft == ImportedFieldType::Date) ==> (r matches Err(
                AppError::InvalidInput(m),
            ) && m@ == "初始排序字段必须是数字或日期类型"@))),
    {
        let t = match stored_type {
            Some(t) => t,
            None => {
                return Err(invalid_input("找不到用于初始排序的字段"));
            },
        };
        match ImportedFieldType::from_storage(t) {
            Some(ImportedFieldType::Number) => Ok(ImportedFieldType::Number),
            Some(ImportedFieldType::Date) => Ok(ImportedFieldType::Date),
            Some(_) => Err(invalid_input("初始排序字段必须是数字或日期类型")),
            None => Err(AppError::InvalidProject(concat("未知的字段类型：", t))),
        }
    }

    /// Checks a creation request at the default matrix percentage (100 for
    /// a matrix task): see `create_with_matrix_percent`.
    pub fn create(request: CreateSortTask, facts: &CreationFacts) -> (r: Result<CreationPlan, AppError>)
        ensures
            creation_outcome(r, request, None, *facts),
    {
        Self::create_with_matrix_percent(request, None, facts)
    }

    /// Checks a whole creation request against what the project holds: the
    /// name and criteria (trimmed, not empty), that the dataset exists, the
    /// task's shape (at least two valid items; for a matrix task at most a
    /// hundred, at the percentage asked for, 100 by default, which must lie
    /// in 1..=100), and the initial order: a number or date field, or the
    /// confirmed result of a task on the same dataset covering all its
    /// items. Returns the normalised request with what to store.
    pub fn create_with_matrix_percent(
        request: CreateSortTask,
        matrix_comparison_percent: Option<u8>,
        facts: &CreationFacts,
    ) -> (r: Result<CreationPlan, AppError>)
        ensures
            creation_outcome(r, request, matrix_comparison_percent, *facts),
    {
        let mode = request.mode;
        let name = trim(request.name.as_str());
        let criteria = trim(request.criteria.as_str());
        if char_count(name.as_str()) == 0 {
            return Err(invalid_input("排序任务名称不能为空"));
        }
        if char_count(criteria.as_str()) == 0 {
            return Err(invalid_input("请说明什么样的条目应该排在前面"));
        }
        if !facts.dataset_exists {
            return Err(invalid_input("找不到要创建任务的数据集"));
        }
        let percent = match Self::check_task_shape(mode, facts.item_count, matrix_comparison_percent) {
            Ok(p) => p,
            Err(e) => return Err(e),
        };
        let mut order_field_type: Option<ImportedFieldType> = None;
        let mut copied: Option<Vec<CopiedRankGroup>> = None;
        match &request.initial_order {
            InitialOrder::Import => {},
            InitialOrder::Field { .. } => {
                let stored = match &facts.order_field_type {
                    Some(t) => Some(t.as_str()),
                    None => None,
                };
                match Self::orderable_field_type(stored) {
                    Ok(t) => {
                        order_field_type = Some(t);
                    },
                    Err(e) => return Err(e),
                }
            },
            InitialOrder::TaskResult { .. } => {
                let status = match &facts.source_status {
                    Some(s) => Some(s.clone()),
                    None => None,
                };
                match check_source_status(status) {
                    Ok(()) => {},
                    Err(e) => return Err(e),
                }
                match copied_groups(&facts.source_rows, facts.item_count) {
                    Ok(g) => {
                        copied = Some(copied_layout(mode, g));
                    },
                    Err(e) => return Err(e),
                }
            },
        }
        Ok(
            CreationPlan {
                request: CreateSortTask {
                    project_path: request.project_path,
                    dataset_id: request.dataset_id,
                    name,
                    criteria,
                    mode: request.mode,
                    initial_order: request.initial_order,
                },
                matrix_comparison_percent: percent,
                order_field_type,
                copied_groups: copied,
            },
        )
    }

    /// Checks the shape of a task against its dataset: at least two items,
    /// at most a hundred for a matrix task, whose percentage defaults to a
    /// hundred and must lie between 1 and 100. Returns the percentage to
    /// store (none for other modes).
    pub fn check_task_shape(mode: SortTaskMode, item_count: usize, matrix_comparison_percent: Option<u8>) -> (r:
        Result<Option<u8>, AppError>)
        ensures
            item_count < 2 ==> (r matches Err(AppError::InvalidInput(m)) && m@
                == "数据集至少需要两个有效条目才能创建排序任务"@),
            item_count >= 2 && mode == SortTaskMode::Matrix && item_count > MATRIX_ITEM_LIMIT ==> (r matches Err(
                AppError::InvalidInput(m),
            ) && m@ == "1v1矩阵排序最多支持 100 个对象，请先缩小数据集"@),
            item_count >= 2 && mode == SortTaskMode::Matrix && item_count <= MATRIX_ITEM_LIMIT ==> ({
                let p = match matrix_comparison_percent {
                    Some(p) => p,
                    None => 100u8,
                };
                &&& 1 <= p <= 100 ==> r == Ok::<Option<u8>, AppError>(Some(p))
                &&& !(1 <= p <= 100) ==> (r matches Err(AppError::InvalidInput(m)) && m@
                    == "矩阵排序的随机抽取比例必须在 1% 到 100% 之间"@)
            }),
            item_count >= 2 && mode != SortTaskMode::Matrix ==> r == Ok::<Option<u8>, AppError>(None),
    {
        if item_count < 2 {
            return Err(invalid_input("数据集至少需要两个有效条目才能创建排序任务"));
        }
        if mode == SortTaskMode::Matrix && item_count > MATRIX_ITEM_LIMIT {
            return Err(invalid_input("1v1矩阵排序最多支持 100 个对象，请先缩小数据集"));
        }
        if mode == SortTaskMode::Matrix {
            let percent = match matrix_comparison_percent {
                Some(p) => p,
                None => 100u8,
            };
            if !(1 <= percent && percent <= 100) {
                return Err(invalid_input("矩阵排序的随机抽取比例必须在 1% 到 100% 之间"));
            }
            Ok(Some(percent))
        } else {
            Ok(None)
        }
    }

    /// Checks a new criterion: trimmed, it must have 1 to 500 characters.
    pub fn update_criteria(criteria: &str) -> (r: Result<String, AppError>)
        ensures
            1 <= trimmed(criteria@).len() <= CRITERIA_MAX_CHARS ==> (r matches Ok(c) && c@ == trimmed(
                criteria@,
            )),
            !(1 <= trimmed(criteria@).len() <= CRITERIA_MAX_CHARS) ==> (r matches Err(
                AppError::InvalidInput(m),
            ) && m@ == "排序标准应为 1—500 个字符"@),
    {
        let t = trim(criteria);
        let count = char_count(t.as_str());
        if count == 0 || count > CRITERIA_MAX_CHARS {
            return Err(invalid_input("排序标准应为 1—500 个字符"));
        }
        Ok(t)
    }

    /// Reads stored task rows into overviews; a row with an unknown mode,
    /// status or initial order makes the whole list fail.
    pub fn list(rows: Vec<SortTaskRow>) -> (r: Result<Vec<SortTaskOverview>, AppError>)
        ensures
            first_unreadable(rows@) is None ==> (r matches Ok(list) && list@.len() == rows@.len() && forall|i: int|
                0 <= i < rows@.len() ==> overview_matches(#[trigger] list@[i], rows@[i])),
            first_unreadable(rows@) matches Some(i) ==> (r matches Err(AppError::InvalidProject(m)) && row_problem(
                rows@[i],
            ) == Some(m@)),
    {
        let mut out: Vec<SortTaskOverview> = Vec::new();
        for i in 0..rows.len()
            invariant
                out@.len() == i,
                forall|j: int| 0 <= j < i ==> overview_matches(#[trigger] out@[j], rows@[j]),
                forall|j: int| 0 <= j < i ==> (#[trigger] row_problem(rows@[j])) is None,
        {
            let row = &rows[i];
            match overview_from_row(row) {
                Ok(o) => out.push(o),
                Err(e) => {
                    proof {
                        assert(row_problem(rows@[i as int]) is Some);
                        assert(first_unreadable(rows@) is Some);
                        let f = first_unreadable(rows@).unwrap();
                        if f < i {
                            assert(row_problem(rows@[f]) is None);
                        }
                        if f > i {
                            assert(row_problem(rows@[i as int]) is None);
                        }
                        assert(f == i);
                    }
                    return Err(e);
                },
            }
        }
        assert(first_unreadable(rows@) is None);
        Ok(out)
    }

    /// The result of deleting a task, from the number of rows the delete
    /// removed.
    pub fn delete(deleted: usize) -> (r: Result<(), AppError>)
        ensures
            deleted == 0 ==> (r matches Err(AppError::InvalidInput(m)) && m@ == "找不到要删除的排序任务"@),
            deleted > 0 ==> r is Ok,
    {
        if deleted == 0 {
            return Err(invalid_input("找不到要删除的排序任务"));
        }
        Ok(())
    }

    /// The result of changing a task's criterion, from the number of rows the
    /// update changed.
    pub fn check_updated(updated: usize) -> (r: Result<(), AppError>)
        ensures
            updated == 0 ==> (r matches Err(AppError::InvalidInput(m)) && m@ == "找不到要修改的排序任务"@),
            updated > 0 ==> r is Ok,
    {
        if updated == 0 {
            return Err(invalid_input("找不到要修改的排序任务"));
        }
        Ok(())
    }
}

/// What the project holds for a new task: whether its dataset exists and
/// how many valid items it has; for an order by field, the stored type of
/// that field; for a copied result, the source task's status on the same
/// dataset and its memberships in rank order.
pub struct CreationFacts {
    pub dataset_exists: bool,
    pub item_count: usize,
    pub order_field_type: Option<String>,
    pub source_status: Option<String>,
    pub source_rows: Vec<MemberRow>,
}

/// A checked creation request: the normalised request, the matrix
/// percentage to store, the type of the initial-order field, and the groups
/// copied from a confirmed result, laid out for the new task's mode.
pub struct CreationPlan {
    pub request: CreateSortTask,
    pub matrix_comparison_percent: Option<u8>,
    pub order_field_type: Option<ImportedFieldType>,
    pub copied_groups: Option<Vec<CopiedRankGroup>>,
}

/// Why the initial-order field cannot order a task, if it cannot; the flag
/// tells a damaged project from a wrong request.
pub open spec fn field_problem(stored: Option<String>) -> Option<(bool, Seq<char>)> {
    match stored {
        None => Some((false, "找不到用于初始排序的字段"@)),
        Some(t) => match ImportedFieldType::spec_from_storage(t@) {
            None => Some((true, "未知的字段类型："@ + t@)),
            Some(ft) => if ft == ImportedFieldType::Number || ft == ImportedFieldType::Date {
                None
            } else {
                Some((false, "初始排序字段必须是数字或日期类型"@))
            },
        },
    }
}

/// The groups of a source task's memberships.
pub open spec fn source_groups(facts: CreationFacts) -> Seq<CopiedView> {
    spec_grouped(facts.source_rows@.map_values(|x: MemberRow| row_view(x)), facts.source_rows@.len() as nat)
}

/// Why a confirmed result cannot be copied, if it cannot: no source task on
/// the dataset, one not confirmed, or one whose groups do not cover the
/// dataset's valid items.
pub open spec fn source_problem(facts: CreationFacts) -> Option<(bool, Seq<char>)> {
    match facts.source_status {
        None => Some((false, "找不到同一数据表中的来源排序任务"@)),
        Some(s) => if s@ != "confirmed"@ {
            Some((false, "只能沿用已经确认并锁定的排序任务结果"@))
        } else if source_groups(facts).len() == 0 || item_total(source_groups(facts)) != facts.item_count {
            Some((true, "来源排序结果没有完整覆盖当前数据表"@))
        } else {
            None
        },
    }
}

/// Why a task cannot be created, if it cannot, in the order the checks are
/// made; the flag tells a damaged project from a wrong request.
pub open spec fn creation_problem(
    request: CreateSortTask,
    matrix_comparison_percent: Option<u8>,
    facts: CreationFacts,
) -> Option<(bool, Seq<char>)> {
    if trimmed(request.name@).len() == 0 {
        Some((false, "排序任务名称不能为空"@))
    } else if trimmed(request.criteria@).len() == 0 {
        Some((false, "请说明什么样的条目应该排在前面"@))
    } else if !facts.dataset_exists {
        Some((false, "找不到要创建任务的数据集"@))
    } else {
        match shape_refusal(request.mode, facts.item_count, matrix_comparison_percent) {
            Some(m) => Some((false, m)),
            None => match request.initial_order@ {
                InitialOrderView::Import => None,
                InitialOrderView::Field { .. } => field_problem(facts.order_field_type),
                InitialOrderView::TaskResult { .. } => source_problem(facts),
            },
        }
    }
}

/// The outcome of checking a creation request: the refusal the checks give,
/// or the normalised request with the percentage to store (100 by default
/// for a matrix task, none for others), the field type of an order by
/// field, and the copied groups of a copied result laid out for the mode.
pub open spec fn creation_outcome(
    r: Result<CreationPlan, AppError>,
    request: CreateSortTask,
    matrix_comparison_percent: Option<u8>,
    facts: CreationFacts,
) -> bool {
    match creation_problem(request, matrix_comparison_percent, facts) {
        Some((true, m)) => r matches Err(AppError::InvalidProject(e)) && e@ == m,
        Some((false, m)) => r matches Err(AppError::InvalidInput(e)) && e@ == m,
        None => r matches Ok(plan) && {
            &&& plan.request.name@ == trimmed(request.name@)
            &&& plan.request.criteria@ == trimmed(request.criteria@)
            &&& plan.request.project_path == request.project_path
            &&& plan.request.dataset_id == request.dataset_id
            &&& plan.request.mode == request.mode
            &&& plan.request.initial_order@ == request.initial_order@
            &&& plan.matrix_comparison_percent == stored_percent(request.mode, matrix_comparison_percent)
            &&& (request.initial_order@ is Field) == (plan.order_field_type is Some)
            &&& (request.initial_order@ is Field ==> ImportedFieldType::spec_from_storage(
                facts.order_field_type->0@,
            ) == plan.order_field_type)
            &&& (request.initial_order@ is TaskResult) == (plan.copied_groups is Some)
            &&& (plan.copied_groups matches Some(g) ==> copied_views(g@) == spec_copied_layout(
                request.mode,
                source_groups(facts),
            ))
        },
    }
}

/// The matrix percentage a request asks for: 100 when it names none.
pub open spec fn requested_percent(matrix_comparison_percent: Option<u8>) -> u8 {
    match matrix_comparison_percent {
        Some(p) => p,
        None => 100u8,
    }
}

/// Why a task of this mode cannot be made over `item_count` valid items at
/// the requested percentage, if it cannot: fewer than two items, more than a
/// hundred for a matrix task, or a matrix percentage outside 1 to 100.
pub open spec fn shape_refusal(mode: SortTaskMode, item_count: usize, matrix_comparison_percent: Option<u8>) -> Option<
    Seq<char>,
> {
    if item_count < 2 {
        Some("数据集至少需要两个有效条目才能创建排序任务"@)
    } else if mode == SortTaskMode::Matrix && item_count > MATRIX_ITEM_LIMIT {
        Some("1v1矩阵排序最多支持 100 个对象，请先缩小数据集"@)
    } else if mode == SortTaskMode::Matrix && !(1 <= requested_percent(matrix_comparison_percent) <= 100) {
        Some("矩阵排序的随机抽取比例必须在 1% 到 100% 之间"@)
    } else {
        None
    }
}

/// The matrix percentage stored with a task: the requested one (100 by
/// default) for a matrix task, none for other modes.
pub open spec fn stored_percent(mode: SortTaskMode, matrix_comparison_percent: Option<u8>) -> Option<u8> {
    if mode == SortTaskMode::Matrix {
        Some(requested_percent(matrix_comparison_percent))
    } else {
        None
    }
}

/// A stored row whose mode, status and initial order can all be read.
pub open spec fn row_readable(row: SortTaskRow) -> bool {
    &&& SortTaskMode::spec_from_storage(row.mode@) is Some
    &&& SortTaskStatus::spec_from_storage(row.status@) is Some
    &&& spec_parse_initial_order(
        row.order_type@,
        opt_view(row.order_field),
        opt_view(row.order_direction),
        opt_view(row.order_task_id),
    ) is Ok
}

/// `o` is the overview read from `row`.
pub open spec fn overview_matches(o: SortTaskOverview, row: SortTaskRow) -> bool {
    &&& o.id == row.id
    &&& o.dataset_id == row.dataset_id
    &&& o.name == row.name
    &&& o.criteria == row.criteria
    &&& SortTaskMode::spec_from_storage(row.mode@) == Some(o.mode)
    &&& SortTaskStatus::spec_from_storage(row.status@) == Some(o.status)
    &&& spec_parse_initial_order(
        row.order_type@,
        opt_view(row.order_field),
        opt_view(row.order_direction),
        opt_view(row.order_task_id),
    ) == Ok::<InitialOrderView, Seq<char>>(o.initial_order@)
    &&& o.matrix_comparison_percent == row.matrix_comparison_percent
    &&& o.rank_group_count == row.rank_group_count
    &&& o.created_at == row.created_at
}

/// Why a stored task row cannot be read, if it cannot: an unknown mode,
/// then an unknown status, then an unreadable initial order.
pub open spec fn row_problem(row: SortTaskRow) -> Option<Seq<char>> {
    if SortTaskMode::spec_from_storage(row.mode@) is None {
        Some("未知的排序任务模式："@ + row.mode@)
    } else if SortTaskStatus::spec_from_storage(row.status@) is None {
        Some("未知的排序任务状态："@ + row.status@)
    } else {
        match spec_parse_initial_order(
            row.order_type@,
            opt_view(row.order_field),
            opt_view(row.order_direction),
            opt_view(row.order_task_id),
        ) {
            Err(m) => Some(m),
            Ok(_) => None,
        }
    }
}

/// The first stored row that cannot be read.
pub open spec fn first_unreadable(rows: Seq<SortTaskRow>) -> Option<int> {
    if exists|i: int| 0 <= i < rows.len() && (#[trigger] row_problem(rows[i])) is Some {
        Some(choose|i: int| 0 <= i < rows.len() && row_problem(rows[i]) is Some && forall|j: int|
            0 <= j < i ==> (#[trigger] row_problem(rows[j])) is None)
    } else {
        None
    }
}

/// Reads one stored task row.
pub fn overview_from_row(row: &SortTaskRow) -> (r: Result<SortTaskOverview, AppError>)
    ensures
        row_problem(*row) is None ==> (r matches Ok(o) && overview_matches(o, *row)),
        row_problem(*row) matches Some(m) ==> (r matches Err(AppError::InvalidProject(e)) && e@ == m),
        r is Ok <==> row_readable(*row),
{
    let mode = match SortTaskMode::from_storage(row.mode.as_str()) {
        Some(m) => m,
        None => {
            return Err(AppError::InvalidProject(concat("未知的排序任务模式：", row.mode.as_str())));
        },
    };
    let status = match SortTaskStatus::from_storage(row.status.as_str()) {
        Some(s) => s,
        None => {
            return Err(AppError::InvalidProject(concat("未知的排序任务状态：", row.status.as_str())));
        },
    };
    let initial_order = match parse_initial_order(
        row.order_type.as_str(),
        row.order_field.clone(),
        row.order_direction.clone(),
        row.order_task_id.clone(),
    ) {
        Ok(o) => o,
        Err(e) => {
            return Err(e);
        },
    };
    Ok(
        SortTaskOverview {
            id: row.id.clone(),
            dataset_id: row.dataset_id.clone(),
            name: row.name.clone(),
            criteria: row.criteria.clone(),
            mode,
            status,
            initial_order,
            matrix_comparison_percent: row.matrix_comparison_percent,
            rank_group_count: row.rank_group_count,
            created_at: row.created_at.clone(),
        },
    )
}

} // verus!
