//! Rank group orders: moving one group, reordering a range, replaying the
//! drag history, detecting judgments a move would reverse, and the names and
//! layouts of tie groups.

use vstd::multiset::Multiset;
use vstd::prelude::*;

use crate::error::{invalid_input, invalid_project, AppError};
use crate::sort_task::{MoveConflictPreview, MoveConflictResolution, SortTaskService};
use crate::text::{
    char_count, clone_strings, concat, first_position, joined, owned, position_of, str_eq, trim,
    trimmed, views,
};

verus! {

broadcast use vstd::seq_lib::group_seq_properties, vstd::seq_lib::group_to_multiset_ensures,
    vstd::multiset::group_multiset_axioms;

/// `s` with the element at `from` taken out and put back at `to`.
pub open spec fn spec_moved<A>(s: Seq<A>, from: int, to: int) -> Seq<A> {
    s.remove(from).insert(to, s[from])
}

/// The order with the group at `from` moved to `to`.
pub fn moved_order(order: &Vec<String>, from: usize, to: usize) -> (r: Vec<String>)
    requires
        from < order@.len(),
        to < order@.len(),
    ensures
        r@ == spec_moved(order@, from as int, to as int),
        views(r@) == spec_moved(views(order@), from as int, to as int),
{
    let mut v = clone_strings(order);
    let x = v.remove(from);
    v.insert(to, x);
    proof {
        assert(views(v@) =~= spec_moved(views(order@), from as int, to as int));
    }
    v
}

/// A recorded move of one group.
#[derive(Debug)]
pub struct MovePayload {
    pub group_id: String,
    pub from_position: usize,
    pub to_position: usize,
}

/// A move to carry out: the new order, and the moves that redo and undo it.
#[derive(Debug)]
pub struct MovePlan {
    pub order: Vec<String>,
    pub forward: MovePayload,
    pub inverse: MovePayload,
}

/// Plans moving `group_id` to `to_position`; `None` when it is already
/// there.
pub fn plan_rank_group_move(order: &Vec<String>, group_id: &String, to_position: usize) -> (r: Result<
    Option<MovePlan>,
    AppError,
>)
    ensures
        first_position(order@, group_id@) is None ==> (r matches Err(AppError::InvalidInput(m)) && m@
            == "找不到要移动的条目"@),
        first_position(order@, group_id@) is Some && to_position >= order@.len() ==> (r matches Err(
            AppError::InvalidInput(m),
        ) && m@ == "目标排名超出条目范围"@),
        first_position(order@, group_id@) == Some(to_position as int) && to_position < order@.len()
            ==> (r matches Ok(None)),
        first_position(order@, group_id@) matches Some(f) ==> (f != to_position && to_position
            < order@.len() ==> (r matches Ok(Some(p)) && p.order@ == spec_moved(order@, f, to_position as int)
            && p.forward.group_id@ == group_id@ && p.forward.from_position == f
            && p.forward.to_position == to_position && p.inverse.group_id@ == group_id@
            && p.inverse.from_position == to_position && p.inverse.to_position == f)),
{
    let from = match position_of(order, group_id) {
        Some(f) => f,
        None => {
            return Err(invalid_input("找不到要移动的条目"));
        },
    };
    if to_position >= order.len() {
        return Err(invalid_input("目标排名超出条目范围"));
    }
    if from == to_position {
        return Ok(None);
    }
    let moved = moved_order(order, from, to_position);
    Ok(
        Some(
            MovePlan {
                order: moved,
                forward: MovePayload {
                    group_id: group_id.clone(),
                    from_position: from,
                    to_position,
                },
                inverse: MovePayload {
                    group_id: group_id.clone(),
                    from_position: to_position,
                    to_position: from,
                },
            },
        ),
    )
}

/// Replays a recorded move on the current order: the group is taken from
/// wherever it now is and put at the recorded target.
pub fn replay_move(order: &Vec<String>, payload: &MovePayload) -> (r: Result<Vec<String>, AppError>)
    ensures
        first_position(order@, payload.group_id@) is None ==> (r matches Err(AppError::InvalidProject(m))
            && m@ == "历史操作引用的排序组不存在"@),
        first_position(order@, payload.group_id@) is Some && payload.to_position >= order@.len() ==> (r matches Err(
            AppError::InvalidProject(m),
        ) && m@ == "历史操作中的目标排名无效"@),
        first_position(order@, payload.group_id@) matches Some(c) ==> (payload.to_position < order@.len()
            ==> (r matches Ok(v) && v@ == spec_moved(order@, c, payload.to_position as int))),
{
    let current = match position_of(order, &payload.group_id) {
        Some(c) => c,
        None => {
            return Err(invalid_project("历史操作引用的排序组不存在"));
        },
    };
    if payload.to_position >= order.len() {
        return Err(invalid_project("历史操作中的目标排名无效"));
    }
    Ok(moved_order(order, current, payload.to_position))
}

/// In an order without repeated groups, replaying the inverse of a move
/// restores the order it was made from, and replaying the move itself on
/// that order makes it again.
#[verifier::spinoff_prover]
#[verifier::rlimit(40)]
pub proof fn lemma_move_undo_redo(s: Seq<Seq<char>>, from: int, to: int)
    requires
        s.no_duplicates(),
        0 <= from < s.len(),
        0 <= to < s.len(),
    ensures
        s.index_of_first(s[from]) == Some(from),
        spec_moved(s, from, to).index_of_first(s[from]) == Some(to),
        spec_moved(spec_moved(s, from, to), to, from) == s,
        spec_moved(s, from, to).no_duplicates(),
{
    let g = s[from];
    let r = s.remove(from);
    let m = spec_moved(s, from, to);
    crate::text::lemma_first_index_unique(s, g, from);
    assert forall|j: int| 0 <= j < r.len() implies r[j] != g by {
        if j < from {
            assert(r[j] == s[j]);
        } else {
            assert(r[j] == s[j + 1]);
        }
    }
    assert(m[to] == g);
    assert forall|j: int| 0 <= j < to implies m[j] != g by {
        assert(m[j] == r[j]);
    }
    crate::text::lemma_first_index_unique(m, g, to);
    assert(m.remove(to) =~= r);
    assert(r.insert(from, g) =~= s);
    assert forall|i: int, j: int| 0 <= i < m.len() && 0 <= j < m.len() && i != j implies m[i] != m[j] by {
        let si = if i < to {
            if i < from { i } else { i + 1 }
        } else if i == to {
            from
        } else {
            if i - 1 < from { i - 1 } else { i }
        };
        let sj = if j < to {
            if j < from { j } else { j + 1 }
        } else if j == to {
            from
        } else {
            if j - 1 < from { j - 1 } else { j }
        };
        assert(m[i] == s[si]);
        assert(m[j] == s[sj]);
    }
}

/// Whether the two lists hold the same names, each as often.
pub fn same_multiset(a: &Vec<String>, b: &Vec<String>) -> (r: bool)
    ensures
        r == (views(a@).to_multiset() == views(b@).to_multiset()),
{
    if a.len() != b.len() {
        proof {
            assert(views(a@).to_multiset().len() != views(b@).to_multiset().len());
        }
        return false;
    }
    let mut rest = clone_strings(a);
    let n = b.len();
    for i in 0..n
        invariant
            n == b@.len(),
            n == a@.len(),
            rest@.len() + i == n,
            views(rest@).to_multiset().add(views(b@.take(i as int)).to_multiset()) == views(
                a@,
            ).to_multiset(),
    {
        let x = &b[i];
        assert(views(b@.take(i + 1)) =~= views(b@.take(i as int)).push(x@));
        match position_of(&rest, x) {
            None => {
                proof {
                    let ma = views(a@).to_multiset();
                    let mr = views(rest@).to_multiset();
                    let mt = views(b@.take(i as int)).to_multiset();
                    assert(mr.count(x@) == 0);
                    assert(views(b@) =~= views(b@.take(i + 1)) + views(b@.skip(i + 1)));
                    vstd::seq_lib::lemma_multiset_commutative(views(b@.take(i + 1)), views(b@.skip(i + 1)));
                    assert(views(b@).to_multiset().count(x@) >= mt.count(x@) + 1);
                    assert(ma.count(x@) == mt.count(x@));
                }
                return false;
            },
            Some(p) => {
                let ghost before = views(rest@);
                rest.remove(p);
                proof {
                    assert(views(rest@) =~= before.remove(p as int));
                    assert(before[p as int] == x@);
                }
            },
        }
    }
    proof {
        assert(b@.take(n as int) =~= b@);
        assert(views(rest@).len() == 0);
        assert(views(rest@) =~= Seq::<Seq<char>>::empty());
        let mr = views(rest@).to_multiset();
        assert(mr.len() == 0);
        assert forall|x: Seq<char>| mr.count(x) == 0 by {}
        assert(mr =~= Multiset::<Seq<char>>::empty());
        assert(mr.add(views(b@).to_multiset()) =~= views(b@).to_multiset());
    }
    true
}

/// `prefix`, then `middle`, then `suffix`: `s` with the range from `start`
/// of the length of `middle` replaced by `middle`.
pub open spec fn spec_splice<A>(s: Seq<A>, start: int, middle: Seq<A>) -> Seq<A> {
    s.take(start) + middle + s.skip(start + middle.len())
}

/// Plans putting a range of groups in a new order: `ordered` must list the
/// groups from `start` on, each once, in another order. `None` when the
/// order does not change.
pub fn plan_local_reorder(previous: &Vec<String>, start: usize, ordered: &Vec<String>) -> (r: Result<
    Option<Vec<String>>,
    AppError,
>)
    ensures
        ordered@.len() < 2 ==> (r matches Err(AppError::InvalidInput(m)) && m@
            == "局部重排至少需要两个连续排名组"@),
        ordered@.len() >= 2 && start + ordered@.len() > usize::MAX ==> (r matches Err(
            AppError::InvalidInput(m),
        ) && m@ == "局部重排范围无效"@),
        ordered@.len() >= 2 && start + ordered@.len() <= usize::MAX && start + ordered@.len()
            > previous@.len() ==> (r matches Err(AppError::InvalidInput(m)) && m@
            == "局部重排范围超出完整列表"@),
        ordered@.len() >= 2 && start + ordered@.len() <= previous@.len() ==> ({
            let current = views(previous@).subrange(start as int, start + ordered@.len());
            &&& current.to_multiset() != views(ordered@).to_multiset() ==> (r matches Err(
                AppError::InvalidInput(m),
            ) && m@ == "局部重排只能调整所选连续区间内的排名组"@)
            &&& current.to_multiset() == views(ordered@).to_multiset() && current == views(ordered@)
                ==> (r matches Ok(None))
            &&& current.to_multiset() == views(ordered@).to_multiset() && current != views(ordered@)
                ==> (r matches Ok(Some(next)) && next@ == spec_splice(previous@, start as int, ordered@))
        }),
{
    if ordered.len() < 2 {
        return Err(invalid_input("局部重排至少需要两个连续排名组"));
    }
    let end = match start.checked_add(ordered.len()) {
        Some(e) => e,
        None => {
            return Err(invalid_input("局部重排范围无效"));
        },
    };
    if end > previous.len() {
        return Err(invalid_input("局部重排范围超出完整列表"));
    }
    let mut current: Vec<String> = Vec::new();
    for k in start..end
        invariant
            end <= previous@.len(),
            current@ == previous@.subrange(start as int, k as int),
    {
        current.push(previous[k].clone());
    }
    assert(views(current@) =~= views(previous@).subrange(start as int, end as int));
    if !same_multiset(&current, ordered) {
        return Err(invalid_input("局部重排只能调整所选连续区间内的排名组"));
    }
    let mut same = true;
    for k in 0..current.len()
        invariant
            current@.len() == ordered@.len(),
            same == (forall|j: int| 0 <= j < k ==> current@[j]@ == ordered@[j]@),
    {
        if current[k] != ordered[k] {
            same = false;
        }
    }
    proof {
        if same {
            assert(views(current@) =~= views(ordered@));
        } else {
            let j = choose|j: int| 0 <= j < current@.len() && current@[j]@ != ordered@[j]@;
            assert(views(current@)[j] != views(ordered@)[j]);
        }
    }
    if same {
        return Ok(None);
    }
    let mut next: Vec<String> = Vec::new();
    for k in 0..start
        invariant
            start <= previous@.len(),
            next@ == previous@.take(k as int),
    {
        next.push(previous[k].clone());
    }
    for k in 0..ordered.len()
        invariant
            start <= previous@.len(),
            next@ == previous@.take(start as int) + ordered@.take(k as int),
    {
        next.push(ordered[k].clone());
        assert(next@ =~= previous@.take(start as int) + ordered@.take(k + 1));
    }
    for k in end..previous.len()
        invariant
            end == start + ordered@.len(),
            end <= previous@.len(),
            next@ == previous@.take(start as int) + ordered@ + previous@.subrange(end as int, k as int),
    {
        assert(ordered@.take(ordered@.len() as int) =~= ordered@);
        next.push(previous[k].clone());
        assert(next@ =~= previous@.take(start as int) + ordered@ + previous@.subrange(end as int, k + 1));
    }
    proof {
        assert(ordered@.take(ordered@.len() as int) =~= ordered@);
        assert(previous@.subrange(end as int, previous@.len() as int) =~= previous@.skip(end as int));
    }
    Ok(Some(next))
}

/// A local reorder keeps the same groups, each as often: so the recorded
/// previous order is accepted back by `replay_range_order` (undo), and the
/// new order again (redo).
pub proof fn lemma_local_reorder_undo(previous: Seq<Seq<char>>, start: int, ordered: Seq<Seq<char>>)
    requires
        0 <= start,
        start + ordered.len() <= previous.len(),
        previous.subrange(start, start + ordered.len()).to_multiset() == ordered.to_multiset(),
    ensures
        spec_splice(previous, start, ordered).to_multiset() == previous.to_multiset(),
{
    let end = start + ordered.len();
    let prefix = previous.take(start);
    let middle = previous.subrange(start, end);
    let suffix = previous.skip(end);
    assert(previous =~= prefix + middle + suffix);
    vstd::seq_lib::lemma_multiset_commutative(prefix + middle, suffix);
    vstd::seq_lib::lemma_multiset_commutative(prefix, middle);
    vstd::seq_lib::lemma_multiset_commutative(prefix + ordered, suffix);
    vstd::seq_lib::lemma_multiset_commutative(prefix, ordered);
}

/// Checks that a recorded range order names exactly the current groups.
pub fn replay_range_order(current: &Vec<String>, recorded: &Vec<String>) -> (r: Result<Vec<String>, AppError>)
    ensures
        views(current@).to_multiset() == views(recorded@).to_multiset() ==> (r matches Ok(v) && v@
            == recorded@),
        views(current@).to_multiset() != views(recorded@).to_multiset() ==> (r matches Err(
            AppError::InvalidProject(m),
        ) && m@ == "局部重排历史与当前排名组不一致"@),
{
    if !same_multiset(current, recorded) {
        return Err(invalid_project("局部重排历史与当前排名组不一致"));
    }
    Ok(clone_strings(recorded))
}

/// Kinds of entries in the drag history.
#[derive(Debug, Clone, Copy, PartialEq, Eq, Structural)]
pub enum HistoryKind {
    Move,
    RangeOrder,
    StructureEdit,
}

/// The storage names of the history kinds that structural edits record.
pub open spec fn spec_history_kind(operation_type: Seq<char>) -> Option<HistoryKind> {
    if operation_type == "move_rank_group"@ {
        Some(HistoryKind::Move)
    } else if operation_type == "reorder_rank_range"@ {
        Some(HistoryKind::RangeOrder)
    } else if operation_type == "merge_rank_groups"@ || operation_type == "split_rank_group_item"@ {
        Some(HistoryKind::StructureEdit)
    } else {
        None
    }
}

/// Reads the kind of a history entry; an unknown kind is an error.
pub fn history_kind(operation_type: &str) -> (r: Result<HistoryKind, AppError>)
    ensures
        spec_history_kind(operation_type@) matches Some(k) ==> r == Ok::<HistoryKind, AppError>(k),
        spec_history_kind(operation_type@) is None ==> (r matches Err(AppError::InvalidProject(m)) && m@
            == "不支持的历史操作类型："@ + operation_type@),
{
    if str_eq(operation_type, "move_rank_group") {
        Ok(HistoryKind::Move)
    } else if str_eq(operation_type, "reorder_rank_range") {
        Ok(HistoryKind::RangeOrder)
    } else if str_eq(operation_type, "merge_rank_groups") || str_eq(operation_type, "split_rank_group_item") {
        Ok(HistoryKind::StructureEdit)
    } else {
        Err(AppError::InvalidProject(concat("不支持的历史操作类型：", operation_type)))
    }
}

/// Index of the last occurrence of `x` in `v`: what a map built from the
/// list in order keeps for `x`.
pub fn last_position_of(v: &Vec<String>, x: &String) -> (r: Option<usize>)
    ensures
        match r {
            Some(i) => views(v@).index_of_last(x@) == Some(i as int),
            None => views(v@).index_of_last(x@) == None::<int>,
        },
{
    let n = v.len();
    let mut k = n;
    while k > 0
        invariant
            n == v@.len(),
            k <= n,
            forall|j: int| k <= j < n ==> v@[j]@ != x@,
        decreases k,
    {
        if v[k - 1] == *x {
            proof {
                views(v@).index_of_last_ensures(x@);
                let found = views(v@).index_of_last(x@);
                assert(views(v@)[k - 1] == x@);
                assert(found == Some(k - 1));
            }
            return Some(k - 1);
        }
        k = k - 1;
    }
    proof {
        views(v@).index_of_last_ensures(x@);
        assert(!views(v@).contains(x@));
    }
    None
}

/// A judgment between two groups, its groups resolved to the active ones.
#[derive(Debug)]
pub struct ComparisonRecord {
    pub id: String,
    pub left_group_id: String,
    pub right_group_id: String,
    pub result: String,
}

/// Mathematical view of a judgment.
pub struct RecordView {
    pub id: Seq<char>,
    pub left: Seq<char>,
    pub right: Seq<char>,
    pub result: Seq<char>,
}

impl View for ComparisonRecord {
    type V = RecordView;

    open spec fn view(&self) -> RecordView {
        RecordView {
            id: self.id@,
            left: self.left_group_id@,
            right: self.right_group_id@,
            result: self.result@,
        }
    }
}

/// Whether a judgment still agrees with the positions of its groups: a
/// preference holds when its winner stands first, a tie never does, and an
/// unknown result is left alone.
pub open spec fn judgment_holds(result: Seq<char>, left_position: int, right_position: int) -> bool {
    if result == "left_before"@ {
        left_position < right_position
    } else if result == "right_before"@ {
        right_position < left_position
    } else if result == "tie"@ {
        false
    } else {
        true
    }
}

/// The label of a group in a conflict description, or the fallback.
pub open spec fn label_or(ids: Seq<Seq<char>>, labels: Seq<Seq<char>>, g: Seq<char>, fallback: Seq<char>) -> Seq<
    char,
> {
    match ids.index_of_last(g) {
        Some(i) => labels[i],
        None => fallback,
    }
}

/// The conflict a judgment reports under the proposed order, if any: its id
/// and a description naming both groups.
pub open spec fn spec_conflict(
    proposed: Seq<Seq<char>>,
    label_ids: Seq<Seq<char>>,
    labels: Seq<Seq<char>>,
    c: RecordView,
) -> Option<(Seq<char>, Seq<char>)> {
    if c.left == c.right {
        None
    } else {
        match (proposed.index_of_last(c.left), proposed.index_of_last(c.right)) {
            (Some(lp), Some(rp)) => if judgment_holds(c.result, lp, rp) {
                None
            } else {
                Some(
                    (
                        c.id,
                        label_or(label_ids, labels, c.left, "左侧组"@) + " ↔ "@ + label_or(
                            label_ids,
                            labels,
                            c.right,
                            "右侧组"@,
                        ),
                    ),
                )
            },
            _ => None,
        }
    }
}

/// The conflicts of the first `n` judgments, in order.
pub open spec fn spec_conflicts(
    proposed: Seq<Seq<char>>,
    label_ids: Seq<Seq<char>>,
    labels: Seq<Seq<char>>,
    records: Seq<RecordView>,
    n: nat,
) -> Seq<(Seq<char>, Seq<char>)>
    decreases n,
{
    if n == 0 {
        Seq::empty()
    } else {
        let before = spec_conflicts(proposed, label_ids, labels, records, (n - 1) as nat);
        match spec_conflict(proposed, label_ids, labels, records[n - 1]) {
            Some(c) => before.push(c),
            None => before,
        }
    }
}

pub open spec fn record_views(records: Seq<ComparisonRecord>) -> Seq<RecordView> {
    records.map_values(|c: ComparisonRecord| c@)
}

pub open spec fn pair_views(v: Seq<(String, String)>) -> Seq<(Seq<char>, Seq<char>)> {
    v.map_values(|p: (String, String)| (p.0@, p.1@))
}

/// The label shown for `g`, or `fallback` when no label is known.
fn label_for(label_ids: &Vec<String>, labels: &Vec<String>, g: &String, fallback: &str) -> (r: String)
    requires
        label_ids@.len() == labels@.len(),
    ensures
        r@ == label_or(views(label_ids@), views(labels@), g@, fallback@),
{
    match last_position_of(label_ids, g) {
        Some(i) => {
            proof {
                views(label_ids@).index_of_last_ensures(g@);
            }
            labels[i].clone()
        },
        None => owned(fallback),
    }
}

/// The judgments the proposed order would reverse, with a description of
/// each. Groups are found by their last position in the order, and labels
/// by the last entry naming the group.
pub fn conflicting_comparisons(
    proposed: &Vec<String>,
    label_ids: &Vec<String>,
    labels: &Vec<String>,
    records: &Vec<ComparisonRecord>,
) -> (r: Vec<(String, String)>)
    requires
        label_ids@.len() == labels@.len(),
    ensures
        pair_views(r@) == spec_conflicts(
            views(proposed@),
            views(label_ids@),
            views(labels@),
            record_views(records@),
            records@.len() as nat,
        ),
{
    let ghost p = views(proposed@);
    let ghost li = views(label_ids@);
    let ghost lb = views(labels@);
    let ghost rv = record_views(records@);
    let mut out: Vec<(String, String)> = Vec::new();
    for k in 0..records.len()
        invariant
            label_ids@.len() == labels@.len(),
            p == views(proposed@),
            li == views(label_ids@),
            lb == views(labels@),
            rv == record_views(records@),
            pair_views(out@) == spec_conflicts(p, li, lb, rv, k as nat),
    {
        let c = &records[k];
        assert(rv[k as int] == c@);
        let lp = last_position_of(proposed, &c.left_group_id);
        let rp = last_position_of(proposed, &c.right_group_id);
        if c.left_group_id == c.right_group_id {
        } else {
        match (lp, rp) {
            (Some(l), Some(r)) => {
                let holds = if str_eq(c.result.as_str(), "left_before") {
                    l < r
                } else if str_eq(c.result.as_str(), "right_before") {
                    r < l
                } else if str_eq(c.result.as_str(), "tie") {
                    false
                } else {
                    true
                };
                if !holds {
                    let left_label = label_for(label_ids, labels, &c.left_group_id, "左侧组");
                    let right_label = label_for(label_ids, labels, &c.right_group_id, "右侧组");
                    let middle = concat(left_label.as_str(), " ↔ ");
                    let description = concat(middle.as_str(), right_label.as_str());
                    let ghost before = out@;
                    out.push((c.id.clone(), description));
                    proof {
                        assert(pair_views(out@) =~= pair_views(before).push((c.id@, description@)));
                    }
                }
            },
            _ => {},
        }
        }
    }
    out
}

/// The ids of the judgments the proposed order reverses, in order.
pub open spec fn spec_withdrawn(
    proposed: Seq<Seq<char>>,
    label_ids: Seq<Seq<char>>,
    labels: Seq<Seq<char>>,
    records: Seq<RecordView>,
) -> Seq<Seq<char>> {
    spec_conflicts(proposed, label_ids, labels, records, records.len()).map_values(
        |c: (Seq<char>, Seq<char>)| c.0,
    )
}

/// Every judgment among the first `n` that the order reverses is listed.
proof fn lemma_conflicts_listed(
    proposed: Seq<Seq<char>>,
    label_ids: Seq<Seq<char>>,
    labels: Seq<Seq<char>>,
    records: Seq<RecordView>,
    n: nat,
)
    requires
        n <= records.len(),
    ensures
        forall|i: int|
            0 <= i < n ==> (#[trigger] spec_conflict(proposed, label_ids, labels, records[i]) matches Some(c)
                ==> spec_conflicts(proposed, label_ids, labels, records, n).contains(c)),
    decreases n,
{
    if n > 0 {
        lemma_conflicts_listed(proposed, label_ids, labels, records, (n - 1) as nat);
        let before = spec_conflicts(proposed, label_ids, labels, records, (n - 1) as nat);
        let now = spec_conflicts(proposed, label_ids, labels, records, n);
        assert forall|i: int|
            0 <= i < n && (#[trigger] spec_conflict(proposed, label_ids, labels, records[i])) is Some implies now.contains(
            spec_conflict(proposed, label_ids, labels, records[i])->0,
        ) by {
            let c = spec_conflict(proposed, label_ids, labels, records[i])->0;
            if i < n - 1 {
                let k = choose|k: int| 0 <= k < before.len() && before[k] == c;
                if spec_conflict(proposed, label_ids, labels, records[n - 1]) is Some {
                    assert(now[k] == c);
                }
            } else {
                assert(now[now.len() - 1] == c);
            }
        }
    }
}

/// Withdrawing the judgments a move reverses settles the move: every
/// judgment whose id was not withdrawn agrees with the new order.
pub proof fn lemma_withdrawal_leaves_no_conflict(
    proposed: Seq<Seq<char>>,
    label_ids: Seq<Seq<char>>,
    labels: Seq<Seq<char>>,
    records: Seq<RecordView>,
)
    ensures
        forall|i: int|
            0 <= i < records.len() && !spec_withdrawn(proposed, label_ids, labels, records).contains(
                records[i].id,
            ) ==> #[trigger] spec_conflict(proposed, label_ids, labels, records[i]) is None,
{
    lemma_conflicts_listed(proposed, label_ids, labels, records, records.len());
    let all = spec_conflicts(proposed, label_ids, labels, records, records.len());
    let ids = spec_withdrawn(proposed, label_ids, labels, records);
    assert forall|i: int|
        0 <= i < records.len() && !ids.contains(records[i].id) implies #[trigger] spec_conflict(
        proposed,
        label_ids,
        labels,
        records[i],
    ) is None by {
        if spec_conflict(proposed, label_ids, labels, records[i]) is Some {
            let c = spec_conflict(proposed, label_ids, labels, records[i])->0;
            assert(all.contains(c));
            let k = choose|k: int| 0 <= k < all.len() && all[k] == c;
            assert(ids[k] == c.0);
            assert(c.0 == records[i].id);
        }
    }
}

/// A rank group as a merge chain sees it: its id, and the group it was
/// merged into, if any.
pub open spec fn merge_view(m: (String, Option<String>)) -> (Seq<char>, Option<Seq<char>>) {
    (
        m.0@,
        match m.1 {
            Some(t) => Some(t@),
            None => None,
        },
    )
}

/// The group that the group `id` was merged into: that of the first row
/// with this id; none when it was not merged or has no row.
pub open spec fn merged_into_of(merges: Seq<(Seq<char>, Option<Seq<char>>)>, id: Seq<char>) -> Option<Seq<char>>
    decreases merges.len(),
{
    if merges.len() == 0 {
        None
    } else if merges[0].0 == id {
        merges[0].1
    } else {
        merged_into_of(merges.drop_first(), id)
    }
}

/// The active group reached from `id` by following merges, looking up at
/// most `lookups` rows; none when the chain is longer.
pub open spec fn spec_resolve(merges: Seq<(Seq<char>, Option<Seq<char>>)>, id: Seq<char>, lookups: nat) -> Option<
    Seq<char>,
>
    decreases lookups,
{
    if lookups == 0 {
        None
    } else {
        match merged_into_of(merges, id) {
            None => Some(id),
            Some(next) => spec_resolve(merges, next, (lookups - 1) as nat),
        }
    }
}

/// Most rows looked up while following a merge chain.
pub const MERGE_CHAIN_LIMIT: usize = 100;

/// The row of `id`'s merge, looked up in order.
fn merged_into(merges: &Vec<(String, Option<String>)>, id: &String) -> (r: Option<String>)
    ensures
        match r {
            Some(t) => merged_into_of(merges@.map_values(|m: (String, Option<String>)| merge_view(m)), id@) == Some(t@),
            None => merged_into_of(merges@.map_values(|m: (String, Option<String>)| merge_view(m)), id@) is None,
        },
{
    let ghost all = merges@.map_values(|m: (String, Option<String>)| merge_view(m));
    let mut i: usize = 0;
    while i < merges.len()
        invariant
            i <= merges@.len(),
            all == merges@.map_values(|m: (String, Option<String>)| merge_view(m)),
            merged_into_of(all, id@) == merged_into_of(all.skip(i as int), id@),
        decreases merges@.len() - i,
    {
        assert(all.skip(i as int).drop_first() =~= all.skip(i + 1));
        assert(all.skip(i as int)[0] == merge_view(merges@[i as int]));
        if merges[i].0 == *id {
            return match &merges[i].1 {
                Some(t) => Some(t.clone()),
                None => None,
            };
        }
        i = i + 1;
    }
    assert(all.skip(i as int).len() == 0);
    None
}

/// Follows the merges from `group_id` to the active group it ended in.
/// `InvalidProject` when the chain does not end within the limit.
pub fn resolve_active_group_id(merges: &Vec<(String, Option<String>)>, group_id: &String) -> (r: Result<
    String,
    AppError,
>)
    ensures
        match spec_resolve(
            merges@.map_values(|m: (String, Option<String>)| merge_view(m)),
            group_id@,
            MERGE_CHAIN_LIMIT as nat,
        ) {
            Some(x) => r matches Ok(s) && s@ == x,
            None => r matches Err(AppError::InvalidProject(m)) && m@ == "并列组归并关系形成异常循环"@,
        },
{
    let ghost all = merges@.map_values(|m: (String, Option<String>)| merge_view(m));
    let mut current = group_id.clone();
    let mut k: usize = 0;
    while k < MERGE_CHAIN_LIMIT
        invariant
            k <= MERGE_CHAIN_LIMIT,
            all == merges@.map_values(|m: (String, Option<String>)| merge_view(m)),
            spec_resolve(all, group_id@, MERGE_CHAIN_LIMIT as nat) == spec_resolve(
                all,
                current@,
                (MERGE_CHAIN_LIMIT - k) as nat,
            ),
        decreases MERGE_CHAIN_LIMIT - k,
    {
        match merged_into(merges, &current) {
            None => {
                return Ok(current);
            },
            Some(next) => {
                current = next;
            },
        }
        k = k + 1;
    }
    Err(invalid_project("并列组归并关系形成异常循环"))
}

/// No conflicts come from judgments that each have none.
proof fn lemma_no_conflicts(
    proposed: Seq<Seq<char>>,
    label_ids: Seq<Seq<char>>,
    labels: Seq<Seq<char>>,
    records: Seq<RecordView>,
    n: nat,
)
    requires
        n <= records.len(),
        forall|i: int| 0 <= i < n ==> #[trigger] spec_conflict(proposed, label_ids, labels, records[i]) is None,
    ensures
        spec_conflicts(proposed, label_ids, labels, records, n).len() == 0,
    decreases n,
{
    if n > 0 {
        lemma_no_conflicts(proposed, label_ids, labels, records, (n - 1) as nat);
        assert(spec_conflict(proposed, label_ids, labels, records[n - 1]) is None);
    }
}

/// A move that updates the relations leaves nothing to resolve: once the
/// judgments it reverses are withdrawn, a preview of the moved group at its
/// new place, over the judgments still active (any of the earlier ones
/// whose id was not withdrawn), finds no conflict.
pub proof fn lemma_resolved_move_previews_no_conflict(
    order: Seq<Seq<char>>,
    from: int,
    to: int,
    label_ids: Seq<Seq<char>>,
    labels: Seq<Seq<char>>,
    records: Seq<RecordView>,
    still_active: Seq<RecordView>,
)
    requires
        0 <= from < order.len(),
        0 <= to < order.len(),
        forall|j: int|
            0 <= j < still_active.len() ==> records.contains(#[trigger] still_active[j]) && !spec_withdrawn(
                spec_moved(order, from, to),
                label_ids,
                labels,
                records,
            ).contains(still_active[j].id),
    ensures
        ({
            let moved = spec_moved(order, from, to);
            &&& spec_moved(moved, to, to) == moved
            &&& spec_conflicts(spec_moved(moved, to, to), label_ids, labels, still_active, still_active.len()).len()
                == 0
        }),
{
    let moved = spec_moved(order, from, to);
    assert(spec_moved(moved, to, to) =~= moved);
    lemma_withdrawal_leaves_no_conflict(moved, label_ids, labels, records);
    assert forall|j: int| 0 <= j < still_active.len() implies #[trigger] spec_conflict(
        moved,
        label_ids,
        labels,
        still_active[j],
    ) is None by {
        let i = choose|i: int| 0 <= i < records.len() && records[i] == still_active[j];
        assert(spec_conflict(moved, label_ids, labels, records[i]) is None);
    }
    lemma_no_conflicts(moved, label_ids, labels, still_active, still_active.len());
}

impl SortTaskService {
    /// The judgments to withdraw before moving `group_id` to `to_position`:
    /// none for a temporary move; when the move should update the relations,
    /// every judgment the moved order reverses.
    pub fn withdrawn_judgments(
        order: &Vec<String>,
        group_id: &String,
        to_position: usize,
        resolution: MoveConflictResolution,
        label_ids: &Vec<String>,
        labels: &Vec<String>,
        records: &Vec<ComparisonRecord>,
    ) -> (r: Result<Vec<String>, AppError>)
        requires
            label_ids@.len() == labels@.len(),
            resolution == MoveConflictResolution::UpdateRelations && first_position(order@, group_id@) is Some
                ==> to_position < order@.len(),
        ensures
            resolution == MoveConflictResolution::Temporary ==> (r matches Ok(v) && v@.len() == 0),
            resolution == MoveConflictResolution::UpdateRelations && first_position(order@, group_id@) is None
                ==> (r matches Err(AppError::InvalidInput(m)) && m@ == "找不到要移动的排序组"@),
            first_position(order@, group_id@) matches Some(f) ==> (resolution
                == MoveConflictResolution::UpdateRelations ==> (r matches Ok(v) && views(v@) == spec_withdrawn(
                spec_moved(views(order@), f, to_position as int),
                views(label_ids@),
                views(labels@),
                record_views(records@),
            ))),
    {
        if resolution == MoveConflictResolution::Temporary {
            return Ok(Vec::new());
        }
        let from = match position_of(order, group_id) {
            Some(f) => f,
            None => return Err(invalid_input("找不到要移动的排序组")),
        };
        let moved = moved_order(order, from, to_position);
        let conflicts = conflicting_comparisons(&moved, label_ids, labels, records);
        let ghost cv = pair_views(conflicts@);
        let mut ids: Vec<String> = Vec::new();
        for k in 0..conflicts.len()
            invariant
                cv == pair_views(conflicts@),
                views(ids@) == cv.map_values(|c: (Seq<char>, Seq<char>)| c.0).take(k as int),
        {
            let ghost before = ids@;
            ids.push(conflicts[k].0.clone());
            assert(views(ids@) =~= views(before).push(cv[k as int].0));
            assert(cv.map_values(|c: (Seq<char>, Seq<char>)| c.0).take(k + 1) =~= cv.map_values(
                |c: (Seq<char>, Seq<char>)| c.0,
            ).take(k as int).push(cv[k as int].0));
        }
        assert(cv.map_values(|c: (Seq<char>, Seq<char>)| c.0).take(conflicts.len() as int) =~= cv.map_values(
            |c: (Seq<char>, Seq<char>)| c.0,
        ));
        assert(records@.len() == record_views(records@).len());
        Ok(ids)
    }
}

/// Most conflict descriptions a preview shows.
pub const PREVIEW_LIMIT: usize = 5;

impl SortTaskService {
    /// Previews moving `group_id` to `to_position`: the number of judgments the
    /// move would reverse and the first few of their descriptions.
    pub fn preview_rank_group_move(
        order: &Vec<String>,
        group_id: &String,
        to_position: usize,
        label_ids: &Vec<String>,
        labels: &Vec<String>,
        records: &Vec<ComparisonRecord>,
    ) -> (r: Result<MoveConflictPreview, AppError>)
        requires
            label_ids@.len() == labels@.len(),
        ensures
            first_position(order@, group_id@) is None ==> (r matches Err(AppError::InvalidInput(m)) && m@
                == "找不到要移动的排序组"@),
            first_position(order@, group_id@) is Some && to_position >= order@.len() ==> (r matches Err(
                AppError::InvalidInput(m),
            ) && m@ == "目标位置超出排序组范围"@),
            first_position(order@, group_id@) matches Some(f) ==> (to_position < order@.len() ==> (r matches Ok(
                preview,
            ) && {
                let all = spec_conflicts(
                    views(spec_moved(order@, f, to_position as int)),
                    views(label_ids@),
                    views(labels@),
                    record_views(records@),
                    records@.len() as nat,
                );
                &&& preview.conflict_count == all.len()
                &&& views(preview.descriptions@) == all.take(
                    if all.len() < PREVIEW_LIMIT {
                        all.len() as int
                    } else {
                        PREVIEW_LIMIT as int
                    },
                ).map_values(|c: (Seq<char>, Seq<char>)| c.1)
            })),
    {
        let from = match position_of(order, group_id) {
            Some(f) => f,
            None => {
                return Err(invalid_input("找不到要移动的排序组"));
            },
        };
        if to_position >= order.len() {
            return Err(invalid_input("目标位置超出排序组范围"));
        }
        let proposed = moved_order(order, from, to_position);
        let conflicts = conflicting_comparisons(&proposed, label_ids, labels, records);
        let ghost all = pair_views(conflicts@);
        let shown = if conflicts.len() < PREVIEW_LIMIT {
            conflicts.len()
        } else {
            PREVIEW_LIMIT
        };
        let mut descriptions: Vec<String> = Vec::new();
        for k in 0..shown
            invariant
                shown <= conflicts@.len(),
                all == pair_views(conflicts@),
                views(descriptions@) == all.take(k as int).map_values(|c: (Seq<char>, Seq<char>)| c.1),
        {
            let ghost before = descriptions@;
            descriptions.push(conflicts[k].1.clone());
            proof {
                assert(views(descriptions@) =~= views(before).push(conflicts@[k as int].1@));
                assert(all[k as int] == (conflicts@[k as int].0@, conflicts@[k as int].1@));
                let t = all.take(k + 1).map_values(|c: (Seq<char>, Seq<char>)| c.1);
                let t0 = all.take(k as int).map_values(|c: (Seq<char>, Seq<char>)| c.1);
                assert(t.len() == k + 1);
                assert(t[k as int] == conflicts@[k as int].1@);
                assert forall|i: int| 0 <= i < k implies t[i] == t0[i] by {}
                assert(views(descriptions@) =~= all.take(k + 1).map_values(|c: (Seq<char>, Seq<char>)| c.1));
            }
        }
        Ok(MoveConflictPreview { conflict_count: conflicts.len(), descriptions })
    }
}

/// Checks that a task's groups may be edited by name: the task exists (its
/// stored status is given), its result is not locked, and each named group
/// is one of its active groups (`groups_active`, in the order named).
pub fn check_groups_editable(status: Option<&str>, groups_active: &Vec<bool>) -> (r: Result<(), AppError>)
    ensures
        status is None ==> (r matches Err(AppError::InvalidInput(m)) && m@ == "找不到排序任务"@),
        status matches Some(s) && s@ == "confirmed"@ ==> (r matches Err(AppError::InvalidInput(m)) && m@
            == "结果已确认并锁定，请先解锁后再编辑"@),
        status matches Some(s) && s@ != "confirmed"@ && groups_active@.contains(false) ==> (r matches Err(
            AppError::InvalidInput(m),
        ) && m@ == "找不到有效的排序组"@),
        status matches Some(s) && s@ != "confirmed"@ && !groups_active@.contains(false) ==> r is Ok,
{
    match status {
        None => {
            return Err(invalid_input("找不到排序任务"));
        },
        Some(s) => {
            if str_eq(s, "confirmed") {
                return Err(invalid_input("结果已确认并锁定，请先解锁后再编辑"));
            }
        },
    }
    for i in 0..groups_active.len()
        invariant
            status matches Some(s) && s@ != "confirmed"@,
            forall|j: int| 0 <= j < i ==> groups_active@[j],
    {
        if !groups_active[i] {
            assert(groups_active@[i as int] == false);
            return Err(invalid_input("找不到有效的排序组"));
        }
    }
    assert(!groups_active@.contains(false));
    Ok(())
}

/// Most characters a tie group name may have.
pub const GROUP_NAME_MAX_CHARS: usize = 60;

/// Checks a new tie group name: trimmed, it must have 1 to 60 characters.
pub fn validate_group_name(name: &str) -> (r: Result<String, AppError>)
    ensures
        1 <= trimmed(name@).len() <= GROUP_NAME_MAX_CHARS ==> (r matches Ok(n) && n@ == trimmed(name@)),
        !(1 <= trimmed(name@).len() <= GROUP_NAME_MAX_CHARS) ==> (r matches Err(AppError::InvalidInput(m))
            && m@ == "并列组名称应为 1—60 个字符"@),
{
    let t = trim(name);
    let count = char_count(t.as_str());
    if count == 0 || count > GROUP_NAME_MAX_CHARS {
        return Err(invalid_input("并列组名称应为 1—60 个字符"));
    }
    Ok(t)
}

/// The name a merged group gets when it has none: numbered after the tie
/// groups already in the task.
pub fn tie_group_name(existing_tie_groups: usize) -> (r: String)
    ensures
        r@ == "并列组"@ + crate::text::decimal(existing_tie_groups as nat + 1),
{
    let number = crate::text::decimal_string(existing_tie_groups as u128 + 1);
    concat("并列组", number.as_str())
}

/// The group order after `source` has been merged away.
pub fn order_without(order: &Vec<String>, source: &String) -> (r: Vec<String>)
    ensures
        views(r@) == views(order@).filter(|g: Seq<char>| g != source@),
{
    let mut out: Vec<String> = Vec::new();
    for k in 0..order.len()
        invariant
            views(out@) == views(order@.take(k as int)).filter(|g: Seq<char>| g != source@),
    {
        assert(views(order@.take(k + 1)) =~= views(order@.take(k as int)).push(order@[k as int]@));
        proof {
            views(order@.take(k as int)).lemma_filter_push(order@[k as int]@, |g: Seq<char>| g != source@);
        }
        if order[k] != *source {
            out.push(order[k].clone());
            assert(views(out@) =~= views(order@.take(k as int)).filter(|g: Seq<char>| g != source@).push(
                order@[k as int]@,
            ));
        }
    }
    assert(order@.take(order@.len() as int) =~= order@);
    out
}

/// Plans merging `source` into `target`: refused when they are the same
/// group; else the order the remaining groups keep.
pub fn plan_merge(order: &Vec<String>, source: &String, target: &String) -> (r: Result<Vec<String>, AppError>)
    ensures
        source@ == target@ ==> (r matches Err(AppError::InvalidInput(m)) && m@ == "不能将排序组与自身合并"@),
        source@ != target@ ==> (r matches Ok(v) && views(v@) == views(order@).filter(|g: Seq<char>| g != source@)),
{
    if *source == *target {
        return Err(invalid_input("不能将排序组与自身合并"));
    }
    Ok(order_without(order, source))
}

/// Plans splitting one item out of `group_id` into a new group placed right
/// after it. The group must have at least two items, one of them `item_id`.
pub fn plan_split(
    order: &Vec<String>,
    group_id: &String,
    group_items: &Vec<String>,
    item_id: &String,
    new_group_id: String,
) -> (r: Result<Vec<String>, AppError>)
    ensures
        group_items@.len() < 2 ==> (r matches Err(AppError::InvalidInput(m)) && m@
            == "该排序组没有可拆分的并列条目"@),
        group_items@.len() >= 2 && !views(group_items@).contains(item_id@) ==> (r matches Err(
            AppError::InvalidInput(m),
        ) && m@ == "并列组中找不到要拆分的条目"@),
        group_items@.len() >= 2 && views(group_items@).contains(item_id@) && first_position(
            order@,
            group_id@,
        ) is None ==> (r matches Err(AppError::InvalidInput(m)) && m@ == "找不到并列组"@),
        first_position(order@, group_id@) matches Some(p) ==> (group_items@.len() >= 2 && views(
            group_items@,
        ).contains(item_id@) ==> (r matches Ok(v) && v@ == order@.insert(p + 1, new_group_id))),
{
    if group_items.len() < 2 {
        return Err(invalid_input("该排序组没有可拆分的并列条目"));
    }
    if !crate::text::contains_string(group_items, item_id) {
        return Err(invalid_input("并列组中找不到要拆分的条目"));
    }
    let position = match position_of(order, group_id) {
        Some(p) => p,
        None => {
            return Err(invalid_input("找不到并列组"));
        },
    };
    let n = order.len();
    assert(position < n);
    let mut v = clone_strings(order);
    v.insert(position + 1, new_group_id);
    Ok(v)
}

/// Starting rank of each group: one more than the items of all groups
/// before it.
pub open spec fn spec_starting_rank(sizes: Seq<usize>, k: int) -> int
    decreases k,
{
    if k <= 0 {
        1
    } else {
        spec_starting_rank(sizes, k - 1) + sizes[k - 1]
    }
}

/// The starting ranks of groups of the given sizes, in order.
pub fn starting_ranks(sizes: &Vec<usize>) -> (r: Vec<usize>)
    requires
        spec_starting_rank(sizes@, sizes@.len() as int) <= usize::MAX,
    ensures
        r@.len() == sizes@.len(),
        forall|k: int| 0 <= k < r@.len() ==> #[trigger] r@[k] == spec_starting_rank(sizes@, k),
{
    let mut out: Vec<usize> = Vec::new();
    let mut occupied: usize = 0;
    for k in 0..sizes.len()
        invariant
            spec_starting_rank(sizes@, sizes@.len() as int) <= usize::MAX,
            out@.len() == k,
            occupied + 1 == spec_starting_rank(sizes@, k as int),
            forall|j: int| 0 <= j < k ==> #[trigger] out@[j] == spec_starting_rank(sizes@, j),
    {
        proof {
            lemma_starting_rank_monotone(sizes@, k + 1, sizes@.len() as int);
        }
        out.push(occupied + 1);
        occupied = occupied + sizes[k];
    }
    out
}

/// Starting ranks never decrease along the groups.
pub proof fn lemma_starting_rank_monotone(sizes: Seq<usize>, a: int, b: int)
    requires
        0 <= a <= b <= sizes.len(),
    ensures
        spec_starting_rank(sizes, a) <= spec_starting_rank(sizes, b),
    decreases b - a,
{
    if a < b {
        lemma_starting_rank_monotone(sizes, a, b - 1);
    }
}


/// Checks the status of the task whose confirmed result a new task copies:
/// it must exist on the same dataset and be confirmed.
pub fn check_source_status(status: Option<String>) -> (r: Result<(), AppError>)
    ensures
        status is None ==> (r matches Err(AppError::InvalidInput(m)) && m@
            == "找不到同一数据表中的来源排序任务"@),
        status matches Some(s) ==> (s@ == "confirmed"@ ==> r is Ok),
        status matches Some(s) ==> (s@ != "confirmed"@ ==> (r matches Err(AppError::InvalidInput(m)) && m@
            == "只能沿用已经确认并锁定的排序任务结果"@)),
{
    match status {
        Some(s) => {
            if str_eq(s.as_str(), "confirmed") {
                Ok(())
            } else {
                Err(invalid_input("只能沿用已经确认并锁定的排序任务结果"))
            }
        },
        None => Err(invalid_input("找不到同一数据表中的来源排序任务")),
    }
}

/// A rank group copied from a confirmed result: its name and items.
#[derive(Debug)]
pub struct CopiedRankGroup {
    pub name: Option<String>,
    pub item_ids: Vec<String>,
}

/// Mathematical view of a copied group.
pub struct CopiedView {
    pub name: Option<Seq<char>>,
    pub items: Seq<Seq<char>>,
}

impl View for CopiedRankGroup {
    type V = CopiedView;

    open spec fn view(&self) -> CopiedView {
        CopiedView { name: crate::sort_task::opt_view(self.name), items: views(self.item_ids@) }
    }
}

/// A stored membership row: group, group name, item, in rank order.
pub type MemberRow = (String, Option<String>, String);

pub open spec fn row_view(r: MemberRow) -> (Seq<char>, Option<Seq<char>>, Seq<char>) {
    (r.0@, crate::sort_task::opt_view(r.1), r.2@)
}

/// The groups of the first `n` rows: a row whose group differs from the
/// previous row's (the first row being compared with the empty name) opens
/// a new group with that row's name; every row adds its item to the last
/// group opened, if any.
pub open spec fn spec_grouped(rows: Seq<(Seq<char>, Option<Seq<char>>, Seq<char>)>, n: nat) -> Seq<CopiedView>
    decreases n,
{
    if n == 0 {
        Seq::empty()
    } else {
        let g = spec_grouped(rows, (n - 1) as nat);
        let r = rows[n - 1];
        let previous = if n == 1 {
            Seq::<char>::empty()
        } else {
            rows[n - 2].0
        };
        if r.0 != previous {
            g.push(CopiedView { name: r.1, items: seq![r.2] })
        } else if g.len() > 0 {
            g.update(g.len() - 1, CopiedView { name: g.last().name, items: g.last().items.push(r.2) })
        } else {
            g
        }
    }
}

/// Number of items over all groups.
pub open spec fn item_total(g: Seq<CopiedView>) -> nat
    decreases g.len(),
{
    if g.len() == 0 {
        0
    } else {
        item_total(g.drop_last()) + g.last().items.len()
    }
}

pub open spec fn copied_views(g: Seq<CopiedRankGroup>) -> Seq<CopiedView> {
    g.map_values(|c: CopiedRankGroup| c@)
}

proof fn lemma_item_total_extend(g: Seq<CopiedView>, x: Seq<char>)
    requires
        g.len() > 0,
    ensures
        item_total(g.update(g.len() - 1, CopiedView { name: g.last().name, items: g.last().items.push(x) }))
            == item_total(g) + 1,
{
    let u = g.update(g.len() - 1, CopiedView { name: g.last().name, items: g.last().items.push(x) });
    assert(u.drop_last() =~= g.drop_last());
}

/// Groups the membership rows of a confirmed result, and checks that they
/// cover exactly the dataset's `dataset_item_count` items.
pub fn copied_groups(rows: &Vec<MemberRow>, dataset_item_count: usize) -> (r: Result<
    Vec<CopiedRankGroup>,
    AppError,
>)
    ensures
        ({
            let g = spec_grouped(rows@.map_values(|x: MemberRow| row_view(x)), rows@.len() as nat);
            &&& g.len() == 0 || item_total(g) != dataset_item_count ==> (r matches Err(
                AppError::InvalidProject(m),
            ) && m@ == "来源排序结果没有完整覆盖当前数据表"@)
            &&& g.len() > 0 && item_total(g) == dataset_item_count ==> (r matches Ok(v) && copied_views(v@)
                == g)
        }),
{
    let ghost rv = rows@.map_values(|x: MemberRow| row_view(x));
    let mut groups: Vec<CopiedRankGroup> = Vec::new();
    let mut open = false;
    let mut current_name: Option<String> = None;
    let mut current_items: Vec<String> = Vec::new();
    let mut current_id = String::new();
    let mut total: usize = 0;
    for i in 0..rows.len()
        invariant
            rv == rows@.map_values(|x: MemberRow| row_view(x)),
            current_id@ == (if i == 0 {
                Seq::<char>::empty()
            } else {
                rv[i - 1].0
            }),
            !open ==> copied_views(groups@) == spec_grouped(rv, i as nat),
            open ==> copied_views(groups@).push(
                CopiedView { name: crate::sort_task::opt_view(current_name), items: views(current_items@) },
            ) == spec_grouped(rv, i as nat),
            total == item_total(spec_grouped(rv, i as nat)),
            total <= i,
            open == (spec_grouped(rv, i as nat).len() > 0),
    {
        let row = &rows[i];
        assert(rv[i as int] == row_view(*row));
        let ghost g = spec_grouped(rv, i as nat);
        if row.0 != current_id {
            if open {
                let ghost before = groups@;
                groups.push(CopiedRankGroup { name: current_name, item_ids: current_items });
                proof {
                    assert(copied_views(groups@) =~= copied_views(before).push(g.last()));
                    assert(copied_views(groups@) =~= g);
                }
            }
            current_name = row.1.clone();
            current_items = Vec::new();
            current_items.push(row.2.clone());
            open = true;
            proof {
                let ng = spec_grouped(rv, (i + 1) as nat);
                assert(ng == g.push(CopiedView { name: rv[i as int].1, items: seq![rv[i as int].2] }));
                assert(views(current_items@) =~= seq![rv[i as int].2]);
                assert(ng.drop_last() =~= g);
            }
            total = total + 1;
        } else {
            if open {
                let ghost before_items = current_items@;
                current_items.push(row.2.clone());
                proof {
                    assert(views(current_items@) =~= views(before_items).push(rv[i as int].2));
                    lemma_item_total_extend(g, rv[i as int].2);
                    let ng = spec_grouped(rv, (i + 1) as nat);
                    assert(ng =~= copied_views(groups@).push(
                        CopiedView { name: crate::sort_task::opt_view(current_name), items: views(current_items@) },
                    ));
                }
                total = total + 1;
            } else {
                proof {
                    assert(g.len() == 0);
                }
            }
        }
        current_id = row.0.clone();
    }
    if open {
        groups.push(CopiedRankGroup { name: current_name, item_ids: current_items });
    }
    proof {
        assert(copied_views(groups@) =~= spec_grouped(rv, rows@.len() as nat));
    }
    if groups.len() == 0 || total != dataset_item_count {
        return Err(invalid_project("来源排序结果没有完整覆盖当前数据表"));
    }
    Ok(groups)
}

/// The groups a copied result starts a new task with: a matrix or slider
/// task gets one unnamed group per item, in order; other modes keep the
/// groups.
pub open spec fn spec_copied_layout(mode: crate::sort_task::SortTaskMode, g: Seq<CopiedView>) -> Seq<CopiedView> {
    if mode == crate::sort_task::SortTaskMode::Matrix || mode == crate::sort_task::SortTaskMode::Slider {
        flat_items(g).map_values(|x: Seq<char>| CopiedView { name: None, items: seq![x] })
    } else {
        g
    }
}

/// All items of the groups, in order.
pub open spec fn flat_items(g: Seq<CopiedView>) -> Seq<Seq<char>>
    decreases g.len(),
{
    if g.len() == 0 {
        Seq::empty()
    } else {
        flat_items(g.drop_last()) + g.last().items
    }
}

/// Lays out the copied groups for a new task of the given mode.
pub fn copied_layout(mode: crate::sort_task::SortTaskMode, groups: Vec<CopiedRankGroup>) -> (r: Vec<CopiedRankGroup>)
    ensures
        copied_views(r@) == spec_copied_layout(mode, copied_views(groups@)),
{
    if mode == crate::sort_task::SortTaskMode::Matrix || mode == crate::sort_task::SortTaskMode::Slider {
        let ghost g = copied_views(groups@);
        let mut items: Vec<String> = Vec::new();
        for k in 0..groups.len()
            invariant
                g == copied_views(groups@),
                views(items@) == flat_items(g.take(k as int)),
        {
            let ghost before = items@;
            let group = &groups[k];
            for j in 0..group.item_ids.len()
                invariant
                    views(items@) == views(before) + views(group.item_ids@).take(j as int),
            {
                let ghost prev = items@;
                items.push(group.item_ids[j].clone());
                assert(views(items@) =~= views(prev).push(group.item_ids@[j as int]@));
                assert(views(items@) =~= views(before) + views(group.item_ids@).take(j + 1));
            }
            proof {
                assert(views(group.item_ids@).take(group.item_ids@.len() as int) =~= views(group.item_ids@));
                assert(g.take(k + 1).drop_last() =~= g.take(k as int));
                assert(g[k as int] == group@);
            }
        }
        assert(g.take(groups@.len() as int) =~= g);
        let mut out: Vec<CopiedRankGroup> = Vec::new();
        for k in 0..items.len()
            invariant
                copied_views(out@) == views(items@).take(k as int).map_values(
                    |x: Seq<char>| CopiedView { name: None, items: seq![x] },
                ),
        {
            let mut single: Vec<String> = Vec::new();
            single.push(items[k].clone());
            let ghost before = out@;
            out.push(CopiedRankGroup { name: None, item_ids: single });
            proof {
                assert(views(single@) =~= seq![items@[k as int]@]);
                assert(copied_views(out@) =~= copied_views(before).push(
                    CopiedView { name: None, items: seq![items@[k as int]@] },
                ));
                assert(copied_views(out@) =~= views(items@).take(k + 1).map_values(
                    |x: Seq<char>| CopiedView { name: None, items: seq![x] },
                ));
            }
        }
        assert(views(items@).take(items@.len() as int) =~= views(items@));
        out
    } else {
        groups
    }
}

/// Whether a task of this mode may be edited by dragging: a matrix or
/// comparison task only once its session is complete, a slider task only
/// once every item is rated, and no confirmed task.
pub fn check_drag_editable(
    mode: crate::sort_task::SortTaskMode,
    session_complete: bool,
    confirmed: bool,
) -> (r: Result<(), AppError>)
    ensures
        (mode == crate::sort_task::SortTaskMode::Matrix || mode == crate::sort_task::SortTaskMode::Comparison)
            && !session_complete ==> (r matches Err(AppError::InvalidInput(m)) && m@
            == "请先完成 1v1 排序，再进行拖拽微调"@),
        mode == crate::sort_task::SortTaskMode::Slider && !session_complete ==> (r matches Err(
            AppError::InvalidInput(m),
        ) && m@ == "请先完成滑杆排序，再进行拖拽微调"@),
        (mode == crate::sort_task::SortTaskMode::Drag || session_complete) && confirmed ==> (r matches Err(
            AppError::InvalidInput(m),
        ) && m@ == "结果已确认并锁定，请先在结果页解锁后再编辑"@),
        (mode == crate::sort_task::SortTaskMode::Drag || session_complete) && !confirmed ==> r is Ok,
{
    match mode {
        crate::sort_task::SortTaskMode::Matrix | crate::sort_task::SortTaskMode::Comparison => {
            if !session_complete {
                return Err(invalid_input("请先完成 1v1 排序，再进行拖拽微调"));
            }
        },
        crate::sort_task::SortTaskMode::Slider => {
            if !session_complete {
                return Err(invalid_input("请先完成滑杆排序，再进行拖拽微调"));
            }
        },
        crate::sort_task::SortTaskMode::Drag => {},
    }
    if confirmed {
        return Err(invalid_input("结果已确认并锁定，请先在结果页解锁后再编辑"));
    }
    Ok(())
}
} // verus!
