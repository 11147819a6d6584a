//! 1v1 insertion sorting: the session keeps the groups already placed, and a
//! queue of candidates, each searched for its place by halving `[low, high)`.

use vstd::prelude::*;

use crate::error::{invalid_input, AppError};
use crate::sort_task::SortTaskMode;
use crate::text::{first_position, join, position_of, views};

verus! {

broadcast use vstd::seq_lib::group_seq_properties;

/// The answer to one comparison between the active candidate (left) and the
/// placed group at the middle of its search range (right).
#[derive(Debug, Clone, Copy, PartialEq, Eq)]
pub enum ComparisonDecision {
    LeftBefore,
    RightBefore,
    Tie,
}

impl ComparisonDecision {
    pub open spec fn spec_name(self) -> Seq<char> {
        match self {
            ComparisonDecision::LeftBefore => "left_before"@,
            ComparisonDecision::RightBefore => "right_before"@,
            ComparisonDecision::Tie => "tie"@,
        }
    }

    /// Storage name of the decision.
    pub fn as_str(self) -> (s: &'static str)
        ensures
            s@ == self.spec_name(),
    {
        match self {
            ComparisonDecision::LeftBefore => "left_before",
            ComparisonDecision::RightBefore => "right_before",
            ComparisonDecision::Tie => "tie",
        }
    }
}

/// A group waiting to be placed, with its search range once it has one.
#[derive(Debug)]
pub struct CandidateState {
    pub group_id: String,
    pub low: Option<usize>,
    pub high: Option<usize>,
}

/// Mathematical view of a waiting candidate.
pub struct CandidateView {
    pub group: Seq<char>,
    pub low: Option<usize>,
    pub high: Option<usize>,
}

impl View for CandidateState {
    type V = CandidateView;

    open spec fn view(&self) -> CandidateView {
        CandidateView { group: self.group_id@, low: self.low, high: self.high }
    }
}

impl CandidateState {
    /// A copy of this candidate.
    pub fn duplicate(&self) -> (c: Self)
        ensures
            c@ == self@,
    {
        CandidateState { group_id: self.group_id.clone(), low: self.low, high: self.high }
    }
}

/// The state of a 1v1 insertion session.
#[derive(Debug)]
pub struct ComparisonSessionState {
    pub sorted_group_ids: Vec<String>,
    pub queue: Vec<CandidateState>,
}

/// Mathematical view of a session: the placed groups and the queue.
#[verifier::ext_equal]
pub struct SessionView {
    pub sorted: Seq<Seq<char>>,
    pub queue: Seq<CandidateView>,
}

pub open spec fn queue_view(q: Seq<CandidateState>) -> Seq<CandidateView> {
    q.map_values(|c: CandidateState| c@)
}

impl View for ComparisonSessionState {
    type V = SessionView;

    open spec fn view(&self) -> SessionView {
        SessionView { sorted: views(self.sorted_group_ids@), queue: queue_view(self.queue@) }
    }
}

/// A candidate's range, when it has both ends, lies within the placed list.
pub open spec fn candidate_wf(c: CandidateView, placed: nat) -> bool {
    (c.low is Some && c.high is Some) ==> c.low->0 <= c.high->0 <= placed
}

/// Every candidate range lies within the placed list.
pub open spec fn session_wf(v: SessionView) -> bool {
    forall|i: int| 0 <= i < v.queue.len() ==> candidate_wf(#[trigger] v.queue[i], v.sorted.len())
}

/// The active candidate given the full range `[0, placed)` if it lacks one.
pub open spec fn prepared(v: SessionView) -> SessionView {
    if v.queue.len() > 0 && (v.queue[0].low is None || v.queue[0].high is None) {
        SessionView {
            sorted: v.sorted,
            queue: v.queue.update(
                0,
                CandidateView {
                    group: v.queue[0].group,
                    low: Some(0usize),
                    high: Some(v.sorted.len() as usize),
                },
            ),
        }
    } else {
        v
    }
}

/// The placed index the active candidate is compared with next, if any.
pub open spec fn spec_midpoint(v: SessionView) -> Option<usize> {
    if v.queue.len() > 0 && v.queue[0].low is Some && v.queue[0].high is Some
        && v.queue[0].low->0 < v.queue[0].high->0 {
        Some((v.queue[0].low->0 + (v.queue[0].high->0 - v.queue[0].low->0) / 2) as usize)
    } else {
        None
    }
}

/// A waiting candidate's range after a group was inserted at `pos`.
pub open spec fn shifted(c: CandidateView, pos: nat) -> CandidateView {
    if c.low is Some && c.high is Some {
        if pos <= c.low->0 {
            CandidateView {
                group: c.group,
                low: Some((c.low->0 + 1) as usize),
                high: Some((c.high->0 + 1) as usize),
            }
        } else if pos < c.high->0 {
            CandidateView { group: c.group, low: c.low, high: Some((c.high->0 + 1) as usize) }
        } else {
            c
        }
    } else {
        c
    }
}

pub open spec fn shift_ranges(q: Seq<CandidateView>, pos: nat) -> Seq<CandidateView> {
    q.map_values(|c: CandidateView| shifted(c, pos))
}

/// The session after answering `d`, for a prepared session with a midpoint.
/// A tie drops the candidate (it joins the right group); otherwise the range
/// is halved, and once empty the candidate is placed at its lower end.
pub open spec fn spec_answer(v: SessionView, d: ComparisonDecision) -> SessionView {
    let mid = spec_midpoint(v)->0;
    let a = v.queue[0];
    if d == ComparisonDecision::Tie {
        prepared(SessionView { sorted: v.sorted, queue: v.queue.drop_first() })
    } else {
        let low = if d == ComparisonDecision::RightBefore { (mid + 1) as usize } else { a.low->0 };
        let high = if d == ComparisonDecision::LeftBefore { mid } else { a.high->0 };
        if low == high {
            prepared(
                SessionView {
                    sorted: v.sorted.insert(low as int, a.group),
                    queue: shift_ranges(v.queue.drop_first(), low as nat),
                },
            )
        } else {
            SessionView {
                sorted: v.sorted,
                queue: v.queue.update(
                    0,
                    CandidateView { group: a.group, low: Some(low), high: Some(high) },
                ),
            }
        }
    }
}

/// The session after skipping: the active candidate moves to the back of the
/// queue when another is waiting.
pub open spec fn spec_skip(v: SessionView) -> SessionView {
    let p = prepared(v);
    if p.queue.len() > 1 {
        prepared(SessionView { sorted: p.sorted, queue: p.queue.drop_first().push(p.queue[0]) })
    } else {
        p
    }
}

/// All group ids a session holds: placed first, then the queue.
pub open spec fn session_ids(v: SessionView) -> Seq<Seq<char>> {
    v.sorted + v.queue.map_values(|c: CandidateView| c.group)
}

/// Number of binary digits of `n`.
pub open spec fn bit_length(n: nat) -> nat
    decreases n,
{
    if n == 0 {
        0
    } else {
        1 + bit_length(n / 2)
    }
}

/// Smallest `r` with `2^r >= value`, and 0 for values up to 1.
pub open spec fn spec_ceil_log2(value: nat) -> nat {
    if value <= 1 {
        0
    } else {
        bit_length((value - 1) as nat)
    }
}

/// Halvings still expected for the candidate at `index` of the queue.
pub open spec fn candidate_estimate(c: CandidateView, placed: nat, index: nat) -> nat {
    if c.low is Some && c.high is Some {
        spec_ceil_log2(
            (if c.high->0 >= c.low->0 { (c.high->0 - c.low->0) as nat } else { 0nat }) + 1,
        )
    } else {
        spec_ceil_log2(placed + index + 1)
    }
}

/// Sum of the estimates of the first `n` queued candidates.
pub open spec fn estimate_prefix(v: SessionView, n: nat) -> nat
    decreases n,
{
    if n == 0 {
        0
    } else {
        estimate_prefix(v, (n - 1) as nat) + candidate_estimate(
            v.queue[n - 1],
            v.sorted.len(),
            (n - 1) as nat,
        )
    }
}

/// Comparisons still expected for the whole queue.
pub open spec fn spec_estimate_remaining(v: SessionView) -> nat {
    estimate_prefix(v, v.queue.len())
}

proof fn lemma_bit_length_bound(n: nat, k: nat)
    requires
        n < vstd::arithmetic::power2::pow2(k),
    ensures
        bit_length(n) <= k,
    decreases k,
{
    if k == 0 {
        vstd::arithmetic::power2::lemma2_to64();
    } else if n > 0 {
        vstd::arithmetic::power2::lemma_pow2_unfold(k);
        lemma_bit_length_bound(n / 2, (k - 1) as nat);
    }
}

proof fn lemma_bit_length_le_64(n: nat)
    requires
        n <= usize::MAX,
    ensures
        bit_length(n) <= 64,
{
    vstd::arithmetic::power2::lemma2_to64();
    vstd::arithmetic::power2::lemma2_to64_rest();
    lemma_bit_length_bound(n, 64);
}

/// Number of halvings that narrow `value` positions down to one.
pub fn ceil_log2(value: usize) -> (r: usize)
    ensures
        r == spec_ceil_log2(value as nat),
        r <= 64,
{
    if value <= 1 {
        return 0;
    }
    let mut span: usize = value - 1;
    let mut r: usize = 0;
    proof {
        lemma_bit_length_le_64((value - 1) as nat);
    }
    while span > 0
        invariant
            r + bit_length(span as nat) == bit_length((value - 1) as nat),
            bit_length((value - 1) as nat) <= 64,
        decreases span,
    {
        span = span / 2;
        r = r + 1;
    }
    r
}

impl ComparisonSessionState {
    /// Starts a session: the first group is placed, every other one waits
    /// without a range, in the given order.
    pub fn initialize(group_ids: Vec<String>) -> (s: Self)
        ensures
            group_ids@.len() == 0 ==> s@.sorted.len() == 0 && s@.queue.len() == 0,
            group_ids@.len() > 0 ==> s@.sorted == seq![group_ids@[0]@],
            group_ids@.len() > 0 ==> s@.queue.len() == group_ids@.len() - 1,
            forall|i: int|
                0 <= i < s@.queue.len() ==> (#[trigger] s@.queue[i]) == (CandidateView {
                    group: group_ids@[i + 1]@,
                    low: None,
                    high: None,
                }),
            session_wf(s@),
            session_ids(s@) == views(group_ids@),
    {
        let mut ids = group_ids;
        let ghost all = ids@;
        let mut sorted: Vec<String> = Vec::new();
        let mut queue: Vec<CandidateState> = Vec::new();
        if ids.len() > 0 {
            let first = ids.remove(0);
            sorted.push(first);
            let n = ids.len();
            let mut i: usize = 0;
            while i < n
                invariant
                    all.len() > 0,
                    n == ids@.len(),
                    ids@ == all.remove(0),
                    0 <= i <= n,
                    sorted@ == seq![all[0]],
                    queue@.len() == i,
                    forall|j: int|
                        0 <= j < i ==> (#[trigger] queue@[j])@ == (CandidateView {
                            group: all[j + 1]@,
                            low: None,
                            high: None,
                        }),
                decreases n - i,
            {
                assert(ids@[i as int] == all[i + 1]);
                queue.push(CandidateState { group_id: ids[i].clone(), low: None, high: None });
                i = i + 1;
            }
        }
        let s = ComparisonSessionState { sorted_group_ids: sorted, queue };
        assert(session_ids(s@) =~= views(all));
        s
    }

    /// Whether every candidate range lies within the placed list.
    pub fn is_well_formed(&self) -> (r: bool)
        ensures
            r == session_wf(self@),
    {
        let placed = self.sorted_group_ids.len();
        for i in 0..self.queue.len()
            invariant
                placed == self@.sorted.len(),
                self@.queue.len() == self.queue@.len(),
                forall|j: int| 0 <= j < i ==> candidate_wf(#[trigger] self@.queue[j], placed as nat),
        {
            match (self.queue[i].low, self.queue[i].high) {
                (Some(low), Some(high)) => {
                    if !(low <= high && high <= placed) {
                        assert(!candidate_wf(self@.queue[i as int], placed as nat));
                        return false;
                    }
                },
                _ => {},
            }
        }
        true
    }

    /// Gives the active candidate the full range when it has none yet.
    pub fn prepare_active(&mut self)
        ensures
            final(self)@ == prepared(old(self)@),
            session_wf(old(self)@) ==> session_wf(final(self)@),
    {
        if self.queue.len() > 0 {
            if self.queue[0].low.is_none() || self.queue[0].high.is_none() {
                let placed = self.sorted_group_ids.len();
                let group_id = self.queue[0].group_id.clone();
                self.queue.set(0, CandidateState { group_id, low: Some(0), high: Some(placed) });
            }
        }
        proof {
            assert(self@ =~= prepared(old(self)@));
        }
    }

    /// The placed index the active candidate is compared with next.
    pub fn midpoint(&self) -> (r: Option<usize>)
        ensures
            r == spec_midpoint(self@),
    {
        if self.queue.len() == 0 {
            return None;
        }
        match (self.queue[0].low, self.queue[0].high) {
            (Some(low), Some(high)) => {
                if low < high {
                    Some(low + (high - low) / 2)
                } else {
                    None
                }
            },
            _ => None,
        }
    }

    /// Answers the current comparison: returns the active candidate's group
    /// and the placed group it was compared with, and moves the session on.
    pub fn answer(&mut self, decision: ComparisonDecision) -> (r: Result<(String, String), AppError>)
        requires
            session_wf(old(self)@),
        ensures
            session_wf(final(self)@),
            spec_midpoint(prepared(old(self)@)) is None ==> (final(self)@ == prepared(old(self)@)
                && (r matches Err(AppError::InvalidInput(m)) && m@ == "当前没有需要判断的比较"@)),
            spec_midpoint(prepared(old(self)@)) matches Some(mid) ==> (r matches Ok((a, b)) && a@
                == prepared(old(self)@).queue[0].group && b@ == prepared(old(self)@).sorted[mid as int]
                && final(self)@ == spec_answer(prepared(old(self)@), decision)),
    {
        self.prepare_active();
        let ghost p = self@;
        let mid = match self.midpoint() {
            Some(m) => m,
            None => {
                return Err(invalid_input("当前没有需要判断的比较"));
            },
        };
        let active_group_id = self.queue[0].group_id.clone();
        let right_group_id = self.sorted_group_ids[mid].clone();
        match decision {
            ComparisonDecision::Tie => {
                self.queue.remove(0);
                proof {
                    assert(self@ =~= SessionView { sorted: p.sorted, queue: p.queue.drop_first() });
                }
                self.prepare_active();
            },
            _ => {
                let (low, high) = match decision {
                    ComparisonDecision::LeftBefore => (self.queue[0].low.unwrap(), mid),
                    _ => (mid + 1, self.queue[0].high.unwrap()),
                };
                if low == high {
                    let completed = self.queue.remove(0);
                    self.sorted_group_ids.insert(low, completed.group_id);
                    proof {
                        assert(views(self.sorted_group_ids@) =~= p.sorted.insert(low as int, p.queue[0].group));
                        assert(queue_view(self.queue@) =~= p.queue.drop_first());
                        assert forall|i: int| 0 <= i < self@.queue.len() implies candidate_wf(
                            #[trigger] self@.queue[i],
                            (self@.sorted.len() - 1) as nat,
                        ) by {
                            assert(self@.queue[i] == p.queue[i + 1]);
                        }
                    }
                    adjust_deferred_ranges(self, low);
                    self.prepare_active();
                } else {
                    self.queue.set(
                        0,
                        CandidateState { group_id: active_group_id.clone(), low: Some(low), high: Some(high) },
                    );
                    proof {
                        assert(self@ =~= spec_answer(p, decision));
                    }
                }
            },
        }
        Ok((active_group_id, right_group_id))
    }

    /// Records that group `source` was merged into group `target`: placed
    /// occurrences of `source` become `target` (each group kept once, at its
    /// first place), and `source` leaves the queue.
    pub fn after_merge(&mut self, source: &String, target: &String)
        ensures
            final(self)@.sorted == dedup(replace_id(old(self)@.sorted, source@, target@)),
            final(self)@.queue == drop_group(old(self)@.queue, source@),
    {
        let ghost replaced = replace_id(self@.sorted, source@, target@);
        let mut sorted: Vec<String> = Vec::new();
        let n = self.sorted_group_ids.len();
        for i in 0..n
            invariant
                n == self@.sorted.len(),
                replaced == replace_id(self@.sorted, source@, target@),
                self@ == old(self)@,
                views(sorted@) == dedup(replaced.take(i as int)),
        {
            let g = if self.sorted_group_ids[i] == *source {
                target.clone()
            } else {
                self.sorted_group_ids[i].clone()
            };
            assert(g@ == replaced[i as int]);
            assert(replaced.take(i + 1).drop_last() =~= replaced.take(i as int));
            if !crate::text::contains_string(&sorted, &g) {
                sorted.push(g);
                assert(views(sorted@) =~= dedup(replaced.take(i as int)).push(g@));
            }
        }
        assert(replaced.take(n as int) =~= replaced);
        let mut queue: Vec<CandidateState> = Vec::new();
        let m = self.queue.len();
        for i in 0..m
            invariant
                m == self@.queue.len(),
                self@ == old(self)@,
                queue_view(queue@) == drop_group(self@.queue.take(i as int), source@),
        {
            assert(self@.queue.take(i + 1).drop_last() =~= self@.queue.take(i as int));
            assert(self@.queue[i as int] == self.queue@[i as int]@);
            if self.queue[i].group_id != *source {
                let c = self.queue[i].duplicate();
                queue.push(c);
                assert(queue_view(queue@) =~= drop_group(self@.queue.take(i as int), source@).push(c@));
            }
        }
        assert(self@.queue.take(m as int) =~= self@.queue);
        self.sorted_group_ids = sorted;
        self.queue = queue;
    }

    /// Once every candidate is placed, adopts `order` as the placed list;
    /// reports whether it did.
    pub fn replace_completed_order(&mut self, order: &Vec<String>) -> (changed: bool)
        ensures
            changed == (old(self)@.queue.len() == 0),
            changed ==> final(self)@.sorted == views(order@) && final(self)@.queue == old(self)@.queue,
            !changed ==> final(self)@ == old(self)@,
    {
        if self.queue.len() == 0 {
            self.sorted_group_ids = crate::text::clone_strings(order);
            true
        } else {
            false
        }
    }

    /// Skips the current candidate: it waits behind the others, keeping its
    /// range.
    pub fn skip(&mut self)
        requires
            session_wf(old(self)@),
        ensures
            final(self)@ == spec_skip(old(self)@),
            session_wf(final(self)@),
            session_ids(final(self)@).to_multiset() == session_ids(old(self)@).to_multiset(),
    {
        self.prepare_active();
        let ghost p = self@;
        proof {
            lemma_prepared_keeps_ids(old(self)@);
        }
        if self.queue.len() > 1 {
            let skipped = self.queue.remove(0);
            self.queue.push(skipped);
            proof {
                assert(self@ =~= SessionView { sorted: p.sorted, queue: p.queue.drop_first().push(p.queue[0]) });
                assert forall|i: int| 0 <= i < self@.queue.len() implies candidate_wf(
                    #[trigger] self@.queue[i],
                    self@.sorted.len(),
                ) by {
                    if i < self@.queue.len() - 1 {
                        assert(self@.queue[i] == p.queue[i + 1]);
                    }
                }
                lemma_rotate_keeps_ids(p);
                lemma_prepared_keeps_ids(self@);
            }
            self.prepare_active();
        }
    }
}

/// `s` with every occurrence of `from` replaced by `to`.
pub open spec fn replace_id(s: Seq<Seq<char>>, from: Seq<char>, to: Seq<char>) -> Seq<Seq<char>> {
    s.map_values(|x: Seq<char>| if x == from { to } else { x })
}

/// `s` keeping only the first occurrence of each element.
pub open spec fn dedup(s: Seq<Seq<char>>) -> Seq<Seq<char>>
    decreases s.len(),
{
    if s.len() == 0 {
        s
    } else {
        let d = dedup(s.drop_last());
        if d.contains(s.last()) {
            d
        } else {
            d.push(s.last())
        }
    }
}

/// The queue without the candidates of group `g`.
pub open spec fn drop_group(q: Seq<CandidateView>, g: Seq<char>) -> Seq<CandidateView>
    decreases q.len(),
{
    if q.len() == 0 {
        q
    } else if q.last().group == g {
        drop_group(q.drop_last(), g)
    } else {
        drop_group(q.drop_last(), g).push(q.last())
    }
}

/// Answering with a preference keeps every group of the session, as often as
/// before; answering with a tie removes the active candidate, whose members
/// join the group it was compared with.
pub proof fn lemma_answer_keeps_groups(v: SessionView, d: ComparisonDecision)
    requires
        session_wf(v),
        spec_midpoint(prepared(v)) is Some,
    ensures
        d != ComparisonDecision::Tie ==> session_ids(spec_answer(prepared(v), d)).to_multiset()
            == session_ids(v).to_multiset(),
        d == ComparisonDecision::Tie ==> session_ids(spec_answer(prepared(v), d)).to_multiset()
            == session_ids(v).to_multiset().remove(prepared(v).queue[0].group),
{
    broadcast use vstd::multiset::group_multiset_axioms;

    let p = prepared(v);
    lemma_prepared_keeps_ids(v);
    let r = spec_answer(p, d);
    let qg = p.queue.map_values(|c: CandidateView| c.group);
    let a = p.queue[0].group;
    assert(qg[0] == a);
    vstd::seq_lib::to_multiset_remove(qg, 0);
    assert(qg.remove(0) =~= qg.drop_first());
    vstd::seq_lib::lemma_multiset_commutative(p.sorted, qg);
    vstd::seq_lib::to_multiset_contains(qg, a);
    let mid = spec_midpoint(p)->0;
    if d == ComparisonDecision::Tie {
        let t = SessionView { sorted: p.sorted, queue: p.queue.drop_first() };
        lemma_prepared_keeps_ids(t);
        assert(t.queue.map_values(|c: CandidateView| c.group) =~= qg.drop_first());
        vstd::seq_lib::lemma_multiset_commutative(p.sorted, qg.drop_first());
        assert(session_ids(r).to_multiset() =~= session_ids(v).to_multiset().remove(a));
    } else {
        let low = if d == ComparisonDecision::RightBefore { (mid + 1) as usize } else { p.queue[0].low->0 };
        let high = if d == ComparisonDecision::LeftBefore { mid } else { p.queue[0].high->0 };
        if low == high {
            let t = SessionView {
                sorted: p.sorted.insert(low as int, a),
                queue: shift_ranges(p.queue.drop_first(), low as nat),
            };
            lemma_prepared_keeps_ids(t);
            assert(t.queue.map_values(|c: CandidateView| c.group) =~= qg.drop_first());
            vstd::seq_lib::to_multiset_insert(p.sorted, low as int, a);
            vstd::seq_lib::lemma_multiset_commutative(t.sorted, qg.drop_first());
            assert(session_ids(r).to_multiset() =~= session_ids(v).to_multiset());
        } else {
            assert(r.queue.map_values(|c: CandidateView| c.group) =~= qg);
            assert(session_ids(r) =~= session_ids(p));
        }
    }
}

/// A preference either places the active candidate, at a position within
/// its range, or strictly narrows that range: every answer makes progress.
pub proof fn lemma_answer_progress(v: SessionView, d: ComparisonDecision)
    requires
        session_wf(v),
        spec_midpoint(prepared(v)) is Some,
        d != ComparisonDecision::Tie,
    ensures
        ({
            let p = prepared(v);
            let r = spec_answer(p, d);
            let lo = p.queue[0].low->0;
            let hi = p.queue[0].high->0;
            ||| (r.queue.len() == p.queue.len() - 1 && exists|pos: int|
                lo <= pos <= hi && r.sorted == #[trigger] p.sorted.insert(pos, p.queue[0].group))
            ||| (r.queue.len() == p.queue.len() && r.sorted == p.sorted && r.queue[0].group
                == p.queue[0].group && r.queue[0].high->0 - r.queue[0].low->0 < hi - lo)
        }),
{
    let p = prepared(v);
    let mid = spec_midpoint(p)->0;
    let low = if d == ComparisonDecision::RightBefore { (mid + 1) as usize } else { p.queue[0].low->0 };
    let high = if d == ComparisonDecision::LeftBefore { mid } else { p.queue[0].high->0 };
    if low == high {
        let t = SessionView {
            sorted: p.sorted.insert(low as int, p.queue[0].group),
            queue: shift_ranges(p.queue.drop_first(), low as nat),
        };
        assert(prepared(t).sorted == p.sorted.insert(low as int, p.queue[0].group));
    }
}

/// Giving the active candidate a range keeps the same group ids.
proof fn lemma_prepared_keeps_ids(v: SessionView)
    ensures
        session_ids(prepared(v)) == session_ids(v),
{
    assert(session_ids(prepared(v)) =~= session_ids(v));
}

/// `s` is ordered by `key`: each group's key is below those of the groups
/// after it.
pub open spec fn ordered_by(s: Seq<Seq<char>>, key: spec_fn(Seq<char>) -> int) -> bool {
    forall|i: int, j: int| 0 <= i < j < s.len() ==> key(#[trigger] s[i]) < key(#[trigger] s[j])
}

/// The candidate's place by `key` lies within its range, when it has one:
/// the placed groups before the range come before it, those from the range's
/// end on come after it.
pub open spec fn place_in_range(s: Seq<Seq<char>>, c: CandidateView, key: spec_fn(Seq<char>) -> int) -> bool {
    (c.low is Some && c.high is Some) ==> {
        &&& forall|i: int| 0 <= i < c.low->0 ==> key(#[trigger] s[i]) < key(c.group)
        &&& forall|i: int| c.high->0 <= i < s.len() ==> key(c.group) < key(#[trigger] s[i])
    }
}

/// A session on its way to the order `key`: the placed list is ordered by
/// it, the active candidate's range holds its place, and no other candidate
/// holds a range yet.
pub open spec fn insertion_ranked(v: SessionView, key: spec_fn(Seq<char>) -> int) -> bool {
    &&& ordered_by(v.sorted, key)
    &&& v.queue.len() > 0 ==> place_in_range(v.sorted, v.queue[0], key)
    &&& forall|i: int| 1 <= i < v.queue.len() ==> (#[trigger] v.queue[i]).low is None && v.queue[i].high is None
}

/// Answer `d` to the comparison of `left` (the candidate) with `right` (the
/// placed group) agrees with the order `key`.
pub open spec fn answer_agrees(
    key: spec_fn(Seq<char>) -> int,
    d: ComparisonDecision,
    left: Seq<char>,
    right: Seq<char>,
) -> bool {
    ||| d == ComparisonDecision::LeftBefore && key(left) < key(right)
    ||| d == ComparisonDecision::RightBefore && key(right) < key(left)
}

/// A fresh session (at most one placed group, no candidate with a range)
/// is on its way to any order.
pub proof fn lemma_fresh_session_ranked(v: SessionView, key: spec_fn(Seq<char>) -> int)
    requires
        v.sorted.len() <= 1,
        forall|i: int| 0 <= i < v.queue.len() ==> (#[trigger] v.queue[i]).low is None && v.queue[i].high is None,
    ensures
        insertion_ranked(v, key),
{
}

/// Giving the active candidate its full range keeps a session on its way to
/// the order.
proof fn lemma_prepared_ranked(v: SessionView, key: spec_fn(Seq<char>) -> int)
    requires
        insertion_ranked(v, key),
        v.sorted.len() <= usize::MAX,
    ensures
        insertion_ranked(prepared(v), key),
{
    let p = prepared(v);
    if v.queue.len() > 0 && (v.queue[0].low is None || v.queue[0].high is None) {
        assert forall|i: int| 1 <= i < p.queue.len() implies (#[trigger] p.queue[i]).low is None
            && p.queue[i].high is None by {
            assert(p.queue[i] == v.queue[i]);
        }
        assert(p.sorted == v.sorted);
        assert(p.queue[0].low == Some(0usize));
        assert(p.queue[0].high == Some(v.sorted.len() as usize));
        assert(place_in_range(p.sorted, p.queue[0], key));
    }
}

/// Inserting `g` at `pos` of an ordered list, where the groups before `pos`
/// come before `g` and those from `pos` on come after it, keeps the list
/// ordered.
proof fn lemma_insert_ordered(s: Seq<Seq<char>>, pos: int, g: Seq<char>, key: spec_fn(Seq<char>) -> int)
    requires
        0 <= pos <= s.len(),
        ordered_by(s, key),
        forall|i: int| 0 <= i < pos ==> key(#[trigger] s[i]) < key(g),
        forall|i: int| pos <= i < s.len() ==> key(g) < key(#[trigger] s[i]),
    ensures
        ordered_by(s.insert(pos, g), key),
{
    let t = s.insert(pos, g);
    assert forall|i: int, j: int| 0 <= i < j < t.len() implies key(#[trigger] t[i]) < key(#[trigger] t[j]) by {
        if j < pos {
            assert(t[i] == s[i] && t[j] == s[j]);
        } else if j == pos {
            assert(t[i] == s[i]);
        } else if i < pos {
            assert(t[i] == s[i] && t[j] == s[j - 1]);
            assert(key(s[i]) < key(g));
        } else if i == pos {
            assert(t[j] == s[j - 1]);
        } else {
            assert(t[i] == s[i - 1] && t[j] == s[j - 1]);
        }
    }
}

/// The central law of insertion sorting: an answer that agrees with an
/// order `key` keeps the session on its way to that order. The placed list
/// stays ordered by `key`, and the active candidate's range still holds its
/// place. (Skipping a candidate gives it a range while others wait, which
/// this law leaves out.)
pub proof fn lemma_agreeing_answer_keeps_ranking(v: SessionView, d: ComparisonDecision, key: spec_fn(Seq<char>) -> int)
    requires
        session_wf(v),
        insertion_ranked(v, key),
        v.sorted.len() < usize::MAX,
        spec_midpoint(prepared(v)) is Some,
        answer_agrees(
            key,
            d,
            prepared(v).queue[0].group,
            prepared(v).sorted[spec_midpoint(prepared(v))->0 as int],
        ),
    ensures
        insertion_ranked(spec_answer(prepared(v), d), key),
{
    lemma_prepared_ranked(v, key);
    let p = prepared(v);
    let a = p.queue[0];
    let g = a.group;
    let mid = spec_midpoint(p)->0;
    let lo = a.low->0;
    let hi = a.high->0;
    assert(lo <= mid < hi <= p.sorted.len());
    let s = p.sorted;
    let low = if d == ComparisonDecision::RightBefore { (mid + 1) as usize } else { lo };
    let high = if d == ComparisonDecision::LeftBefore { mid } else { hi };
    assert forall|i: int| 0 <= i < low implies key(#[trigger] s[i]) < key(g) by {
        if d == ComparisonDecision::RightBefore && i >= lo {
            if i < mid {
                assert(key(s[i]) < key(s[mid as int]));
            }
        }
    }
    assert forall|i: int| high <= i < s.len() implies key(g) < key(#[trigger] s[i]) by {
        if d == ComparisonDecision::LeftBefore && i < hi {
            if i > mid {
                assert(key(s[mid as int]) < key(s[i]));
            }
        }
    }
    if low == high {
        lemma_insert_ordered(s, low as int, g, key);
        let t = SessionView {
            sorted: s.insert(low as int, g),
            queue: shift_ranges(p.queue.drop_first(), low as nat),
        };
        assert forall|i: int| 0 <= i < t.queue.len() implies (#[trigger] t.queue[i]).low is None
            && t.queue[i].high is None by {
            assert(t.queue[i] == shifted(p.queue[i + 1], low as nat));
            assert(p.queue[i + 1].low is None);
        }
        lemma_prepared_ranked(t, key);
    } else {
        let r = spec_answer(p, d);
        assert forall|i: int| 1 <= i < r.queue.len() implies (#[trigger] r.queue[i]).low is None
            && r.queue[i].high is None by {
            assert(r.queue[i] == p.queue[i]);
        }
    }
}

/// Once no candidate waits, a session on its way to the order `key` has
/// reached it: the placed list is ordered by `key`.
pub proof fn lemma_finished_session_ordered(v: SessionView, key: spec_fn(Seq<char>) -> int)
    requires
        insertion_ranked(v, key),
        v.queue.len() == 0,
    ensures
        ordered_by(v.sorted, key),
{
}

/// The estimate for the candidate at `i` of the queue.
pub open spec fn estimate_term(v: SessionView, i: int) -> nat {
    candidate_estimate(v.queue[i], v.sorted.len(), i as nat)
}

/// Larger numbers have at least as many binary digits.
proof fn lemma_bit_length_monotone(a: nat, b: nat)
    requires
        a <= b,
    ensures
        bit_length(a) <= bit_length(b),
    decreases b,
{
    if a > 0 {
        lemma_bit_length_monotone(a / 2, b / 2);
    }
}

/// Two sessions whose estimates agree from the second candidate on differ in
/// their totals only by the first candidate's estimate.
proof fn lemma_estimate_same_tail(a: SessionView, b: SessionView, n: nat)
    requires
        1 <= n <= a.queue.len(),
        a.queue.len() == b.queue.len(),
        forall|i: int| 1 <= i < n ==> #[trigger] estimate_term(a, i) == estimate_term(b, i),
    ensures
        estimate_prefix(a, n) - estimate_term(a, 0) == estimate_prefix(b, n) - estimate_term(b, 0),
    decreases n,
{
    if n > 1 {
        lemma_estimate_same_tail(a, b, (n - 1) as nat);
        assert(estimate_term(a, n - 1) == estimate_term(b, n - 1));
        assert(estimate_prefix(a, n) == estimate_prefix(a, (n - 1) as nat) + estimate_term(a, n - 1));
        assert(estimate_prefix(b, n) == estimate_prefix(b, (n - 1) as nat) + estimate_term(b, n - 1));
    } else {
        assert(estimate_prefix(a, 0) == 0 && estimate_prefix(b, 0) == 0);
        assert(estimate_prefix(a, 1) == estimate_term(a, 0));
        assert(estimate_prefix(b, 1) == estimate_term(b, 0));
    }
}

/// A session whose estimates are those of another from its second candidate
/// on totals that session's estimate without its first candidate.
proof fn lemma_estimate_shifted(a: SessionView, b: SessionView, m: nat)
    requires
        a.queue.len() >= 1,
        b.queue.len() == a.queue.len() - 1,
        m <= b.queue.len(),
        forall|j: int| 0 <= j < b.queue.len() ==> #[trigger] estimate_term(b, j) == estimate_term(a, j + 1),
    ensures
        estimate_prefix(b, m) + estimate_term(a, 0) == estimate_prefix(a, m + 1),
    decreases m,
{
    if m > 0 {
        lemma_estimate_shifted(a, b, (m - 1) as nat);
        assert(estimate_term(b, m - 1) == estimate_term(a, m as int));
        assert(estimate_prefix(b, m) == estimate_prefix(b, (m - 1) as nat) + estimate_term(b, m - 1));
        assert(estimate_prefix(a, m + 1) == estimate_prefix(a, m) + estimate_term(a, m as int));
    } else {
        assert(estimate_prefix(b, 0) == 0 && estimate_prefix(a, 0) == 0);
        assert(estimate_prefix(a, 1) == estimate_term(a, 0));
    }
}

/// Giving the active candidate its full range leaves the estimate as it is.
proof fn lemma_prepared_estimate(v: SessionView)
    requires
        v.sorted.len() <= usize::MAX,
    ensures
        spec_estimate_remaining(prepared(v)) == spec_estimate_remaining(v),
{
    let p = prepared(v);
    if v.queue.len() > 0 && (v.queue[0].low is None || v.queue[0].high is None) {
        assert forall|i: int| 1 <= i < v.queue.len() implies #[trigger] estimate_term(p, i) == estimate_term(v, i) by {
            assert(p.queue[i] == v.queue[i]);
        }
        lemma_estimate_same_tail(p, v, v.queue.len());
        assert(estimate_term(p, 0) == estimate_term(v, 0));
    }
}

/// Each answer that is no tie lowers the estimate of comparisons still
/// expected, while no candidate but the active one holds a range: so the
/// answers a session can take are at most its first estimate.
#[verifier::spinoff_prover]
#[verifier::rlimit(60)]
pub proof fn lemma_answer_lowers_estimate(v: SessionView, d: ComparisonDecision)
    requires
        session_wf(v),
        spec_midpoint(prepared(v)) is Some,
        d != ComparisonDecision::Tie,
        v.sorted.len() < usize::MAX,
        forall|i: int| 1 <= i < v.queue.len() ==> (#[trigger] v.queue[i]).low is None && v.queue[i].high is None,
    ensures
        spec_estimate_remaining(spec_answer(prepared(v), d)) < spec_estimate_remaining(v),
{
    lemma_prepared_estimate(v);
    let p = prepared(v);
    assert forall|i: int| 1 <= i < p.queue.len() implies (#[trigger] p.queue[i]).low is None && p.queue[i].high is None by {
        assert(p.queue[i] == v.queue[i]);
    }
    let a = p.queue[0];
    let mid = spec_midpoint(p)->0;
    let lo = a.low->0;
    let hi = a.high->0;
    let len = p.sorted.len();
    assert(lo <= mid < hi <= len);
    let low = if d == ComparisonDecision::RightBefore { (mid + 1) as usize } else { lo };
    let high = if d == ComparisonDecision::LeftBefore { mid } else { hi };
    let w = (hi - lo) as nat;
    assert(estimate_term(p, 0) == spec_ceil_log2(w + 1));
    assert(spec_ceil_log2(w + 1) == bit_length(w));
    let r = spec_answer(p, d);
    if low == high {
        let t = SessionView {
            sorted: p.sorted.insert(low as int, a.group),
            queue: shift_ranges(p.queue.drop_first(), low as nat),
        };
        assert(r == prepared(t));
        assert forall|j: int| 0 <= j < r.queue.len() implies #[trigger] estimate_term(r, j) == estimate_term(p, j + 1) by {
            assert(t.queue[j] == shifted(p.queue[j + 1], low as nat));
            assert(t.queue[j] == p.queue[j + 1]);
            if j == 0 {
                assert(r.queue[0].low == Some(0usize));
                assert(r.queue[0].high == Some((len + 1) as usize));
            } else {
                assert(r.queue[j] == t.queue[j]);
            }
        }
        lemma_estimate_shifted(p, r, r.queue.len());
        assert(w >= 1);
        assert(bit_length(w) >= 1);
    } else {
        let w2 = (high - low) as nat;
        assert(w2 <= w / 2);
        lemma_bit_length_monotone(w2, w / 2);
        assert(bit_length(w) == 1 + bit_length(w / 2));
        assert(estimate_term(r, 0) == spec_ceil_log2(w2 + 1));
        assert forall|i: int| 1 <= i < p.queue.len() implies #[trigger] estimate_term(p, i) == estimate_term(r, i) by {
            assert(r.queue[i] == p.queue[i]);
        }
        lemma_estimate_same_tail(p, r, p.queue.len());
    }
}

/// Moving the first candidate to the back keeps the same group ids.
proof fn lemma_rotate_keeps_ids(p: SessionView)
    requires
        p.queue.len() > 1,
    ensures
        session_ids(SessionView { sorted: p.sorted, queue: p.queue.drop_first().push(p.queue[0]) }).to_multiset()
            == session_ids(p).to_multiset(),
{
    let q = p.queue.map_values(|c: CandidateView| c.group);
    let r = SessionView { sorted: p.sorted, queue: p.queue.drop_first().push(p.queue[0]) };
    let q2 = r.queue.map_values(|c: CandidateView| c.group);
    assert(q2 =~= q.drop_first().push(q[0]));
    assert(q =~= seq![q[0]] + q.drop_first());
    vstd::seq_lib::lemma_multiset_commutative(seq![q[0]], q.drop_first());
    assert(q.drop_first().push(q[0]) =~= q.drop_first() + seq![q[0]]);
    vstd::seq_lib::lemma_multiset_commutative(p.sorted, q2);
    vstd::seq_lib::lemma_multiset_commutative(p.sorted, q);
}

/// Shifts the ranges of waiting candidates after a group was inserted at
/// `insertion_position` of the placed list.
pub fn adjust_deferred_ranges(state: &mut ComparisonSessionState, insertion_position: usize)
    requires
        old(state)@.sorted.len() >= 1,
        forall|i: int|
            0 <= i < old(state)@.queue.len() ==> candidate_wf(
                #[trigger] old(state)@.queue[i],
                (old(state)@.sorted.len() - 1) as nat,
            ),
    ensures
        final(state)@.sorted == old(state)@.sorted,
        final(state)@.queue == shift_ranges(old(state)@.queue, insertion_position as nat),
        session_wf(final(state)@),
{
    let n = state.queue.len();
    let ghost q0 = state@.queue;
    let placed = state.sorted_group_ids.len();
    for i in 0..n
        invariant
            n == state.queue@.len(),
            q0.len() == n,
            placed == state@.sorted.len(),
            state@.sorted == old(state)@.sorted,
            q0 == old(state)@.queue,
            placed >= 1,
            forall|j: int| 0 <= j < n ==> candidate_wf(#[trigger] q0[j], (placed - 1) as nat),
            forall|j: int| 0 <= j < i ==> #[trigger] state@.queue[j] == shifted(q0[j], insertion_position as nat),
            forall|j: int| i <= j < n ==> #[trigger] state@.queue[j] == q0[j],
    {
        let low = state.queue[i].low;
        let high = state.queue[i].high;
        let ghost before = state@.queue;
        assert(state@.queue[i as int] == q0[i as int]);
        if let (Some(l), Some(h)) = (low, high) {
            if insertion_position <= l {
                let g = state.queue[i].group_id.clone();
                state.queue.set(i, CandidateState { group_id: g, low: Some(l + 1), high: Some(h + 1) });
            } else if insertion_position < h {
                let g = state.queue[i].group_id.clone();
                state.queue.set(i, CandidateState { group_id: g, low: Some(l), high: Some(h + 1) });
            }
        }
        assert(state@.queue =~= before.update(i as int, shifted(q0[i as int], insertion_position as nat)));
    }
    proof {
        assert(state@.queue =~= shift_ranges(q0, insertion_position as nat));
    }
}

/// Comparisons the session still expects: for each waiting candidate, the
/// halvings its range needs, or for one without a range, the halvings of the
/// list it would face.
pub fn estimate_remaining(state: &ComparisonSessionState) -> (r: usize)
    requires
        session_wf(state@),
        state@.queue.len() * 64 <= usize::MAX,
        state@.sorted.len() + state@.queue.len() < usize::MAX,
    ensures
        r == spec_estimate_remaining(state@),
{
    let placed = state.sorted_group_ids.len();
    let n = state.queue.len();
    let mut total: usize = 0;
    for i in 0..n
        invariant
            placed == state@.sorted.len(),
            n == state@.queue.len(),
            n * 64 <= usize::MAX,
            placed + n < usize::MAX,
            session_wf(state@),
            total == estimate_prefix(state@, i as nat),
            total <= 64 * i,
    {
        assert(state@.queue[i as int] == state.queue@[i as int]@);
        let term = match (state.queue[i].low, state.queue[i].high) {
            (Some(low), Some(high)) => {
                assert(candidate_wf(state@.queue[i as int], placed as nat));
                ceil_log2(high - low + 1)
            },
            _ => ceil_log2(placed + i + 1),
        };
        total = total + term;
    }
    total
}

/// Share of `done` in `total`, in whole percent; 100 when there is nothing
/// to do.
pub open spec fn spec_progress_percent(done: nat, total: nat) -> nat {
    if total == 0 {
        100
    } else if done * 100 > usize::MAX {
        (usize::MAX as nat) / total
    } else {
        (done * 100) / total
    }
}

/// Progress as a whole percentage, as the workspaces report it.
pub fn progress_percent(done: usize, total: usize) -> (r: usize)
    ensures
        r == spec_progress_percent(done as nat, total as nat),
{
    if total == 0 {
        100
    } else {
        match done.checked_mul(100) {
            Some(scaled) => scaled / total,
            None => usize::MAX / total,
        }
    }
}

/// The engine that runs a 1v1 task: the comparison matrix, or insertion by
/// halving.
#[derive(Debug, Clone, Copy, PartialEq, Eq, Structural)]
pub enum ComparisonEngine {
    Matrix,
    Insertion,
}

/// 1v1 sorting: which engine a task uses.
pub struct ComparisonService;

impl ComparisonService {
    /// The engine of a task's mode; `InvalidInput` for a task that is no
    /// 1v1 task.
    pub fn engine(mode: SortTaskMode) -> (r: Result<ComparisonEngine, AppError>)
        ensures
            mode == SortTaskMode::Matrix ==> r matches Ok(ComparisonEngine::Matrix),
            mode == SortTaskMode::Comparison ==> r matches Ok(ComparisonEngine::Insertion),
            mode != SortTaskMode::Matrix && mode != SortTaskMode::Comparison ==> (r matches Err(
                AppError::InvalidInput(m),
            ) && m@ == "该任务不是 1v1 排序任务"@),
    {
        match mode {
            SortTaskMode::Matrix => Ok(ComparisonEngine::Matrix),
            SortTaskMode::Comparison => Ok(ComparisonEngine::Insertion),
            _ => Err(invalid_input("该任务不是 1v1 排序任务")),
        }
    }
}

/// The history label of a 1v1 judgment: the action, then the method.
pub open spec fn spec_history_label(mode: SortTaskMode, action: Seq<char>) -> Seq<char> {
    action + (if mode == SortTaskMode::Matrix {
        "1v1 矩阵排序"@
    } else {
        "1v1 传递排序"@
    }) + "判断"@
}

/// The history label of a 1v1 judgment: the action, then the method.
pub fn comparison_history_label(mode: SortTaskMode, action: &str) -> (r: String)
    ensures
        r@ == spec_history_label(mode, action@),
{
    let method = match mode {
        SortTaskMode::Matrix => "1v1 矩阵排序",
        _ => "1v1 传递排序",
    };
    crate::text::concat3(action, method, "判断")
}


/// Items in `group` by the table of active groups (ids and their sizes):
/// those of its first entry, 0 for a group the table lacks.
pub open spec fn group_size(ids: Seq<String>, sizes: Seq<usize>, group: Seq<char>) -> nat {
    match first_position(ids, group) {
        Some(i) => sizes[i] as nat,
        None => 0,
    }
}

/// Items in all of `groups`, by the table of active groups.
pub open spec fn total_size(ids: Seq<String>, sizes: Seq<usize>, groups: Seq<Seq<char>>) -> nat
    decreases groups.len(),
{
    if groups.len() == 0 {
        0
    } else {
        total_size(ids, sizes, groups.drop_last()) + group_size(ids, sizes, groups.last())
    }
}

/// The groups of the waiting candidates, in queue order.
pub open spec fn queue_groups(q: Seq<CandidateView>) -> Seq<Seq<char>> {
    q.map_values(|c: CandidateView| c.group)
}

/// A prefix of the groups holds no more items than all of them.
proof fn lemma_total_size_prefix(ids: Seq<String>, sizes: Seq<usize>, groups: Seq<Seq<char>>, j: int)
    requires
        0 <= j <= groups.len(),
    ensures
        total_size(ids, sizes, groups.take(j)) <= total_size(ids, sizes, groups),
    decreases groups.len(),
{
    if j < groups.len() {
        assert(groups.drop_last().take(j) =~= groups.take(j));
        lemma_total_size_prefix(ids, sizes, groups.drop_last(), j);
    } else {
        assert(groups.take(j) =~= groups);
    }
}

/// Items of `group` by the table of active groups.
fn size_of_group(ids: &Vec<String>, sizes: &Vec<usize>, group: &String) -> (r: usize)
    requires
        ids.len() == sizes.len(),
    ensures
        r == group_size(ids@, sizes@, group@),
{
    match position_of(ids, group) {
        Some(i) => sizes[i],
        None => 0,
    }
}

/// Items in the groups listed, summed by the table of active groups.
fn sum_sizes(ids: &Vec<String>, sizes: &Vec<usize>, groups: &Vec<String>) -> (r: usize)
    requires
        ids.len() == sizes.len(),
        total_size(ids@, sizes@, views(groups@)) <= usize::MAX,
    ensures
        r == total_size(ids@, sizes@, views(groups@)),
{
    let mut total: usize = 0;
    for k in 0..groups.len()
        invariant
            ids.len() == sizes.len(),
            total_size(ids@, sizes@, views(groups@)) <= usize::MAX,
            total == total_size(ids@, sizes@, views(groups@).take(k as int)),
    {
        let ghost g = views(groups@);
        assert(g.take(k + 1).drop_last() =~= g.take(k as int));
        proof {
            lemma_total_size_prefix(ids@, sizes@, g, k + 1);
        }
        let n = size_of_group(ids, sizes, &groups[k]);
        total = total + n;
    }
    assert(views(groups@).take(groups.len() as int) =~= views(groups@));
    total
}

impl ComparisonSessionState {
    /// Items already placed and items still waiting, counted by the table of
    /// active groups: the sums over the placed groups and over the queue.
    pub fn placement_counts(&self, ids: &Vec<String>, sizes: &Vec<usize>) -> (r: (usize, usize))
        requires
            ids.len() == sizes.len(),
            total_size(ids@, sizes@, self@.sorted) + total_size(ids@, sizes@, queue_groups(self@.queue))
                <= usize::MAX,
        ensures
            r.0 == total_size(ids@, sizes@, self@.sorted),
            r.1 == total_size(ids@, sizes@, queue_groups(self@.queue)),
    {
        let located = sum_sizes(ids, sizes, &self.sorted_group_ids);
        let mut waiting: Vec<String> = Vec::new();
        for k in 0..self.queue.len()
            invariant
                waiting@.len() == k,
                k <= self@.queue.len(),
                views(waiting@) == queue_groups(self@.queue).take(k as int),
        {
            assert(self@.queue[k as int] == self.queue@[k as int]@);
            let g = self.queue[k].group_id.clone();
            assert(g@ == queue_groups(self@.queue)[k as int]);
            waiting.push(g);
            assert(views(waiting@)[k as int] == g@);
            assert(views(waiting@) =~= queue_groups(self@.queue).take(k + 1));
        }
        assert(queue_groups(self@.queue).take(self.queue.len() as int) =~= queue_groups(self@.queue));
        let pending = sum_sizes(ids, sizes, &waiting);
        (located, pending)
    }
}

/// The label of a 1v1 group: its name, or else its members' labels joined
/// with `、`.
pub open spec fn spec_group_label(name: Option<Seq<char>>, members: Seq<Seq<char>>) -> Seq<char> {
    match name {
        Some(n) => n,
        None => crate::text::joined(members, "、"@),
    }
}

/// The label a 1v1 group shows: its name, or else its members' labels joined
/// with `、`.
pub fn group_label(name: &Option<String>, member_labels: &Vec<String>) -> (r: String)
    ensures
        r@ == spec_group_label(
            match name {
                Some(n) => Some(n@),
                None => None,
            },
            views(member_labels@),
        ),
{
    match name {
        Some(n) => n.clone(),
        None => join(member_labels, "、"),
    }
}

} // verus!
