//! Ordering by a score, tie runs, and rank numbers for tied groups.

use vstd::prelude::*;

use crate::text::views;

verus! {

broadcast use vstd::seq_lib::group_seq_properties;

/// How rank numbers are given to tied items.
#[derive(Debug, Clone, Copy, PartialEq, Eq)]
pub enum RankRule {
    /// Tied items share the rank of the first; the next group skips the
    /// places they took (1, 1, 3).
    Competition,
    /// Each group's rank is one more than the previous group's (1, 1, 2).
    Dense,
    /// Every item gets its own position (1, 2, 3).
    Ordinal,
}

impl Default for RankRule {
    fn default() -> (r: Self)
        ensures
            r == RankRule::Competition,
    {
        RankRule::Competition
    }
}

/// `a` comes before `b`: a higher key, or an equal key and a lower index.
pub open spec fn key_before(keys: Seq<usize>, a: usize, b: usize) -> bool {
    keys[a as int] > keys[b as int] || (keys[a as int] == keys[b as int] && a < b)
}

/// `order` lists every index of `keys` once, highest key first and equal
/// keys by index.
pub open spec fn ranked_by_key(keys: Seq<usize>, order: Seq<usize>) -> bool {
    &&& order.len() == keys.len()
    &&& forall|i: int| 0 <= i < order.len() ==> #[trigger] order[i] < keys.len()
    &&& forall|x: usize| x < keys.len() ==> #[trigger] order.contains(x)
    &&& forall|i: int, j: int|
        0 <= i < j < order.len() ==> key_before(keys, #[trigger] order[i], #[trigger] order[j])
}

/// The indices of `keys`, highest key first, equal keys by index.
pub fn order_by_key_desc(keys: &Vec<usize>) -> (order: Vec<usize>)
    ensures
        ranked_by_key(keys@, order@),
{
    let n = keys.len();
    let mut order: Vec<usize> = Vec::new();
    for idx in 0..n
        invariant
            n == keys@.len(),
            order@.len() == idx,
            forall|i: int| 0 <= i < order@.len() ==> #[trigger] order@[i] < idx,
            forall|x: usize| x < idx ==> #[trigger] order@.contains(x),
            forall|i: int, j: int|
                0 <= i < j < order@.len() ==> key_before(keys@, #[trigger] order@[i], #[trigger] order@[j]),
    {
        let mut pos: usize = 0;
        while pos < order.len() && keys[idx] <= keys[order[pos]]
            invariant
                n == keys@.len(),
                idx < n,
                order@.len() == idx,
                forall|i: int| 0 <= i < order@.len() ==> #[trigger] order@[i] < idx,
                pos <= order@.len(),
                forall|i: int| 0 <= i < pos ==> keys@[idx as int] <= keys@[#[trigger] order@[i] as int],
            decreases order@.len() - pos,
        {
            pos = pos + 1;
        }
        let ghost before = order@;
        order.insert(pos, idx);
        proof {
            assert forall|i: int, j: int| 0 <= i < j < order@.len() implies key_before(
                keys@,
                #[trigger] order@[i],
                #[trigger] order@[j],
            ) by {
                if j < pos {
                    assert(order@[i] == before[i] && order@[j] == before[j]);
                } else if j == pos {
                    assert(order@[i] == before[i]);
                } else if i < pos {
                    assert(order@[i] == before[i] && order@[j] == before[j - 1]);
                    if pos < before.len() {
                        assert(key_before(keys@, before[pos as int], before[j - 1]) || pos == j - 1);
                    }
                } else if i == pos {
                    assert(order@[j] == before[j - 1]);
                    assert(key_before(keys@, before[pos as int], before[j - 1]) || pos == j - 1);
                } else {
                    assert(order@[i] == before[i - 1] && order@[j] == before[j - 1]);
                }
            }
            assert forall|x: usize| x < idx + 1 implies #[trigger] order@.contains(x) by {
                if x == idx {
                    assert(order@[pos as int] == x);
                } else {
                    assert(before.contains(x));
                    let i = choose|i: int| 0 <= i < before.len() && before[i] == x;
                    if i < pos {
                        assert(order@[i] == x);
                    } else {
                        assert(order@[i + 1] == x);
                    }
                }
            }
            assert forall|i: int| 0 <= i < order@.len() implies #[trigger] order@[i] < idx + 1 by {
                if i < pos {
                    assert(order@[i] == before[i]);
                } else if i > pos {
                    assert(order@[i] == before[i - 1]);
                }
            }
        }
    }
    order
}

/// Leaders and merges of the tie runs among the first `n` entries: an entry
/// whose key equals the previous entry's joins the leader of that run.
pub open spec fn tie_runs_prefix(ids: Seq<Seq<char>>, keys: Seq<usize>, n: nat) -> (
    Seq<Seq<char>>,
    Seq<(Seq<char>, Seq<char>)>,
)
    decreases n,
{
    if n == 0 {
        (Seq::empty(), Seq::empty())
    } else {
        let (leaders, merges) = tie_runs_prefix(ids, keys, (n - 1) as nat);
        if n >= 2 && keys[n - 1] == keys[n - 2] {
            (leaders, merges.push((ids[n - 1], leaders.last())))
        } else {
            (leaders.push(ids[n - 1]), merges)
        }
    }
}

proof fn lemma_tie_runs_leaders_nonempty(ids: Seq<Seq<char>>, keys: Seq<usize>, n: nat)
    requires
        n >= 1,
    ensures
        tie_runs_prefix(ids, keys, n).0.len() >= 1,
    decreases n,
{
    if n >= 2 {
        lemma_tie_runs_leaders_nonempty(ids, keys, (n - 1) as nat);
    }
}

/// The first entry of the run of equal keys that holds entry `i`.
spec fn key_run_start(keys: Seq<usize>, i: int) -> int
    decreases i,
{
    if i <= 0 || keys[i] != keys[i - 1] {
        i
    } else {
        key_run_start(keys, i - 1)
    }
}

proof fn lemma_key_run_start(keys: Seq<usize>, i: int)
    requires
        0 <= i < keys.len(),
    ensures
        0 <= key_run_start(keys, i) <= i,
        key_run_start(keys, i) == 0 || keys[key_run_start(keys, i) - 1] != keys[i],
        forall|j: int| key_run_start(keys, i) <= j <= i ==> #[trigger] keys[j] == keys[i],
    decreases i,
{
    if i > 0 && keys[i] == keys[i - 1] {
        lemma_key_run_start(keys, i - 1);
    }
}

proof fn lemma_tie_runs_shape(ids: Seq<Seq<char>>, keys: Seq<usize>, n: nat)
    requires
        n <= ids.len(),
        n <= keys.len(),
    ensures
        ({
            let (leaders, merges) = tie_runs_prefix(ids, keys, n);
            &&& forall|q: int|
                #![trigger merges[q]]
                0 <= q < merges.len() ==> exists|i: int, k: int|
                    #![trigger ids[i], ids[k]]
                    0 <= k < i < n && merges[q].0 == ids[i] && merges[q].1 == ids[k] && leaders.contains(ids[k])
                        && keys[k] == keys[i] && (k == 0 || keys[k - 1] != keys[k]) && (forall|j: int|
                        k <= j <= i ==> #[trigger] keys[j] == keys[i])
            &&& forall|p: int|
                #![trigger leaders[p]]
                0 <= p < leaders.len() ==> exists|k: int|
                    0 <= k < n && leaders[p] == #[trigger] ids[k] && (k == 0 || keys[k - 1] != keys[k])
            &&& leaders.len() + merges.len() == n
        }),
        n > 0 ==> tie_runs_prefix(ids, keys, n).0.len() > 0 && tie_runs_prefix(ids, keys, n).0.last()
            == ids[key_run_start(keys, n - 1)],
    decreases n,
{
    if n > 0 {
        lemma_tie_runs_shape(ids, keys, (n - 1) as nat);
        lemma_key_run_start(keys, n - 1);
        let (l0, m0) = tie_runs_prefix(ids, keys, (n - 1) as nat);
        let (leaders, merges) = tie_runs_prefix(ids, keys, n);
        if n >= 2 && keys[n - 1] == keys[n - 2] {
            lemma_key_run_start(keys, n - 2);
            assert(key_run_start(keys, n - 1) == key_run_start(keys, n - 2));
            assert(leaders == l0);
            assert(merges == m0.push((ids[n - 1], l0.last())));
            let s = key_run_start(keys, n - 1);
            assert forall|q: int| #![trigger merges[q]] 0 <= q < merges.len() implies exists|i: int, k: int|
                #![trigger ids[i], ids[k]]
                0 <= k < i < n && merges[q].0 == ids[i] && merges[q].1 == ids[k] && leaders.contains(ids[k])
                    && keys[k] == keys[i] && (k == 0 || keys[k - 1] != keys[k]) && (forall|j: int|
                    k <= j <= i ==> #[trigger] keys[j] == keys[i]) by {
                if q < m0.len() {
                    assert(merges[q] == m0[q]);
                } else {
                    assert(merges[q] == (ids[n - 1], ids[s]));
                    assert(leaders[leaders.len() - 1] == ids[s]);
                    assert(s < n - 1);
                    assert(keys[s] == keys[n - 1]);
                }
            }
        } else {
            assert(leaders == l0.push(ids[n - 1]));
            assert(merges == m0);
            assert forall|q: int| #![trigger merges[q]] 0 <= q < merges.len() implies exists|i: int, k: int|
                #![trigger ids[i], ids[k]]
                0 <= k < i < n && merges[q].0 == ids[i] && merges[q].1 == ids[k] && leaders.contains(ids[k])
                    && keys[k] == keys[i] && (k == 0 || keys[k - 1] != keys[k]) && (forall|j: int|
                    k <= j <= i ==> #[trigger] keys[j] == keys[i]) by {
                let (i, k) = choose|i: int, k: int|
                    #![trigger ids[i], ids[k]]
                    0 <= k < i < n - 1 && m0[q].0 == ids[i] && m0[q].1 == ids[k] && l0.contains(ids[k])
                        && keys[k] == keys[i] && (k == 0 || keys[k - 1] != keys[k]) && (forall|j: int|
                        k <= j <= i ==> #[trigger] keys[j] == keys[i]);
                let w = choose|w: int| 0 <= w < l0.len() && l0[w] == ids[k];
                assert(leaders[w] == ids[k]);
            }
            assert forall|p: int| #![trigger leaders[p]] 0 <= p < leaders.len() implies exists|k: int|
                0 <= k < n && leaders[p] == #[trigger] ids[k] && (k == 0 || keys[k - 1] != keys[k]) by {
                if p < l0.len() {
                    assert(leaders[p] == l0[p]);
                } else {
                    assert(leaders[p] == ids[n - 1]);
                    assert(key_run_start(keys, n - 1) == n - 1);
                }
            }
        }
    }
}

/// Tie runs join only entries with equal keys: every merge `(g, t)` joins
/// `g` to a leader `t` with the same key that comes first in the run of
/// equal keys holding `g` (so, in a matrix, a group joins a group with as
/// many wins); every leader starts such a run, and each entry is either a
/// leader or merged, once.
pub proof fn lemma_tie_runs_join_equal_keys(ids: Seq<Seq<char>>, keys: Seq<usize>, n: nat)
    requires
        n <= ids.len(),
        n <= keys.len(),
    ensures
        ({
            let (leaders, merges) = tie_runs_prefix(ids, keys, n);
            &&& forall|q: int|
                #![trigger merges[q]]
                0 <= q < merges.len() ==> exists|i: int, k: int|
                    #![trigger ids[i], ids[k]]
                    0 <= k < i < n && merges[q].0 == ids[i] && merges[q].1 == ids[k] && leaders.contains(ids[k])
                        && keys[k] == keys[i] && (k == 0 || keys[k - 1] != keys[k]) && (forall|j: int|
                        k <= j <= i ==> #[trigger] keys[j] == keys[i])
            &&& forall|p: int|
                #![trigger leaders[p]]
                0 <= p < leaders.len() ==> exists|k: int|
                    0 <= k < n && leaders[p] == #[trigger] ids[k] && (k == 0 || keys[k - 1] != keys[k])
            &&& leaders.len() + merges.len() == n
        }),
{
    lemma_tie_runs_shape(ids, keys, n);
}

/// Splits entries already in rank order into tie runs: returns the leader of
/// each run, in order, and for every other entry the pair (entry, leader)
/// saying which group it joins.
pub fn tie_runs(ids: &Vec<String>, keys: &Vec<usize>) -> (r: (Vec<String>, Vec<(String, String)>))
    requires
        ids@.len() == keys@.len(),
    ensures
        views(r.0@) == tie_runs_prefix(views(ids@), keys@, ids@.len() as nat).0,
        r.1@.map_values(|m: (String, String)| (m.0@, m.1@)) == tie_runs_prefix(
            views(ids@),
            keys@,
            ids@.len() as nat,
        ).1,
{
    let n = ids.len();
    let ghost iv = views(ids@);
    let mut leaders: Vec<String> = Vec::new();
    let mut merges: Vec<(String, String)> = Vec::new();
    for i in 0..n
        invariant
            n == ids@.len(),
            n == keys@.len(),
            iv == views(ids@),
            views(leaders@) == tie_runs_prefix(iv, keys@, i as nat).0,
            merges@.map_values(|m: (String, String)| (m.0@, m.1@)) == tie_runs_prefix(iv, keys@, i as nat).1,
    {
        if i >= 1 && keys[i] == keys[i - 1] {
            proof {
                lemma_tie_runs_leaders_nonempty(iv, keys@, i as nat);
            }
            let leader = leaders[leaders.len() - 1].clone();
            let ghost before = merges@;
            merges.push((ids[i].clone(), leader));
            proof {
                assert(merges@.map_values(|m: (String, String)| (m.0@, m.1@)) =~= before.map_values(
                    |m: (String, String)| (m.0@, m.1@),
                ).push((iv[i as int], views(leaders@).last())));
            }
        } else {
            leaders.push(ids[i].clone());
            proof {
                assert(views(leaders@) =~= tie_runs_prefix(iv, keys@, i as nat).0.push(iv[i as int]));
            }
        }
    }
    (leaders, merges)
}

/// Whether row `i` starts a new group: its group differs from the row
/// before, the first row being compared with the empty name.
pub open spec fn run_start(ids: Seq<Seq<char>>, i: int) -> bool {
    ids[i] != (if i == 0 {
        Seq::<char>::empty()
    } else {
        ids[i - 1]
    })
}

/// Number of groups that start at or before row `i`.
pub open spec fn dense_rank(ids: Seq<Seq<char>>, i: int) -> nat
    decreases i + 1,
{
    if i < 0 {
        0
    } else {
        dense_rank(ids, i - 1) + (if run_start(ids, i) {
            1nat
        } else {
            0nat
        })
    }
}

/// The last row at or before `i` that starts a group, or -1 if none does.
pub open spec fn last_start(ids: Seq<Seq<char>>, i: int) -> int
    decreases i + 1,
{
    if i < 0 {
        -1
    } else if run_start(ids, i) {
        i
    } else {
        last_start(ids, i - 1)
    }
}

/// The rank of row `i` under `rule`.
pub open spec fn spec_rank(rule: RankRule, ids: Seq<Seq<char>>, i: int) -> nat {
    match rule {
        RankRule::Competition => (last_start(ids, i) + 1) as nat,
        RankRule::Dense => dense_rank(ids, i),
        RankRule::Ordinal => (i + 1) as nat,
    }
}

proof fn lemma_rank_bounds(ids: Seq<Seq<char>>, i: int)
    requires
        i >= -1,
    ensures
        dense_rank(ids, i) <= i + 1,
        -1 <= last_start(ids, i) <= i,
    decreases i + 1,
{
    if i >= 0 {
        lemma_rank_bounds(ids, i - 1);
    }
}

/// How rank numbers follow the rows, each row against the one before it
/// (rows of a group adjacent, group ids not empty): the first row has rank
/// 1. Under `Competition` a row of the same group as the previous row has
/// its rank, and a row that starts a group has rank `1 +` the number of
/// rows before it. Under `Dense` a row of the same group keeps the previous
/// rank and a new group's row has one more. Under `Ordinal` row `i` has
/// rank `i + 1`.
pub proof fn lemma_rank_rules(ids: Seq<Seq<char>>, i: int)
    requires
        0 <= i < ids.len(),
        ids[0].len() > 0,
    ensures
        i == 0 ==> spec_rank(RankRule::Competition, ids, i) == 1 && spec_rank(RankRule::Dense, ids, i) == 1,
        i > 0 && ids[i] == ids[i - 1] ==> spec_rank(RankRule::Competition, ids, i) == spec_rank(
            RankRule::Competition,
            ids,
            i - 1,
        ) && spec_rank(RankRule::Dense, ids, i) == spec_rank(RankRule::Dense, ids, i - 1),
        i > 0 && ids[i] != ids[i - 1] ==> spec_rank(RankRule::Competition, ids, i) == i + 1 && spec_rank(
            RankRule::Dense,
            ids,
            i,
        ) == spec_rank(RankRule::Dense, ids, i - 1) + 1,
        spec_rank(RankRule::Ordinal, ids, i) == i + 1,
{
    lemma_rank_bounds(ids, i);
    if i == 0 {
        assert(ids[0] != Seq::<char>::empty());
        assert(run_start(ids, 0));
        assert(dense_rank(ids, -1) == 0);
    } else {
        lemma_rank_bounds(ids, i - 1);
        assert(last_start(ids, i) == if run_start(ids, i) { i } else { last_start(ids, i - 1) });
    }
}

/// Under `Competition`, the rows of one group (adjacent, ids not empty)
/// share one rank: 1 + the number of rows before the group's first row.
pub proof fn lemma_competition_rank_of_group(ids: Seq<Seq<char>>, first: int, i: int)
    requires
        0 <= first <= i < ids.len(),
        ids[0].len() > 0,
        first == 0 || ids[first - 1] != ids[first],
        forall|j: int| first <= j <= i ==> #[trigger] ids[j] == ids[i],
    ensures
        spec_rank(RankRule::Competition, ids, i) == first + 1,
    decreases i - first,
{
    lemma_rank_rules(ids, i);
    if i > first {
        assert(ids[i - 1] == ids[i]);
        lemma_competition_rank_of_group(ids, first, i - 1);
    } else {
        assert(ids[first] == ids[i]);
    }
}

/// Rank numbers for rows listed in final order, the rows of one group
/// adjacent and named by the group's id.
pub fn rank_assignments(group_ids: &Vec<String>, rule: RankRule) -> (ranks: Vec<usize>)
    ensures
        ranks@.len() == group_ids@.len(),
        forall|i: int| 0 <= i < ranks@.len() ==> #[trigger] ranks@[i] == spec_rank(rule, views(group_ids@), i),
{
    let n = group_ids.len();
    let ghost ids = views(group_ids@);
    let mut ranks: Vec<usize> = Vec::new();
    let mut current = String::new();
    let mut dense: usize = 0;
    let mut group_rank: usize = 0;
    for i in 0..n
        invariant
            n == group_ids@.len(),
            ids == views(group_ids@),
            ranks@.len() == i,
            current@ == (if i == 0 { Seq::<char>::empty() } else { ids[i - 1] }),
            dense == dense_rank(ids, i - 1),
            rule is Competition ==> group_rank == last_start(ids, i - 1) + 1,
            rule is Dense ==> group_rank == dense,
            forall|j: int| 0 <= j < i ==> #[trigger] ranks@[j] == spec_rank(rule, ids, j),
    {
        proof {
            lemma_rank_bounds(ids, i as int);
            lemma_rank_bounds(ids, i - 1);
        }
        if group_ids[i] != current {
            current = group_ids[i].clone();
            dense = dense + 1;
            group_rank = match rule {
                RankRule::Competition => i + 1,
                RankRule::Dense => dense,
                RankRule::Ordinal => 0,
            };
        } else {
            current = group_ids[i].clone();
        }
        let rank = match rule {
            RankRule::Ordinal => i + 1,
            _ => group_rank,
        };
        ranks.push(rank);
    }
    ranks
}

} // verus!
