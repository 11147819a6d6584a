//! Slider sorting: each item gets a position from 0.00 to 100.00 (kept in
//! hundredths); when the last item is rated, items with equal positions
//! become one rank group, highest first.

use vstd::prelude::*;

use crate::error::AppError;
use crate::sort_task::SortTaskMode;
use crate::text::{owned, str_eq};

verus! {

broadcast use vstd::seq_lib::group_seq_properties;

/// The highest slider position, in hundredths.
pub const SLIDER_MAX_HUNDREDTHS: u16 = 10000;

/// Why a rating is refused, if it is: the task is no slider task, its
/// result is confirmed, the position is out of range, or every item is
/// already rated.
pub open spec fn rating_problem(mode: SortTaskMode, status: Seq<char>, value_hundredths: u16, has_next: bool) -> Option<
    Seq<char>,
> {
    if mode != SortTaskMode::Slider {
        Some("该任务不是滑杆排序任务"@)
    } else if status == "confirmed"@ {
        Some("结果已确认并锁定，请先在结果页解锁后再编辑"@)
    } else if value_hundredths > SLIDER_MAX_HUNDREDTHS {
        Some("滑杆位置必须在 0.00 到 100.00 之间"@)
    } else if !has_next {
        Some("滑杆排序已经完成"@)
    } else {
        None
    }
}

/// Scanning the first `n` ratings (highest position first): the groups
/// that stay, one per run of equal positions, and each other group with
/// the group of its run that it is merged into.
pub open spec fn finalize_scan(ratings: Seq<(Seq<char>, u16)>, n: nat) -> (Seq<Seq<char>>, Seq<(Seq<char>, Seq<char>)>)
    decreases n,
{
    if n == 0 {
        (Seq::empty(), Seq::empty())
    } else {
        let (kept, merged) = finalize_scan(ratings, (n - 1) as nat);
        if n == 1 || ratings[n - 1].1 != ratings[n - 2].1 {
            (kept.push(ratings[n - 1].0), merged)
        } else {
            (kept, merged.push((ratings[n - 1].0, kept.last())))
        }
    }
}

/// Slider ratings: what a rating needs, and the groups at the end.
pub struct SliderService;

impl SliderService {
    /// Checks a rating as `rating_problem` says; when accepted, whether it
    /// completes the task (it is the last of `total` items).
    pub fn check_rating(
        mode: SortTaskMode,
        status: &str,
        value_hundredths: u16,
        has_next: bool,
        rated_before: usize,
        total: usize,
    ) -> (r: Result<bool, AppError>)
        ensures
            rating_problem(mode, status@, value_hundredths, has_next) matches Some(m) ==> (r matches Err(
                AppError::InvalidInput(e),
            ) && e@ == m),
            rating_problem(mode, status@, value_hundredths, has_next) is None ==> (r matches Ok(last) && last == (
            rated_before + 1 == total)),
    {
        match mode {
            SortTaskMode::Slider => {},
            _ => {
                return Err(AppError::InvalidInput(owned("该任务不是滑杆排序任务")));
            },
        }
        if str_eq(status, "confirmed") {
            return Err(AppError::InvalidInput(owned("结果已确认并锁定，请先在结果页解锁后再编辑")));
        }
        if value_hundredths > SLIDER_MAX_HUNDREDTHS {
            return Err(AppError::InvalidInput(owned("滑杆位置必须在 0.00 到 100.00 之间")));
        }
        if !has_next {
            return Err(AppError::InvalidInput(owned("滑杆排序已经完成")));
        }
        Ok(rated_before < usize::MAX && rated_before + 1 == total)
    }

    /// The final groups of a slider task from its ratings (group and
    /// position), highest position first and equal positions in rating
    /// order: the groups that stay, in order, and the merges into them.
    pub fn finalize(ratings: &Vec<(String, u16)>) -> (r: (Vec<String>, Vec<(String, String)>))
        ensures
            crate::text::views(r.0@) == finalize_scan(rating_views(ratings@), ratings@.len()).0,
            pair_views(r.1@) == finalize_scan(rating_views(ratings@), ratings@.len()).1,
    {
        let ghost rv = rating_views(ratings@);
        let mut kept: Vec<String> = Vec::new();
        let mut merged: Vec<(String, String)> = Vec::new();
        for i in 0..ratings.len()
            invariant
                rv == rating_views(ratings@),
                rv.len() == ratings@.len(),
                (crate::text::views(kept@), pair_views(merged@)) == finalize_scan(rv, i as nat),
                i > 0 ==> kept@.len() > 0,
        {
            assert(rv[i as int] == (ratings@[i as int].0@, ratings@[i as int].1));
            if i > 0 {
                assert(rv[i - 1] == (ratings@[i - 1].0@, ratings@[i - 1].1));
            }
            if i == 0 || ratings[i].1 != ratings[i - 1].1 {
                let ghost k0 = crate::text::views(kept@);
                kept.push(owned(ratings[i].0.as_str()));
                assert(crate::text::views(kept@) =~= k0.push(rv[i as int].0));
            } else {
                let ghost m0 = pair_views(merged@);
                let target = owned(kept[kept.len() - 1].as_str());
                merged.push((owned(ratings[i].0.as_str()), target));
                assert(pair_views(merged@) =~= m0.push((rv[i as int].0, crate::text::views(kept@).last())));
            }
        }
        (kept, merged)
    }
}

/// Ratings as text and position.
pub open spec fn rating_views(r: Seq<(String, u16)>) -> Seq<(Seq<char>, u16)> {
    r.map_values(|p: (String, u16)| (p.0@, p.1))
}

/// Pairs of strings as text.
pub open spec fn pair_views(r: Seq<(String, String)>) -> Seq<(Seq<char>, Seq<char>)> {
    r.map_values(|p: (String, String)| (p.0@, p.1@))
}

/// Every group of the final ratings is kept or merged, exactly once: the
/// kept and merged groups together are as many as the ratings.
pub proof fn lemma_finalize_accounts_for_all(ratings: Seq<(Seq<char>, u16)>, n: nat)
    requires
        n <= ratings.len(),
    ensures
        finalize_scan(ratings, n).0.len() + finalize_scan(ratings, n).1.len() == n,
        n > 0 ==> finalize_scan(ratings, n).0.len() > 0,
    decreases n,
{
    if n > 0 {
        lemma_finalize_accounts_for_all(ratings, (n - 1) as nat);
    }
}

/// The first rating of the run of equal positions that holds rating `i`.
spec fn position_run_start(ratings: Seq<(Seq<char>, u16)>, i: int) -> int
    decreases i,
{
    if i <= 0 || ratings[i].1 != ratings[i - 1].1 {
        i
    } else {
        position_run_start(ratings, i - 1)
    }
}

proof fn lemma_position_run_start(ratings: Seq<(Seq<char>, u16)>, i: int)
    requires
        0 <= i < ratings.len(),
    ensures
        0 <= position_run_start(ratings, i) <= i,
        position_run_start(ratings, i) == 0 || ratings[position_run_start(ratings, i) - 1].1 != ratings[i].1,
        forall|j: int| position_run_start(ratings, i) <= j <= i ==> #[trigger] ratings[j].1 == ratings[i].1,
    decreases i,
{
    if i > 0 && ratings[i].1 == ratings[i - 1].1 {
        lemma_position_run_start(ratings, i - 1);
    }
}

proof fn lemma_finalize_scan_runs(ratings: Seq<(Seq<char>, u16)>, n: nat)
    requires
        n <= ratings.len(),
    ensures
        ({
            let (kept, merged) = finalize_scan(ratings, n);
            &&& forall|q: int|
                #![trigger merged[q]]
                0 <= q < merged.len() ==> exists|i: int, k: int|
                    #![trigger ratings[i], ratings[k]]
                    0 <= k < i < n && merged[q].0 == ratings[i].0 && merged[q].1 == ratings[k].0 && kept.contains(
                        ratings[k].0,
                    ) && ratings[k].1 == ratings[i].1 && (k == 0 || ratings[k - 1].1 != ratings[k].1) && (forall|
                        j: int,
                    |
                        k <= j <= i ==> #[trigger] ratings[j].1 == ratings[i].1)
            &&& forall|p: int|
                #![trigger kept[p]]
                0 <= p < kept.len() ==> exists|k: int|
                    0 <= k < n && kept[p] == #[trigger] ratings[k].0 && (k == 0 || ratings[k - 1].1 != ratings[k].1)
        }),
        n > 0 ==> finalize_scan(ratings, n).0.last() == ratings[position_run_start(ratings, n - 1)].0,
    decreases n,
{
    if n > 0 {
        lemma_finalize_scan_runs(ratings, (n - 1) as nat);
        lemma_finalize_accounts_for_all(ratings, n);
        lemma_position_run_start(ratings, n - 1);
        let (k0, m0) = finalize_scan(ratings, (n - 1) as nat);
        let (kept, merged) = finalize_scan(ratings, n);
        if n == 1 || ratings[n - 1].1 != ratings[n - 2].1 {
            assert(kept == k0.push(ratings[n - 1].0));
            assert(merged == m0);
            assert forall|q: int| #![trigger merged[q]] 0 <= q < merged.len() implies exists|i: int, k: int|
                #![trigger ratings[i], ratings[k]]
                0 <= k < i < n && merged[q].0 == ratings[i].0 && merged[q].1 == ratings[k].0 && kept.contains(
                    ratings[k].0,
                ) && ratings[k].1 == ratings[i].1 && (k == 0 || ratings[k - 1].1 != ratings[k].1) && (forall|j: int|
                    k <= j <= i ==> #[trigger] ratings[j].1 == ratings[i].1) by {
                let (i, k) = choose|i: int, k: int|
                    #![trigger ratings[i], ratings[k]]
                    0 <= k < i < n - 1 && m0[q].0 == ratings[i].0 && m0[q].1 == ratings[k].0 && k0.contains(
                        ratings[k].0,
                    ) && ratings[k].1 == ratings[i].1 && (k == 0 || ratings[k - 1].1 != ratings[k].1) && (forall|
                        j: int,
                    |
                        k <= j <= i ==> #[trigger] ratings[j].1 == ratings[i].1);
                let w = choose|w: int| 0 <= w < k0.len() && k0[w] == ratings[k].0;
                assert(kept[w] == ratings[k].0);
            }
            assert forall|p: int| #![trigger kept[p]] 0 <= p < kept.len() implies exists|k: int|
                0 <= k < n && kept[p] == #[trigger] ratings[k].0 && (k == 0 || ratings[k - 1].1 != ratings[k].1) by {
                if p < k0.len() {
                    assert(kept[p] == k0[p]);
                } else {
                    assert(kept[p] == ratings[n - 1].0);
                    assert(position_run_start(ratings, n - 1) == n - 1);
                }
            }
        } else {
            lemma_position_run_start(ratings, n - 2);
            assert(position_run_start(ratings, n - 1) == position_run_start(ratings, n - 2));
            assert(kept == k0);
            assert(merged == m0.push((ratings[n - 1].0, k0.last())));
            let s = position_run_start(ratings, n - 1);
            assert forall|q: int| #![trigger merged[q]] 0 <= q < merged.len() implies exists|i: int, k: int|
                #![trigger ratings[i], ratings[k]]
                0 <= k < i < n && merged[q].0 == ratings[i].0 && merged[q].1 == ratings[k].0 && kept.contains(
                    ratings[k].0,
                ) && ratings[k].1 == ratings[i].1 && (k == 0 || ratings[k - 1].1 != ratings[k].1) && (forall|j: int|
                    k <= j <= i ==> #[trigger] ratings[j].1 == ratings[i].1) by {
                if q < m0.len() {
                    assert(merged[q] == m0[q]);
                } else {
                    assert(merged[q] == (ratings[n - 1].0, ratings[s].0));
                    assert(kept[kept.len() - 1] == ratings[s].0);
                    assert(s < n - 1);
                    assert(ratings[s].1 == ratings[n - 1].1);
                }
            }
        }
    }
}

/// Ending a slider task ties exactly the groups with equal positions: every
/// merged group `g` goes into a kept group `t` that has the same position
/// and comes first in the run of equal positions holding `g`; every kept
/// group starts such a run.
pub proof fn lemma_finalize_merges_equal_positions(ratings: Seq<(Seq<char>, u16)>, n: nat)
    requires
        n <= ratings.len(),
    ensures
        ({
            let (kept, merged) = finalize_scan(ratings, n);
            &&& forall|q: int|
                #![trigger merged[q]]
                0 <= q < merged.len() ==> exists|i: int, k: int|
                    #![trigger ratings[i], ratings[k]]
                    0 <= k < i < n && merged[q].0 == ratings[i].0 && merged[q].1 == ratings[k].0 && kept.contains(
                        ratings[k].0,
                    ) && ratings[k].1 == ratings[i].1 && (k == 0 || ratings[k - 1].1 != ratings[k].1) && (forall|
                        j: int,
                    |
                        k <= j <= i ==> #[trigger] ratings[j].1 == ratings[i].1)
            &&& forall|p: int|
                #![trigger kept[p]]
                0 <= p < kept.len() ==> exists|k: int|
                    0 <= k < n && kept[p] == #[trigger] ratings[k].0 && (k == 0 || ratings[k - 1].1 != ratings[k].1)
        }),
{
    lemma_finalize_scan_runs(ratings, n);
}

} // verus!
