//! Scores written from a ranking: the whole-number parts of the rules
//! (which bucket a position falls in, which positions and rank a group
//! takes, which fields may receive scores).

use vstd::prelude::*;

use crate::error::AppError;
use crate::text::{char_count, concat, owned, str_eq, trim, trimmed};

verus! {

/// How a tied group's score is taken from the scores of the positions it
/// spans.
#[derive(Debug, Clone, Copy, PartialEq, Eq, Structural)]
pub enum TieScoreRule {
    Average,
    Highest,
    Lowest,
}

impl TieScoreRule {
    pub open spec fn spec_name(self) -> Seq<char> {
        match self {
            TieScoreRule::Average => "average"@,
            TieScoreRule::Highest => "highest"@,
            TieScoreRule::Lowest => "lowest"@,
        }
    }

    /// Storage name of the rule.
    pub fn as_str(self) -> (s: &'static str)
        ensures
            s@ == self.spec_name(),
    {
        match self {
            TieScoreRule::Average => "average",
            TieScoreRule::Highest => "highest",
            TieScoreRule::Lowest => "lowest",
        }
    }
}

/// The bucket of position `index` among `total` positions spread evenly
/// over `levels` buckets: `index * levels / total`, the product saturating
/// at the largest `usize`, and at most the last bucket.
pub open spec fn spec_bucket(index: nat, levels: nat, total: nat) -> nat {
    let p: nat = if index * levels > usize::MAX {
        usize::MAX as nat
    } else {
        index * levels
    };
    if p / total < levels {
        p / total
    } else {
        (levels - 1) as nat
    }
}

/// `q` is the quotient of `p` by `d`, told by its defining inequalities:
/// `q * d <= p < (q + 1) * d`.
proof fn lemma_quotient_bounds(p: nat, d: nat)
    requires
        d > 0,
    ensures
        (p / d) * d <= p,
        p < (p / d + 1) * d,
{
    vstd::arithmetic::div_mod::lemma_fundamental_div_mod(p as int, d as int);
    vstd::arithmetic::div_mod::lemma_mod_pos_bound(p as int, d as int);
    let q = p / d;
    let r = p % d;
    assert(q * d <= p && p < (q + 1) * d) by (nonlinear_arith)
        requires
            p == d * q + r,
            0 <= r < d,
    ;
}

/// Buckets spread positions evenly: position `index` of `total` falls in
/// the bucket `b` with `b * total <= index * levels < (b + 1) * total`
/// (the floor of `index * levels / total`), which is always below
/// `levels`; when the product does not fit a `usize`, the product is taken
/// as the largest `usize`, and the bucket is the floor of that over
/// `total`, or the last bucket.
pub proof fn lemma_bucket_spreads_evenly(index: nat, levels: nat, total: nat)
    requires
        index < total,
        levels > 0,
    ensures
        spec_bucket(index, levels, total) < levels,
        index * levels <= usize::MAX ==> spec_bucket(index, levels, total) * total <= index * levels
            && index * levels < (spec_bucket(index, levels, total) + 1) * total,
        index * levels > usize::MAX ==> (spec_bucket(index, levels, total) == levels - 1 || (spec_bucket(
            index,
            levels,
            total,
        ) * total <= usize::MAX && usize::MAX < (spec_bucket(index, levels, total) + 1) * total)),
{
    let b = spec_bucket(index, levels, total);
    if index * levels <= usize::MAX {
        let p: nat = index * levels;
        lemma_quotient_bounds(p, total);
        let q = p / total;
        assert(p < total * levels) by (nonlinear_arith)
            requires
                index < total,
                levels > 0,
                p == index * levels,
        ;
        if q >= levels {
            assert(q * total >= levels * total) by (nonlinear_arith)
                requires
                    q >= levels,
                    total > 0,
            ;
            assert(levels * total == total * levels) by (nonlinear_arith);
            assert(false);
        }
        assert(b == q);
    } else {
        lemma_quotient_bounds(usize::MAX as nat, total);
    }
}

/// Scoring: buckets, group positions, target fields.
pub struct ScoringService;

impl ScoringService {
    /// The bucket of position `index` among `total_items` positions spread
    /// evenly over `level_count` score levels, the last bucket taking any
    /// overflow.
    pub fn bucket_of(index: usize, level_count: usize, total_items: usize) -> (r: usize)
        requires
            index < total_items,
            level_count > 0,
        ensures
            r == spec_bucket(index as nat, level_count as nat, total_items as nat),
            r < level_count,
            index * level_count <= usize::MAX ==> r * total_items <= index * level_count && index * level_count < (r
                + 1) * total_items,
    {
        proof {
            lemma_bucket_spreads_evenly(index as nat, level_count as nat, total_items as nat);
        }
        let product = match index.checked_mul(level_count) {
            Some(p) => p,
            None => usize::MAX,
        };
        let bucket = product / total_items;
        if bucket < level_count {
            bucket
        } else {
            level_count - 1
        }
    }

    /// The positions each group spans, groups in order: a group of `n`
    /// items after `k` placed ones spans positions `k` to `k + n` (its rank
    /// is `k + 1`); `InvalidInput` when there is no item at all.
    pub fn group_spans(sizes: &Vec<usize>) -> (r: Result<Vec<(usize, usize)>, AppError>)
        requires
            total(sizes@) <= usize::MAX,
        ensures
            total(sizes@) == 0 ==> (r matches Err(AppError::InvalidInput(m)) && m@ == "排序结果中没有可评分条目"@),
            total(sizes@) > 0 ==> (r matches Ok(spans) && spans@.len() == sizes@.len() && forall|i: int|
                0 <= i < sizes@.len() ==> (#[trigger] spans@[i]).0 == total(sizes@.take(i)) && spans@[i].1
                    == spans@[i].0 + sizes@[i]),
    {
        let mut spans: Vec<(usize, usize)> = Vec::new();
        let mut occupied: usize = 0;
        for i in 0..sizes.len()
            invariant
                total(sizes@) <= usize::MAX,
                spans@.len() == i,
                occupied == total(sizes@.take(i as int)),
                forall|k: int|
                    0 <= k < i ==> (#[trigger] spans@[k]).0 == total(sizes@.take(k)) && spans@[k].1 == spans@[k].0
                        + sizes@[k],
        {
            assert(sizes@.take(i + 1).drop_last() =~= sizes@.take(i as int));
            proof {
                lemma_total_prefix(sizes@, i + 1);
            }
            let end = occupied + sizes[i];
            spans.push((occupied, end));
            occupied = end;
        }
        assert(sizes@.take(sizes@.len() as int) =~= sizes@);
        if occupied == 0 {
            return Err(AppError::InvalidInput(owned("排序结果中没有可评分条目")));
        }
        Ok(spans)
    }

    /// The score field's name must not be blank.
    pub fn check_field_name(field_name: &str) -> (r: Result<(), AppError>)
        ensures
            trimmed(field_name@).len() > 0 ==> r is Ok,
            trimmed(field_name@).len() == 0 ==> (r matches Err(AppError::InvalidInput(m)) && m@ == "评分字段名称不能为空"@),
    {
        let t = trim(field_name);
        if char_count(t.as_str()) == 0 {
            return Err(AppError::InvalidInput(owned("评分字段名称不能为空")));
        }
        Ok(())
    }

    /// Scores are given to a task's confirmed result only (`status` is the
    /// stored status of the task, none when there is no such task).
    pub fn check_scorable(status: Option<&str>) -> (r: Result<(), AppError>)
        ensures
            status is None ==> (r matches Err(AppError::InvalidInput(m)) && m@ == "找不到排序任务"@),
            status matches Some(s) && s@ != "confirmed"@ ==> (r matches Err(AppError::InvalidInput(m)) && m@
                == "请先确认排序结果，再配置评分"@),
            status matches Some(s) && s@ == "confirmed"@ ==> r is Ok,
    {
        match status {
            None => Err(AppError::InvalidInput(owned("找不到排序任务"))),
            Some(s) => if str_eq(s, "confirmed") {
                Ok(())
            } else {
                Err(AppError::InvalidInput(owned("请先确认排序结果，再配置评分")))
            },
        }
    }

    /// Checks writing scores into `field_name`: an existing field is only
    /// overwritten when asked to, and must hold numbers.
    pub fn check_score_field(field_name: &str, existing_type: Option<&str>, overwrite: bool) -> (r: Result<
        (),
        AppError,
    >)
        ensures
            existing_type is Some && !overwrite ==> (r matches Err(AppError::ConfirmationRequired(m)) && m@ == "字段“"@
                + field_name@ + "”已存在，写入评分会覆盖当前值"@),
            existing_type matches Some(t) ==> (overwrite && t@ != "number"@ ==> (r matches Err(
                AppError::InvalidInput(m),
            ) && m@ == "已有字段“"@ + field_name@ + "”不是数字类型，不能写入评分"@)),
            existing_type matches Some(t) ==> (overwrite && t@ == "number"@ ==> r is Ok),
            existing_type is None ==> r is Ok,
    {
        match existing_type {
            Some(t) => {
                if !overwrite {
                    let a = concat("字段“", field_name);
                    return Err(AppError::ConfirmationRequired(concat(a.as_str(), "”已存在，写入评分会覆盖当前值")));
                }
                if !str_eq(t, "number") {
                    let a = concat("已有字段“", field_name);
                    return Err(AppError::InvalidInput(concat(a.as_str(), "”不是数字类型，不能写入评分")));
                }
                Ok(())
            },
            None => Ok(()),
        }
    }

    /// Scores may be written to a new field or to a number field.
    pub fn can_write(existing_type: Option<&str>) -> (r: bool)
        ensures
            r == match existing_type {
                None => true,
                Some(t) => t@ == "number"@,
            },
    {
        match existing_type {
            None => true,
            Some(t) => str_eq(t, "number"),
        }
    }
}

/// The number of items in groups of the given sizes.
pub open spec fn total(sizes: Seq<usize>) -> nat
    decreases sizes.len(),
{
    if sizes.len() == 0 {
        0
    } else {
        total(sizes.drop_last()) + sizes.last() as nat
    }
}

/// The items of the first groups are no more than those of all.
proof fn lemma_total_prefix(sizes: Seq<usize>, n: int)
    requires
        0 <= n <= sizes.len(),
    ensures
        total(sizes.take(n)) <= total(sizes),
    decreases sizes.len(),
{
    if n < sizes.len() {
        assert(sizes.drop_last().take(n) =~= sizes.take(n));
        lemma_total_prefix(sizes.drop_last(), n);
    } else {
        assert(sizes.take(n) =~= sizes);
    }
}

} // verus!
