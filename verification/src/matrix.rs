//! 1v1 matrix sorting: a fixed list of unordered pairs is compared one by
//! one; contestants are then ranked by wins, equal wins forming a tie group.

use vstd::prelude::*;

use crate::comparison::ComparisonDecision;
use crate::error::{invalid_input, invalid_project, AppError};
use crate::ranking::{order_by_key_desc, ranked_by_key, tie_runs, tie_runs_prefix};
use crate::text::views;
use crate::topology::{lemma_restore_brings_back_capture, restored, state_ids, GroupStateView};

verus! {

broadcast use vstd::seq_lib::group_seq_properties;

/// Two contestant indices to compare; sampled pairs have `left < right`.
#[derive(Debug, Clone, Copy)]
pub struct MatrixPair {
    pub left: usize,
    pub right: usize,
}

/// Lexicographic order on pairs.
pub open spec fn pair_lt(a: MatrixPair, b: MatrixPair) -> bool {
    a.left < b.left || (a.left == b.left && a.right < b.right)
}

/// Every pair comes strictly before the next: sorted, with no repeats.
pub open spec fn strictly_sorted(s: Seq<MatrixPair>) -> bool {
    forall|i: int, j: int| 0 <= i < j < s.len() ==> pair_lt(#[trigger] s[i], #[trigger] s[j])
}

/// The unordered pair of two distinct contestants, smaller index first.
pub open spec fn ordered_pair(a: usize, b: usize) -> MatrixPair {
    if a < b {
        MatrixPair { left: a, right: b }
    } else {
        MatrixPair { left: b, right: a }
    }
}

/// One step of the xorshift generator; zero is first replaced by a fixed
/// odd constant.
pub open spec fn spec_next_random(value: u64) -> u64 {
    let v = if value == 0 { 0x9e37_79b9_7f4a_7c15u64 } else { value };
    let a = v ^ (v << 13u64);
    let b = a ^ (a >> 7u64);
    b ^ (b << 17u64)
}

/// Next value of the pseudo-random sequence.
pub fn next_random(value: u64) -> (r: u64)
    ensures
        r == spec_next_random(value),
{
    let mut v = value;
    if v == 0 {
        v = 0x9e37_79b9_7f4a_7c15;
    }
    v = v ^ (v << 13u64);
    v = v ^ (v >> 7u64);
    v = v ^ (v << 17u64);
    v
}

/// `s` with the elements at `i` and `j` exchanged.
pub open spec fn swapped<T>(s: Seq<T>, i: int, j: int) -> Seq<T> {
    s.update(i, s[j]).update(j, s[i])
}

/// Fisher–Yates from position `index` down to 1, drawing from `seed`.
pub open spec fn shuffle_from<T>(s: Seq<T>, index: nat, seed: u64) -> Seq<T>
    decreases index,
{
    if index == 0 {
        s
    } else {
        let next = spec_next_random(seed);
        let j = ((next as usize) as nat) % (index + 1);
        shuffle_from(swapped(s, index as int, j as int), (index - 1) as nat, next)
    }
}

/// The order `shuffle` gives `s` for `seed`.
pub open spec fn spec_shuffle<T>(s: Seq<T>, seed: u64) -> Seq<T> {
    if s.len() <= 1 {
        s
    } else {
        shuffle_from(s, (s.len() - 1) as nat, seed)
    }
}

proof fn lemma_swapped_multiset<T>(s: Seq<T>, i: int, j: int)
    requires
        0 <= i < s.len(),
        0 <= j < s.len(),
    ensures
        swapped(s, i, j).to_multiset() == s.to_multiset(),
        swapped(s, i, j).len() == s.len(),
{
    broadcast use vstd::multiset::group_multiset_axioms;

    let t = s.update(i, s[j]);
    vstd::seq_lib::to_multiset_update(s, i, s[j]);
    vstd::seq_lib::to_multiset_update(t, j, s[i]);
    vstd::seq_lib::to_multiset_contains(s, s[j]);
    if i == j {
        assert(swapped(s, i, j) =~= s);
    } else {
        assert(t[j] == s[j]);
        assert(swapped(s, i, j).to_multiset() =~= s.to_multiset());
    }
}

proof fn lemma_shuffle_from_multiset<T>(s: Seq<T>, index: nat, seed: u64)
    requires
        index < s.len(),
    ensures
        shuffle_from(s, index, seed).to_multiset() == s.to_multiset(),
        shuffle_from(s, index, seed).len() == s.len(),
    decreases index,
{
    if index > 0 {
        let next = spec_next_random(seed);
        let j = ((next as usize) as nat) % (index + 1);
        lemma_swapped_multiset(s, index as int, j as int);
        lemma_shuffle_from_multiset(swapped(s, index as int, j as int), (index - 1) as nat, next);
    }
}

/// Shuffling only reorders: the same elements, as often as before.
pub proof fn lemma_shuffle_is_permutation<T>(s: Seq<T>, seed: u64)
    ensures
        spec_shuffle(s, seed).to_multiset() == s.to_multiset(),
        spec_shuffle(s, seed).len() == s.len(),
{
    if s.len() > 1 {
        lemma_shuffle_from_multiset(s, (s.len() - 1) as nat, seed);
    }
}

/// Shuffles `values` in place with a Fisher–Yates pass driven by `seed`.
pub fn shuffle<T: Copy>(values: &mut Vec<T>, seed: u64)
    ensures
        final(values)@ == spec_shuffle(old(values)@, seed),
        final(values)@.to_multiset() == old(values)@.to_multiset(),
{
    proof {
        lemma_shuffle_is_permutation(old(values)@, seed);
    }
    let n = values.len();
    if n <= 1 {
        return;
    }
    let mut index = n - 1;
    let mut current = seed;
    while index >= 1
        invariant
            n == values@.len(),
            n == old(values)@.len(),
            index < n,
            shuffle_from(values@, index as nat, current) == spec_shuffle(old(values)@, seed),
        decreases index,
    {
        let ghost prev = values@;
        current = next_random(current);
        let j = (current as usize) % (index + 1);
        let a = values[index];
        let b = values[j];
        values.set(index, b);
        values.set(j, a);
        proof {
            assert(values@ =~= swapped(prev, index as int, j as int));
        }
        index = index - 1;
    }
}

/// Whether `p` is a pair of distinct contestants among `n`, smaller first.
pub open spec fn valid_pair(p: MatrixPair, n: nat) -> bool {
    p.left < p.right < n
}

/// Inserts `p` into a strictly sorted list of pairs unless it is present.
pub fn insert_pair(v: &mut Vec<MatrixPair>, p: MatrixPair)
    requires
        strictly_sorted(old(v)@),
    ensures
        strictly_sorted(final(v)@),
        forall|q: MatrixPair| #[trigger] final(v)@.contains(q) <==> (old(v)@.contains(q) || q == p),
        final(v)@.len() <= old(v)@.len() + 1,
{
    let n = v.len();
    let mut pos: usize = 0;
    while pos < n && (v[pos].left < p.left || (v[pos].left == p.left && v[pos].right < p.right))
        invariant
            n == v@.len(),
            v@ == old(v)@,
            pos <= n,
            forall|i: int| 0 <= i < pos ==> pair_lt(#[trigger] v@[i], p),
        decreases n - pos,
    {
        pos = pos + 1;
    }
    if pos < n && v[pos].left == p.left && v[pos].right == p.right {
        assert(v@[pos as int] == p);
        return;
    }
    v.insert(pos, p);
    proof {
        assert forall|i: int, j: int| 0 <= i < j < v@.len() implies pair_lt(#[trigger] v@[i], #[trigger] v@[j]) by {
            if j < pos {
            } else if j == pos {
            } else if i < pos {
                assert(v@[j] == old(v)@[j - 1]);
                assert(pair_lt(old(v)@[pos as int], old(v)@[j - 1]) || pos == j - 1);
            } else if i == pos {
                assert(v@[j] == old(v)@[j - 1]);
                assert(pair_lt(old(v)@[pos as int], old(v)@[j - 1]) || pos == j - 1);
            } else {
                assert(v@[i] == old(v)@[i - 1]);
                assert(v@[j] == old(v)@[j - 1]);
            }
        }
        assert forall|q: MatrixPair| #[trigger] v@.contains(q) <==> (old(v)@.contains(q) || q == p) by {
            if v@.contains(q) {
                let i = choose|i: int| 0 <= i < v@.len() && v@[i] == q;
                if i < pos {
                    assert(old(v)@[i] == q);
                } else if i > pos {
                    assert(old(v)@[i - 1] == q);
                }
            }
            if old(v)@.contains(q) {
                let i = choose|i: int| 0 <= i < old(v)@.len() && old(v)@[i] == q;
                if i < pos {
                    assert(v@[i] == q);
                } else {
                    assert(v@[i + 1] == q);
                }
            }
            if q == p {
                assert(v@[pos as int] == q);
            }
        }
    }
}

/// The contestants other than `item` among `n`, in index order.
pub open spec fn others(n: nat, item: nat) -> Seq<usize> {
    Seq::new((n - 1) as nat, |i: int| if i < item { i as usize } else { (i + 1) as usize })
}

/// The seed used for the opponents of `item`.
pub open spec fn seed_for(seed: u64, item: nat) -> u64
    decreases item,
{
    if item == 0 {
        seed
    } else {
        spec_next_random(seed_for(seed, (item - 1) as nat))
    }
}

/// The opponents drawn for `item`, before the first `k` are kept.
pub open spec fn drawn(n: nat, item: nat, seed: u64) -> Seq<usize> {
    spec_shuffle(others(n, item), seed_for(seed, item))
}

/// The pairs selected for all items before `item` and the first `j`
/// opponents of `item`, in the order they are drawn.
pub open spec fn selection(n: nat, k: nat, seed: u64, item: nat, j: nat) -> Seq<MatrixPair>
    decreases item, j,
{
    if j == 0 {
        if item == 0 {
            Seq::empty()
        } else {
            selection(n, k, seed, (item - 1) as nat, k)
        }
    } else {
        selection(n, k, seed, item, (j - 1) as nat).push(
            ordered_pair(item as usize, drawn(n, item, seed)[j - 1]),
        )
    }
}

/// Opponents kept per item for `n` items at `percent` percent: the rounded
/// share of the `n - 1` possible opponents, at least 1 and at most `n - 1`.
pub open spec fn opponent_count(n: nat, percent: nat) -> nat {
    let raw = (((n - 1) * percent + 50) as nat) / 100;
    if raw < 1 {
        1
    } else if raw > n - 1 {
        (n - 1) as nat
    } else {
        raw
    }
}

proof fn lemma_drawn_members(n: nat, item: nat, seed: u64, j: int)
    requires
        item < n,
        n <= usize::MAX,
        0 <= j < n - 1,
    ensures
        drawn(n, item, seed).len() == n - 1,
        drawn(n, item, seed)[j] < n,
        drawn(n, item, seed)[j] != item,
{
    broadcast use vstd::multiset::group_multiset_axioms;

    let o = others(n, item);
    lemma_shuffle_is_permutation(o, seed_for(seed, item));
    let d = drawn(n, item, seed);
    let x = d[j];
    vstd::seq_lib::to_multiset_contains(d, x);
    assert(d.contains(x));
    assert(d.to_multiset().contains(x));
    vstd::seq_lib::to_multiset_contains(o, x);
    let i = choose|i: int| 0 <= i < o.len() && o[i] == x;
    if i < item {
        assert(o[i] == i as usize);
    } else {
        assert(o[i] == (i + 1) as usize);
    }
}

proof fn lemma_selection_prefix(n: nat, k: nat, seed: u64, item: nat, j: nat, item2: nat, j2: nat)
    requires
        j <= k,
        j2 <= k,
        item < item2 || (item == item2 && j <= j2),
    ensures
        selection(n, k, seed, item, j).len() <= selection(n, k, seed, item2, j2).len(),
        forall|i: int|
            0 <= i < selection(n, k, seed, item, j).len() ==> #[trigger] selection(n, k, seed, item2, j2)[i]
                == selection(n, k, seed, item, j)[i],
    decreases item2, j2,
{
    if item == item2 && j == j2 {
    } else if j2 == 0 {
        if item2 > 0 {
            if item == item2 {
            } else {
                lemma_selection_prefix(n, k, seed, item, j, (item2 - 1) as nat, k);
            }
        }
    } else {
        lemma_selection_prefix(n, k, seed, item, j, item2, (j2 - 1) as nat);
    }
}

/// Each contestant meets `opponent_count` distinct opponents of its own
/// draw: all of them are other contestants, and every pair with one of them
/// is in the selection.
pub proof fn lemma_selection_covers_each_contestant(n: nat, percent: nat, seed: u64, item: nat)
    requires
        2 <= n <= usize::MAX,
        item < n,
    ensures
        drawn(n, item, seed).no_duplicates(),
        forall|j: int|
            0 <= j < opponent_count(n, percent) ==> {
                &&& #[trigger] drawn(n, item, seed)[j] < n
                &&& drawn(n, item, seed)[j] != item
                &&& selection(
                    n,
                    opponent_count(n, percent),
                    seed,
                    (n - 1) as nat,
                    opponent_count(n, percent),
                ).contains(ordered_pair(item as usize, drawn(n, item, seed)[j]))
            },
{
    broadcast use vstd::multiset::group_multiset_axioms;

    let k = opponent_count(n, percent);
    let o = others(n, item);
    let d = drawn(n, item, seed);
    lemma_shuffle_is_permutation(o, seed_for(seed, item));
    assert(o.no_duplicates()) by {
        assert forall|a: int, b: int| 0 <= a < o.len() && 0 <= b < o.len() && a != b implies o[a]
            != o[b] by {}
    }
    o.lemma_multiset_has_no_duplicates();
    d.lemma_multiset_has_no_duplicates_conv();
    assert forall|j: int| 0 <= j < k implies {
        &&& #[trigger] d[j] < n
        &&& d[j] != item
        &&& selection(n, k, seed, (n - 1) as nat, k).contains(ordered_pair(item as usize, d[j]))
    } by {
        lemma_drawn_members(n, item, seed, j);
        let s1 = selection(n, k, seed, item, (j + 1) as nat);
        assert(s1[s1.len() - 1] == ordered_pair(item as usize, d[j]));
        lemma_selection_prefix(n, k, seed, item, (j + 1) as nat, (n - 1) as nat, k);
        let fin = selection(n, k, seed, (n - 1) as nat, k);
        assert(fin[s1.len() - 1] == ordered_pair(item as usize, d[j]));
    }
}

/// All unordered pairs of `item_count` contestants at 100 percent; below,
/// each contestant draws `opponent_count` opponents from `seed` and the
/// union of the drawn pairs is kept, sorted.
pub fn sampled_pairs_with_seed(item_count: usize, comparison_percent: u8, seed: u64) -> (pairs: Vec<MatrixPair>)
    requires
        item_count < 2 || (item_count - 1) * (comparison_percent as nat) + 50 <= usize::MAX,
    ensures
        strictly_sorted(pairs@),
        forall|i: int| 0 <= i < pairs@.len() ==> valid_pair(#[trigger] pairs@[i], item_count as nat),
        item_count < 2 ==> pairs@.len() == 0,
        item_count >= 2 && comparison_percent == 100 ==> forall|q: MatrixPair|
            #[trigger] pairs@.contains(q) <==> valid_pair(q, item_count as nat),
        item_count >= 2 && comparison_percent != 100 ==> forall|q: MatrixPair|
            #[trigger] pairs@.contains(q) <==> selection(
                item_count as nat,
                opponent_count(item_count as nat, comparison_percent as nat),
                seed,
                (item_count - 1) as nat,
                opponent_count(item_count as nat, comparison_percent as nat),
            ).contains(q),
{
    let mut pairs: Vec<MatrixPair> = Vec::new();
    if item_count < 2 {
        return pairs;
    }
    let n = item_count;
    if comparison_percent == 100 {
        for left in 0..n
            invariant
                n == item_count,
                strictly_sorted(pairs@),
                forall|i: int| 0 <= i < pairs@.len() ==> valid_pair(#[trigger] pairs@[i], n as nat) && pairs@[i].left < left,
                forall|q: MatrixPair| #[trigger] pairs@.contains(q) <==> (valid_pair(q, n as nat) && q.left < left),
        {
            let mut right = left + 1;
            let ghost start = pairs@;
            while right < n
                invariant
                    n == item_count,
                    left < n,
                    left + 1 <= right <= n,
                    strictly_sorted(pairs@),
                    forall|i: int| 0 <= i < pairs@.len() ==> valid_pair(#[trigger] pairs@[i], n as nat)
                        && (pairs@[i].left < left || (pairs@[i].left == left && pairs@[i].right < right)),
                    forall|q: MatrixPair| #[trigger] pairs@.contains(q) <==> (valid_pair(q, n as nat) && (q.left
                        < left || (q.left == left && q.right < right))),
                decreases n - right,
            {
                let p = MatrixPair { left, right };
                let ghost before = pairs@;
                pairs.push(p);
                proof {
                    assert forall|q: MatrixPair| #[trigger] pairs@.contains(q) <==> (valid_pair(q, n as nat) && (q.left
                        < left || (q.left == left && q.right < right + 1))) by {
                        if pairs@.contains(q) {
                            let i = choose|i: int| 0 <= i < pairs@.len() && pairs@[i] == q;
                            if i < before.len() {
                                assert(before.contains(q));
                            }
                        } else {
                            if q == p {
                                assert(pairs@[before.len() as int] == q);
                            }
                            if valid_pair(q, n as nat) && (q.left < left || (q.left == left && q.right < right)) {
                                assert(before.contains(q));
                                let i = choose|i: int| 0 <= i < before.len() && before[i] == q;
                                assert(pairs@[i] == q);
                            }
                        }
                    }
                }
                right = right + 1;
            }
        }
        return pairs;
    }
    let scaled = (n - 1) * (comparison_percent as usize) + 50;
    let raw = scaled / 100;
    let k = if raw < 1 {
        1
    } else if raw > n - 1 {
        n - 1
    } else {
        raw
    };
    assert(k == opponent_count(n as nat, comparison_percent as nat));
    let mut current = seed;
    let ghost mut chosen: Seq<MatrixPair> = Seq::empty();
    for item in 0..n
        invariant
            n == item_count,
            n >= 2,
            1 <= k <= n - 1,
            k == opponent_count(n as nat, comparison_percent as nat),
            current == seed_for(seed, item as nat),
            item == 0 ==> chosen.len() == 0,
            item > 0 ==> chosen == selection(n as nat, k as nat, seed, (item - 1) as nat, k as nat),
            strictly_sorted(pairs@),
            forall|i: int| 0 <= i < pairs@.len() ==> valid_pair(#[trigger] pairs@[i], n as nat),
            forall|q: MatrixPair| #[trigger] pairs@.contains(q) <==> chosen.contains(q),
    {
        let mut opponents: Vec<usize> = Vec::new();
        for candidate in 0..n
            invariant
                item < n,
                opponents@.len() == (if candidate <= item { candidate as int } else { candidate - 1 }),
                forall|i: int| 0 <= i < opponents@.len() ==> #[trigger] opponents@[i] == (if i < item { i as usize } else { (i + 1) as usize }),
        {
            if candidate != item {
                opponents.push(candidate);
            }
        }
        assert(opponents@ =~= others(n as nat, item as nat));
        shuffle(&mut opponents, current);
        assert(opponents@ == drawn(n as nat, item as nat, seed));
        proof {
            lemma_shuffle_is_permutation(others(n as nat, item as nat), seed_for(seed, item as nat));
        }
        proof {
            if item > 0 {
                assert(selection(n as nat, k as nat, seed, item as nat, 0) == chosen);
            } else {
                assert(selection(n as nat, k as nat, seed, 0, 0) =~= chosen);
            }
        }
        for j in 0..k
            invariant
                n == item_count,
                item < n,
                1 <= k <= n - 1,
                opponents@ == drawn(n as nat, item as nat, seed),
                opponents@.len() == n - 1,
                chosen == selection(n as nat, k as nat, seed, item as nat, j as nat),
                strictly_sorted(pairs@),
                forall|i: int| 0 <= i < pairs@.len() ==> valid_pair(#[trigger] pairs@[i], n as nat),
                forall|q: MatrixPair| #[trigger] pairs@.contains(q) <==> chosen.contains(q),
        {
            proof {
                lemma_drawn_members(n as nat, item as nat, seed, j as int);
            }
            let opponent = opponents[j];
            let p = if item < opponent {
                MatrixPair { left: item, right: opponent }
            } else {
                MatrixPair { left: opponent, right: item }
            };
            let ghost old_pairs = pairs@;
            let ghost old_chosen = chosen;
            insert_pair(&mut pairs, p);
            proof {
                chosen = chosen.push(p);
                assert forall|q: MatrixPair| #[trigger] pairs@.contains(q) <==> chosen.contains(q) by {
                    if q == p {
                        assert(chosen[chosen.len() - 1] == q);
                    }
                    if old_chosen.contains(q) {
                        let i = choose|i: int| 0 <= i < old_chosen.len() && old_chosen[i] == q;
                        assert(chosen[i] == q);
                    }
                    if chosen.contains(q) && q != p {
                        let i = choose|i: int| 0 <= i < chosen.len() && chosen[i] == q;
                        assert(old_chosen[i] == q);
                    }
                }
                assert forall|i: int| 0 <= i < pairs@.len() implies valid_pair(#[trigger] pairs@[i], n as nat) by {
                    assert(pairs@.contains(pairs@[i]));
                    if pairs@[i] != p {
                        assert(old_pairs.contains(pairs@[i]));
                        let m = choose|m: int| 0 <= m < old_pairs.len() && old_pairs[m] == pairs@[i];
                    }
                }
            }
        }
        current = next_random(current);
    }
    pairs
}

/// The pairs hold exactly the selection drawn from `seed`.
pub open spec fn selected_from_seed(pairs: Seq<MatrixPair>, n: nat, percent: nat, seed: u64) -> bool {
    forall|q: MatrixPair|
        #[trigger] pairs.contains(q) <==> selection(
            n,
            opponent_count(n, percent),
            seed,
            (n - 1) as nat,
            opponent_count(n, percent),
        ).contains(q)
}

/// Random 128-bit value from a fresh version 4 UUID.
#[verifier::external_body]
fn random_u128() -> u128 {
    uuid::Uuid::new_v4().as_u128()
}

/// A fresh random seed: the two halves of a random 128-bit value folded
/// together.
pub fn fresh_seed() -> u64 {
    let value = random_u128();
    (value as u64) ^ ((value >> 64u128) as u64)
}

/// The pairs to compare among `item_count` contestants at
/// `comparison_percent` percent, drawn from a fresh random seed.
pub fn sampled_pairs(item_count: usize, comparison_percent: u8) -> (pairs: Vec<MatrixPair>)
    requires
        item_count < 2 || (item_count - 1) * (comparison_percent as nat) + 50 <= usize::MAX,
    ensures
        sampled_set(pairs@, item_count as nat, comparison_percent as nat),
{
    let seed = fresh_seed();
    let pairs = sampled_pairs_with_seed(item_count, comparison_percent, seed);
    assert(item_count >= 2 && comparison_percent != 100 ==> selected_from_seed(
        pairs@,
        item_count as nat,
        comparison_percent as nat,
        seed,
    ));
    pairs
}

/// A contestant of a matrix session: its rank group and its record.
#[derive(Debug)]
pub struct MatrixContestant {
    pub group_id: String,
    pub wins: usize,
    pub losses: usize,
    pub ties: usize,
}

/// Mathematical view of a contestant.
pub struct ContestantView {
    pub group: Seq<char>,
    pub wins: nat,
    pub losses: nat,
    pub ties: nat,
}

impl View for MatrixContestant {
    type V = ContestantView;

    open spec fn view(&self) -> ContestantView {
        ContestantView {
            group: self.group_id@,
            wins: self.wins as nat,
            losses: self.losses as nat,
            ties: self.ties as nat,
        }
    }
}

/// The state of a matrix session.
#[derive(Debug)]
pub struct MatrixSessionState {
    pub contestants: Vec<MatrixContestant>,
    pub pairs: Vec<MatrixPair>,
    pub current_index: usize,
    pub comparison_percent: u8,
}

/// Mathematical view of a matrix session.
#[verifier::ext_equal]
pub struct MatrixView {
    pub contestants: Seq<ContestantView>,
    pub pairs: Seq<MatrixPair>,
    pub current_index: nat,
    pub comparison_percent: u8,
}

impl View for MatrixSessionState {
    type V = MatrixView;

    open spec fn view(&self) -> MatrixView {
        MatrixView {
            contestants: self.contestants@.map_values(|c: MatrixContestant| c@),
            pairs: self.pairs@,
            current_index: self.current_index as nat,
            comparison_percent: self.comparison_percent,
        }
    }
}

/// What an answer needs to be undone: where it was and which pair.
#[derive(Debug, Clone, Copy)]
pub struct MatrixComparisonHistory {
    pub current_index: usize,
    pub pair: MatrixPair,
}

/// How many of the first `upto` pairs involve contestant `i`.
pub open spec fn played(pairs: Seq<MatrixPair>, upto: nat, i: nat) -> nat
    decreases upto,
{
    if upto == 0 {
        0
    } else {
        played(pairs, (upto - 1) as nat, i) + (if pairs[upto - 1].left == i || pairs[upto - 1].right
            == i {
            1nat
        } else {
            0nat
        })
    }
}

proof fn lemma_played_bound(pairs: Seq<MatrixPair>, upto: nat, i: nat)
    ensures
        played(pairs, upto, i) <= upto,
    decreases upto,
{
    if upto > 0 {
        lemma_played_bound(pairs, (upto - 1) as nat, i);
    }
}

/// Pairs name distinct contestants, the cursor lies within the pairs, and
/// each contestant's record counts exactly the answered pairs it is in.
pub open spec fn matrix_wf(v: MatrixView) -> bool {
    &&& forall|i: int| 0 <= i < v.pairs.len() ==> valid_pair(#[trigger] v.pairs[i], v.contestants.len())
    &&& v.current_index <= v.pairs.len()
    &&& forall|i: int|
        0 <= i < v.contestants.len() ==> (#[trigger] v.contestants[i]).wins + v.contestants[i].losses
            + v.contestants[i].ties == played(v.pairs, v.current_index, i as nat)
}

/// `c` with its record moved by the given amounts.
pub open spec fn record(c: ContestantView, wins: int, losses: int, ties: int) -> ContestantView {
    ContestantView {
        group: c.group,
        wins: (c.wins + wins) as nat,
        losses: (c.losses + losses) as nat,
        ties: (c.ties + ties) as nat,
    }
}

/// Records `d` for the pair at the cursor and moves the cursor on.
pub open spec fn spec_matrix_answer(v: MatrixView, d: ComparisonDecision) -> MatrixView {
    let p = v.pairs[v.current_index as int];
    let cs = v.contestants;
    let updated = if d == ComparisonDecision::LeftBefore {
        cs.update(p.left as int, record(cs[p.left as int], 1, 0, 0)).update(
            p.right as int,
            record(cs[p.right as int], 0, 1, 0),
        )
    } else if d == ComparisonDecision::RightBefore {
        cs.update(p.right as int, record(cs[p.right as int], 1, 0, 0)).update(
            p.left as int,
            record(cs[p.left as int], 0, 1, 0),
        )
    } else {
        cs.update(p.left as int, record(cs[p.left as int], 0, 0, 1)).update(
            p.right as int,
            record(cs[p.right as int], 0, 0, 1),
        )
    };
    MatrixView {
        contestants: updated,
        pairs: v.pairs,
        current_index: v.current_index + 1,
        comparison_percent: v.comparison_percent,
    }
}

/// Why an undo record cannot be applied, if it cannot.
pub open spec fn undo_failure(v: MatrixView, result: Seq<char>, h: MatrixComparisonHistory) -> Option<Seq<char>> {
    let p = h.pair;
    if v.current_index != h.current_index + 1 || h.current_index >= v.pairs.len() || v.pairs[h.current_index as int] != p {
        Some("矩阵排序撤销记录与当前会话不一致"@)
    } else if result == "left_before"@ {
        if v.contestants[p.left as int].wins == 0 {
            Some("矩阵胜场记录无效"@)
        } else if v.contestants[p.right as int].losses == 0 {
            Some("矩阵负场记录无效"@)
        } else {
            None
        }
    } else if result == "right_before"@ {
        if v.contestants[p.right as int].wins == 0 {
            Some("矩阵胜场记录无效"@)
        } else if v.contestants[p.left as int].losses == 0 {
            Some("矩阵负场记录无效"@)
        } else {
            None
        }
    } else if result == "tie"@ {
        if v.contestants[p.left as int].ties == 0 || v.contestants[p.right as int].ties == 0 {
            Some("矩阵平局记录无效"@)
        } else {
            None
        }
    } else {
        Some("矩阵比较结果无效"@)
    }
}

/// The session with the answer `result` for the recorded pair withdrawn.
pub open spec fn spec_matrix_undo(v: MatrixView, result: Seq<char>, h: MatrixComparisonHistory) -> MatrixView {
    let p = h.pair;
    let cs = v.contestants;
    let updated = if result == "left_before"@ {
        cs.update(p.left as int, record(cs[p.left as int], -1, 0, 0)).update(
            p.right as int,
            record(cs[p.right as int], 0, -1, 0),
        )
    } else if result == "right_before"@ {
        cs.update(p.right as int, record(cs[p.right as int], -1, 0, 0)).update(
            p.left as int,
            record(cs[p.left as int], 0, -1, 0),
        )
    } else {
        cs.update(p.left as int, record(cs[p.left as int], 0, 0, -1)).update(
            p.right as int,
            record(cs[p.right as int], 0, 0, -1),
        )
    };
    MatrixView {
        contestants: updated,
        pairs: v.pairs,
        current_index: h.current_index as nat,
        comparison_percent: v.comparison_percent,
    }
}

/// The session after skipping: the pair at the cursor moves to the end when
/// another pair remains.
pub open spec fn spec_matrix_skip(v: MatrixView) -> MatrixView {
    if v.current_index + 1 < v.pairs.len() {
        MatrixView {
            contestants: v.contestants,
            pairs: v.pairs.remove(v.current_index as int).push(v.pairs[v.current_index as int]),
            current_index: v.current_index,
            comparison_percent: v.comparison_percent,
        }
    } else {
        v
    }
}

impl MatrixSessionState {
    /// Whether every pair has been answered.
    pub fn completed(&self) -> (r: bool)
        ensures
            r == (self@.current_index >= self@.pairs.len()),
    {
        self.current_index >= self.pairs.len()
    }

    /// The pair to answer next, if any.
    pub fn current_pair(&self) -> (r: Option<MatrixPair>)
        ensures
            self@.current_index < self@.pairs.len() ==> r == Some(self@.pairs[self@.current_index as int]),
            self@.current_index >= self@.pairs.len() ==> r is None,
    {
        if self.current_index < self.pairs.len() {
            Some(self.pairs[self.current_index])
        } else {
            None
        }
    }

    /// Whether the session is well formed.
    pub fn is_well_formed(&self) -> (r: bool)
        ensures
            r == matrix_wf(self@),
    {
        let n = self.contestants.len();
        for i in 0..self.pairs.len()
            invariant
                n == self@.contestants.len(),
                forall|j: int| 0 <= j < i ==> valid_pair(#[trigger] self@.pairs[j], n as nat),
        {
            let p = self.pairs[i];
            if !(p.left < p.right && p.right < n) {
                assert(!valid_pair(self@.pairs[i as int], n as nat));
                return false;
            }
        }
        if self.current_index > self.pairs.len() {
            return false;
        }
        let ghost v = self@;
        let mut counts: Vec<usize> = Vec::new();
        for i in 0..n
            invariant
                counts@.len() == i,
                forall|j: int| 0 <= j < i ==> #[trigger] counts@[j] == 0,
        {
            counts.push(0);
        }
        for k in 0..self.current_index
            invariant
                v == self@,
                n == v.contestants.len(),
                self.current_index <= self.pairs.len(),
                forall|j: int| 0 <= j < v.pairs.len() ==> valid_pair(#[trigger] v.pairs[j], n as nat),
                counts@.len() == n,
                forall|j: int| 0 <= j < n ==> #[trigger] counts@[j] == played(v.pairs, k as nat, j as nat),
        {
            let p = self.pairs[k];
            assert(valid_pair(v.pairs[k as int], n as nat));
            proof {
                lemma_played_bound(v.pairs, k as nat, p.left as nat);
                lemma_played_bound(v.pairs, k as nat, p.right as nat);
            }
            let a = counts[p.left];
            counts.set(p.left, a + 1);
            let b = counts[p.right];
            counts.set(p.right, b + 1);
        }
        for i in 0..n
            invariant
                v == self@,
                n == v.contestants.len(),
                counts@.len() == n,
                forall|j: int| 0 <= j < n ==> #[trigger] counts@[j] == played(v.pairs, v.current_index, j as nat),
                forall|j: int| 0 <= j < i ==> (#[trigger] v.contestants[j]).wins + v.contestants[j].losses
                    + v.contestants[j].ties == played(v.pairs, v.current_index, j as nat),
        {
            let c = &self.contestants[i];
            assert(v.contestants[i as int] == c@);
            let expected = counts[i];
            if c.wins > expected || c.losses > expected - c.wins || c.ties != expected - c.wins - c.losses {
                return false;
            }
        }
        true
    }

    /// Records the answer for the pair at the cursor and returns what is
    /// needed to undo it.
    pub fn answer(&mut self, decision: ComparisonDecision) -> (r: Result<MatrixComparisonHistory, AppError>)
        requires
            matrix_wf(old(self)@),
        ensures
            old(self)@.current_index >= old(self)@.pairs.len() ==> final(self)@ == old(self)@ && (r matches Err(
                AppError::InvalidInput(m),
            ) && m@ == "矩阵排序已经完成"@),
            old(self)@.current_index < old(self)@.pairs.len() ==> (r matches Ok(h) && h == (
            MatrixComparisonHistory {
                current_index: old(self)@.current_index as usize,
                pair: old(self)@.pairs[old(self)@.current_index as int],
            }) && final(self)@ == spec_matrix_answer(old(self)@, decision)),
            matrix_wf(final(self)@),
    {
        let pair = match self.current_pair() {
            Some(p) => p,
            None => {
                return Err(invalid_input("矩阵排序已经完成"));
            },
        };
        assert(self.current_index < self.pairs.len());
        let history = MatrixComparisonHistory { current_index: self.current_index, pair };
        let ghost v = self@;
        assert(valid_pair(v.pairs[v.current_index as int], v.contestants.len()));
        let (l, r) = (pair.left, pair.right);
        assert(v.contestants[l as int] == self.contestants@[l as int]@);
        assert(v.contestants[r as int] == self.contestants@[r as int]@);
        let lw = self.contestants[l].wins;
        let ll = self.contestants[l].losses;
        let lt = self.contestants[l].ties;
        let rw = self.contestants[r].wins;
        let rl = self.contestants[r].losses;
        let rt = self.contestants[r].ties;
        let lg = self.contestants[l].group_id.clone();
        let rg = self.contestants[r].group_id.clone();
        proof {
            lemma_played_bound(v.pairs, v.current_index, l as nat);
            lemma_played_bound(v.pairs, v.current_index, r as nat);
        }
        match decision {
            ComparisonDecision::LeftBefore => {
                self.contestants.set(l, MatrixContestant { group_id: lg, wins: lw + 1, losses: ll, ties: lt });
                self.contestants.set(r, MatrixContestant { group_id: rg, wins: rw, losses: rl + 1, ties: rt });
            },
            ComparisonDecision::RightBefore => {
                self.contestants.set(r, MatrixContestant { group_id: rg, wins: rw + 1, losses: rl, ties: rt });
                self.contestants.set(l, MatrixContestant { group_id: lg, wins: lw, losses: ll + 1, ties: lt });
            },
            ComparisonDecision::Tie => {
                self.contestants.set(l, MatrixContestant { group_id: lg, wins: lw, losses: ll, ties: lt + 1 });
                self.contestants.set(r, MatrixContestant { group_id: rg, wins: rw, losses: rl, ties: rt + 1 });
            },
        }
        self.current_index = self.current_index + 1;
        proof {
            assert(self@ =~= spec_matrix_answer(v, decision));
            assert forall|i: int| 0 <= i < self@.contestants.len() implies (#[trigger] self@.contestants[i]).wins
                + self@.contestants[i].losses + self@.contestants[i].ties == played(self@.pairs, self@.current_index, i as nat) by {
                assert(v.contestants[i].wins + v.contestants[i].losses + v.contestants[i].ties == played(v.pairs, v.current_index, i as nat));
            }
        }
        Ok(history)
    }

    /// Withdraws the answer `result` recorded for `history`.
    pub fn undo(&mut self, result: &str, history: &MatrixComparisonHistory) -> (r: Result<(), AppError>)
        requires
            matrix_wf(old(self)@),
        ensures
            undo_failure(old(self)@, result@, *history) matches Some(m) ==> (r matches Err(
                AppError::InvalidProject(e),
            ) && e@ == m && final(self)@ == old(self)@),
            undo_failure(old(self)@, result@, *history) is None ==> (r is Ok && final(self)@ == spec_matrix_undo(
                old(self)@,
                result@,
                *history,
            )),
            matrix_wf(final(self)@),
    {
        let ghost v = self@;
        let h = *history;
        if self.current_index == 0 || self.current_index - 1 != h.current_index || h.current_index
            >= self.pairs.len() || self.pairs[h.current_index].left != h.pair.left
            || self.pairs[h.current_index].right != h.pair.right {
            return Err(invalid_project("矩阵排序撤销记录与当前会话不一致"));
        }
        let (l, r) = (h.pair.left, h.pair.right);
        assert(valid_pair(v.pairs[h.current_index as int], v.contestants.len()));
        assert(v.contestants[l as int] == self.contestants@[l as int]@);
        assert(v.contestants[r as int] == self.contestants@[r as int]@);
        let lw = self.contestants[l].wins;
        let ll = self.contestants[l].losses;
        let lt = self.contestants[l].ties;
        let rw = self.contestants[r].wins;
        let rl = self.contestants[r].losses;
        let rt = self.contestants[r].ties;
        let (nl, nr) = if crate::text::str_eq(result, "left_before") {
            if lw == 0 {
                return Err(invalid_project("矩阵胜场记录无效"));
            }
            if rl == 0 {
                return Err(invalid_project("矩阵负场记录无效"));
            }
            ((lw - 1, ll, lt), (rw, rl - 1, rt))
        } else if crate::text::str_eq(result, "right_before") {
            if rw == 0 {
                return Err(invalid_project("矩阵胜场记录无效"));
            }
            if ll == 0 {
                return Err(invalid_project("矩阵负场记录无效"));
            }
            ((lw, ll - 1, lt), (rw - 1, rl, rt))
        } else if crate::text::str_eq(result, "tie") {
            if lt == 0 || rt == 0 {
                return Err(invalid_project("矩阵平局记录无效"));
            }
            ((lw, ll, lt - 1), (rw, rl, rt - 1))
        } else {
            return Err(invalid_project("矩阵比较结果无效"));
        };
        let lg = self.contestants[l].group_id.clone();
        let rg = self.contestants[r].group_id.clone();
        self.contestants.set(l, MatrixContestant { group_id: lg, wins: nl.0, losses: nl.1, ties: nl.2 });
        self.contestants.set(r, MatrixContestant { group_id: rg, wins: nr.0, losses: nr.1, ties: nr.2 });
        self.current_index = h.current_index;
        proof {
            assert(self@ =~= spec_matrix_undo(v, result@, h));
            assert(v.pairs[h.current_index as int] == h.pair);
            assert forall|i: int| 0 <= i < self@.contestants.len() implies (#[trigger] self@.contestants[i]).wins
                + self@.contestants[i].losses + self@.contestants[i].ties == played(self@.pairs, self@.current_index, i as nat) by {
                assert(v.contestants[i].wins + v.contestants[i].losses + v.contestants[i].ties == played(v.pairs, v.current_index, i as nat));
            }
        }
        Ok(())
    }

    /// Defers the pair at the cursor to the end when another pair remains.
    pub fn skip(&mut self)
        requires
            matrix_wf(old(self)@),
        ensures
            final(self)@ == spec_matrix_skip(old(self)@),
            matrix_wf(final(self)@),
            final(self)@.pairs.to_multiset() == old(self)@.pairs.to_multiset(),
    {
        let ghost v = self@;
        if self.pairs.len() > 0 && self.current_index < self.pairs.len() - 1 {
            let pair = self.pairs.remove(self.current_index);
            self.pairs.push(pair);
            proof {
                broadcast use vstd::multiset::group_multiset_axioms;

                assert(self@ =~= spec_matrix_skip(v));
                lemma_played_prefix(v.pairs, self@.pairs, v.current_index);
                vstd::seq_lib::to_multiset_remove(v.pairs, v.current_index as int);
                vstd::seq_lib::to_multiset_contains(v.pairs, pair);
                assert(self@.pairs.to_multiset() =~= v.pairs.to_multiset());
                assert forall|i: int| 0 <= i < self@.pairs.len() implies valid_pair(
                    #[trigger] self@.pairs[i],
                    self@.contestants.len(),
                ) by {
                    if i < self@.pairs.len() - 1 {
                        if i < v.current_index {
                            assert(self@.pairs[i] == v.pairs[i]);
                        } else {
                            assert(self@.pairs[i] == v.pairs[i + 1]);
                        }
                    }
                }
            }
        }
    }
}

proof fn lemma_played_prefix(a: Seq<MatrixPair>, b: Seq<MatrixPair>, upto: nat)
    requires
        upto <= a.len(),
        upto <= b.len(),
        forall|j: int| 0 <= j < upto ==> a[j] == b[j],
    ensures
        forall|i: nat| #[trigger] played(a, upto, i) == played(b, upto, i),
    decreases upto,
{
    if upto > 0 {
        lemma_played_prefix(a, b, (upto - 1) as nat);
        assert(a[upto - 1] == b[upto - 1]);
        assert forall|i: nat| #[trigger] played(a, upto, i) == played(b, upto, i) by {
            assert(played(a, (upto - 1) as nat, i) == played(b, (upto - 1) as nat, i));
        }
    }
}

/// Withdrawing an answer restores the session exactly as it was before the
/// answer was recorded.
pub proof fn lemma_undo_reverts_answer(v: MatrixView, d: ComparisonDecision)
    requires
        matrix_wf(v),
        v.current_index < v.pairs.len(),
        v.current_index < usize::MAX,
    ensures
        ({
            let h = MatrixComparisonHistory {
                current_index: v.current_index as usize,
                pair: v.pairs[v.current_index as int],
            };
            let a = spec_matrix_answer(v, d);
            &&& undo_failure(a, d.spec_name(), h) is None
            &&& spec_matrix_undo(a, d.spec_name(), h) == v
        }),
{
    reveal_strlit("left_before");
    reveal_strlit("right_before");
    reveal_strlit("tie");
    let h = MatrixComparisonHistory { current_index: v.current_index as usize, pair: v.pairs[v.current_index as int] };
    let a = spec_matrix_answer(v, d);
    let p = h.pair;
    assert(valid_pair(p, v.contestants.len()));
    let u = spec_matrix_undo(a, d.spec_name(), h);
    assert forall|i: int| 0 <= i < v.contestants.len() implies u.contestants[i] == v.contestants[i] by {
        assert("left_before"@[0] == 'l');
        assert("right_before"@[0] == 'r');
        assert("tie"@[0] == 't');
        if d == ComparisonDecision::LeftBefore {
            assert(d.spec_name() == "left_before"@);
        } else if d == ComparisonDecision::RightBefore {
            assert(d.spec_name()[0] != "left_before"@[0]);
        } else {
            assert(d.spec_name()[0] != "left_before"@[0]);
            assert(d.spec_name()[0] != "right_before"@[0]);
        }
    }
    assert(u.contestants =~= v.contestants);
    assert(u =~= v);
}


/// Undoing the answer that finished a matrix session, after its groups were
/// merged by standings: withdrawing the answer gives back the session as it
/// was before it, and restoring the groups captured before the merge gives
/// back those groups (a group made after the capture is left inactive and
/// empty).
pub proof fn lemma_undo_finalization(
    v: MatrixView,
    d: ComparisonDecision,
    current: Seq<GroupStateView>,
    captured: Seq<GroupStateView>,
    offset: nat,
)
    requires
        matrix_wf(v),
        v.current_index < v.pairs.len(),
        v.current_index < usize::MAX,
        state_ids(captured).no_duplicates(),
        forall|k: int| 0 <= k < captured.len() ==> state_ids(current).contains(#[trigger] captured[k].id),
    ensures
        ({
            let h = MatrixComparisonHistory {
                current_index: v.current_index as usize,
                pair: v.pairs[v.current_index as int],
            };
            spec_matrix_undo(spec_matrix_answer(v, d), d.spec_name(), h) == v
        }),
        ({
            let r = current.map_values(|c: GroupStateView| restored(c, captured, offset));
            &&& forall|k: int| 0 <= k < captured.len() ==> r.contains(#[trigger] captured[k])
            &&& forall|i: int| 0 <= i < r.len() && (#[trigger] r[i]).is_active ==> captured.contains(r[i])
            &&& forall|i: int|
                0 <= i < r.len() ==> (captured.contains(#[trigger] r[i]) || (!r[i].is_active && r[i].items.len() == 0))
        }),
{
    lemma_undo_reverts_answer(v, d);
    lemma_restore_brings_back_capture(current, captured, offset);
}

/// What `sampled_pairs` promises of its result for `n` contestants at
/// `percent` percent.
pub open spec fn sampled_set(pairs: Seq<MatrixPair>, n: nat, percent: nat) -> bool {
    &&& strictly_sorted(pairs)
    &&& forall|i: int| 0 <= i < pairs.len() ==> valid_pair(#[trigger] pairs[i], n)
    &&& n < 2 ==> pairs.len() == 0
    &&& n >= 2 && percent == 100 ==> forall|q: MatrixPair| #[trigger] pairs.contains(q) <==> valid_pair(q, n)
    &&& n >= 2 && percent != 100 ==> exists|seed: u64| #[trigger] selected_from_seed(pairs, n, percent, seed)
}

/// A contestant that has played no pair yet.
pub open spec fn fresh_contestant(group: Seq<char>) -> ContestantView {
    ContestantView { group, wins: 0, losses: 0, ties: 0 }
}

/// The wins of each contestant, as sort keys.
pub open spec fn wins_keys(v: MatrixView) -> Seq<usize> {
    v.contestants.map_values(|c: ContestantView| c.wins as usize)
}

/// The contestants' groups in the order `order` lists them.
pub open spec fn groups_in(v: MatrixView, order: Seq<usize>) -> Seq<Seq<char>> {
    order.map_values(|i: usize| v.contestants[i as int].group)
}

/// The contestants' wins in the order `order` lists them.
pub open spec fn wins_in(v: MatrixView, order: Seq<usize>) -> Seq<usize> {
    order.map_values(|i: usize| wins_keys(v)[i as int])
}

/// A contestant's line in the standings.
#[derive(Debug)]
pub struct MatrixStanding {
    pub group_id: String,
    pub wins: usize,
    pub losses: usize,
    pub ties: usize,
    pub total: usize,
}

/// Counters a matrix workspace shows.
#[derive(Debug, Clone, Copy)]
pub struct MatrixProgress {
    pub comparison_count: usize,
    pub remaining: usize,
    pub planned_count: usize,
    pub progress_percent: usize,
    pub located_count: usize,
    pub total_count: usize,
    pub can_undo: bool,
    pub completed: bool,
}

impl MatrixSessionState {
    /// A new session over the given groups: every record at zero, the cursor
    /// at the start, and the sampled pairs in a random order.
    pub fn initialize(group_ids: Vec<String>, comparison_percent: u8) -> (s: Self)
        requires
            group_ids@.len() < 2 || (group_ids@.len() - 1) * (comparison_percent as nat) + 50
                <= usize::MAX,
        ensures
            s@.contestants.len() == group_ids@.len(),
            forall|i: int|
                0 <= i < group_ids@.len() ==> #[trigger] s@.contestants[i] == fresh_contestant(
                    group_ids@[i]@,
                ),
            s@.current_index == 0,
            s@.comparison_percent == comparison_percent,
            exists|sorted: Seq<MatrixPair>, seed: u64|
                #![trigger sampled_set(sorted, group_ids@.len() as nat, comparison_percent as nat), spec_shuffle(sorted, seed)]
                sampled_set(sorted, group_ids@.len() as nat, comparison_percent as nat)
                    && s@.pairs == spec_shuffle(sorted, seed) && s@.pairs.to_multiset() == sorted.to_multiset(),
            matrix_wf(s@),
    {
        let n = group_ids.len();
        let mut contestants: Vec<MatrixContestant> = Vec::new();
        for i in 0..n
            invariant
                n == group_ids@.len(),
                contestants@.len() == i,
                forall|j: int| 0 <= j < i ==> #[trigger] contestants@[j]@ == fresh_contestant(group_ids@[j]@),
        {
            contestants.push(MatrixContestant { group_id: group_ids[i].clone(), wins: 0, losses: 0, ties: 0 });
        }
        let mut pairs = sampled_pairs(n, comparison_percent);
        let ghost sorted = pairs@;
        assert(sampled_set(sorted, n as nat, comparison_percent as nat));
        let seed = fresh_seed();
        shuffle(&mut pairs, seed);
        let s = MatrixSessionState { contestants, pairs, current_index: 0, comparison_percent };
        proof {
            assert forall|i: int| 0 <= i < s@.pairs.len() implies valid_pair(#[trigger] s@.pairs[i], n as nat) by {
                vstd::seq_lib::to_multiset_contains(s@.pairs, s@.pairs[i]);
                vstd::seq_lib::to_multiset_contains(sorted, s@.pairs[i]);
                assert(s@.pairs.contains(s@.pairs[i]));
            }
            assert forall|i: int| 0 <= i < s@.contestants.len() implies (#[trigger] s@.contestants[i]).wins
                + s@.contestants[i].losses + s@.contestants[i].ties == played(s@.pairs, 0, i as nat) by {
                assert(s@.contestants[i] == contestants@[i]@);
            }
            assert forall|i: int| 0 <= i < group_ids@.len() implies #[trigger] s@.contestants[i] == fresh_contestant(
                group_ids@[i]@,
            ) by {
                assert(s@.contestants[i] == contestants@[i]@);
            }
            assert(sampled_set(sorted, n as nat, comparison_percent as nat) && s@.pairs == spec_shuffle(sorted, seed));
        }
        s
    }

    /// Contestant indices in standings order: most wins first, equal wins by
    /// position.
    pub fn standings_order(&self) -> (order: Vec<usize>)
        ensures
            ranked_by_key(wins_keys(self@), order@),
    {
        let n = self.contestants.len();
        let mut keys: Vec<usize> = Vec::new();
        for i in 0..n
            invariant
                n == self@.contestants.len(),
                keys@.len() == i,
                forall|j: int| 0 <= j < i ==> #[trigger] keys@[j] == wins_keys(self@)[j],
        {
            assert(self@.contestants[i as int] == self.contestants@[i as int]@);
            keys.push(self.contestants[i].wins);
        }
        assert(keys@ =~= wins_keys(self@));
        order_by_key_desc(&keys)
    }

    /// Every contestant's record with its number of answered pairs, in
    /// standings order.
    pub fn standings(&self) -> (r: Vec<MatrixStanding>)
        requires
            matrix_wf(self@),
        ensures
            exists|order: Seq<usize>|
                #[trigger] ranked_by_key(wins_keys(self@), order) && r@.len() == order.len() && forall|k: int|
                    0 <= k < order.len() ==> {
                        let c = self@.contestants[order[k] as int];
                        &&& (#[trigger] r@[k]).group_id@ == c.group
                        &&& r@[k].wins == c.wins
                        &&& r@[k].losses == c.losses
                        &&& r@[k].ties == c.ties
                        &&& r@[k].total == c.wins + c.losses + c.ties
                    },
    {
        let order = self.standings_order();
        let ghost v = self@;
        let mut out: Vec<MatrixStanding> = Vec::new();
        for k in 0..order.len()
            invariant
                v == self@,
                matrix_wf(v),
                ranked_by_key(wins_keys(v), order@),
                out@.len() == k,
                forall|m: int|
                    0 <= m < k ==> {
                        let c = v.contestants[order@[m] as int];
                        &&& (#[trigger] out@[m]).group_id@ == c.group
                        &&& out@[m].wins == c.wins
                        &&& out@[m].losses == c.losses
                        &&& out@[m].ties == c.ties
                        &&& out@[m].total == c.wins + c.losses + c.ties
                    },
        {
            let i = order[k];
            assert(i < wins_keys(v).len());
            let c = &self.contestants[i];
            assert(v.contestants[i as int] == c@);
            proof {
                lemma_played_bound(v.pairs, v.current_index, i as nat);
            }
            out.push(
                MatrixStanding {
                    group_id: c.group_id.clone(),
                    wins: c.wins,
                    losses: c.losses,
                    ties: c.ties,
                    total: c.wins + c.losses + c.ties,
                },
            );
        }
        out
    }

    /// How a finished session turns into rank groups: the leading group of
    /// each run of equal wins in standings order, in order, and for every
    /// other contestant the pair (its group, the leader it merges into).
    pub fn final_groups(&self) -> (r: (Vec<String>, Vec<(String, String)>))
        ensures
            exists|order: Seq<usize>|
                #[trigger] ranked_by_key(wins_keys(self@), order) && views(r.0@) == tie_runs_prefix(
                    groups_in(self@, order),
                    wins_in(self@, order),
                    order.len(),
                ).0 && r.1@.map_values(|m: (String, String)| (m.0@, m.1@)) == tie_runs_prefix(
                    groups_in(self@, order),
                    wins_in(self@, order),
                    order.len(),
                ).1,
    {
        let order = self.standings_order();
        let ghost v = self@;
        let mut ids: Vec<String> = Vec::new();
        let mut keys: Vec<usize> = Vec::new();
        for k in 0..order.len()
            invariant
                v == self@,
                ranked_by_key(wins_keys(v), order@),
                ids@.len() == k,
                keys@.len() == k,
                forall|m: int| 0 <= m < k ==> #[trigger] ids@[m]@ == groups_in(v, order@)[m],
                forall|m: int| 0 <= m < k ==> #[trigger] keys@[m] == wins_in(v, order@)[m],
        {
            let i = order[k];
            assert(i < wins_keys(v).len());
            assert(v.contestants[i as int] == self.contestants@[i as int]@);
            ids.push(self.contestants[i].group_id.clone());
            keys.push(self.contestants[i].wins);
        }
        assert(views(ids@) =~= groups_in(v, order@));
        assert(keys@ =~= wins_in(v, order@));
        tie_runs(&ids, &keys)
    }

    /// The counters shown with the session.
    pub fn progress(&self) -> (p: MatrixProgress)
        ensures
            p.planned_count == self@.pairs.len(),
            p.comparison_count == (if self@.current_index < self@.pairs.len() {
                self@.current_index
            } else {
                self@.pairs.len() as nat
            }),
            p.remaining == p.planned_count - p.comparison_count,
            p.progress_percent == crate::comparison::spec_progress_percent(
                p.comparison_count as nat,
                p.planned_count as nat,
            ),
            p.completed == (self@.current_index >= self@.pairs.len()),
            p.located_count == (if p.completed { self@.contestants.len() } else { 0 }),
            p.total_count == self@.contestants.len(),
            p.can_undo == (p.comparison_count > 0),
    {
        let total = self.pairs.len();
        let count = if self.current_index < total {
            self.current_index
        } else {
            total
        };
        let completed = self.completed();
        MatrixProgress {
            comparison_count: count,
            remaining: total - count,
            planned_count: total,
            progress_percent: crate::comparison::progress_percent(count, total),
            located_count: if completed {
                self.contestants.len()
            } else {
                0
            },
            total_count: self.contestants.len(),
            can_undo: count > 0,
            completed,
        }
    }
}

} // verus!
