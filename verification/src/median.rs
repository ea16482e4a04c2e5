//! Median-sequence extraction: from a frequency tally, repeatedly take the
//! median grade and virtually remove one occurrence of it, until every vote
//! has been consumed. The resulting sequence of successive medians orders
//! candidates by decreasing significance.

use crate::error::PollError;
use crate::tally::{
    compute_frequency_of_grades, lemma_tally_correct, lemma_tally_of_permuted, sum_counts,
    tally_of,
};
use vstd::prelude::*;

verus! {

broadcast use vstd::seq_lib::group_to_multiset_ensures;

/// The keys of a tally: the distinct grades, ascending.
pub open spec fn tally_keys(t: Seq<(u8, nat)>) -> Seq<u8> {
    t.map_values(|p: (u8, nat)| p.0)
}

/// The counts of a tally, parallel to its keys.
pub open spec fn tally_counts(t: Seq<(u8, nat)>) -> Seq<nat> {
    t.map_values(|p: (u8, nat)| p.1)
}

/// Sum of a sequence of counts.
pub open spec fn sum_of(vals: Seq<nat>) -> nat
    decreases vals.len(),
{
    if vals.len() == 0 {
        0
    } else {
        sum_of(vals.drop_last()) + vals.last()
    }
}

/// The cumulative count through position `i`: how many of the remaining votes
/// sit at the first `i + 1` grade slots.
pub open spec fn cumulative(vals: Seq<nat>, i: int) -> nat
    recommends
        0 <= i < vals.len(),
{
    sum_of(vals.subrange(0, i + 1))
}

/// First position at or after `i` whose cumulative count reaches half the
/// total (the `>= 0.5` test on the cumulative fraction, stated exactly as
/// `2 * cumulative >= total`); the last position if none does.
pub open spec fn median_index_from(vals: Seq<nat>, total: int, i: int) -> int
    decreases vals.len() - i,
{
    if i < 0 || i >= vals.len() {
        vals.len() - 1
    } else if 2 * cumulative(vals, i) >= total {
        i
    } else {
        median_index_from(vals, total, i + 1)
    }
}

/// The median position of a count profile: the first position whose
/// cumulative count reaches half of `total`.
pub open spec fn median_index(vals: Seq<nat>, total: nat) -> int {
    median_index_from(vals, total as int, 0)
}

/// The sequence of `n` successive medians taken from the grade slots `keys`
/// with remaining counts `vals`: each round records the median grade and
/// removes one occurrence of it. Slots are kept even when their count reaches
/// zero.
pub open spec fn median_seq(keys: Seq<u8>, vals: Seq<nat>, n: nat) -> Seq<u8>
    decreases n,
{
    if n == 0 {
        Seq::empty()
    } else {
        let total = sum_of(vals);
        let i = median_index(vals, total);
        let g = if 0 <= i < keys.len() {
            keys[i]
        } else {
            0u8
        };
        let reduced = if 0 <= i < vals.len() {
            vals.update(i, (vals[i] - 1) as nat)
        } else {
            vals
        };
        seq![g] + median_seq(keys, reduced, (n - 1) as nat)
    }
}

/// The median sequence of a ballot: successive medians of its tally, one per
/// vote.
pub open spec fn mseq_of(s: Seq<u8>) -> Seq<u8> {
    median_seq(tally_keys(tally_of(s)), tally_counts(tally_of(s)), s.len())
}

/// The median sequence of a ballot, widened to the vote-count type callers
/// receive.
pub open spec fn majority_values_of(s: Seq<u8>) -> Seq<u32> {
    mseq_of(s).map_values(|g: u8| g as u32)
}

/// A median sequence has exactly one entry per vote.
pub proof fn lemma_median_seq_len(keys: Seq<u8>, vals: Seq<nat>, n: nat)
    ensures
        median_seq(keys, vals, n).len() == n,
    decreases n,
{
    if n > 0 {
        let total = sum_of(vals);
        let i = median_index(vals, total);
        let reduced = if 0 <= i < vals.len() {
            vals.update(i, (vals[i] - 1) as nat)
        } else {
            vals
        };
        lemma_median_seq_len(keys, reduced, (n - 1) as nat);
    }
}

/// Splitting off the cumulative count at one position.
pub proof fn lemma_cumulative_step(vals: Seq<nat>, i: int)
    requires
        0 <= i < vals.len(),
    ensures
        cumulative(vals, i) == if i == 0 {
            vals[0]
        } else {
            cumulative(vals, i - 1) + vals[i]
        },
{
    assert(vals.subrange(0, i + 1).drop_last() =~= vals.subrange(0, i));
    assert(vals.subrange(0, i + 1).last() == vals[i]);
    if i == 0 {
        assert(vals.subrange(0, 0) =~= Seq::<nat>::empty());
    }
}

/// A prefix never sums to more than the whole.
pub proof fn lemma_sum_prefix_bound(vals: Seq<nat>, k: int)
    requires
        0 <= k <= vals.len(),
    ensures
        sum_of(vals.subrange(0, k)) <= sum_of(vals),
    decreases vals.len() - k,
{
    if k == vals.len() {
        assert(vals.subrange(0, k) =~= vals);
    } else {
        assert(vals.subrange(0, k + 1).drop_last() =~= vals.subrange(0, k));
        lemma_sum_prefix_bound(vals, k + 1);
    }
}

proof fn lemma_median_index_from_props(vals: Seq<nat>, total: int, i: int)
    requires
        0 <= i < vals.len(),
        total > 0,
        2 * cumulative(vals, vals.len() - 1) >= total,
        forall|j: int| 0 <= j < i ==> 2 * cumulative(vals, j) < total,
    ensures
        ({
            let r = median_index_from(vals, total, i);
            &&& i <= r < vals.len()
            &&& 2 * cumulative(vals, r) >= total
            &&& forall|j: int| 0 <= j < r ==> 2 * cumulative(vals, j) < total
        }),
    decreases vals.len() - i,
{
    if 2 * cumulative(vals, i) >= total {
    } else {
        assert(i < vals.len() - 1);
        lemma_median_index_from_props(vals, total, i + 1);
    }
}

/// When the counts really sum to `total` and votes remain, the median search
/// always lands on a position inside the profile, the first position whose
/// cumulative count reaches half the total, and that position still holds at
/// least one vote. The fallback to the last position is therefore
/// unreachable, and removing a vote at the median never underflows.
pub proof fn lemma_median_index_props(vals: Seq<nat>, total: nat)
    requires
        vals.len() > 0,
        total > 0,
        sum_of(vals) == total,
    ensures
        ({
            let i = median_index(vals, total);
            &&& 0 <= i < vals.len()
            &&& 2 * cumulative(vals, i) >= total
            &&& forall|j: int| 0 <= j < i ==> 2 * cumulative(vals, j) < total
            &&& vals[i] > 0
        }),
{
    assert(vals.subrange(0, vals.len() as int) =~= vals);
    assert(cumulative(vals, vals.len() - 1) == total);
    lemma_median_index_from_props(vals, total as int, 0);
    let i = median_index(vals, total);
    lemma_cumulative_step(vals, i);
    if i == 0 {
        assert(2 * vals[0] >= total);
    } else {
        assert(2 * cumulative(vals, i - 1) < total);
    }
}

/// Removing one vote at a non-empty slot lowers the sum by one.
pub proof fn lemma_sum_update_dec(vals: Seq<nat>, i: int)
    requires
        0 <= i < vals.len(),
        vals[i] > 0,
    ensures
        sum_of(vals.update(i, (vals[i] - 1) as nat)) == sum_of(vals) - 1,
    decreases vals.len(),
{
    let updated = vals.update(i, (vals[i] - 1) as nat);
    if i == vals.len() - 1 {
        assert(updated.drop_last() =~= vals.drop_last());
    } else {
        assert(updated.drop_last() =~= vals.drop_last().update(i, (vals[i] - 1) as nat));
        lemma_sum_update_dec(vals.drop_last(), i);
    }
}

/// Median-sequence determinism: ballots with the same grades in any order
/// have the same median sequence.
pub proof fn lemma_median_sequence_deterministic(s1: Seq<u8>, s2: Seq<u8>)
    requires
        s1.to_multiset() == s2.to_multiset(),
    ensures
        mseq_of(s1) == mseq_of(s2),
{
    lemma_tally_of_permuted(s1, s2);
    assert(s1.len() == s1.to_multiset().len());
    assert(s2.len() == s2.to_multiset().len());
}

/// The counts of a vector of tallies, as mathematical numbers.
pub open spec fn nat_counts(v: Seq<u32>) -> Seq<nat> {
    v.map_values(|c: u32| c as nat)
}

proof fn lemma_sum_of_first(s: Seq<nat>)
    requires
        s.len() > 0,
    ensures
        sum_of(s) == s.first() + sum_of(s.drop_first()),
    decreases s.len(),
{
    if s.len() == 1 {
        assert(s.drop_last() =~= Seq::<nat>::empty());
        assert(s.drop_first() =~= Seq::<nat>::empty());
        assert(s.last() == s.first());
    } else {
        lemma_sum_of_first(s.drop_last());
        assert(s.drop_last().first() == s.first());
        assert(s.drop_last().drop_first() =~= s.drop_first().drop_last());
        assert(s.drop_first().last() == s.last());
    }
}

/// The sum of a tally's counts column is the vote total the tally accounts
/// for.
pub proof fn lemma_sum_of_counts(t: Seq<(u8, nat)>)
    ensures
        sum_of(tally_counts(t)) == sum_counts(t),
    decreases t.len(),
{
    if t.len() > 0 {
        lemma_sum_of_counts(t.drop_first());
        assert(tally_counts(t.drop_first()) =~= tally_counts(t).drop_first());
        lemma_sum_of_first(tally_counts(t));
        assert(tally_counts(t).first() == t.first().1);
    }
}

/// Sums the remaining counts; the vote total still to be consumed.
fn sum_values(values: &Vec<u32>) -> (total: u32)
    requires
        sum_of(nat_counts(values@)) <= u32::MAX,
    ensures
        total as nat == sum_of(nat_counts(values@)),
{
    let ghost vals = nat_counts(values@);
    let mut acc: u32 = 0;
    let mut j: usize = 0;
    while j < values.len()
        invariant
            j <= values@.len(),
            vals == nat_counts(values@),
            sum_of(vals) <= u32::MAX,
            acc as nat == sum_of(vals.subrange(0, j as int)),
        decreases values@.len() - j,
    {
        proof {
            assert(vals.subrange(0, j + 1).drop_last() =~= vals.subrange(0, j as int));
            assert(vals.subrange(0, j + 1).last() == vals[j as int]);
            lemma_sum_prefix_bound(vals, j + 1);
        }
        acc = acc + values[j];
        j = j + 1;
    }
    proof {
        assert(vals.subrange(0, vals.len() as int) =~= vals);
    }
    acc
}

/// Finds the median position of a count profile: the first position whose
/// cumulative count reaches half of `total` (the `>= 0.5` test on cumulative
/// fractions), or the last position if none does.
pub fn median_grade(values: &Vec<u32>, total: u32) -> (idx: usize)
    requires
        values@.len() > 0,
        sum_of(nat_counts(values@)) <= u32::MAX,
    ensures
        idx as int == median_index(nat_counts(values@), total as nat),
        idx < values@.len(),
{
    let ghost vals = nat_counts(values@);
    let mut acc: u32 = 0;
    let mut j: usize = 0;
    while j < values.len()
        invariant
            j <= values@.len(),
            vals == nat_counts(values@),
            sum_of(vals) <= u32::MAX,
            acc as nat == sum_of(vals.subrange(0, j as int)),
            median_index(vals, total as nat) == median_index_from(vals, total as int, j as int),
        decreases values@.len() - j,
    {
        proof {
            assert(vals.subrange(0, j + 1).drop_last() =~= vals.subrange(0, j as int));
            assert(vals.subrange(0, j + 1).last() == vals[j as int]);
            lemma_sum_prefix_bound(vals, j + 1);
        }
        acc = acc + values[j];
        if 2 * (acc as u64) >= total as u64 {
            proof {
                assert(cumulative(vals, j as int) == acc as nat);
            }
            return j;
        }
        proof {
            assert(cumulative(vals, j as int) == acc as nat);
        }
        j = j + 1;
    }
    values.len() - 1
}

/// Computes the median sequence of a ballot: tallies it, then takes the
/// median grade once per vote, removing one occurrence of each median taken.
///
/// An empty ballot has no median and fails fast with `EmptyBallotSet`.
pub fn compute_majority_values(grades: Vec<u8>) -> (r: Result<Vec<u32>, PollError>)
    requires
        grades@.len() <= u32::MAX,
    ensures
        (r is Ok) <==> grades@.len() > 0,
        grades@.len() == 0 ==> r == Err::<Vec<u32>, PollError>(PollError::EmptyBallotSet),
        r is Ok ==> (r->Ok_0)@ == majority_values_of(grades@) && (r->Ok_0)@.len()
            == grades@.len(),
{
    if grades.len() == 0 {
        return Err(PollError::EmptyBallotSet);
    }
    let ghost gs = grades@;
    let total_votes = grades.len();
    let tally = compute_frequency_of_grades(grades);

    let mut keys: Vec<u8> = Vec::new();
    let mut values: Vec<u32> = Vec::new();
    let mut m: usize = 0;
    while m < tally.len()
        invariant
            m <= tally@.len(),
            keys@.len() == m,
            values@.len() == m,
            forall|x: int| 0 <= x < m ==> #[trigger] keys@[x] == tally@[x].0,
            forall|x: int| 0 <= x < m ==> #[trigger] values@[x] == tally@[x].1,
        decreases tally@.len() - m,
    {
        let entry = tally[m];
        keys.push(entry.0);
        values.push(entry.1);
        m = m + 1;
    }
    let ghost t0 = tally_of(gs);
    proof {
        assert(keys@ =~= tally_keys(t0));
        assert(nat_counts(values@) =~= tally_counts(t0));
        lemma_tally_correct(gs);
        lemma_sum_of_counts(t0);
    }
    let ghost keys0 = tally_keys(t0);
    let ghost full = mseq_of(gs);

    let mut majority_values: Vec<u32> = Vec::new();
    let mut count: usize = 0;
    while count < total_votes
        invariant
            count <= total_votes,
            total_votes == gs.len() <= u32::MAX,
            keys@ == keys0,
            values@.len() == keys0.len(),
            full == mseq_of(gs),
            sum_of(nat_counts(values@)) == total_votes - count,
            majority_values@.len() == count,
            forall|x: int| 0 <= x < count ==> #[trigger] majority_values@[x] <= 255,
            full =~= majority_values@.map_values(|g: u32| g as u8) + median_seq(
                keys0,
                nat_counts(values@),
                (total_votes - count) as nat,
            ),
        decreases total_votes - count,
    {
        let ghost vals = nat_counts(values@);
        let ghost remaining = (total_votes - count) as nat;
        let ghost built = majority_values@.map_values(|g: u32| g as u8);
        proof {
            if values@.len() == 0 {
                assert(sum_of(vals) == 0);
            }
        }
        let total = sum_values(&values);
        let idx = median_grade(&values, total);
        proof {
            lemma_median_index_props(vals, total as nat);
        }
        let g = keys[idx];
        majority_values.push(g as u32);
        let c = values[idx];
        values.set(idx, c - 1);
        proof {
            let i = median_index(vals, total as nat);
            assert(i == idx as int);
            let reduced = vals.update(i, (vals[i] - 1) as nat);
            assert(nat_counts(values@) =~= reduced);
            lemma_sum_update_dec(vals, i);
            assert(median_seq(keys0, vals, remaining) == seq![keys0[i]] + median_seq(
                keys0,
                reduced,
                (remaining - 1) as nat,
            ));
            assert(majority_values@.map_values(|x: u32| x as u8) =~= built.push(g));
            assert(built + (seq![g] + median_seq(keys0, reduced, (remaining - 1) as nat))
                =~= built.push(g) + median_seq(keys0, reduced, (remaining - 1) as nat));
        }
        count = count + 1;
    }
    proof {
        assert(median_seq(keys0, nat_counts(values@), 0) =~= Seq::<u8>::empty());
        assert(majority_values@.map_values(|g: u32| g as u8) + Seq::<u8>::empty()
            =~= majority_values@.map_values(|g: u32| g as u8));
        assert(majority_values@ =~= majority_values_of(gs));
        lemma_median_seq_len(tally_keys(t0), tally_counts(t0), gs.len());
    }
    Ok(majority_values)
}

} // verus!
