//! Frequency tally of grades: sort a ballot, partition it into runs of equal
//! grades, and record each distinct grade with its number of occurrences.

use vstd::multiset::Multiset;
use vstd::prelude::*;

verus! {

broadcast use vstd::seq_lib::group_to_multiset_ensures, vstd::multiset::group_multiset_axioms, Seq::lemma_flatten_push;

/// How many times grade `g` occurs in the ballot `s` (order-independent).
pub open spec fn grade_count(s: Seq<u8>, g: u8) -> nat {
    s.to_multiset().count(g)
}

/// The ballot is in ascending order.
pub open spec fn grades_sorted(s: Seq<u8>) -> bool {
    forall|i: int, j: int| 0 <= i < j < s.len() ==> s[i] <= s[j]
}

/// Sorts a ballot ascending without losing or inventing grades.
fn sort_grades(grades: Vec<u8>) -> (r: Vec<u8>)
    ensures
        grades_sorted(r@),
        r@.to_multiset() == grades@.to_multiset(),
        r@.len() == grades@.len(),
{
    let mut v = grades;
    let ghost m = v@.to_multiset();
    let mut i: usize = 1;
    while i < v.len()
        invariant
            1 <= i,
            v@.len() == grades@.len(),
            v@.to_multiset() == m,
            forall|a: int, b: int| 0 <= a < b < i && b < v@.len() ==> v@[a] <= v@[b],
        decreases v@.len() - i,
    {
        let x = v[i];
        let mut j: usize = 0;
        while j < i && v[j] <= x
            invariant
                j <= i < v@.len(),
                forall|a: int| 0 <= a < j ==> v@[a] <= x,
            decreases i - j,
        {
            j = j + 1;
        }
        // every element of v[j..i] exceeds x, and v[0..j] stays at most x
        if j < i {
            assert(forall|a: int| j <= a < i ==> x < v@[a]);
            let ghost before = v@;
            let moved = v.remove(i);
            v.insert(j, moved);
            proof {
                let after = before.remove(i as int).insert(j as int, x);
                assert(v@ =~= after);
                assert(v@.to_multiset() =~= m) by {
                    before.to_multiset_ensures();
                    before.remove(i as int).to_multiset_ensures();
                    vstd::seq_lib::to_multiset_insert(before.remove(i as int), j as int, x);
                    assert(before.to_multiset().remove(x).insert(x) =~= before.to_multiset());
                }
                assert forall|a: int, b: int| 0 <= a < b < i + 1 && b < v@.len() implies v@[a]
                    <= v@[b] by {
                    if b < j {
                        assert(v@[a] == before[a] && v@[b] == before[b]);
                    } else if b == j {
                        assert(v@[b] == x && v@[a] == before[a]);
                    } else if a == j {
                        assert(v@[a] == x && v@[b] == before[b - 1]);
                    } else if a < j {
                        assert(v@[a] == before[a] && v@[b] == before[b - 1]);
                    } else {
                        assert(v@[a] == before[a - 1] && v@[b] == before[b - 1]);
                    }
                }
            }
        }
        i = i + 1;
    }
    v
}

/// Splits a vector into its maximal runs of equal adjacent values, in input
/// order. On a sorted input the groups are exactly the occurrences of each
/// distinct grade, ascending.
pub fn group_by(vector: Vec<u8>) -> (r: Vec<Vec<u8>>)
    ensures
        // each group is a non-empty run of one repeated grade
        forall|k: int| 0 <= k < r@.len() ==> r@[k]@.len() > 0,
        forall|k: int, n: int|
            0 <= k < r@.len() && 0 <= n < r@[k]@.len() ==> #[trigger] r@[k]@[n] == r@[k]@[0],
        // neighbouring groups hold different grades
        forall|k: int| 0 <= k < r@.len() - 1 ==> #[trigger] r@[k]@[0] != r@[k + 1]@[0],
        // concatenating the groups restores the input
        r@.map_values(|g: Vec<u8>| g@).flatten() == vector@,
        // every grade of the input heads some group
        forall|g: u8|
            grade_count(vector@, g) > 0 ==> exists|k: int|
                0 <= k < r@.len() && (#[trigger] r@[k]@[0]) == g,
        forall|k: int| 0 <= k < r@.len() ==> r@[k]@.len() <= vector@.len(),
        // on a sorted input, group heads ascend strictly and each group
        // collects all occurrences of its grade
        grades_sorted(vector@) ==> (forall|k1: int, k2: int|
            0 <= k1 < k2 < r@.len() ==> r@[k1]@[0] < r@[k2]@[0]),
        grades_sorted(vector@) ==> (forall|k: int|
            0 <= k < r@.len() ==> r@[k]@.len() == grade_count(vector@, r@[k]@[0])),
{
    let ghost vs = vector@;
    let mut r: Vec<Vec<u8>> = Vec::new();
    let mut i: usize = 0;
    while i < vector.len()
        invariant
            i <= vs.len(),
            vector@ == vs,
            forall|k: int| 0 <= k < r@.len() ==> r@[k]@.len() > 0,
            forall|k: int, n: int|
                0 <= k < r@.len() && 0 <= n < r@[k]@.len() ==> #[trigger] r@[k]@[n] == r@[k]@[0],
            forall|k: int| 0 <= k < r@.len() - 1 ==> #[trigger] r@[k]@[0] != r@[k + 1]@[0],
            r@.map_values(|g: Vec<u8>| g@).flatten() == vs.subrange(0, i as int),
            (i == 0) == (r@.len() == 0),
            i > 0 ==> r@[r@.len() - 1]@[0] == vs[i - 1],
            forall|j: int|
                0 <= j < i ==> exists|k: int|
                    0 <= k < r@.len() && (#[trigger] r@[k]@[0]) == #[trigger] vs[j],
            forall|k: int| 0 <= k < r@.len() ==> r@[k]@.len() <= i,
            grades_sorted(vs) ==> (forall|k1: int, k2: int|
                0 <= k1 < k2 < r@.len() ==> r@[k1]@[0] < r@[k2]@[0]),
            grades_sorted(vs) ==> (forall|k: int|
                0 <= k < r@.len() ==> r@[k]@.len() == grade_count(
                    vs.subrange(0, i as int),
                    r@[k]@[0],
                )),
        decreases vs.len() - i,
    {
        let item = vector[i];
        let ghost prefix = vs.subrange(0, i as int);
        let ghost mapped = r@.map_values(|g: Vec<u8>| g@);
        let ghost old_r = r@;
        proof {
            assert(vs.subrange(0, i + 1) =~= prefix.push(item));
            assert(prefix.push(item).to_multiset() =~= prefix.to_multiset().insert(item));
        }
        let last_opt = r.pop();
        match last_opt {
            Some(mut g) => {
                if g[0] == item {
                    let ghost old_g = g@;
                    g.push(item);
                    r.push(g);
                    proof {
                        let rest = mapped.drop_last();
                        assert(r@.map_values(|gg: Vec<u8>| gg@) =~= rest.push(old_g.push(item)));
                        assert(rest.push(old_g.push(item)).flatten() =~= rest.flatten()
                            + old_g.push(item));
                        assert(mapped =~= rest.push(old_g));
                        assert(rest.push(old_g).flatten() =~= rest.flatten() + old_g);
                        assert(rest.flatten() + old_g.push(item) =~= (rest.flatten()
                            + old_g).push(item));
                        assert(r@.map_values(|gg: Vec<u8>| gg@).flatten() =~= prefix.push(item));
                        assert(forall|k: int| 0 <= k < r@.len() ==> #[trigger] r@[k]@[0]
                            == old_r[k]@[0]);
                        assert forall|j: int| 0 <= j < i + 1 implies exists|k: int|
                            0 <= k < r@.len() && (#[trigger] r@[k]@[0]) == #[trigger] vs[j] by {
                            if j < i {
                                let k = choose|k: int|
                                    0 <= k < old_r.len() && (#[trigger] old_r[k]@[0]) == vs[j];
                                assert(r@[k]@[0] == vs[j]);
                            } else {
                                assert(r@[r@.len() - 1]@[0] == vs[j]);
                            }
                        }
                    }
                } else {
                    r.push(g);
                    let mut ng: Vec<u8> = Vec::new();
                    ng.push(item);
                    r.push(ng);
                    proof {
                        assert(ng@ =~= seq![item]);
                        assert(r@.map_values(|gg: Vec<u8>| gg@) =~= mapped.push(seq![item]));
                        assert(mapped.push(seq![item]).flatten() =~= mapped.flatten()
                            + seq![item]);
                        assert(mapped.flatten() + seq![item] =~= prefix.push(item));
                        assert(r@ =~= old_r.push(ng));
                        assert forall|j: int| 0 <= j < i + 1 implies exists|k: int|
                            0 <= k < r@.len() && (#[trigger] r@[k]@[0]) == #[trigger] vs[j] by {
                            if j < i {
                                let k = choose|k: int|
                                    0 <= k < old_r.len() && (#[trigger] old_r[k]@[0]) == vs[j];
                                assert(r@[k]@[0] == vs[j]);
                            } else {
                                assert(r@[r@.len() - 1]@[0] == vs[j]);
                            }
                        }
                        if grades_sorted(vs) {
                            // the new grade exceeds every head, so it is new to the prefix
                            assert(forall|k: int|
                                0 <= k < r@.len() - 1 ==> #[trigger] r@[k]@[0] < item);
                            assert(grade_count(prefix, item) == 0) by {
                                if prefix.to_multiset().count(item) > 0 {
                                    assert(prefix.contains(item));
                                    let j = choose|j: int|
                                        0 <= j < prefix.len() && prefix[j] == item;
                                    assert(vs[j] == item);
                                    let k = choose|k: int|
                                        0 <= k < r@.len() - 1 && (#[trigger] r@[k]@[0]) == vs[j];
                                    assert(r@[k]@[0] < item);
                                }
                            }
                        }
                    }
                }
            },
            None => {
                let mut ng: Vec<u8> = Vec::new();
                ng.push(item);
                r.push(ng);
                proof {
                    assert(ng@ =~= seq![item]);
                    assert(r@.map_values(|gg: Vec<u8>| gg@) =~= mapped.push(seq![item]));
                    assert(mapped.push(seq![item]).flatten() =~= mapped.flatten() + seq![item]);
                    assert(mapped.flatten() + seq![item] =~= prefix.push(item));
                    assert forall|j: int| 0 <= j < i + 1 implies exists|k: int|
                        0 <= k < r@.len() && (#[trigger] r@[k]@[0]) == #[trigger] vs[j] by {
                        assert(r@[0]@[0] == vs[i as int]);
                    }
                }
            },
        }
        i = i + 1;
    }
    proof {
        assert(vs.subrange(0, vs.len() as int) =~= vs);
        assert forall|g: u8| grade_count(vector@, g) > 0 implies exists|k: int|
            0 <= k < r@.len() && (#[trigger] r@[k]@[0]) == g by {
            assert(vs.contains(g));
            let j = choose|j: int| 0 <= j < vs.len() && vs[j] == g;
            assert(exists|k: int| 0 <= k < r@.len() && (#[trigger] r@[k]@[0]) == vs[j]);
        }
    }
    r
}

/// The mathematical tally of a ballot, restricted to grades at least `lo`:
/// each grade that occurs, paired with how often it occurs, keys ascending.
pub open spec fn tally_from(s: Seq<u8>, lo: int) -> Seq<(u8, nat)>
    decreases 256 - lo,
{
    if lo < 0 || lo >= 256 {
        Seq::empty()
    } else if grade_count(s, lo as u8) > 0 {
        seq![(lo as u8, grade_count(s, lo as u8))] + tally_from(s, lo + 1)
    } else {
        tally_from(s, lo + 1)
    }
}

/// The frequency tally of a ballot: every grade that occurs in it, ascending,
/// each with its occurrence count.
pub open spec fn tally_of(s: Seq<u8>) -> Seq<(u8, nat)> {
    tally_from(s, 0)
}

/// `t` lists exactly the grades of `s` that are at least `lo`, ascending,
/// each with its occurrence count in `s`.
pub open spec fn is_tally_above(t: Seq<(u8, nat)>, s: Seq<u8>, lo: int) -> bool {
    &&& forall|k: int| 0 <= k < t.len() ==> lo <= #[trigger] t[k].0
    &&& forall|k1: int, k2: int|
        0 <= k1 < k2 < t.len() ==> #[trigger] t[k1].0 < #[trigger] t[k2].0
    &&& forall|k: int|
        0 <= k < t.len() ==> #[trigger] t[k].1 == grade_count(s, t[k].0) && t[k].1 > 0
    &&& forall|g: u8|
        lo <= g && grade_count(s, g) > 0 ==> exists|k: int|
            0 <= k < t.len() && (#[trigger] t[k].0) == g
}

/// `t` is the frequency tally of `s`: ascending keys, exactly the grades that
/// occur, each with its occurrence count.
pub open spec fn is_tally_for(t: Seq<(u8, nat)>, s: Seq<u8>) -> bool {
    is_tally_above(t, s, 0)
}

/// Total number of votes a tally accounts for: the sum of its counts.
pub open spec fn sum_counts(t: Seq<(u8, nat)>) -> nat
    decreases t.len(),
{
    if t.len() == 0 {
        0
    } else {
        t.first().1 + sum_counts(t.drop_first())
    }
}

/// `tally_from` satisfies the tally characterisation.
pub proof fn lemma_tally_from_valid(s: Seq<u8>, lo: int)
    requires
        0 <= lo,
    ensures
        is_tally_above(tally_from(s, lo), s, lo),
    decreases 256 - lo,
{
    if lo >= 256 {
    } else {
        lemma_tally_from_valid(s, lo + 1);
        let rest = tally_from(s, lo + 1);
        if grade_count(s, lo as u8) > 0 {
            let t = seq![(lo as u8, grade_count(s, lo as u8))] + rest;
            assert(t[0] == (lo as u8, grade_count(s, lo as u8)));
            assert(forall|k: int| 0 < k < t.len() ==> #[trigger] t[k] == rest[k - 1]);
            assert forall|g: u8| lo <= g && grade_count(s, g) > 0 implies exists|k: int|
                0 <= k < t.len() && (#[trigger] t[k].0) == g by {
                if lo == g {
                    assert(t[0].0 == g);
                } else {
                    let k = choose|k: int| 0 <= k < rest.len() && (#[trigger] rest[k].0) == g;
                    assert(t[k + 1].0 == g);
                }
            }
        }
    }
}

/// Only one sequence satisfies the tally characterisation: a tally is
/// determined by the ballot (in fact, by its multiset of grades alone).
pub proof fn lemma_tally_above_unique(t1: Seq<(u8, nat)>, t2: Seq<(u8, nat)>, s: Seq<u8>, lo: int)
    requires
        is_tally_above(t1, s, lo),
        is_tally_above(t2, s, lo),
    ensures
        t1 == t2,
    decreases t1.len(),
{
    if t1.len() == 0 {
        if t2.len() > 0 {
            assert(t2[0].1 > 0);
            assert(exists|k: int| 0 <= k < t1.len() && (#[trigger] t1[k].0) == t2[0].0);
        }
        assert(t1 =~= t2);
    } else {
        assert(t1[0].1 > 0);
        assert(exists|k: int| 0 <= k < t2.len() && (#[trigger] t2[k].0) == t1[0].0);
        let k2 = choose|k: int| 0 <= k < t2.len() && (#[trigger] t2[k].0) == t1[0].0;
        assert(t2[0].0 <= t1[0].0);
        assert(t2[0].1 > 0);
        let k1 = choose|k: int| 0 <= k < t1.len() && (#[trigger] t1[k].0) == t2[0].0;
        assert(t1[0].0 <= t2[0].0);
        assert(t1[0] == t2[0]);
        let head = t1[0].0;
        let r1 = t1.drop_first();
        let r2 = t2.drop_first();
        assert forall|g: u8| head + 1 <= g && grade_count(s, g) > 0 implies exists|k: int|
            0 <= k < r1.len() && (#[trigger] r1[k].0) == g by {
            let k = choose|k: int| 0 <= k < t1.len() && (#[trigger] t1[k].0) == g;
            assert(k > 0);
            assert(r1[k - 1].0 == g);
        }
        assert forall|g: u8| head + 1 <= g && grade_count(s, g) > 0 implies exists|k: int|
            0 <= k < r2.len() && (#[trigger] r2[k].0) == g by {
            let k = choose|k: int| 0 <= k < t2.len() && (#[trigger] t2[k].0) == g;
            assert(k > 0);
            assert(r2[k - 1].0 == g);
        }
        assert(is_tally_above(r1, s, head + 1));
        assert(is_tally_above(r2, s, head + 1));
        lemma_tally_above_unique(r1, r2, s, head + 1);
        assert(t1.len() == t2.len());
        assert forall|i: int| 0 <= i < t1.len() implies t1[i] == t2[i] by {
            if i > 0 {
                assert(t1[i] == r1[i - 1]);
                assert(t2[i] == r2[i - 1]);
            }
        }
        assert(t1 =~= t2);
    }
}

/// The tally depends only on which grades occur how often, never on the order
/// in which the ballot lists them.
pub proof fn lemma_tally_of_permuted(s1: Seq<u8>, s2: Seq<u8>)
    requires
        s1.to_multiset() == s2.to_multiset(),
    ensures
        tally_of(s1) == tally_of(s2),
{
    lemma_tally_from_permuted(s1, s2, 0);
}

proof fn lemma_tally_from_permuted(s1: Seq<u8>, s2: Seq<u8>, lo: int)
    requires
        s1.to_multiset() == s2.to_multiset(),
    ensures
        tally_from(s1, lo) == tally_from(s2, lo),
    decreases 256 - lo,
{
    if 0 <= lo < 256 {
        lemma_tally_from_permuted(s1, s2, lo + 1);
    }
}

/// Occurrences in `s` of grades at least `lo`.
pub open spec fn count_at_least(s: Seq<u8>, lo: int) -> nat
    decreases s.len(),
{
    if s.len() == 0 {
        0
    } else {
        count_at_least(s.drop_last(), lo) + if lo <= s.last() {
            1nat
        } else {
            0nat
        }
    }
}

proof fn lemma_grade_count_step(s: Seq<u8>, g: u8)
    requires
        s.len() > 0,
    ensures
        grade_count(s, g) == grade_count(s.drop_last(), g) + if s.last() == g {
            1nat
        } else {
            0nat
        },
{
    assert(s =~= s.drop_last().push(s.last()));
    assert(s.drop_last().push(s.last()).to_multiset() =~= s.drop_last().to_multiset().insert(
        s.last(),
    ));
}

proof fn lemma_count_at_least_high(s: Seq<u8>, lo: int)
    requires
        lo >= 256,
    ensures
        count_at_least(s, lo) == 0,
    decreases s.len(),
{
    if s.len() > 0 {
        lemma_count_at_least_high(s.drop_last(), lo);
    }
}

proof fn lemma_count_at_least_all(s: Seq<u8>, lo: int)
    requires
        lo <= 0,
    ensures
        count_at_least(s, lo) == s.len(),
    decreases s.len(),
{
    if s.len() > 0 {
        lemma_count_at_least_all(s.drop_last(), lo);
    }
}

proof fn lemma_count_at_least_step(s: Seq<u8>, lo: int)
    requires
        0 <= lo < 256,
    ensures
        count_at_least(s, lo) == grade_count(s, lo as u8) + count_at_least(s, lo + 1),
    decreases s.len(),
{
    if s.len() == 0 {
        assert(s.to_multiset() =~= Multiset::<u8>::empty());
    } else {
        lemma_count_at_least_step(s.drop_last(), lo);
        lemma_grade_count_step(s, lo as u8);
    }
}

proof fn lemma_tally_from_sum(s: Seq<u8>, lo: int)
    requires
        0 <= lo,
    ensures
        sum_counts(tally_from(s, lo)) == count_at_least(s, lo),
    decreases 256 - lo,
{
    if lo >= 256 {
        lemma_count_at_least_high(s, lo);
    } else {
        lemma_tally_from_sum(s, lo + 1);
        lemma_count_at_least_step(s, lo);
        let rest = tally_from(s, lo + 1);
        if grade_count(s, lo as u8) > 0 {
            let t = seq![(lo as u8, grade_count(s, lo as u8))] + rest;
            assert(t.drop_first() =~= rest);
        }
    }
}

/// Tally correctness: the tally of a ballot lists exactly the grades that
/// occur in it, ascending, each with its occurrence count, and those counts
/// sum to the ballot's length.
pub proof fn lemma_tally_correct(s: Seq<u8>)
    ensures
        is_tally_for(tally_of(s), s),
        sum_counts(tally_of(s)) == s.len(),
{
    lemma_tally_from_valid(s, 0);
    lemma_tally_from_sum(s, 0);
    lemma_count_at_least_all(s, 0);
}

/// The counts of an executable tally, as mathematical numbers.
pub open spec fn tally_view(t: Seq<(u8, u32)>) -> Seq<(u8, nat)> {
    t.map_values(|p: (u8, u32)| (p.0, p.1 as nat))
}

/// Tallies a ballot: sorts it, partitions it into runs of equal grades, and
/// records each distinct grade with its number of occurrences, ascending.
pub fn compute_frequency_of_grades(grades: Vec<u8>) -> (tally: Vec<(u8, u32)>)
    requires
        grades@.len() <= u32::MAX,
    ensures
        tally_view(tally@) == tally_of(grades@),
        is_tally_for(tally_view(tally@), grades@),
        sum_counts(tally_view(tally@)) == grades@.len(),
{
    let ghost gs = grades@;
    let sorted = sort_grades(grades);
    let groups = group_by(sorted);
    let mut tally: Vec<(u8, u32)> = Vec::new();
    let mut k: usize = 0;
    while k < groups.len()
        invariant
            k <= groups@.len(),
            tally@.len() == k,
            forall|m: int|
                0 <= m < k ==> #[trigger] tally@[m].0 == groups@[m]@[0] && tally@[m].1
                    == groups@[m]@.len(),
            forall|m: int|
                0 <= m < groups@.len() ==> 0 < #[trigger] groups@[m]@.len() <= u32::MAX,
        decreases groups@.len() - k,
    {
        let head = groups[k][0];
        let count = groups[k].len() as u32;
        tally.push((head, count));
        k = k + 1;
    }
    proof {
        let tv = tally_view(tally@);
        let sv = sorted@;
        assert(forall|m: int|
            0 <= m < tv.len() ==> #[trigger] tv[m] == (groups@[m]@[0], groups@[m]@.len() as nat));
        assert forall|g: u8| grade_count(sv, g) > 0 implies exists|k2: int|
            0 <= k2 < tv.len() && (#[trigger] tv[k2].0) == g by {
            let k2 = choose|k2: int| 0 <= k2 < groups@.len() && (#[trigger] groups@[k2]@[0]) == g;
            assert(tv[k2].0 == g);
        }
        assert(is_tally_for(tv, sv));
        assert forall|g: u8| grade_count(gs, g) > 0 implies exists|k2: int|
            0 <= k2 < tv.len() && (#[trigger] tv[k2].0) == g by {
            assert(grade_count(sv, g) == grade_count(gs, g));
        }
        assert(is_tally_for(tv, gs));
        lemma_tally_from_valid(gs, 0);
        lemma_tally_above_unique(tv, tally_of(gs), gs, 0);
        lemma_tally_correct(gs);
    }
    tally
}

} // verus!
