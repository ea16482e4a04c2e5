//! Ranking: compute every candidate's median sequence and order candidates by
//! comparing those sequences element by element, higher grades first. Ties in
//! the full sequence fall back to the candidates' input order (callers supply
//! candidates ascending by identifier).

use crate::error::PollError;
use crate::median::{compute_majority_values, majority_values_of};
use vstd::prelude::*;

verus! {

broadcast use vstd::seq_lib::group_to_multiset_ensures, vstd::multiset::group_multiset_axioms;

/// All ballots of the poll have the same length.
pub open spec fn equal_lengths(p: Seq<(String, Vec<u8>)>) -> bool {
    forall|i: int| 0 <= i < p.len() ==> (#[trigger] p[i]).1@.len() == p[0].1@.len()
}

/// Candidate identifiers are pairwise distinct.
pub open spec fn distinct_names(p: Seq<(String, Vec<u8>)>) -> bool {
    forall|i: int, j: int| 0 <= i < j < p.len() ==> (#[trigger] p[i]).0@ != (#[trigger] p[j]).0@
}

/// Strict lexicographic "ranks better": the first differing element decides,
/// larger wins; a proper prefix loses to the longer sequence.
pub open spec fn lex_gt(a: Seq<u32>, b: Seq<u32>) -> bool
    decreases a.len(),
{
    if a.len() == 0 {
        false
    } else if b.len() == 0 {
        true
    } else if a.first() > b.first() {
        true
    } else if a.first() < b.first() {
        false
    } else {
        lex_gt(a.drop_first(), b.drop_first())
    }
}

/// `lex_gt` is asymmetric, and two sequences neither of which ranks better
/// are equal: the comparison is a strict total order.
pub proof fn lemma_lex_gt_properties(a: Seq<u32>, b: Seq<u32>)
    ensures
        lex_gt(a, b) ==> !lex_gt(b, a),
        (!lex_gt(a, b) && !lex_gt(b, a)) ==> a == b,
    decreases a.len(),
{
    if a.len() > 0 && b.len() > 0 && a.first() == b.first() {
        lemma_lex_gt_properties(a.drop_first(), b.drop_first());
        if !lex_gt(a, b) && !lex_gt(b, a) {
            assert(a.drop_first() == b.drop_first());
            assert forall|i: int| 0 <= i < a.len() implies a[i] == b[i] by {
                if i > 0 {
                    assert(a[i] == a.drop_first()[i - 1]);
                    assert(b[i] == b.drop_first()[i - 1]);
                }
            }
            assert(a =~= b);
        }
    } else if a.len() == 0 && b.len() == 0 {
        assert(a =~= b);
    }
}

/// `lex_gt` is transitive.
pub proof fn lemma_lex_gt_trans(a: Seq<u32>, b: Seq<u32>, c: Seq<u32>)
    requires
        lex_gt(a, b),
        lex_gt(b, c),
    ensures
        lex_gt(a, c),
    decreases a.len(),
{
    if c.len() > 0 && a.first() == b.first() && b.first() == c.first() {
        lemma_lex_gt_trans(a.drop_first(), b.drop_first(), c.drop_first());
    }
}

/// One candidate while ranking: its name, its median sequence, and where it
/// stood in the input poll.
struct RankEntry {
    name: String,
    medians: Vec<u32>,
    position: usize,
}

/// `a` ranks strictly before `b`: a better median sequence, or the same
/// sequence and an earlier place in the input.
spec fn entry_before(a: RankEntry, b: RankEntry) -> bool {
    ||| lex_gt(a.medians@, b.medians@)
    ||| (a.medians@ == b.medians@ && a.position < b.position)
}

proof fn lemma_entry_before_trans(a: RankEntry, b: RankEntry, c: RankEntry)
    requires
        entry_before(a, b),
        entry_before(b, c),
    ensures
        entry_before(a, c),
{
    if lex_gt(a.medians@, b.medians@) && lex_gt(b.medians@, c.medians@) {
        lemma_lex_gt_trans(a.medians@, b.medians@, c.medians@);
    }
}

proof fn lemma_entry_before_total(a: RankEntry, b: RankEntry)
    requires
        a.position != b.position,
    ensures
        entry_before(a, b) || entry_before(b, a),
{
    lemma_lex_gt_properties(a.medians@, b.medians@);
}

/// Whether `a` ranks strictly before `b`.
fn is_before(a: &RankEntry, b: &RankEntry) -> (r: bool)
    ensures
        r == entry_before(*a, *b),
{
    let am = &a.medians;
    let bm = &b.medians;
    proof {
        assert(am@.skip(0) =~= am@);
        assert(bm@.skip(0) =~= bm@);
    }
    let mut j: usize = 0;
    while j < am.len() && j < bm.len()
        invariant
            am@ == a.medians@,
            bm@ == b.medians@,
            j <= am@.len(),
            j <= bm@.len(),
            forall|x: int| 0 <= x < j ==> am@[x] == bm@[x],
            lex_gt(am@, bm@) == lex_gt(am@.skip(j as int), bm@.skip(j as int)),
            lex_gt(bm@, am@) == lex_gt(bm@.skip(j as int), am@.skip(j as int)),
        decreases am@.len() - j,
    {
        let x = am[j];
        let y = bm[j];
        proof {
            assert(am@.skip(j as int).first() == am@[j as int]);
            assert(bm@.skip(j as int).first() == bm@[j as int]);
            assert(am@.skip(j as int).drop_first() =~= am@.skip(j + 1));
            assert(bm@.skip(j as int).drop_first() =~= bm@.skip(j + 1));
        }
        if x > y {
            proof {
                assert(lex_gt(am@.skip(j as int), bm@.skip(j as int)));
            }
            return true;
        }
        if x < y {
            proof {
                assert(!lex_gt(am@.skip(j as int), bm@.skip(j as int)));
                assert(am@[j as int] != bm@[j as int]);
                assert(am@ != bm@);
            }
            return false;
        }
        j = j + 1;
    }
    if am.len() == bm.len() {
        proof {
            assert(am@ =~= bm@);
            assert(am@.skip(j as int).len() == 0);
        }
        a.position < b.position
    } else if am.len() > bm.len() {
        proof {
            assert(am@.skip(j as int).len() > 0);
            assert(bm@.skip(j as int).len() == 0);
        }
        true
    } else {
        proof {
            assert(am@.skip(j as int).len() == 0);
            assert(am@.len() != bm@.len());
            assert(am@ != bm@);
        }
        false
    }
}

/// A copy of a ballot, grade for grade.
fn copy_grades(v: &Vec<u8>) -> (r: Vec<u8>)
    ensures
        r@ == v@,
{
    let mut r: Vec<u8> = Vec::new();
    let mut i: usize = 0;
    while i < v.len()
        invariant
            i <= v@.len(),
            r@ == v@.subrange(0, i as int),
        decreases v@.len() - i,
    {
        r.push(v[i]);
        proof {
            assert(v@.subrange(0, i + 1) =~= v@.subrange(0, i as int).push(v@[i as int]));
        }
        i = i + 1;
    }
    proof {
        assert(v@.subrange(0, v@.len() as int) =~= v@);
    }
    r
}

/// Checks that every ballot of the poll has one grade per voter: all ballots
/// must share the first ballot's length.
pub fn check_poll_length(poll_data: &Vec<(String, Vec<u8>)>) -> (r: Result<(), PollError>)
    requires
        poll_data@.len() > 0,
    ensures
        (r is Ok) <==> equal_lengths(poll_data@),
        !(r is Ok) ==> r == Err::<(), PollError>(PollError::UnequalBallotLengths),
{
    let first_poll_length = poll_data[0].1.len();
    let mut i: usize = 0;
    while i < poll_data.len()
        invariant
            i <= poll_data@.len(),
            poll_data@.len() > 0,
            first_poll_length == poll_data@[0].1@.len(),
            forall|m: int| 0 <= m < i ==> (#[trigger] poll_data@[m]).1@.len() == first_poll_length,
        decreases poll_data@.len() - i,
    {
        if poll_data[i].1.len() != first_poll_length {
            return Err(PollError::UnequalBallotLengths);
        }
        i = i + 1;
    }
    Ok(())
}

/// In any rearrangement of entries whose positions were their indices, each
/// entry is the original one at its recorded position, and positions stay
/// pairwise distinct.
proof fn lemma_positions_identify(es0: Seq<RankEntry>, v: Seq<RankEntry>)
    requires
        forall|m: int| 0 <= m < es0.len() ==> (#[trigger] es0[m]).position == m,
        v.to_multiset() == es0.to_multiset(),
    ensures
        forall|q: int|
            0 <= q < v.len() ==> (#[trigger] v[q]).position < es0.len() && es0[v[q].position
                as int] == v[q],
        forall|q1: int, q2: int|
            0 <= q1 < q2 < v.len() ==> (#[trigger] v[q1]).position != (#[trigger] v[q2]).position,
{
    assert(es0.no_duplicates()) by {
        assert forall|i: int, j: int|
            0 <= i < es0.len() && 0 <= j < es0.len() && i != j implies es0[i] != es0[j] by {
            assert(es0[i].position == i);
            assert(es0[j].position == j);
        }
    }
    es0.lemma_multiset_has_no_duplicates();
    v.lemma_multiset_has_no_duplicates_conv();
    assert forall|q: int|
        0 <= q < v.len() implies (#[trigger] v[q]).position < es0.len() && es0[v[q].position
        as int] == v[q] by {
        assert(v.contains(v[q]));
        assert(v.to_multiset().count(v[q]) > 0);
        assert(es0.to_multiset().count(v[q]) > 0);
        assert(es0.contains(v[q]));
        let m = choose|m: int| 0 <= m < es0.len() && es0[m] == v[q];
        assert(es0[m].position == m);
    }
    assert forall|q1: int, q2: int|
        0 <= q1 < q2 < v.len() implies (#[trigger] v[q1]).position
        != (#[trigger] v[q2]).position by {
        if v[q1].position == v[q2].position {
            assert(es0[v[q1].position as int] == v[q1]);
            assert(es0[v[q2].position as int] == v[q2]);
        }
    }
}

/// Sorts the candidates' entries into ranking order: best median sequence
/// first, ties by input position.
fn sort_entries(entries: &mut Vec<RankEntry>)
    requires
        forall|m: int|
            0 <= m < old(entries)@.len() ==> (#[trigger] old(entries)@[m]).position == m,
    ensures
        final(entries)@.len() == old(entries)@.len(),
        final(entries)@.to_multiset() == old(entries)@.to_multiset(),
        forall|q1: int, q2: int|
            0 <= q1 < q2 < final(entries)@.len() ==> entry_before(
                #[trigger] final(entries)@[q1],
                #[trigger] final(entries)@[q2],
            ),
{
    let ghost es0 = entries@;
    let ghost m0 = entries@.to_multiset();
    let mut i: usize = 1;
    while i < entries.len()
        invariant
            1 <= i,
            entries@.len() == es0.len(),
            entries@.to_multiset() == m0,
            m0 == es0.to_multiset(),
            forall|m: int| 0 <= m < es0.len() ==> (#[trigger] es0[m]).position == m,
            forall|a: int, b: int|
                0 <= a < b < i && b < entries@.len() ==> entry_before(
                    #[trigger] entries@[a],
                    #[trigger] entries@[b],
                ),
        decreases entries@.len() - i,
    {
        let mut j: usize = 0;
        while j < i && !is_before(&entries[i], &entries[j])
            invariant
                j <= i < entries@.len(),
                forall|a: int|
                    0 <= a < j ==> !entry_before(entries@[i as int], #[trigger] entries@[a]),
            decreases i - j,
        {
            j = j + 1;
        }
        proof {
            lemma_positions_identify(es0, entries@);
            assert forall|a: int|
                0 <= a < j implies entry_before(#[trigger] entries@[a], entries@[i as int]) by {
                lemma_entry_before_total(entries@[a], entries@[i as int]);
            }
        }
        if j < i {
            let ghost before_seq = entries@;
            let ghost x = entries@[i as int];
            let moved = entries.remove(i);
            entries.insert(j, moved);
            proof {
                assert(entries@ =~= before_seq.remove(i as int).insert(j as int, x));
                before_seq.to_multiset_ensures();
                vstd::seq_lib::to_multiset_insert(before_seq.remove(i as int), j as int, x);
                assert(before_seq.to_multiset().remove(x).insert(x) =~= before_seq.to_multiset());
                assert forall|a: int, b: int|
                    0 <= a < b < i + 1 && b < entries@.len() implies entry_before(
                    #[trigger] entries@[a],
                    #[trigger] entries@[b],
                ) by {
                    if b < j {
                        assert(entries@[a] == before_seq[a] && entries@[b] == before_seq[b]);
                    } else if b == j {
                        assert(entries@[b] == x && entries@[a] == before_seq[a]);
                    } else if a == j {
                        assert(entries@[a] == x && entries@[b] == before_seq[b - 1]);
                        assert(entry_before(x, before_seq[j as int]));
                        if b - 1 > j {
                            assert(entry_before(before_seq[j as int], before_seq[b - 1]));
                            lemma_entry_before_trans(
                                x,
                                before_seq[j as int],
                                before_seq[b - 1],
                            );
                        }
                    } else if a < j {
                        assert(entries@[a] == before_seq[a] && entries@[b] == before_seq[b - 1]);
                    } else {
                        assert(entries@[a] == before_seq[a - 1] && entries@[b] == before_seq[b
                            - 1]);
                    }
                }
            }
        }
        i = i + 1;
    }
}

/// Where a candidate of this name stands in the poll.
pub open spec fn candidate_index(p: Seq<(String, Vec<u8>)>, name: Seq<char>) -> int {
    choose|i: int| 0 <= i < p.len() && (#[trigger] p[i]).0@ == name
}

/// The median sequence of the candidate with this name.
pub open spec fn candidate_medians(p: Seq<(String, Vec<u8>)>, name: Seq<char>) -> Seq<u32> {
    majority_values_of(p[candidate_index(p, name)].1@)
}

/// Candidate `a` ranks strictly before candidate `b`: a lexicographically
/// better median sequence, or the same sequence and an earlier place in the
/// poll.
pub open spec fn ranked_before(p: Seq<(String, Vec<u8>)>, a: Seq<char>, b: Seq<char>) -> bool {
    ||| lex_gt(candidate_medians(p, a), candidate_medians(p, b))
    ||| (candidate_medians(p, a) == candidate_medians(p, b) && candidate_index(p, a)
        < candidate_index(p, b))
}

/// `rk` ranks the poll `p`: one entry per candidate, ranks 0, 1, ... in
/// order, listed best first, and a candidate with a lexicographically greater
/// median sequence always receives a strictly smaller rank.
pub open spec fn valid_ranking(p: Seq<(String, Vec<u8>)>, rk: Seq<(String, usize)>) -> bool {
    &&& rk.len() == p.len()
    &&& forall|q: int| 0 <= q < rk.len() ==> (#[trigger] rk[q]).1 == q
    &&& rk.map_values(|e: (String, usize)| e.0@).to_multiset() == p.map_values(
        |c: (String, Vec<u8>)| c.0@,
    ).to_multiset()
    &&& forall|q1: int, q2: int|
        0 <= q1 < q2 < rk.len() ==> ranked_before(p, (#[trigger] rk[q1]).0@, (#[trigger] rk[q2]).0@)
    &&& forall|q1: int, q2: int|
        0 <= q1 < rk.len() && 0 <= q2 < rk.len() && lex_gt(
            candidate_medians(p, (#[trigger] rk[q1]).0@),
            candidate_medians(p, (#[trigger] rk[q2]).0@),
        ) ==> q1 < q2
}

/// Rearranging a sequence rearranges any mapping of it the same way.
proof fn lemma_map_values_multiset<A, B>(s1: Seq<A>, s2: Seq<A>, f: spec_fn(A) -> B)
    requires
        s1.to_multiset() == s2.to_multiset(),
    ensures
        s1.map_values(f).to_multiset() == s2.map_values(f).to_multiset(),
    decreases s1.len(),
{
    s1.to_multiset_ensures();
    s2.to_multiset_ensures();
    if s1.len() == 0 {
        assert(s2.len() == 0);
        assert(s1.map_values(f) =~= Seq::<B>::empty());
        assert(s2.map_values(f) =~= Seq::<B>::empty());
    } else {
        let x = s1.last();
        assert(s1.contains(x));
        assert(s1.to_multiset().count(x) > 0);
        assert(s2.to_multiset().count(x) > 0);
        assert(s2.contains(x));
        let j = choose|j: int| 0 <= j < s2.len() && s2[j] == x;
        let s1p = s1.drop_last();
        let s2p = s2.remove(j);
        assert(s1 =~= s1p.push(x));
        assert(s1p.push(x).to_multiset() =~= s1p.to_multiset().insert(x));
        assert(s2p.to_multiset() =~= s2.to_multiset().remove(x));
        assert(s1p.to_multiset() =~= s2p.to_multiset()) by {
            assert(s1p.to_multiset().insert(x).remove(x) =~= s1p.to_multiset());
        }
        lemma_map_values_multiset(s1p, s2p, f);
        assert(s1.map_values(f) =~= s1p.map_values(f).push(f(x)));
        assert(s1p.map_values(f).push(f(x)).to_multiset() =~= s1p.map_values(
            f,
        ).to_multiset().insert(f(x)));
        assert(s2p.map_values(f) =~= s2.map_values(f).remove(j));
        assert(s2.map_values(f)[j] == f(x));
        assert(s2.map_values(f).remove(j).to_multiset() =~= s2.map_values(
            f,
        ).to_multiset().remove(f(x)));
        assert(s2.map_values(f).contains(f(x)));
        assert(s2.map_values(f).to_multiset().count(f(x)) > 0);
        assert(s2.map_values(f).to_multiset().remove(f(x)).insert(f(x)) =~= s2.map_values(
            f,
        ).to_multiset());
        assert(s1.map_values(f).to_multiset() =~= s2.map_values(f).to_multiset());
    }
}

proof fn lemma_ranking_valid(
    p: Seq<(String, Vec<u8>)>,
    es0: Seq<RankEntry>,
    sorted_es: Seq<RankEntry>,
    rk: Seq<(String, usize)>,
)
    requires
        distinct_names(p),
        es0.len() == p.len(),
        forall|m: int|
            0 <= m < es0.len() ==> (#[trigger] es0[m]).position == m && es0[m].name@ == p[m].0@
                && es0[m].medians@ == majority_values_of(p[m].1@),
        sorted_es.to_multiset() == es0.to_multiset(),
        sorted_es.len() == es0.len(),
        forall|q1: int, q2: int|
            0 <= q1 < q2 < sorted_es.len() ==> entry_before(
                #[trigger] sorted_es[q1],
                #[trigger] sorted_es[q2],
            ),
        rk.len() == sorted_es.len(),
        forall|q: int|
            0 <= q < rk.len() ==> (#[trigger] rk[q]).0 == sorted_es[q].name && rk[q].1 == q,
    ensures
        valid_ranking(p, rk),
{
    lemma_positions_identify(es0, sorted_es);
    lemma_map_values_multiset(sorted_es, es0, |e: RankEntry| e.name@);
    assert(rk.map_values(|e: (String, usize)| e.0@) =~= sorted_es.map_values(
        |e: RankEntry| e.name@,
    ));
    assert(es0.map_values(|e: RankEntry| e.name@) =~= p.map_values(
        |c: (String, Vec<u8>)| c.0@,
    ));
    assert forall|q: int|
        0 <= q < rk.len() implies candidate_index(p, (#[trigger] rk[q]).0@) == sorted_es[q].position
        && candidate_medians(p, rk[q].0@) == sorted_es[q].medians@ by {
        let pos = sorted_es[q].position as int;
        assert(es0[pos] == sorted_es[q]);
        assert(p[pos].0@ == rk[q].0@);
        assert(exists|i: int| 0 <= i < p.len() && (#[trigger] p[i]).0@ == rk[q].0@);
        let ci = candidate_index(p, rk[q].0@);
        assert(0 <= ci < p.len() && p[ci].0@ == rk[q].0@);
        if ci < pos {
            assert(p[ci].0@ != p[pos].0@);
        }
        if pos < ci {
            assert(p[pos].0@ != p[ci].0@);
        }
        assert(ci == pos);
        assert(es0[pos].medians@ == majority_values_of(p[pos].1@));
    }
    assert forall|q1: int, q2: int|
        0 <= q1 < q2 < rk.len() implies ranked_before(
        p,
        (#[trigger] rk[q1]).0@,
        (#[trigger] rk[q2]).0@,
    ) by {
        assert(entry_before(sorted_es[q1], sorted_es[q2]));
    }
    assert forall|q1: int, q2: int|
        0 <= q1 < rk.len() && 0 <= q2 < rk.len() && lex_gt(
            candidate_medians(p, (#[trigger] rk[q1]).0@),
            candidate_medians(p, (#[trigger] rk[q2]).0@),
        ) implies q1 < q2 by {
        let m1 = candidate_medians(p, rk[q1].0@);
        let m2 = candidate_medians(p, rk[q2].0@);
        lemma_lex_gt_properties(m1, m2);
        if q2 < q1 {
            assert(entry_before(sorted_es[q2], sorted_es[q1]));
        }
        if q1 == q2 {
            assert(lex_gt(m1, m1) ==> !lex_gt(m1, m1));
        }
    }
}

/// Ranks a poll by Majority Judgment. Every candidate's ballot is turned into
/// its median sequence; candidates are ordered by comparing those sequences
/// lexicographically (higher grades first), identical sequences by input
/// order; ranks 0, 1, ... are assigned in that order, best candidate first.
///
/// Fails with `UnequalBallotLengths` when the ballots do not all have the
/// same length, and with `EmptyBallotSet` when the ballots are empty.
pub fn majority_judgment(poll_data: &Vec<(String, Vec<u8>)>) -> (r: Result<
    Vec<(String, usize)>,
    PollError,
>)
    requires
        poll_data@.len() > 0,
        distinct_names(poll_data@),
        forall|i: int| 0 <= i < poll_data@.len() ==> (#[trigger] poll_data@[i]).1@.len()
            <= u32::MAX,
    ensures
        (r is Ok) <==> (equal_lengths(poll_data@) && poll_data@[0].1@.len() > 0),
        !equal_lengths(poll_data@) ==> r == Err::<Vec<(String, usize)>, PollError>(
            PollError::UnequalBallotLengths,
        ),
        (equal_lengths(poll_data@) && poll_data@[0].1@.len() == 0) ==> r == Err::<
            Vec<(String, usize)>,
            PollError,
        >(PollError::EmptyBallotSet),
        r is Ok ==> valid_ranking(poll_data@, (r->Ok_0)@),
{
    let ghost p = poll_data@;
    match check_poll_length(poll_data) {
        Err(e) => {
            return Err(e);
        },
        Ok(()) => {},
    }
    if poll_data[0].1.len() == 0 {
        return Err(PollError::EmptyBallotSet);
    }

    let mut entries: Vec<RankEntry> = Vec::new();
    let mut i: usize = 0;
    while i < poll_data.len()
        invariant
            i <= p.len(),
            poll_data@ == p,
            forall|m: int| 0 <= m < p.len() ==> (#[trigger] p[m]).1@.len() <= u32::MAX,
            forall|m: int| 0 <= m < p.len() ==> (#[trigger] p[m]).1@.len() > 0,
            entries@.len() == i,
            forall|m: int|
                0 <= m < i ==> (#[trigger] entries@[m]).position == m && entries@[m].name@
                    == p[m].0@ && entries@[m].medians@ == majority_values_of(p[m].1@),
        decreases p.len() - i,
    {
        let name = poll_data[i].0.clone();
        let grades = copy_grades(&poll_data[i].1);
        // the ballot is non-empty here, so the extractor cannot fail
        let medians = match compute_majority_values(grades) {
            Ok(m) => m,
            Err(e) => {
                return Err(e);
            },
        };
        entries.push(RankEntry { name, medians, position: i });
        i = i + 1;
    }
    let ghost es0 = entries@;
    sort_entries(&mut entries);
    let ghost sorted_es = entries@;

    let mut final_ranking: Vec<(String, usize)> = Vec::new();
    let mut rank: usize = 0;
    while entries.len() > 0
        invariant
            rank == final_ranking@.len(),
            rank + entries@.len() == sorted_es.len(),
            sorted_es.len() <= usize::MAX,
            entries@ == sorted_es.skip(rank as int),
            forall|q: int|
                0 <= q < rank ==> (#[trigger] final_ranking@[q]).0 == sorted_es[q].name
                    && final_ranking@[q].1 == q,
        decreases entries@.len(),
    {
        proof {
            assert(sorted_es.skip(rank as int)[0] == sorted_es[rank as int]);
            assert(sorted_es.skip(rank as int).remove(0) =~= sorted_es.skip(rank + 1));
        }
        let e = entries.remove(0);
        final_ranking.push((e.name, rank));
        rank = rank + 1;
    }
    proof {
        lemma_ranking_valid(p, es0, sorted_es, final_ranking@);
    }
    Ok(final_ranking)
}

} // verus!
