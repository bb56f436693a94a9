use crate::recurrence::{
    advance, groups_for, lemma_advance_shape, lemma_advance_sum, lemma_position,
    lemma_shifted_groups, lemma_shifted_position, produced, state_after, Lanes, Shifts,
};
use crate::seeding::{first_acceptable, seeding_result};
use vstd::arithmetic::div_mod::lemma_fundamental_div_mod;
use vstd::prelude::*;

verus! {

/// The words of several fills in a row, one sequence per fill: the fill
/// numbered `i` has length `lens[i]` and starts where the one before it
/// left the lanes.
pub open spec fn run(s: Lanes, c: Shifts, lens: Seq<nat>) -> Seq<Seq<u64>>
    decreases lens.len(),
{
    if lens.len() == 0 {
        Seq::empty()
    } else {
        seq![produced(s, c, lens[0])] + run(state_after(s, c, lens[0]), c, lens.skip(1))
    }
}

/// Two word sequences that agree word for word seed the same lanes, and
/// generators seeded from them write the same words in every run of fills
/// of the same lengths.
pub proof fn law_determinism(
    words1: Seq<u64>,
    words2: Seq<u64>,
    lanes: nat,
    c: Shifts,
    lens: Seq<nat>,
)
    requires
        words1.len() == words2.len(),
        forall|i: int| 0 <= i < words1.len() ==> words1[i] == words2[i],
    ensures
        first_acceptable(words1, lanes, 0) == first_acceptable(words2, lanes, 0),
        match (first_acceptable(words1, lanes, 0), first_acceptable(words2, lanes, 0)) {
            (Some(s1), Some(s2)) => run(s1, c, lens) == run(s2, c, lens),
            _ => true,
        },
{
    assert(words1 =~= words2);
}

/// Seeding is decided by the words drawn and by nothing else: two seedings
/// that drew the same words, word for word, made the same number of
/// attempts and left the same lanes, whatever the generators held before.
pub proof fn law_seeding_determinism(
    words1: Seq<u64>,
    words2: Seq<u64>,
    lanes: nat,
    made1: nat,
    made2: nat,
    result1: Lanes,
    result2: Lanes,
)
    requires
        words1.len() == words2.len(),
        forall|i: int| 0 <= i < words1.len() ==> words1[i] == words2[i],
        seeding_result(words1, lanes, made1, result1),
        seeding_result(words2, lanes, made2, result2),
    ensures
        result1 == result2,
        lanes > 0 ==> made1 == made2,
{
    assert(words1 =~= words2);
    if lanes > 0 {
        assert(made1 == made2) by (nonlinear_arith)
            requires
                lanes > 0,
                2 * lanes * made1 == 2 * lanes * made2,
        ;
    }
}

/// A fill of no words writes nothing and leaves the lanes as they were.
pub proof fn law_empty_fill(s: Lanes, c: Shifts)
    ensures
        produced(s, c, 0) == Seq::<u64>::empty(),
        groups_for(0, s.count()) == 0,
        state_after(s, c, 0) == s,
{
    assert(produced(s, c, 0) =~= Seq::<u64>::empty());
    if s.count() > 0 {
        lemma_shifted_groups(0, 0, s.count());
    }
}

/// The first `m` words of a longer fill are the words of a fill of length
/// `m` from the same lanes.
pub proof fn law_prefix(s: Lanes, c: Shifts, m: nat, n: nat)
    requires
        m <= n,
    ensures
        produced(s, c, n).subrange(0, m as int) == produced(s, c, m),
{
    assert(produced(s, c, n).subrange(0, m as int) =~= produced(s, c, m));
}

/// A fill of `a` words followed by a fill of `b` words writes what one fill
/// of `a + b` words writes, and leaves the lanes where that fill leaves
/// them, whenever the first fill ends on a group boundary or the second
/// fill is empty.
pub proof fn law_length_additivity(s: Lanes, c: Shifts, a: nat, b: nat)
    requires
        s.well_shaped(),
        s.count() > 0,
        a % s.count() == 0 || b == 0,
    ensures
        produced(s, c, a) + produced(state_after(s, c, a), c, b) == produced(s, c, a + b),
        state_after(state_after(s, c, a), c, b) == state_after(s, c, a + b),
{
    let lanes = s.count();
    let mid = state_after(s, c, a);
    lemma_advance_shape(s, c, groups_for(a, lanes));
    if b == 0 {
        law_empty_fill(mid, c);
        assert(produced(s, c, a) + produced(mid, c, 0) =~= produced(s, c, a));
    } else {
        let q = a / lanes;
        lemma_fundamental_div_mod(a as int, lanes as int);
        assert(a == q * lanes) by (nonlinear_arith)
            requires
                a == lanes * q + 0,
        ;
        lemma_shifted_groups(q, 0, lanes);
        lemma_shifted_groups(q, b, lanes);
        lemma_shifted_groups(0, 0, lanes);
        assert(mid == advance(s, c, q));
        lemma_advance_sum(s, c, q, groups_for(b, lanes));
        assert forall|p: int| 0 <= p < b implies #[trigger] produced(mid, c, b)[p] == produced(
            s,
            c,
            a + b,
        )[a + p] by {
            lemma_shifted_position(q, p as nat, lanes);
            lemma_advance_sum(s, c, q, p as nat / lanes);
        }
        assert(produced(s, c, a) + produced(mid, c, b) =~= produced(s, c, a + b));
    }
}

/// One fill of a full group and `k` more words writes, first, the words of
/// a fill of one full group, and then the first `k` words that a second
/// full group would hold. It leaves the lanes where two full groups leave
/// them.
pub proof fn law_tail_equivalence(s: Lanes, c: Shifts, k: nat)
    requires
        s.well_shaped(),
        0 < k < s.count(),
    ensures
        produced(s, c, s.count() + k).subrange(0, s.count() as int) == produced(s, c, s.count()),
        produced(s, c, s.count() + k).subrange(s.count() as int, (s.count() + k) as int) == produced(
            state_after(s, c, s.count()),
            c,
            s.count(),
        ).subrange(0, k as int),
        state_after(s, c, s.count() + k) == state_after(
            state_after(s, c, s.count()),
            c,
            s.count(),
        ),
{
    let lanes = s.count();
    let mid = state_after(s, c, lanes);
    law_length_additivity(s, c, lanes, lanes);
    lemma_shifted_groups(1, k, lanes);
    lemma_shifted_groups(1, lanes, lanes);
    lemma_position(0, k, lanes);
    assert(lanes + k == 1 * lanes + k && lanes + lanes == 1 * lanes + lanes && 0 * lanes + k == k)
        by (nonlinear_arith);
    law_prefix(s, c, lanes, lanes + k);
    law_prefix(mid, c, k, lanes);
    law_length_additivity(s, c, lanes, k);
    assert((produced(s, c, lanes) + produced(mid, c, k)).subrange(lanes as int, (lanes + k) as int)
        =~= produced(mid, c, k));
}

} // verus!
