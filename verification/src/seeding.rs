use crate::recurrence::Lanes;
use vstd::prelude::*;

verus! {

/// The lane contents a generator may start from: no lane holds the same
/// word twice, and no two lanes share their low word or their high word.
pub open spec fn non_degenerate(s: Lanes) -> bool {
    &&& s.well_shaped()
    &&& forall|i: int| 0 <= i < s.count() ==> s.low[i] != s.high[i]
    &&& forall|i: int, j: int|
        0 <= i < s.count() && 0 <= j < s.count() && i != j ==> s.low[i] != s.low[j] && s.high[i]
            != s.high[j]
}

/// No lane below `upto` holds the same word in both halves.
spec fn lanes_split(s: Lanes, upto: int) -> bool {
    forall|i: int| 0 <= i < upto && i < s.count() ==> s.low[i] != s.high[i]
}

/// Among the pairs `(i, j)` with `i < j` that come before `(left, right)` in
/// row order, no two lanes share their low word or their high word.
spec fn pairs_apart(s: Lanes, left: int, right: int) -> bool {
    forall|i: int, j: int|
        0 <= i < j < s.count() && (i < left || (i == left && j < right)) ==> s.low[i] != s.low[j]
            && s.high[i] != s.high[j]
}

/// Looking at one more lane adds that lane's own test.
proof fn lemma_split_extend(s: Lanes, upto: int)
    requires
        0 <= upto < s.count(),
    ensures
        lanes_split(s, upto + 1) == (lanes_split(s, upto) && s.low[upto] != s.high[upto]),
{
    if lanes_split(s, upto) && s.low[upto] != s.high[upto] {
        assert(lanes_split(s, upto + 1));
    }
    if lanes_split(s, upto + 1) {
        assert(lanes_split(s, upto));
    }
}

/// Looking at one more pair of a row adds that pair's own test.
proof fn lemma_pairs_extend(s: Lanes, left: int, right: int)
    requires
        0 <= left < right < s.count(),
    ensures
        pairs_apart(s, left, right + 1) == (pairs_apart(s, left, right) && s.low[left]
            != s.low[right] && s.high[left] != s.high[right]),
{
    if pairs_apart(s, left, right) && s.low[left] != s.low[right] && s.high[left] != s.high[right] {
        assert(pairs_apart(s, left, right + 1));
    }
    if pairs_apart(s, left, right + 1) {
        assert(pairs_apart(s, left, right));
    }
}

/// A row starts where the row before it ended.
proof fn lemma_pairs_row(s: Lanes, left: int, right: int)
    requires
        0 <= left,
        right >= s.count(),
    ensures
        pairs_apart(s, left, left + 1) == pairs_apart(s, left, 0),
        pairs_apart(s, left, right) == pairs_apart(s, left + 1, 0),
{
    if pairs_apart(s, left, 0) {
        assert(pairs_apart(s, left, left + 1));
    }
    if pairs_apart(s, left, left + 1) {
        assert(pairs_apart(s, left, 0));
    }
    if pairs_apart(s, left, right) {
        assert(pairs_apart(s, left + 1, 0));
    }
    if pairs_apart(s, left + 1, 0) {
        assert(pairs_apart(s, left, right));
    }
}

/// Once every lane and every pair has passed its test, the lanes are
/// acceptable, and only then.
proof fn lemma_every_lane_and_pair(s: Lanes)
    requires
        s.well_shaped(),
    ensures
        non_degenerate(s) == (lanes_split(s, s.count() as int) && pairs_apart(
            s,
            s.count() as int,
            0,
        )),
{
    if lanes_split(s, s.count() as int) && pairs_apart(s, s.count() as int, 0) {
        assert forall|i: int, j: int|
            0 <= i < s.count() && 0 <= j < s.count() && i != j implies s.low[i] != s.low[j]
            && s.high[i] != s.high[j] by {
            if i < j {
                assert(s.low[i] != s.low[j] && s.high[i] != s.high[j]);
            } else {
                assert(s.low[j] != s.low[i] && s.high[j] != s.high[i]);
            }
        }
        assert(non_degenerate(s));
    }
    if non_degenerate(s) {
        assert(lanes_split(s, s.count() as int));
        assert(pairs_apart(s, s.count() as int, 0));
    }
}

/// Whether `low` and `high` may seed a generator.
pub fn acceptable<const LANES: usize>(low: &[u64; LANES], high: &[u64; LANES]) -> (ok: bool)
    ensures
        ok == non_degenerate(Lanes { low: low@, high: high@ }),
{
    let ghost s = Lanes { low: low@, high: high@ };
    let mut need_to_reseed = false;
    for i in 0..LANES
        invariant
            s == (Lanes { low: low@, high: high@ }),
            need_to_reseed == !lanes_split(s, i as int),
    {
        proof {
            lemma_split_extend(s, i as int);
        }
        if low[i] == high[i] {
            need_to_reseed = true;
        }
    }
    for left in 0..LANES
        invariant
            s == (Lanes { low: low@, high: high@ }),
            need_to_reseed == !(lanes_split(s, LANES as int) && pairs_apart(s, left as int, 0)),
    {
        proof {
            lemma_pairs_row(s, left as int, LANES as int);
        }
        let mut right: usize = left + 1;
        while right < LANES
            invariant
                s == (Lanes { low: low@, high: high@ }),
                left < right <= LANES,
                need_to_reseed == !(lanes_split(s, LANES as int) && pairs_apart(
                    s,
                    left as int,
                    right as int,
                )),
            decreases LANES - right,
        {
            proof {
                lemma_pairs_extend(s, left as int, right as int);
            }
            let top_same = low[left] == low[right];
            let bottom_same = high[left] == high[right];
            if top_same || bottom_same {
                need_to_reseed = true;
            }
            right += 1;
        }
    }
    proof {
        lemma_every_lane_and_pair(s);
    }
    !need_to_reseed
}

/// The lanes that the `2 * lanes` words from position `at` on stand for:
/// first the low words, lane by lane, then the high words.
pub open spec fn block_at(words: Seq<u64>, lanes: nat, at: int) -> Lanes {
    Lanes {
        low: words.subrange(at, at + lanes),
        high: words.subrange(at + lanes, at + 2 * lanes),
    }
}

/// The first acceptable block among the blocks of `2 * lanes` words that
/// start at `at`, `at + 2 * lanes` and so on, as far as `words` holds them
/// whole.
pub open spec fn first_acceptable(words: Seq<u64>, lanes: nat, at: nat) -> Option<Lanes>
    decreases words.len() - at,
{
    if at + 2 * lanes > words.len() {
        None
    } else if lanes == 0 || non_degenerate(block_at(words, lanes, at as int)) {
        Some(block_at(words, lanes, at as int))
    } else {
        first_acceptable(words, lanes, at + 2 * lanes)
    }
}

/// The `LANES` words of `words` from position `at` on.
pub(crate) fn copy_block<const LANES: usize>(words: &[u64], at: usize) -> (block: [u64; LANES])
    requires
        at + LANES <= words@.len(),
    ensures
        block@ == words@.subrange(at as int, at + LANES),
{
    let n: usize = words.len();
    let mut block = [0u64; LANES];
    for i in 0..LANES
        invariant
            n == words@.len(),
            at + LANES <= n,
            forall|j: int| 0 <= j < i ==> block@[j] == words@[at + j],
    {
        block[i] = words[at + i];
    }
    assert(block@ =~= words@.subrange(at as int, at + LANES));
    block
}

/// How many blocks of fresh words a generator asks its source for before it
/// gives up on the source.
pub const SEED_ATTEMPTS: u64 = 0xffff_ffff_ffff_ffff;

/// Appending one block to words whose whole blocks were all refused leaves
/// the choice to that block alone.
pub proof fn lemma_one_more_block(words: Seq<u64>, tail: Seq<u64>, lanes: nat, at: nat, k: nat)
    requires
        lanes > 0,
        tail.len() == 2 * lanes,
        at + 2 * lanes * k == words.len(),
        first_acceptable(words, lanes, at).is_none(),
    ensures
        first_acceptable(words + tail, lanes, at) == if non_degenerate(block_at(tail, lanes, 0)) {
            Some(block_at(tail, lanes, 0))
        } else {
            None::<Lanes>
        },
    decreases k,
{
    let all = words + tail;
    if k == 0 {
        assert(2 * lanes * k == 0) by (nonlinear_arith)
            requires
                k == 0,
        ;
        assert(block_at(all, lanes, at as int).low =~= block_at(tail, lanes, 0).low);
        assert(block_at(all, lanes, at as int).high =~= block_at(tail, lanes, 0).high);
        assert(first_acceptable(all, lanes, at + 2 * lanes).is_none());
    } else {
        assert(2 * lanes * k == 2 * lanes * (k - 1) + 2 * lanes) by (nonlinear_arith);
        assert(block_at(all, lanes, at as int).low =~= block_at(words, lanes, at as int).low);
        assert(block_at(all, lanes, at as int).high =~= block_at(words, lanes, at as int).high);
        lemma_one_more_block(words, tail, lanes, at + 2 * lanes, (k - 1) as nat);
    }
}

/// What seeding leaves behind once `words` have been drawn, in this order,
/// over `made` attempts of `2 * lanes` words each.
///
/// Either the last block drawn is the first acceptable one, and it is the
/// result. Or every attempt that seeding allows was made and refused, and
/// the result is the fallback lanes.
pub open spec fn seeding_result(words: Seq<u64>, lanes: nat, made: nat, result: Lanes) -> bool {
    &&& 1 <= made <= SEED_ATTEMPTS
    &&& words.len() == 2 * lanes * made
    &&& {
        ||| {
            &&& first_acceptable(words, lanes, 0) == Some(result)
            &&& lanes > 0 ==> first_acceptable(
                words.subrange(0, 2 * lanes * (made - 1)),
                lanes,
                0,
            ).is_none()
        }
        ||| {
            &&& first_acceptable(words, lanes, 0).is_none()
            &&& made == SEED_ATTEMPTS
            &&& result == fallback_lanes(lanes)
        }
    }
}

/// The lanes a generator falls back to when its source never offers
/// acceptable ones: lane `i` holds `i` and the bitwise complement of `i`.
pub open spec fn fallback_lanes(lanes: nat) -> Lanes {
    Lanes {
        low: Seq::new(lanes, |i: int| i as u64),
        high: Seq::new(lanes, |i: int| !(i as u64)),
    }
}

/// The fallback lanes are acceptable, for every lane count a machine can
/// hold.
pub proof fn lemma_fallback_acceptable(lanes: nat)
    requires
        lanes <= u64::MAX,
    ensures
        non_degenerate(fallback_lanes(lanes)),
{
    let s = fallback_lanes(lanes);
    assert forall|i: int| 0 <= i < s.count() implies s.low[i] != s.high[i] by {
        let w = i as u64;
        assert(w != !w) by (bit_vector);
    }
    assert forall|i: int, j: int|
        0 <= i < s.count() && 0 <= j < s.count() && i != j implies s.low[i] != s.low[j]
        && s.high[i] != s.high[j] by {
        let a = i as u64;
        let b = j as u64;
        assert(a != b ==> !a != !b) by (bit_vector);
    }
}

/// Every word of `block` is one that `source` may return.
pub open spec fn drawn_from<F: FnMut() -> u64>(source: F, block: Seq<u64>) -> bool {
    forall|i: int| 0 <= i < block.len() ==> call_ensures(source, (), #[trigger] block[i])
}

/// Asks `source` for `LANES` words and returns them in the order they came.
pub(crate) fn draw_block<F: FnMut() -> u64, const LANES: usize>(source: &mut F) -> (block: [u64; LANES])
    requires
        call_requires(*old(source), ()),
    ensures
        *final(source) == *old(source),
        drawn_from(*old(source), block@),
{
    let mut block = [0u64; LANES];
    for i in 0..LANES
        invariant
            *source == *old(source),
            call_requires(*source, ()),
            forall|j: int| 0 <= j < i ==> call_ensures(*old(source), (), #[trigger] block@[j]),
    {
        let word: u64 = source();
        block[i] = word;
    }
    block
}

} // verus!
