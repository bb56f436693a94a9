use crate::recurrence::{
    advance, default_shifts, emitted, lemma_groups_for, lemma_position, produced, scramble,
    state_after, step, word_at, Lanes, Shifts,
};
use crate::seeding::{
    acceptable, block_at, copy_block, draw_block, drawn_from, fallback_lanes, first_acceptable,
    lemma_fallback_acceptable, lemma_one_more_block, non_degenerate, seeding_result, SEED_ATTEMPTS,
};
use vstd::prelude::*;

verus! {

/// A generator built for filling buffers: `LANES` independent xorshift-r+
/// lanes that are stepped together, one output word per lane and step.
#[derive(Clone, Copy, Debug)]
pub struct XorshiftrWide<const LANES: usize> {
    low: [u64; LANES],
    high: [u64; LANES],
}

impl<const LANES: usize> View for XorshiftrWide<LANES> {
    type V = Lanes;

    closed spec fn view(&self) -> Lanes {
        Lanes { low: self.low@, high: self.high@ }
    }
}

/// The xorshift part of one step on a single word.
fn scramble_word<const SHL_FIRST: bool, const SHL_BY: u32, const SHR_BY: u32>(x: u64) -> (r: u64)
    requires
        SHL_BY < 64,
        SHR_BY < 64,
    ensures
        r == scramble(x, Shifts { shl_first: SHL_FIRST, shl_by: SHL_BY, shr_by: SHR_BY }),
{
    let mut x = x;
    if SHL_FIRST {
        x ^= x << SHL_BY;
        x ^= x >> SHR_BY;
    } else {
        x ^= x >> SHR_BY;
        x ^= x << SHL_BY;
    }
    x
}

impl<const LANES: usize> XorshiftrWide<LANES> {
    /// The generator's lanes have the shape the model asks for, and there
    /// are `LANES` of them.
    pub proof fn lemma_view_shape(&self)
        ensures
            self@.well_shaped(),
            self@.count() == LANES,
    {
    }

    /// The low words, one per lane.
    pub fn low_words(&self) -> (words: [u64; LANES])
        ensures
            words@ == self@.low,
    {
        self.low
    }

    /// The high words, one per lane.
    pub fn high_words(&self) -> (words: [u64; LANES])
        ensures
            words@ == self@.high,
    {
        self.high
    }

    /// A generator that starts from the given lanes, if they are acceptable.
    pub fn from_lanes(low: [u64; LANES], high: [u64; LANES]) -> (made: Option<Self>)
        ensures
            made.is_some() == non_degenerate(Lanes { low: low@, high: high@ }),
            made.is_some() ==> made.unwrap()@ == (Lanes { low: low@, high: high@ }),
    {
        if acceptable(&low, &high) {
            Some(XorshiftrWide { low, high })
        } else {
            None
        }
    }

    /// A generator seeded from words that are already at hand.
    ///
    /// The words are read in blocks of `2 * LANES`: the low words of all
    /// lanes, then the high words. The first block that is acceptable seeds
    /// the generator. There is none if every whole block is refused.
    pub fn seed_from_words(words: &[u64]) -> (made: Option<Self>)
        ensures
            match made {
                Some(seeded) => first_acceptable(words@, LANES as nat, 0) == Some(seeded@),
                None => first_acceptable(words@, LANES as nat, 0).is_none(),
            },
            made.is_some() ==> non_degenerate(made.unwrap()@),
    {
        let n: usize = words.len();
        let mut at: usize = 0;
        while n - at >= LANES && n - at - LANES >= LANES
            invariant
                n == words@.len(),
                at <= n,
                first_acceptable(words@, LANES as nat, 0) == first_acceptable(
                    words@,
                    LANES as nat,
                    at as nat,
                ),
            decreases n - at,
        {
            let low: [u64; LANES] = copy_block(words, at);
            let high: [u64; LANES] = copy_block(words, at + LANES);
            assert(block_at(words@, LANES as nat, at as int) == (Lanes { low: low@, high: high@ }));
            match Self::from_lanes(low, high) {
                Some(seeded) => {
                    return Some(seeded);
                },
                None => {
                    assert(LANES > 0);
                    at = at + LANES + LANES;
                },
            }
        }
        None
    }

    /// The generator whose lanes are the fallback lanes.
    fn fallback() -> (made: Self)
        ensures
            made@ == fallback_lanes(LANES as nat),
            non_degenerate(made@),
    {
        let mut low = [0u64; LANES];
        let mut high = [0u64; LANES];
        for i in 0..LANES
            invariant
                forall|j: int| 0 <= j < i ==> low@[j] == j as u64,
                forall|j: int| 0 <= j < i ==> high@[j] == !(j as u64),
        {
            let word: u64 = i as u64;
            low[i] = word;
            high[i] = !word;
        }
        proof {
            lemma_fallback_acceptable(LANES as nat);
            assert(low@ =~= fallback_lanes(LANES as nat).low);
            assert(high@ =~= fallback_lanes(LANES as nat).high);
        }
        XorshiftrWide { low, high }
    }

    /// Gives the generator new lanes, made of words from `provide_random_u64`.
    ///
    /// One attempt asks the source for the `LANES` low words and then for
    /// the `LANES` high words. The first attempt whose words are acceptable
    /// becomes the new state, and the source is not asked again. A source
    /// that fails `SEED_ATTEMPTS` times in a row is given up, and only then
    /// does the generator take the fallback lanes.
    pub fn reseed<F: FnMut() -> u64>(&mut self, provide_random_u64: F)
        requires
            call_requires(provide_random_u64, ()),
        ensures
            final(self)@.count() == LANES,
            non_degenerate(final(self)@),
            exists|words: Seq<u64>, made: nat|
                drawn_from(provide_random_u64, words) && #[trigger] seeding_result(
                    words,
                    LANES as nat,
                    made,
                    final(self)@,
                ),
    {
        let mut source = provide_random_u64;
        let mut attempts: u64 = SEED_ATTEMPTS;
        let ghost mut drawn: Seq<u64> = Seq::empty();
        while attempts > 0
            invariant
                source == provide_random_u64,
                call_requires(source, ()),
                attempts <= SEED_ATTEMPTS,
                drawn_from(provide_random_u64, drawn),
                drawn.len() == 2 * LANES * (SEED_ATTEMPTS - attempts),
                attempts < SEED_ATTEMPTS ==> LANES > 0,
                LANES > 0 ==> first_acceptable(drawn, LANES as nat, 0).is_none(),
            decreases attempts,
        {
            let low: [u64; LANES] = draw_block(&mut source);
            let high: [u64; LANES] = draw_block(&mut source);
            let ghost before = drawn;
            let ghost block = low@ + high@;
            let ghost made = (SEED_ATTEMPTS - attempts + 1) as nat;
            proof {
                drawn = before + block;
                assert forall|i: int| 0 <= i < drawn.len() implies call_ensures(
                    provide_random_u64,
                    (),
                    #[trigger] drawn[i],
                ) by {
                    if i < before.len() {
                        assert(drawn[i] == before[i]);
                    } else if i < before.len() + LANES {
                        assert(drawn[i] == low@[i - before.len()]);
                    } else {
                        assert(drawn[i] == high@[i - before.len() - LANES]);
                    }
                }
                assert(2 * LANES * made == 2 * LANES * (SEED_ATTEMPTS - attempts) + 2 * LANES)
                    by (nonlinear_arith)
                    requires
                        made == SEED_ATTEMPTS - attempts + 1,
                ;
                assert(block_at(block, LANES as nat, 0).low =~= low@);
                assert(block_at(block, LANES as nat, 0).high =~= high@);
                assert(drawn.subrange(0, 2 * LANES * (made - 1)) =~= before);
                if LANES > 0 {
                    lemma_one_more_block(
                        before,
                        block,
                        LANES as nat,
                        0,
                        (SEED_ATTEMPTS - attempts) as nat,
                    );
                } else {
                    assert(drawn =~= block);
                }
            }
            match Self::from_lanes(low, high) {
                Some(seeded) => {
                    *self = seeded;
                    assert(seeding_result(drawn, LANES as nat, made, self@));
                    return ;
                },
                None => {
                    attempts -= 1;
                },
            }
        }
        *self = Self::fallback();
        assert(seeding_result(drawn, LANES as nat, SEED_ATTEMPTS as nat, self@));
    }

    /// A new generator, seeded with words from `provide_random_u64` as
    /// [`XorshiftrWide::reseed`] does it.
    pub fn new<F: FnMut() -> u64>(provide_random_u64: F) -> (made: Self)
        requires
            call_requires(provide_random_u64, ()),
        ensures
            made@.count() == LANES,
            non_degenerate(made@),
            exists|words: Seq<u64>, attempts: nat|
                drawn_from(provide_random_u64, words) && #[trigger] seeding_result(
                    words,
                    LANES as nat,
                    attempts,
                    made@,
                ),
    {
        let mut new_state = XorshiftrWide { low: [0u64; LANES], high: [0u64; LANES] };
        new_state.reseed(provide_random_u64);
        new_state
    }

    /// Steps every lane once, in lane order, and writes lane `i`'s word to
    /// `out[base + i]`.
    fn step_into<const SHL_FIRST: bool, const SHL_BY: u32, const SHR_BY: u32>(
        &mut self,
        out: &mut [u64],
        base: usize,
    )
        requires
            SHL_BY < 64,
            SHR_BY < 64,
            base + LANES <= old(out)@.len(),
        ensures
            final(self)@ == step(
                old(self)@,
                Shifts { shl_first: SHL_FIRST, shl_by: SHL_BY, shr_by: SHR_BY },
            ),
            final(out)@.len() == old(out)@.len(),
            forall|p: int|
                0 <= p < old(out)@.len() ==> final(out)@[p] == if base <= p < base + LANES {
                    emitted(
                        old(self)@,
                        Shifts { shl_first: SHL_FIRST, shl_by: SHL_BY, shr_by: SHR_BY },
                    )[p - base]
                } else {
                    old(out)@[p]
                },
    {
        let ghost c = Shifts { shl_first: SHL_FIRST, shl_by: SHL_BY, shr_by: SHR_BY };
        let n: usize = out.len();
        for i in 0..LANES
            invariant
                SHL_BY < 64,
                SHR_BY < 64,
                c == (Shifts { shl_first: SHL_FIRST, shl_by: SHL_BY, shr_by: SHR_BY }),
                n == out@.len(),
                out@.len() == old(out)@.len(),
                base + LANES <= n,
                forall|j: int| 0 <= j < i ==> self.low@[j] == old(self).high@[j],
                forall|j: int|
                    0 <= j < i ==> self.high@[j] == scramble(old(self).low@[j], c).wrapping_add(
                        old(self).high@[j],
                    ),
                forall|j: int| i <= j < LANES ==> self.low@[j] == old(self).low@[j],
                forall|j: int| i <= j < LANES ==> self.high@[j] == old(self).high@[j],
                forall|p: int|
                    0 <= p < n ==> out@[p] == if base <= p < base + i {
                        scramble(old(self).low@[p - base], c)
                    } else {
                        old(out)@[p]
                    },
        {
            let x: u64 = self.low[i];
            let y: u64 = self.high[i];
            self.low[i] = y;
            let x: u64 = scramble_word::<SHL_FIRST, SHL_BY, SHR_BY>(x);
            self.high[i] = x.wrapping_add(y);
            out[base + i] = x;
        }
        assert(self@.low =~= step(old(self)@, c).low);
        assert(self@.high =~= step(old(self)@, c).high);
    }

    /// Fills `buffer` under the shift configuration given by the three
    /// constants.
    ///
    /// The buffer is cut into groups of `LANES` words. Each full group takes
    /// one step of every lane. Words left over after the last full group take
    /// one more step of every lane, of which only the first words are kept.
    pub fn fill_core<const SHL_FIRST: bool, const SHL_BY: u32, const SHR_BY: u32>(
        &mut self,
        buffer: &mut [u64],
    )
        requires
            LANES > 0,
            SHL_BY < 64,
            SHR_BY < 64,
        ensures
            final(buffer)@ == produced(
                old(self)@,
                Shifts { shl_first: SHL_FIRST, shl_by: SHL_BY, shr_by: SHR_BY },
                old(buffer)@.len(),
            ),
            final(self)@ == state_after(
                old(self)@,
                Shifts { shl_first: SHL_FIRST, shl_by: SHL_BY, shr_by: SHR_BY },
                old(buffer)@.len(),
            ),
            old(buffer)@.len() == 0 ==> *final(self) == *old(self),
    {
        let ghost c = Shifts { shl_first: SHL_FIRST, shl_by: SHL_BY, shr_by: SHR_BY };
        let ghost start = self@;
        proof {
            self.lemma_view_shape();
        }
        let n: usize = buffer.len();
        let mut base: usize = 0;
        let ghost mut done: nat = 0;
        while n - base >= LANES
            invariant
                LANES > 0,
                SHL_BY < 64,
                SHR_BY < 64,
                c == (Shifts { shl_first: SHL_FIRST, shl_by: SHL_BY, shr_by: SHR_BY }),
                start == old(self)@,
                start.count() == LANES,
                n == buffer@.len(),
                n == old(buffer)@.len(),
                base <= n,
                base == done * LANES,
                self@ == advance(start, c, done),
                base == 0 ==> *self == *old(self),
                forall|p: int| 0 <= p < base ==> buffer@[p] == word_at(start, c, p as nat),
            decreases n - base,
        {
            let ghost before = buffer@;
            self.step_into::<SHL_FIRST, SHL_BY, SHR_BY>(buffer, base);
            proof {
                assert forall|p: int| 0 <= p < base + LANES implies buffer@[p] == word_at(
                    start,
                    c,
                    p as nat,
                ) by {
                    if p >= base {
                        lemma_position(done, (p - base) as nat, LANES as nat);
                    }
                }
                assert((done + 1) * LANES == done * LANES + LANES) by (nonlinear_arith);
                done = done + 1;
            }
            base += LANES;
        }
        let kept: usize = n - base;
        proof {
            lemma_groups_for(done, kept as nat, LANES as nat);
        }
        if kept != 0 {
            let ghost offered = emitted(self@, c);
            let mut scratch = [0u64; LANES];
            self.step_into::<SHL_FIRST, SHL_BY, SHR_BY>(&mut scratch, 0);
            for i in 0..kept
                invariant
                    kept < LANES,
                    n == buffer@.len(),
                    base + kept == n,
                    base == done * LANES,
                    start.count() == LANES,
                    offered == emitted(advance(start, c, done), c),
                    offered.len() == LANES,
                    forall|j: int| 0 <= j < LANES ==> scratch@[j] == offered[j],
                    forall|p: int| 0 <= p < base + i ==> buffer@[p] == word_at(start, c, p as nat),
            {
                proof {
                    lemma_position(done, i as nat, LANES as nat);
                }
                buffer[base + i] = scratch[i];
            }
        }
        assert(buffer@ =~= produced(start, c, n as nat));
    }

    /// Fills `destination_buffer` with the generator's next words, under the
    /// default shift configuration.
    #[inline]
    pub fn fill_u64_buffer(&mut self, destination_buffer: &mut [u64])
        requires
            LANES > 0,
        ensures
            final(destination_buffer)@ == produced(
                old(self)@,
                default_shifts(),
                old(destination_buffer)@.len(),
            ),
            final(self)@ == state_after(
                old(self)@,
                default_shifts(),
                old(destination_buffer)@.len(),
            ),
            old(destination_buffer)@.len() == 0 ==> *final(self) == *old(self),
    {
        self.fill_core::<false, 17, 23>(destination_buffer);
    }
}

} // verus!
