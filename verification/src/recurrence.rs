use vstd::arithmetic::div_mod::{lemma_fundamental_div_mod, lemma_fundamental_div_mod_converse};
use vstd::prelude::*;

verus! {

/// The shift configuration of the recurrence: which shift is applied first,
/// and by how many bits each one moves.
pub struct Shifts {
    pub shl_first: bool,
    pub shl_by: u32,
    pub shr_by: u32,
}

/// The contents of all lanes: lane `i` holds the pair `(low[i], high[i])`.
pub struct Lanes {
    pub low: Seq<u64>,
    pub high: Seq<u64>,
}

impl Lanes {
    /// Both halves have one word per lane.
    pub open spec fn well_shaped(self) -> bool {
        self.low.len() == self.high.len()
    }

    /// The number of lanes.
    pub open spec fn count(self) -> nat {
        self.low.len()
    }
}

/// The configuration every generator fills with unless told otherwise.
pub open spec fn default_shifts() -> Shifts {
    Shifts { shl_first: false, shl_by: 17, shr_by: 23 }
}

/// The xorshift part of one step: both shift-and-xor rounds, in the order
/// the configuration names.
pub open spec fn scramble(x: u64, c: Shifts) -> u64 {
    if c.shl_first {
        let a = x ^ (x << c.shl_by);
        a ^ (a >> c.shr_by)
    } else {
        let a = x ^ (x >> c.shr_by);
        a ^ (a << c.shl_by)
    }
}

/// The words that one group step hands out: lane `i` gives the scrambled
/// low word of lane `i`.
pub open spec fn emitted(s: Lanes, c: Shifts) -> Seq<u64> {
    Seq::new(s.low.len(), |i: int| scramble(s.low[i], c))
}

/// The lanes after one group step: the old high word becomes the low word,
/// and the new high word is the wrapping sum of the scrambled low word and
/// the old high word.
pub open spec fn step(s: Lanes, c: Shifts) -> Lanes {
    Lanes {
        low: s.high,
        high: Seq::new(s.low.len(), |i: int| scramble(s.low[i], c).wrapping_add(s.high[i])),
    }
}

/// The lanes after `k` group steps.
pub open spec fn advance(s: Lanes, c: Shifts, k: nat) -> Lanes
    decreases k,
{
    if k == 0 {
        s
    } else {
        step(advance(s, c, (k - 1) as nat), c)
    }
}

/// How many group steps a fill of `n` words takes with `lanes` lanes: one
/// for each full group, and one more if words remain after the last of them.
pub open spec fn groups_for(n: nat, lanes: nat) -> nat {
    if lanes == 0 {
        0
    } else if n % lanes == 0 {
        n / lanes
    } else {
        n / lanes + 1
    }
}

/// The word at position `p` of a fill that starts in state `s`: it comes
/// from lane `p mod L`, in the group step numbered `p div L`.
pub open spec fn word_at(s: Lanes, c: Shifts, p: nat) -> u64 {
    if s.count() == 0 {
        0
    } else {
        emitted(advance(s, c, p / s.count()), c)[(p % s.count()) as int]
    }
}

/// The `n` words that a fill of length `n` writes, starting in state `s`.
pub open spec fn produced(s: Lanes, c: Shifts, n: nat) -> Seq<u64> {
    Seq::new(n, |p: int| word_at(s, c, p as nat))
}

/// The lanes after a fill of length `n` that started in state `s`.
pub open spec fn state_after(s: Lanes, c: Shifts, n: nat) -> Lanes {
    advance(s, c, groups_for(n, s.count()))
}

/// A group step keeps the number of lanes and the shape.
pub proof fn lemma_step_shape(s: Lanes, c: Shifts)
    requires
        s.well_shaped(),
    ensures
        step(s, c).well_shaped(),
        step(s, c).count() == s.count(),
{
}

/// Any number of group steps keeps the number of lanes and the shape.
pub proof fn lemma_advance_shape(s: Lanes, c: Shifts, k: nat)
    requires
        s.well_shaped(),
    ensures
        advance(s, c, k).well_shaped(),
        advance(s, c, k).count() == s.count(),
    decreases k,
{
    if k > 0 {
        lemma_advance_shape(s, c, (k - 1) as nat);
        lemma_step_shape(advance(s, c, (k - 1) as nat), c);
    }
}

/// Stepping `a` times and then `b` times is stepping `a + b` times.
pub proof fn lemma_advance_sum(s: Lanes, c: Shifts, a: nat, b: nat)
    ensures
        advance(advance(s, c, a), c, b) == advance(s, c, a + b),
    decreases b,
{
    if b > 0 {
        lemma_advance_sum(s, c, a, (b - 1) as nat);
        assert(((a + b) - 1) as nat == a + ((b - 1) as nat));
    }
}

/// Position `q * lanes + r` with `r < lanes` lies in group `q`, at lane `r`.
pub proof fn lemma_position(q: nat, r: nat, lanes: nat)
    requires
        r < lanes,
    ensures
        (q * lanes + r) / lanes == q,
        (q * lanes + r) % lanes == r,
{
    lemma_fundamental_div_mod_converse((q * lanes + r) as int, lanes as int, q as int, r as int);
}

/// A fill that ends `r` words into group `q` has taken `q` group steps if
/// `r` is zero and `q + 1` otherwise.
pub proof fn lemma_groups_for(q: nat, r: nat, lanes: nat)
    requires
        r < lanes,
    ensures
        groups_for(q * lanes + r, lanes) == if r == 0 { q } else { q + 1 },
{
    lemma_position(q, r, lanes);
}

/// Moving a position forward by `q` whole groups moves its group by `q` and
/// leaves its lane alone.
pub proof fn lemma_shifted_position(q: nat, p: nat, lanes: nat)
    requires
        lanes > 0,
    ensures
        (q * lanes + p) / lanes == q + p / lanes,
        (q * lanes + p) % lanes == p % lanes,
{
    let pq = p / lanes;
    let pr = p % lanes;
    lemma_fundamental_div_mod(p as int, lanes as int);
    assert((q + pq) * lanes + pr == q * lanes + p) by (nonlinear_arith)
        requires
            p == lanes * pq + pr,
    ;
    lemma_position(q + pq, pr, lanes);
}

/// A whole number of groups takes exactly that many group steps, and words
/// after it add their own.
pub proof fn lemma_shifted_groups(q: nat, n: nat, lanes: nat)
    requires
        lanes > 0,
    ensures
        groups_for(q * lanes + n, lanes) == q + groups_for(n, lanes),
{
    lemma_shifted_position(q, n, lanes);
}

} // verus!
