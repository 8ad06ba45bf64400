//! The expected-value engine: dealer outcome distribution, stand-EV,
//! hit-EV and the decision orchestrator.
//!
//! Probabilities are exact fractions.  A dealer state with `n` cards left
//! and at most `k` draws to go has every outcome probability equal to an
//! integer numerator over the falling factorial `fall(n, k)`; the six
//! numerators of the outcome distribution sum to exactly that denominator,
//! so the distribution sums to exactly 1.  The dealer draws while its total
//! is below 17 and stands on 17 through 21, where an ace counts as 11
//! whenever that keeps the total at 21 or below (so a soft 17 stands).

use vstd::prelude::*;

use crate::arith::{
    fall, fall_exec, lemma_fall_limit, lemma_fall_pos, lemma_fall_split,
};
use crate::deck::{
    lemma_slot_le_sum, lemma_sum_first_nonneg, lemma_sum_first_update, rank_of_index, shoe_wf,
    sum_first, total_cards, val_of_idx, Deck, Rank,
};
use crate::hand::{aces, best_total, is_soft, lemma_raw_sum_bounds, raw_sum, Hand};
use crate::models::{decks_equal, DealerState, DeckCounts, PlayerState};

verus! {

/// Largest shoe the engine evaluates: three standard 52-card decks.  The
/// exact path weights of a dealer hand are bounded by a falling factorial
/// of the shoe size with up to 17 draws, and this ceiling keeps every such
/// weight, and the doubled denominators of the evaluators, inside `u128`.
pub const SHOE_LIMIT: u32 = 156;

/// Number of cards in a shoe composition, as a natural number.
pub open spec fn cards(s: Seq<u32>) -> nat {
    total_cards(s) as nat
}

/// Whether a hand with this raw total and softness flag is terminal for
/// the dealer: busted, or standing on a (possibly soft) 17 through 21.
pub open spec fn dealer_done(raw: int, soft: bool) -> bool {
    raw > 21 || raw + (if soft {
        10int
    } else {
        0int
    }) >= 17
}

/// Largest number of draws a dealer state can still make: zero when
/// terminal, otherwise one card per missing point up to 17.
pub open spec fn dsteps(raw: int, soft: bool) -> nat {
    if dealer_done(raw, soft) {
        0
    } else {
        (17 - raw) as nat
    }
}

/// Exact common denominator of a dealer state's outcome distribution.
pub open spec fn dealer_den(raw: int, soft: bool, s: Seq<u32>) -> int {
    fall(total_cards(s), dsteps(raw, soft))
}

/// Raw total after drawing the rank at slot `r`.
pub open spec fn next_raw(raw: int, r: int) -> int {
    raw + val_of_idx(r)
}

/// Softness after drawing the rank at slot `r`: the hand holds a
/// promotable ace exactly when it already did or the draw is an ace, and
/// promotion still fits under 21.
pub open spec fn next_soft(soft: bool, r: int, nraw: int) -> bool {
    (soft || r == 0) && nraw + 10 <= 21
}

/// The distribution with all weight on outcome slot `j` (slots 0..=4 are
/// final totals 17..=21, slot 5 is a bust).
pub open spec fn unit6(j: int) -> Seq<int> {
    Seq::new(6, |i: int| if i == j {
        1int
    } else {
        0int
    })
}

pub open spec fn zero6() -> Seq<int> {
    Seq::new(6, |i: int| 0int)
}

pub open spec fn add6(a: Seq<int>, b: Seq<int>) -> Seq<int> {
    Seq::new(6, |i: int| a[i] + b[i])
}

pub open spec fn scale6(d: Seq<int>, m: int) -> Seq<int> {
    Seq::new(6, |i: int| m * d[i])
}

pub open spec fn sum6(d: Seq<int>) -> int {
    d[0] + d[1] + d[2] + d[3] + d[4] + d[5]
}

/// Outcome distribution of a dealer state, as six exact numerators over
/// the denominator `dealer_den(raw, soft, s)`.  A terminal state is a unit
/// distribution; otherwise every rank still present in the shoe is drawn
/// in turn and the child distributions are combined, each branch weighted
/// by its remaining count and rescaled to the common denominator.
pub open spec fn dealer_dist(raw: int, soft: bool, s: Seq<u32>) -> Seq<int>
    decreases cards(s), 14int,
{
    if raw > 21 {
        unit6(5)
    } else if raw + (if soft {
        10int
    } else {
        0int
    }) >= 17 {
        unit6(
            raw + (if soft {
                10int
            } else {
                0int
            }) - 17,
        )
    } else {
        branch_sum(raw, soft, s, 13)
    }
}

/// Combined contribution of the first `r` rank slots to a non-terminal
/// dealer state's distribution.
pub open spec fn branch_sum(raw: int, soft: bool, s: Seq<u32>, r: int) -> Seq<int>
    decreases cards(s), r,
    via branch_sum_dec
{
    if r <= 0 || r > 13 || s.len() != 13 {
        zero6()
    } else if s[r - 1] == 0 {
        branch_sum(raw, soft, s, r - 1)
    } else {
        let c = s[r - 1] as int;
        let nraw = next_raw(raw, r - 1);
        let nsoft = next_soft(soft, r - 1, nraw);
        let s2 = s.update(r - 1, (s[r - 1] - 1) as u32);
        let kc = dsteps(nraw, nsoft);
        let kp = dsteps(raw, soft);
        let pad = fall(total_cards(s) - 1 - kc, (kp - 1 - kc) as nat);
        add6(branch_sum(raw, soft, s, r - 1), scale6(dealer_dist(nraw, nsoft, s2), c * pad))
    }
}

#[via_fn]
proof fn branch_sum_dec(raw: int, soft: bool, s: Seq<u32>, r: int) {
    if 0 < r <= 13 && s.len() == 13 && s[r - 1] > 0 {
        lemma_sum_first_update(s, 13, r - 1, (s[r - 1] - 1) as u32);
        lemma_sum_first_nonneg(s.update(r - 1, (s[r - 1] - 1) as u32), 13);
    }
}

proof fn lemma_sum6_scale(d: Seq<int>, m: int)
    requires
        d.len() == 6,
    ensures
        sum6(scale6(d, m)) == m * sum6(d),
{
    assert(m * d[0] + m * d[1] + m * d[2] + m * d[3] + m * d[4] + m * d[5] == m * (d[0] + d[1]
        + d[2] + d[3] + d[4] + d[5])) by (nonlinear_arith);
}

/// Soundness of the dealer distribution: six non-negative numerators that
/// sum to exactly the state's denominator — the distribution is exactly a
/// probability distribution whenever the shoe holds enough cards to finish
/// the dealer's hand.
pub proof fn lemma_dealer_dist_ok(raw: int, soft: bool, s: Seq<u32>)
    requires
        s.len() == 13,
        0 <= raw,
        soft ==> raw + 10 <= 21,
        total_cards(s) >= dsteps(raw, soft),
    ensures
        dealer_dist(raw, soft, s).len() == 6,
        forall|i: int| 0 <= i < 6 ==> 0 <= #[trigger] dealer_dist(raw, soft, s)[i],
        sum6(dealer_dist(raw, soft, s)) == dealer_den(raw, soft, s),
    decreases cards(s), 14int,
{
    lemma_sum_first_nonneg(s, 13);
    if dealer_done(raw, soft) {
        assert(fall(total_cards(s), 0) == 1);
    } else {
        lemma_branch_sum_ok(raw, soft, s, 13);
        let n = total_cards(s);
        let kp = dsteps(raw, soft);
        assert(kp >= 1);
        assert(fall(n, kp) == n * fall(n - 1, (kp - 1) as nat));
    }
}

/// The partial branch sum over the first `r` ranks is non-negative in
/// every slot and sums to (cards seen so far) x (child denominator).
proof fn lemma_branch_sum_ok(raw: int, soft: bool, s: Seq<u32>, r: int)
    requires
        s.len() == 13,
        0 <= raw,
        soft ==> raw + 10 <= 21,
        !dealer_done(raw, soft),
        total_cards(s) >= dsteps(raw, soft),
        0 <= r <= 13,
    ensures
        branch_sum(raw, soft, s, r).len() == 6,
        forall|i: int| 0 <= i < 6 ==> 0 <= #[trigger] branch_sum(raw, soft, s, r)[i],
        sum6(branch_sum(raw, soft, s, r)) == sum_first(s, r) * fall(
            total_cards(s) - 1,
            (dsteps(raw, soft) - 1) as nat,
        ),
    decreases cards(s), r,
{
    let n = total_cards(s);
    let kp = dsteps(raw, soft);
    let kb = (kp - 1) as nat;
    let den1 = fall(n - 1, kb);
    lemma_fall_pos(n - 1, kb);
    if r <= 0 {
        assert(sum6(zero6()) == 0);
        assert(sum_first(s, 0) * den1 == 0) by (nonlinear_arith);
    } else if s[r - 1] == 0 {
        lemma_branch_sum_ok(raw, soft, s, r - 1);
    } else {
        lemma_branch_sum_ok(raw, soft, s, r - 1);
        let c = s[r - 1] as int;
        let nraw = next_raw(raw, r - 1);
        let nsoft = next_soft(soft, r - 1, nraw);
        let s2 = s.update(r - 1, (s[r - 1] - 1) as u32);
        let kc = dsteps(nraw, nsoft);
        let pad = fall(n - 1 - kc, (kp - 1 - kc) as nat);
        lemma_sum_first_update(s, 13, r - 1, (s[r - 1] - 1) as u32);
        lemma_sum_first_nonneg(s2, 13);
        assert(total_cards(s2) == n - 1);
        assert(1 <= val_of_idx(r - 1) <= 10);
        assert(kc <= kp - 1);
        lemma_dealer_dist_ok(nraw, nsoft, s2);
        let d = dealer_dist(nraw, nsoft, s2);
        // the child's denominator times the padding run equals the
        // common per-branch denominator
        lemma_fall_split(n - 1, kc, (kp - 1 - kc) as nat);
        assert(fall(n - 1, kb) == fall(n - 1, kc) * pad);
        lemma_sum6_scale(d, c * pad);
        assert(sum6(scale6(d, c * pad)) == c * den1) by (nonlinear_arith)
            requires
                sum6(scale6(d, c * pad)) == (c * pad) * sum6(d),
                sum6(d) == fall(n - 1, kc),
                den1 == fall(n - 1, kc) * pad,
        ;
        lemma_fall_pos(n - 1 - kc, (kp - 1 - kc) as nat);
        lemma_fall_pos(n - 1, kc);
        assert forall|i: int| 0 <= i < 6 implies 0 <= #[trigger] scale6(d, c * pad)[i] by {
            assert(0 <= (c * pad) * d[i]) by (nonlinear_arith)
                requires
                    0 <= c,
                    0 <= pad,
                    0 <= d[i],
            ;
        }
        let prev = branch_sum(raw, soft, s, r - 1);
        assert(sum6(add6(prev, scale6(d, c * pad))) == sum6(prev) + sum6(scale6(d, c * pad)));
        assert((sum_first(s, r - 1) + c) * den1 == sum_first(s, r - 1) * den1 + c * den1)
            by (nonlinear_arith);
    }
}

/// Memoization transparency: the dealer engine's distribution is a
/// function of the fingerprint alone.  Two fingerprints that agree
/// structurally — same running total, same softness flag, same remaining
/// count for every rank — carry identical outcome weights and identical
/// denominators, so answering a repeat call from the memo table instead
/// of re-enumerating the draws returns bit-identical results.
pub proof fn lemma_memoization_transparent(
    raw1: int,
    soft1: bool,
    s1: Seq<u32>,
    raw2: int,
    soft2: bool,
    s2: Seq<u32>,
)
    requires
        raw1 == raw2,
        soft1 == soft2,
        s1.len() == s2.len(),
        forall|i: int| 0 <= i < s1.len() ==> s1[i] == s2[i],
    ensures
        dealer_dist(raw1, soft1, s1) == dealer_dist(raw2, soft2, s2),
        dealer_den(raw1, soft1, s1) == dealer_den(raw2, soft2, s2),
{
    assert(s1 =~= s2);
}

/// Probability of winning, as an exact fraction `num / den`.
#[derive(Debug)]
pub struct Prob {
    pub num: u128,
    pub den: u128,
}

/// The six outcome weights of a dealer state over their exact common
/// denominator: `num[i] / den` is the probability of final total `17 + i`
/// for `i < 5`, and `num[5] / den` the probability of a bust.
#[derive(Debug)]
pub struct OutcomeDist {
    pub num: Vec<u128>,
    pub den: u128,
}

/// A cached dealer entry is sound when its weights are exactly the
/// distribution of its fingerprint.
spec fn dealer_entry_ok(st: DealerState, v: Seq<u128>) -> bool {
    &&& shoe_wf(st.deck.0@)
    &&& total_cards(st.deck.0@) <= SHOE_LIMIT as int
    &&& st.soft ==> st.total + 10 <= 21
    &&& total_cards(st.deck.0@) >= dsteps(st.total as int, st.soft)
    &&& v.len() == 6
    &&& forall|i: int|
        0 <= i < 6 ==> v[i] as int == dealer_dist(st.total as int, st.soft, st.deck.0@)[i]
}

/// Memo table of the dealer-distribution engine, keyed by the full state
/// fingerprint.  Every stored value provably equals the recomputed
/// distribution of its key, which is what makes lookups transparent.
pub struct DealerCache {
    entries: Vec<(DealerState, Vec<u128>)>,
}

impl DealerCache {
    /// Soundness of the memo table: every entry stores exactly the
    /// distribution of its fingerprint.
    pub closed spec fn wf(&self) -> bool {
        forall|j: int|
            0 <= j < self.entries@.len() ==> #[trigger] dealer_entry_ok(
                self.entries@[j].0,
                self.entries@[j].1@,
            )
    }

    /// A fresh, empty memo table.
    pub fn new() -> (c: DealerCache)
        ensures
            c.wf(),
    {
        DealerCache { entries: Vec::new() }
    }

    fn get(&self, total: u32, soft: bool, deck: &Deck) -> (r: Option<Vec<u128>>)
        requires
            self.wf(),
            deck@.len() == 13,
        ensures
            match r {
                Some(v) => v@.len() == 6 && forall|i: int|
                    0 <= i < 6 ==> v@[i] as int == dealer_dist(total as int, soft, deck@)[i],
                None => true,
            },
    {
        let n = self.entries.len();
        let mut j: usize = 0;
        while j < n
            invariant
                j <= n,
                n == self.entries@.len(),
                self.wf(),
                deck@.len() == 13,
            decreases n - j,
        {
            let e = &self.entries[j];
            proof {
                assert(dealer_entry_ok(self.entries@[j as int].0, self.entries@[j as int].1@));
            }
            if e.0.total == total && e.0.soft == soft && decks_equal(&e.0.deck.0, deck) {
                return Some(copy_slots(&e.1));
            }
            j += 1;
        }
        None
    }

    fn put(&mut self, st: DealerState, v: Vec<u128>)
        requires
            old(self).wf(),
            dealer_entry_ok(st, v@),
        ensures
            final(self).wf(),
    {
        self.entries.push((st, v));
    }
}

fn copy_slots(v: &Vec<u128>) -> (r: Vec<u128>)
    ensures
        r@ == v@,
{
    let mut r: Vec<u128> = Vec::new();
    let n = v.len();
    let mut i: usize = 0;
    while i < n
        invariant
            i <= n,
            n == v@.len(),
            r@.len() == i,
            forall|j: int| 0 <= j < i ==> r@[j] == v@[j],
        decreases n - i,
    {
        r.push(v[i]);
        i += 1;
    }
    assert(r@ =~= v@);
    r
}

/// Six slots, all zero.
fn zero_slots() -> (r: Vec<u128>)
    ensures
        r@.len() == 6,
        forall|i: int| 0 <= i < 6 ==> r@[i] as int == zero6()[i],
{
    let mut r: Vec<u128> = Vec::new();
    let mut i: usize = 0;
    while i < 6
        invariant
            i <= 6,
            r@.len() == i,
            forall|j: int| 0 <= j < i ==> r@[j] == 0,
        decreases 6 - i,
    {
        r.push(0);
        i += 1;
    }
    r
}

/// Six slots with all weight on slot `j`.
fn unit_slots(j: usize) -> (r: Vec<u128>)
    requires
        j < 6,
    ensures
        r@.len() == 6,
        forall|i: int| 0 <= i < 6 ==> r@[i] as int == unit6(j as int)[i],
{
    let mut r: Vec<u128> = Vec::new();
    let mut i: usize = 0;
    while i < 6
        invariant
            i <= 6,
            r@.len() == i,
            forall|k: int| 0 <= k < i ==> r@[k] == (if k == j { 1u128 } else { 0u128 }),
        decreases 6 - i,
    {
        if i == j {
            r.push(1);
        } else {
            r.push(0);
        }
        i += 1;
    }
    r
}

/// Runtime twin of `dsteps`: how many draws a dealer state can still
/// make, which is also the least shoe size its evaluation needs.
pub fn dsteps_exec(raw: u32, soft: bool) -> (k: u32)
    requires
        soft ==> raw + 10 <= 21,
    ensures
        k == dsteps(raw as int, soft),
        k <= 17,
{
    if raw > 21 {
        0
    } else {
        let best = raw + if soft {
            10
        } else {
            0
        };
        if best >= 17 {
            0
        } else {
            17 - raw
        }
    }
}

/// Recursive core of the dealer engine: memoized exact enumeration of
/// every draw the dealer can still make.
fn dealer_core(total: u32, soft: bool, deck: &Deck, cache: &mut DealerCache) -> (r: Vec<u128>)
    requires
        deck.wf(),
        total_cards(deck@) <= SHOE_LIMIT as int,
        soft ==> total + 10 <= 21,
        total_cards(deck@) >= dsteps(total as int, soft),
        old(cache).wf(),
    ensures
        final(cache).wf(),
        r@.len() == 6,
        forall|i: int| 0 <= i < 6 ==> r@[i] as int == dealer_dist(total as int, soft, deck@)[i],
    decreases cards(deck@),
{
    if total > 21 {
        return unit_slots(5);
    }
    let best = total + if soft {
        10
    } else {
        0
    };
    if best >= 17 {
        return unit_slots((best - 17) as usize);
    }
    if let Some(v) = cache.get(total, soft, deck) {
        return v;
    }
    let ghost s = deck@;
    let n_total = deck.total();
    let kp = 17 - total;
    proof {
        lemma_sum_first_nonneg(s, 13);
        assert(kp == dsteps(total as int, soft));
    }
    let mut acc = zero_slots();
    let mut r: usize = 0;
    while r < 13
        invariant
            r <= 13,
            deck.wf(),
            total_cards(s) <= SHOE_LIMIT as int,
            s == deck@,
            soft ==> total + 10 <= 21,
            !dealer_done(total as int, soft),
            total <= 16,
            kp == dsteps(total as int, soft),
            kp == 17 - total,
            1 <= kp <= 17,
            n_total == total_cards(s),
            kp <= n_total,
            cache.wf(),
            acc@.len() == 6,
            forall|i: int|
                0 <= i < 6 ==> acc@[i] as int == branch_sum(total as int, soft, s, r as int)[i],
        decreases 13 - r,
    {
        let c = deck.count_at(r);
        if c > 0 {
            let ghost prev = branch_sum(total as int, soft, s, r as int);
            let rank = rank_of_index(r);
            let nraw = total + rank.base_value();
            let nsoft = (soft || r == 0) && nraw + 10 <= 21;
            let mut deck2 = deck.clone();
            let _ = deck2.draw_specific(rank);
            proof {
                assert(deck2@ =~= s.update(r as int, (c - 1) as u32));
                lemma_sum_first_update(s, 13, r as int, (c - 1) as u32);
                lemma_sum_first_nonneg(deck2@, 13);
                assert(nsoft == next_soft(soft, r as int, nraw as int));
                assert(1 <= val_of_idx(r as int) <= 10);
                assert(dsteps(nraw as int, nsoft) <= kp - 1);
            }
            let sub = dealer_core(nraw, nsoft, &deck2, cache);
            let kc = dsteps_exec(nraw, nsoft);
            proof {
                lemma_fall_limit(n_total as int - 1 - kc, (kp - 1 - kc) as nat);
            }
            let pad = fall_exec(n_total - 1 - kc, kp - 1 - kc);
            let w = c as u128;
            let ghost child = dealer_dist(nraw as int, nsoft, deck2@);
            let ghost m = (c as int) * (pad as int);
            let ghost den1 = fall(total_cards(s) - 1, (kp - 1) as nat);
            proof {
                lemma_dealer_dist_ok(nraw as int, nsoft, deck2@);
                lemma_branch_sum_ok(total as int, soft, s, r as int);
                lemma_fall_split(
                    total_cards(s) - 1,
                    dsteps(nraw as int, nsoft),
                    (kp - 1 - dsteps(nraw as int, nsoft)) as nat,
                );
                lemma_fall_pos(total_cards(s) - 1, (kp - 1) as nat);
                lemma_fall_pos(total_cards(s) - 1, dsteps(nraw as int, nsoft));
                lemma_fall_pos(
                    total_cards(s) - 1 - dsteps(nraw as int, nsoft),
                    (kp - 1 - dsteps(nraw as int, nsoft)) as nat,
                );
                lemma_slot_le_sum(s, r as int, 13);
                lemma_sum_first_nonneg(s, r as int);
                lemma_sum_first_nonneg(s, 13);
                assert(sum_first(s, r as int + 1) == sum_first(s, r as int) + c);
                assert(sum_first(s, r as int + 1) <= sum_first(s, 13));
                lemma_fall_limit(total_cards(s), (kp as nat));
                assert(fall(total_cards(s), kp as nat) == total_cards(s) * den1);
            }
            let mut i: usize = 0;
            while i < 6
                invariant
                    i <= 6,
                    acc@.len() == 6,
                    sub@.len() == 6,
                    forall|j: int| 0 <= j < 6 ==> sub@[j] as int == child[j],
                    forall|j: int| i <= j < 6 ==> acc@[j] as int == prev[j],
                    forall|j: int| 0 <= j < i ==> acc@[j] as int == prev[j] + m * child[j],
                    child.len() == 6,
                    prev.len() == 6,
                    forall|j: int| 0 <= j < 6 ==> 0 <= child[j],
                    forall|j: int| 0 <= j < 6 ==> 0 <= prev[j],
                    sum6(child) == fall(total_cards(s) - 1, dsteps(nraw as int, nsoft)),
                    sum6(prev) == sum_first(s, r as int) * den1,
                    den1 == fall(total_cards(s) - 1, (kp - 1) as nat),
                    den1 == sum6(child) * (pad as int),
                    m == (c as int) * (pad as int),
                    w == c,
                    c == s[r as int],
                    0 <= pad,
                    1 <= c <= total_cards(s),
                    0 <= sum_first(s, r as int),
                    sum_first(s, r as int) + c <= total_cards(s),
                    0 <= den1,
                    total_cards(s) * den1 <= fall(total_cards(s), kp as nat),
                    fall(total_cards(s), kp as nat) <= u128::MAX,
                decreases 6 - i,
            {
                let sv = sub[i];
                let av = acc[i];
                proof {
                    let ci = child[i as int];
                    let sc = sum6(child);
                    assert(ci <= sc);
                    assert(sv * pad <= sc * pad && 0 <= sv * pad) by (nonlinear_arith)
                        requires
                            0 <= sv <= sc,
                            0 <= pad,
                    ;
                    assert(den1 <= total_cards(s) * den1) by (nonlinear_arith)
                        requires
                            1 <= total_cards(s),
                            0 <= den1,
                    ;
                    assert(sv * pad * w <= sc * pad * w && 0 <= sv * pad * w) by (nonlinear_arith)
                        requires
                            0 <= sv * pad <= sc * pad,
                            0 <= w,
                    ;
                    assert(sc * pad * w == (c as int) * den1) by (nonlinear_arith)
                        requires
                            den1 == sc * (pad as int),
                            w == c,
                    ;
                    assert(av <= sum6(prev));
                    assert(sum6(prev) + (c as int) * den1 <= total_cards(s) * den1)
                        by (nonlinear_arith)
                        requires
                            sum6(prev) == sum_first(s, r as int) * den1,
                            sum_first(s, r as int) + c <= total_cards(s),
                            0 <= den1,
                            0 <= c,
                    ;
                    assert(sv * pad * w == m * ci) by (nonlinear_arith)
                        requires
                            sv == ci,
                            m == (c as int) * (pad as int),
                            w == c,
                    ;
                }
                let t = sv * pad;
                let t2 = t * w;
                acc[i] = av + t2;
                i += 1;
            }
            proof {
                let bs_next = branch_sum(total as int, soft, s, r as int + 1);
                assert(bs_next == add6(prev, scale6(child, m)));
                assert(forall|j: int|
                    0 <= j < 6 ==> acc@[j] as int == #[trigger] bs_next[j]);
            }
        } else {
            proof {
                assert(branch_sum(total as int, soft, s, r as int + 1) == branch_sum(
                    total as int,
                    soft,
                    s,
                    r as int,
                ));
            }
        }
        r += 1;
    }
    let st = DealerState { total, soft, deck: DeckCounts(deck.clone()) };
    cache.put(st, copy_slots(&acc));
    acc
}

/// Full six-way dealer outcome distribution: probabilities of final
/// totals 17 through 21 and of a bust, as exact weights over one common
/// denominator.  The result is a function of the fingerprint alone —
/// total, softness and shoe composition — so repeated calls on equal
/// fingerprints return identical values, memoized or not; and the six
/// weights sum to exactly the denominator: the distribution sums to
/// exactly 1.
pub fn dealer_final_probs(soft: bool, dealer: &Hand, deck: &Deck, cache: &mut DealerCache) -> (r:
    OutcomeDist)
    requires
        deck.wf(),
        total_cards(deck@) <= SHOE_LIMIT as int,
        dealer@.len() <= 100_000_000,
        soft ==> raw_sum(dealer@) + 10 <= 21,
        total_cards(deck@) >= dsteps(raw_sum(dealer@), soft),
        old(cache).wf(),
    ensures
        final(cache).wf(),
        r.num@.len() == 6,
        forall|i: int|
            0 <= i < 6 ==> r.num@[i] as int == dealer_dist(raw_sum(dealer@), soft, deck@)[i],
        r.den as int == dealer_den(raw_sum(dealer@), soft, deck@),
        r.num@[0] + r.num@[1] + r.num@[2] + r.num@[3] + r.num@[4] + r.num@[5] == r.den,
        1 <= r.den,
{
    proof {
        lemma_raw_sum_bounds(dealer@);
    }
    let raw = dealer.sum_of_cards();
    let num = dealer_core(raw, soft, deck, cache);
    let k = dsteps_exec(raw, soft);
    proof {
        lemma_fall_limit(total_cards(deck@), k as nat);
        lemma_dealer_dist_ok(raw as int, soft, deck@);
        lemma_fall_pos(total_cards(deck@), k as nat);
    }
    let den = fall_exec(deck.total(), k);
    OutcomeDist { num, den }
}

/// Probability that the dealer busts, as an exact fraction: the bust slot
/// of the full outcome distribution over the same denominator.
pub fn dealer_bust_probability(soft: bool, dealer: &Hand, deck: &Deck, cache: &mut DealerCache)
    -> (r: Prob)
    requires
        deck.wf(),
        total_cards(deck@) <= SHOE_LIMIT as int,
        dealer@.len() <= 100_000_000,
        soft ==> raw_sum(dealer@) + 10 <= 21,
        total_cards(deck@) >= dsteps(raw_sum(dealer@), soft),
        old(cache).wf(),
    ensures
        final(cache).wf(),
        r.num as int == dealer_dist(raw_sum(dealer@), soft, deck@)[5],
        r.den as int == dealer_den(raw_sum(dealer@), soft, deck@),
        r.num <= r.den,
        1 <= r.den,
{
    let d = dealer_final_probs(soft, dealer, deck, cache);
    let num = d.num[5];
    Prob { num, den: d.den }
}

/// One dealer-outcome term of the stand evaluator, in half-win units:
/// beating the score is worth 2, a push is worth 1, losing is worth 0.
pub open spec fn wterm(pt: int, score: int, x: int) -> int {
    if pt > score {
        2 * x
    } else if pt == score {
        x
    } else {
        0
    }
}

/// Stand-EV numerator in half-win units over the dealer distribution `d`:
/// a dealer bust is always a full win, otherwise the player total is
/// compared against each standing total 17 through 21.
pub open spec fn swin_num(pt: int, d: Seq<int>) -> int {
    2 * d[5] + wterm(pt, 17, d[0]) + wterm(pt, 18, d[1]) + wterm(pt, 19, d[2]) + wterm(
        pt,
        20,
        d[3],
    ) + wterm(pt, 21, d[4])
}

proof fn lemma_swin_bounds(pt: int, d: Seq<int>)
    requires
        d.len() == 6,
        forall|i: int| 0 <= i < 6 ==> 0 <= #[trigger] d[i],
    ensures
        0 <= swin_num(pt, d) <= 2 * sum6(d),
{
}

/// Monotonicity of the stand evaluator: against one fixed dealer outcome
/// distribution, a higher standing total never has the smaller win
/// probability — stand-EV(21) >= stand-EV(20) >= ... >= stand-EV(17).
pub proof fn lemma_stand_monotone(pt1: int, pt2: int, d: Seq<int>)
    requires
        d.len() == 6,
        forall|i: int| 0 <= i < 6 ==> 0 <= #[trigger] d[i],
        17 <= pt1 <= pt2 <= 21,
    ensures
        swin_num(pt1, d) <= swin_num(pt2, d),
{
}

/// Player's probability of winning when standing now on `player_total`,
/// with pushes counted as half a win: the dealer hand is played out under
/// the house rule and each of the six outcomes contributes its weight.
/// The result is exact: `num / den` with `den` twice the dealer
/// denominator, and always within [0, 1].
pub fn stand_win_probability(
    player_total: u8,
    dealer: &Hand,
    deck: &Deck,
    cache: &mut DealerCache,
) -> (r: Prob)
    requires
        deck.wf(),
        total_cards(deck@) <= SHOE_LIMIT as int,
        dealer@.len() <= 100_000_000,
        total_cards(deck@) >= dsteps(raw_sum(dealer@), is_soft(dealer@)),
        old(cache).wf(),
    ensures
        final(cache).wf(),
        r.num as int == swin_num(
            player_total as int,
            dealer_dist(raw_sum(dealer@), is_soft(dealer@), deck@),
        ),
        r.den as int == 2 * dealer_den(raw_sum(dealer@), is_soft(dealer@), deck@),
        r.num <= r.den,
        1 <= r.den,
{
    proof {
        lemma_raw_sum_bounds(dealer@);
    }
    let raw = dealer.sum_of_cards();
    let soft = dealer.has_ace() && raw + 10 <= 21;
    let dist = dealer_core(raw, soft, deck, cache);
    let k = dsteps_exec(raw, soft);
    proof {
        lemma_fall_limit(total_cards(deck@), k as nat);
        lemma_dealer_dist_ok(raw as int, soft, deck@);
        lemma_fall_pos(total_cards(deck@), k as nat);
    }
    let den_half = fall_exec(deck.total(), k);
    let d0 = dist[0];
    let d1 = dist[1];
    let d2 = dist[2];
    let d3 = dist[3];
    let d4 = dist[4];
    let d5 = dist[5];
    let pt = player_total as u32;
    let mut num: u128 = 2 * d5;
    if pt > 17 {
        num = num + 2 * d0;
    } else if pt == 17 {
        num = num + d0;
    }
    if pt > 18 {
        num = num + 2 * d1;
    } else if pt == 18 {
        num = num + d1;
    }
    if pt > 19 {
        num = num + 2 * d2;
    } else if pt == 19 {
        num = num + d2;
    }
    if pt > 20 {
        num = num + 2 * d3;
    } else if pt == 20 {
        num = num + d3;
    }
    if pt > 21 {
        num = num + 2 * d4;
    } else if pt == 21 {
        num = num + d4;
    }
    Prob { num, den: 2 * den_half }
}

/// Per-branch contribution of the first `r` ranks to the hit evaluator:
/// each rank still present is drawn once, the hand is re-scored under the
/// promotion rule, and a non-busting branch stands on its new total.
pub open spec fn hbranch_sum(
    praw: int,
    psoft: bool,
    draw: int,
    dsoft: bool,
    s: Seq<u32>,
    r: int,
) -> int
    decreases r,
{
    if r <= 0 || r > 13 || s.len() != 13 {
        0
    } else {
        let prev = hbranch_sum(praw, psoft, draw, dsoft, s, r - 1);
        if s[r - 1] == 0 {
            prev
        } else {
            let nraw = next_raw(praw, r - 1);
            let nsoft = next_soft(psoft, r - 1, nraw);
            let nbest = nraw + if nsoft {
                10int
            } else {
                0int
            };
            if nbest > 21 {
                prev
            } else {
                prev + s[r - 1] * swin_num(
                    nbest,
                    dealer_dist(draw, dsoft, s.update(r - 1, (s[r - 1] - 1) as u32)),
                )
            }
        }
    }
}

/// Hit-EV numerator: take exactly one more card, then stand (a busting
/// draw contributes zero).
pub open spec fn hit_num(praw: int, psoft: bool, draw: int, dsoft: bool, s: Seq<u32>) -> int {
    hbranch_sum(praw, psoft, draw, dsoft, s, 13)
}

/// Hit-EV denominator: the number of cards that can be drawn, times twice
/// the dealer denominator after the draw.
pub open spec fn hit_den(draw: int, dsoft: bool, s: Seq<u32>) -> int {
    2 * total_cards(s) * fall(total_cards(s) - 1, dsteps(draw, dsoft))
}

proof fn lemma_hbranch_bounds(praw: int, psoft: bool, draw: int, dsoft: bool, s: Seq<u32>, r: int)
    requires
        s.len() == 13,
        0 <= draw,
        dsoft ==> draw + 10 <= 21,
        total_cards(s) >= 1 + dsteps(draw, dsoft),
        0 <= r <= 13,
    ensures
        0 <= hbranch_sum(praw, psoft, draw, dsoft, s, r) <= sum_first(s, r) * (2 * fall(
            total_cards(s) - 1,
            dsteps(draw, dsoft),
        )),
    decreases r,
{
    let kd = dsteps(draw, dsoft);
    let f2 = 2 * fall(total_cards(s) - 1, kd);
    lemma_fall_pos(total_cards(s) - 1, kd);
    if r <= 0 {
        assert(sum_first(s, 0) * f2 == 0) by (nonlinear_arith);
    } else {
        lemma_hbranch_bounds(praw, psoft, draw, dsoft, s, r - 1);
        lemma_sum_first_nonneg(s, r - 1);
        let c = s[r - 1] as int;
        if c > 0 {
            let nraw = next_raw(praw, r - 1);
            let nsoft = next_soft(psoft, r - 1, nraw);
            let nbest = nraw + if nsoft {
                10int
            } else {
                0int
            };
            if nbest <= 21 {
                let s2 = s.update(r - 1, (s[r - 1] - 1) as u32);
                lemma_sum_first_update(s, 13, r - 1, (s[r - 1] - 1) as u32);
                lemma_dealer_dist_ok(draw, dsoft, s2);
                let d = dealer_dist(draw, dsoft, s2);
                lemma_swin_bounds(nbest, d);
                assert(0 <= c * swin_num(nbest, d) <= c * f2) by (nonlinear_arith)
                    requires
                        0 <= swin_num(nbest, d) <= f2,
                        0 < c,
                ;
            }
        }
        assert(sum_first(s, r - 1) * f2 + c * f2 == (sum_first(s, r - 1) + c) * f2)
            by (nonlinear_arith);
    }
}

/// A cached hit entry is sound when its numerator is exactly the hit
/// evaluator of its player fingerprint against its dealer state.
spec fn hit_entry_ok(ps: PlayerState, draw: u32, dsoft: bool, num: u128) -> bool {
    let praw = ps.total as int - if ps.soft {
        10int
    } else {
        0int
    };
    &&& shoe_wf(ps.deck.0@)
    &&& total_cards(ps.deck.0@) <= SHOE_LIMIT as int
    &&& dsoft ==> draw + 10 <= 21
    &&& total_cards(ps.deck.0@) >= 1 + dsteps(draw as int, dsoft)
    &&& num as int == hit_num(praw, ps.soft, draw as int, dsoft, ps.deck.0@)
}

/// Memo table of the hit evaluator, keyed by the player fingerprint and
/// the dealer state it was evaluated against.
pub struct HitCache {
    entries: Vec<(PlayerState, u32, bool, u128)>,
}

impl HitCache {
    /// Soundness of the memo table: every entry stores exactly the hit
    /// numerator of its fingerprint.
    pub closed spec fn wf(&self) -> bool {
        forall|j: int|
            0 <= j < self.entries@.len() ==> #[trigger] hit_entry_ok(
                self.entries@[j].0,
                self.entries@[j].1,
                self.entries@[j].2,
                self.entries@[j].3,
            )
    }

    /// A fresh, empty memo table.
    pub fn new() -> (c: HitCache)
        ensures
            c.wf(),
    {
        HitCache { entries: Vec::new() }
    }

    fn get(&self, best: u8, psoft: bool, draw: u32, dsoft: bool, deck: &Deck) -> (r: Option<u128>)
        requires
            self.wf(),
            deck@.len() == 13,
        ensures
            match r {
                Some(v) => v as int == hit_num(
                    best as int - if psoft {
                        10int
                    } else {
                        0int
                    },
                    psoft,
                    draw as int,
                    dsoft,
                    deck@,
                ),
                None => true,
            },
    {
        let n = self.entries.len();
        let mut j: usize = 0;
        while j < n
            invariant
                j <= n,
                n == self.entries@.len(),
                self.wf(),
                deck@.len() == 13,
            decreases n - j,
        {
            let e = &self.entries[j];
            proof {
                assert(hit_entry_ok(
                    self.entries@[j as int].0,
                    self.entries@[j as int].1,
                    self.entries@[j as int].2,
                    self.entries@[j as int].3,
                ));
            }
            if e.0.total == best && e.0.soft == psoft && e.1 == draw && e.2 == dsoft
                && decks_equal(&e.0.deck.0, deck) {
                return Some(e.3);
            }
            j += 1;
        }
        None
    }

    fn put(&mut self, ps: PlayerState, draw: u32, dsoft: bool, num: u128)
        requires
            old(self).wf(),
            hit_entry_ok(ps, draw, dsoft, num),
        ensures
            final(self).wf(),
    {
        self.entries.push((ps, draw, dsoft, num));
    }
}

/// Player's probability of winning after taking exactly one more card and
/// then standing: every possible draw is weighted by its probability; a
/// draw that busts the hand contributes zero, any other draw stands on
/// its new total.  An already-busted hand short-circuits to exactly 0.
pub fn hit_win_probability(
    soft_player: bool,
    player: &Hand,
    dealer: &Hand,
    deck: &Deck,
    dealer_cache: &mut DealerCache,
    hit_cache: &mut HitCache,
) -> (r: Prob)
    requires
        deck.wf(),
        total_cards(deck@) <= SHOE_LIMIT as int,
        player@.len() <= 100_000_000,
        dealer@.len() <= 100_000_000,
        soft_player ==> raw_sum(player@) + 10 <= 21,
        1 <= raw_sum(dealer@),
        total_cards(deck@) >= 1 + dsteps(raw_sum(dealer@), is_soft(dealer@)),
        old(dealer_cache).wf(),
        old(hit_cache).wf(),
    ensures
        final(dealer_cache).wf(),
        final(hit_cache).wf(),
        raw_sum(player@) + (if soft_player {
            10int
        } else {
            0int
        }) > 21 ==> r.num == 0 && r.den == 1,
        raw_sum(player@) + (if soft_player {
            10int
        } else {
            0int
        }) <= 21 ==> {
            &&& r.num as int == hit_num(
                raw_sum(player@),
                soft_player,
                raw_sum(dealer@),
                is_soft(dealer@),
                deck@,
            )
            &&& r.den as int == hit_den(raw_sum(dealer@), is_soft(dealer@), deck@)
        },
        r.num <= r.den,
        1 <= r.den,
{
    proof {
        lemma_raw_sum_bounds(player@);
        lemma_raw_sum_bounds(dealer@);
    }
    let praw = player.sum_of_cards();
    let best = if soft_player {
        praw + 10
    } else {
        praw
    };
    if best > 21 {
        return Prob { num: 0, den: 1 };
    }
    let draw = dealer.sum_of_cards();
    let dsoft = dealer.has_ace() && draw + 10 <= 21;
    let ghost s = deck@;
    let n_total = deck.total();
    let kd = dsteps_exec(draw, dsoft);
    proof {
        lemma_sum_first_nonneg(s, 13);
        lemma_fall_limit(n_total as int - 1, kd as nat);
        lemma_fall_limit(n_total as int, kd as nat + 1);
        lemma_fall_pos(n_total as int - 1, kd as nat);
        assert(fall(n_total as int, kd as nat + 1) == n_total * fall(n_total as int - 1, kd as nat));
    }
    let f1 = fall_exec(n_total - 1, kd);
    proof {
        assert(1 <= (n_total as int) * (f1 as int) && 2 * ((n_total as int) * (f1 as int)) == 2 * (
        n_total as int) * (f1 as int)) by (nonlinear_arith)
            requires
                1 <= n_total,
                1 <= f1,
        ;
    }
    let den = 2 * ((n_total as u128) * f1);
    proof {
        assert(den as int == hit_den(draw as int, dsoft, s));
    }
    if let Some(v) = hit_cache.get(best as u8, soft_player, draw, dsoft, deck) {
        proof {
            lemma_hbranch_bounds(praw as int, soft_player, draw as int, dsoft, s, 13);
            assert(sum_first(s, 13) * (2 * fall(total_cards(s) - 1, dsteps(draw as int, dsoft)))
                == den) by (nonlinear_arith)
                requires
                    den == 2 * ((n_total as int) * (f1 as int)),
                    n_total == sum_first(s, 13),
                    f1 == fall(total_cards(s) - 1, dsteps(draw as int, dsoft)),
                    total_cards(s) == sum_first(s, 13),
            ;
        }
        return Prob { num: v, den };
    }
    let mut acc: u128 = 0;
    let mut r: usize = 0;
    while r < 13
        invariant
            r <= 13,
            deck.wf(),
            s == deck@,
            total_cards(s) <= SHOE_LIMIT as int,
            dealer@.len() <= 100_000_000,
            praw == raw_sum(player@),
            soft_player ==> praw + 10 <= 21,
            best == praw + (if soft_player {
                10int
            } else {
                0int
            }),
            best <= 21,
            draw == raw_sum(dealer@),
            1 <= draw,
            dsoft == is_soft(dealer@),
            dsoft ==> draw + 10 <= 21,
            kd == dsteps(draw as int, dsoft),
            kd <= 16,
            n_total == total_cards(s),
            n_total >= 1 + kd,
            f1 == fall(total_cards(s) - 1, kd as nat),
            0 <= f1,
            den == 2 * ((n_total as int) * (f1 as int)),
            den <= u128::MAX,
            dealer_cache.wf(),
            hit_cache.wf(),
            acc as int == hbranch_sum(praw as int, soft_player, draw as int, dsoft, s, r as int),
            acc <= den,
        decreases 13 - r,
    {
        proof {
            lemma_hbranch_bounds(praw as int, soft_player, draw as int, dsoft, s, r as int);
            lemma_sum_first_nonneg(s, r as int);
            lemma_sum_first_nonneg(s, 13);
        }
        let c = deck.count_at(r);
        if c > 0 {
            let rank = rank_of_index(r);
            let nraw = praw + rank.base_value();
            let nsoft = (soft_player || r == 0) && nraw + 10 <= 21;
            let nbest = if nsoft {
                nraw + 10
            } else {
                nraw
            };
            if nbest <= 21 {
                let mut deck2 = deck.clone();
                let _ = deck2.draw_specific(rank);
                proof {
                    assert(deck2@ =~= s.update(r as int, (c - 1) as u32));
                    lemma_sum_first_update(s, 13, r as int, (c - 1) as u32);
                    assert(nsoft == next_soft(soft_player, r as int, nraw as int));
                }
                let w = stand_win_probability(nbest as u8, dealer, &deck2, dealer_cache);
                proof {
                    let kd_n = dsteps(draw as int, dsoft);
                    let f2 = 2 * fall(total_cards(s) - 1, kd_n);
                    lemma_slot_le_sum(s, r as int, 13);
                    assert(w.den as int == f2);
                    assert(sum_first(s, r as int + 1) == sum_first(s, r as int) + c);
                    assert(0 <= (c as int) * (w.num as int) && (c as int) * (w.num as int) <= (
                    c as int) * f2) by (nonlinear_arith)
                        requires
                            0 <= w.num <= f2,
                            0 < c,
                    ;
                    assert(sum_first(s, r as int) * f2 + (c as int) * f2 == (sum_first(s, r as int)
                        + c) * f2) by (nonlinear_arith);
                    assert((sum_first(s, r as int) + c) * f2 <= sum_first(s, 13) * f2)
                        by (nonlinear_arith)
                        requires
                            sum_first(s, r as int) + c <= sum_first(s, 13),
                            0 <= f2,
                    ;
                    assert(sum_first(s, 13) * f2 == den) by (nonlinear_arith)
                        requires
                            den == 2 * ((n_total as int) * (f1 as int)),
                            n_total == sum_first(s, 13),
                            f1 == fall(total_cards(s) - 1, kd_n),
                            f2 == 2 * fall(total_cards(s) - 1, kd_n),
                    ;
                }
                acc = acc + (c as u128) * w.num;
            }
        }
        r += 1;
    }
    proof {
        lemma_hbranch_bounds(praw as int, soft_player, draw as int, dsoft, s, 13);
        assert(sum_first(s, 13) * (2 * fall(total_cards(s) - 1, dsteps(draw as int, dsoft))) == den)
            by (nonlinear_arith)
            requires
                den == 2 * ((n_total as int) * (f1 as int)),
                n_total == sum_first(s, 13),
                f1 == fall(total_cards(s) - 1, dsteps(draw as int, dsoft)),
                total_cards(s) == sum_first(s, 13),
        ;
    }
    let ps = PlayerState { total: best as u8, soft: soft_player, deck: DeckCounts(deck.clone()) };
    hit_cache.put(ps, draw, dsoft, acc);
    Prob { num: acc, den }
}

/// The decision orchestrator: the pair (hit-EV, stand-EV) for the
/// player's hand against the dealer's hand and the remaining shoe.  A
/// hand whose total is exactly 21 short-circuits to exactly (0, 1); no
/// decision is taken here — the caller compares the two values.
pub fn decide(
    player: &Hand,
    dealer: &Hand,
    deck: &Deck,
    dealer_cache: &mut DealerCache,
    hit_cache: &mut HitCache,
) -> (r: (Prob, Prob))
    requires
        player@.len() <= 100_000_000,
        dealer@.len() <= 100_000_000,
        best_total(player@) != 21 ==> {
            &&& deck.wf()
            &&& total_cards(deck@) <= SHOE_LIMIT as int
            &&& 1 <= raw_sum(dealer@)
            &&& total_cards(deck@) >= 1 + dsteps(raw_sum(dealer@), is_soft(dealer@))
        },
        old(dealer_cache).wf(),
        old(hit_cache).wf(),
    ensures
        final(dealer_cache).wf(),
        final(hit_cache).wf(),
        best_total(player@) == 21 ==> r.0.num == 0 && r.0.den == 1 && r.1.num == 1 && r.1.den
            == 1,
        best_total(player@) != 21 ==> {
            &&& r.1.num as int == swin_num(
                best_total(player@),
                dealer_dist(raw_sum(dealer@), is_soft(dealer@), deck@),
            )
            &&& r.1.den as int == 2 * dealer_den(raw_sum(dealer@), is_soft(dealer@), deck@)
            &&& best_total(player@) > 21 ==> r.0.num == 0 && r.0.den == 1
            &&& best_total(player@) < 21 ==> r.0.num as int == hit_num(
                raw_sum(player@),
                is_soft(player@),
                raw_sum(dealer@),
                is_soft(dealer@),
                deck@,
            ) && r.0.den as int == hit_den(raw_sum(dealer@), is_soft(dealer@), deck@)
        },
        r.0.num <= r.0.den,
        r.1.num <= r.1.den,
        1 <= r.0.den,
        1 <= r.1.den,
{
    proof {
        lemma_raw_sum_bounds(player@);
    }
    let praw = player.sum_of_cards();
    let soft = player.ace_count() > 0 && praw + 10 <= 21;
    let t = if soft {
        praw + 10
    } else {
        praw
    };
    if t == 21 {
        return (Prob { num: 0, den: 1 }, Prob { num: 1, den: 1 });
    }
    let pt = if t > 255 {
        255
    } else {
        t as u8
    };
    let stand_ev = stand_win_probability(pt, dealer, deck, dealer_cache);
    proof {
        // every busted standing total loses to the same outcomes, so the
        // clamp to the fingerprint's width never changes the score
        let dd = dealer_dist(raw_sum(dealer@), is_soft(dealer@), deck@);
        if t > 255 {
            assert(swin_num(255int, dd) == swin_num(t as int, dd));
        }
    }
    let hit_ev = hit_win_probability(soft, player, dealer, deck, dealer_cache, hit_cache);
    (hit_ev, stand_ev)
}

} // verus!
