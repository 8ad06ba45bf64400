//! The thirteen card ranks and the shoe of remaining cards.
//!
//! A shoe is a count of remaining cards per rank.  Counts only ever move
//! downward after construction, by drawing a single card or by removing a
//! batch of revealed cards (clamped at zero).

use vstd::prelude::*;

verus! {

/// Largest number of 52-card decks a shoe may be built from; keeps the
/// per-rank counts and the aggregate queries inside `u32`.
pub const MAX_DECKS: u32 = 5_000_000;

/// Largest per-rank count a well-formed shoe may hold (`4 * MAX_DECKS`).
pub const MAX_RANK_COUNT: u32 = 20_000_000;

/// One of the thirteen card faces, independent of suit.
#[derive(Debug, Clone, Copy, PartialEq, Eq, Structural)]
pub enum Rank {
    Ace,
    Two,
    Three,
    Four,
    Five,
    Six,
    Seven,
    Eight,
    Nine,
    Ten,
    Jack,
    Queen,
    King,
}

/// Canonical position of a rank in the fixed rank ordering (Ace first).
pub open spec fn idx_of(r: Rank) -> int {
    match r {
        Rank::Ace => 0,
        Rank::Two => 1,
        Rank::Three => 2,
        Rank::Four => 3,
        Rank::Five => 4,
        Rank::Six => 5,
        Rank::Seven => 6,
        Rank::Eight => 7,
        Rank::Nine => 8,
        Rank::Ten => 9,
        Rank::Jack => 10,
        Rank::Queen => 11,
        Rank::King => 12,
    }
}

/// Base pip value of the rank at position `i`: an ace counts 1 here, the
/// ten-valued ranks count 10.  The soft +10 adjustment belongs to hand
/// scoring, never to the rank itself.
pub open spec fn val_of_idx(i: int) -> int {
    if i == 0 {
        1
    } else if i >= 9 {
        10
    } else {
        i + 1
    }
}

/// Base pip value of a rank.
pub open spec fn rank_value(r: Rank) -> int {
    val_of_idx(idx_of(r))
}

impl Rank {
    /// Base pip value (Ace counts 1, face cards count 10).
    pub fn base_value(&self) -> (v: u32)
        ensures
            v == rank_value(*self),
            1 <= v <= 10,
    {
        match self {
            Rank::Ace => 1,
            Rank::Two => 2,
            Rank::Three => 3,
            Rank::Four => 4,
            Rank::Five => 5,
            Rank::Six => 6,
            Rank::Seven => 7,
            Rank::Eight => 8,
            Rank::Nine => 9,
            Rank::Ten | Rank::Jack | Rank::Queen | Rank::King => 10,
        }
    }
}

/// The rank sitting at position `i` of the fixed ordering.
pub fn rank_of_index(i: usize) -> (r: Rank)
    requires
        i < 13,
    ensures
        idx_of(r) == i,
{
    match i {
        0 => Rank::Ace,
        1 => Rank::Two,
        2 => Rank::Three,
        3 => Rank::Four,
        4 => Rank::Five,
        5 => Rank::Six,
        6 => Rank::Seven,
        7 => Rank::Eight,
        8 => Rank::Nine,
        9 => Rank::Ten,
        10 => Rank::Jack,
        11 => Rank::Queen,
        _ => Rank::King,
    }
}

/// Number of cards among the first `n` rank slots.
pub open spec fn sum_first(s: Seq<u32>, n: int) -> int
    decreases n,
{
    if n <= 0 {
        0
    } else {
        sum_first(s, n - 1) + s[n - 1]
    }
}

/// Total number of cards in a shoe composition.
pub open spec fn total_cards(s: Seq<u32>) -> int {
    sum_first(s, 13)
}

/// Pip value of the first `n` rank slots.
pub open spec fn pip_first(s: Seq<u32>, n: int) -> int
    decreases n,
{
    if n <= 0 {
        0
    } else {
        pip_first(s, n - 1) + s[n - 1] * val_of_idx(n - 1)
    }
}

/// Card counts are never negative, so every partial sum is monotone in the
/// number of slots it covers.
pub proof fn lemma_sum_first_nonneg(s: Seq<u32>, n: int)
    ensures
        0 <= sum_first(s, n),
        forall|m: int| 0 <= m <= n ==> #[trigger] sum_first(s, m) <= sum_first(s, n),
    decreases n,
{
    if n > 0 {
        lemma_sum_first_nonneg(s, n - 1);
    }
}

/// Changing one slot changes the total by exactly the difference.
pub proof fn lemma_sum_first_update(s: Seq<u32>, n: int, r: int, v: u32)
    requires
        0 <= r < n <= s.len(),
    ensures
        sum_first(s.update(r, v), n) == sum_first(s, n) - s[r] + v,
    decreases n,
{
    if r == n - 1 {
        lemma_sum_first_extensional(s.update(r, v), s, n - 1);
    } else {
        lemma_sum_first_update(s, n - 1, r, v);
    }
}

/// No single slot exceeds the total over a range that covers it.
pub proof fn lemma_slot_le_sum(s: Seq<u32>, r: int, n: int)
    requires
        0 <= r < n <= s.len(),
    ensures
        s[r] <= sum_first(s, n),
    decreases n,
{
    if r == n - 1 {
        lemma_sum_first_nonneg(s, n - 1);
    } else {
        lemma_slot_le_sum(s, r, n - 1);
    }
}

/// Partial sums only look at the slots they cover.
pub proof fn lemma_sum_first_extensional(a: Seq<u32>, b: Seq<u32>, n: int)
    requires
        n <= a.len(),
        n <= b.len(),
        forall|i: int| 0 <= i < n ==> a[i] == b[i],
    ensures
        sum_first(a, n) == sum_first(b, n),
    decreases n,
{
    if n > 0 {
        lemma_sum_first_extensional(a, b, n - 1);
    }
}

/// A shoe composition is well formed when it has one slot per rank and no
/// slot exceeds what `MAX_DECKS` decks could supply.
pub open spec fn shoe_wf(s: Seq<u32>) -> bool {
    &&& s.len() == 13
    &&& forall|i: int| 0 <= i < 13 ==> s[i] <= MAX_RANK_COUNT
}

/// Composition after drawing one card of the rank at slot `i`: the slot is
/// decremented when positive and left alone when already empty.
pub open spec fn draw_one(s: Seq<u32>, i: int) -> Seq<u32> {
    if 0 <= i < s.len() && s[i] > 0 {
        s.update(i, (s[i] - 1) as u32)
    } else {
        s
    }
}

/// Composition after removing the revealed cards `dealt`, left to right,
/// each removal clamped at zero.
pub open spec fn remove_prefix(s: Seq<u32>, dealt: Seq<Rank>) -> Seq<u32>
    decreases dealt.len(),
{
    if dealt.len() == 0 {
        s
    } else {
        draw_one(remove_prefix(s, dealt.drop_last()), idx_of(dealt.last()))
    }
}

/// The multiset of cards still waiting to be dealt, tracked as a remaining
/// count per rank in the fixed rank ordering.
pub struct Deck {
    counts: Vec<u32>,
}

impl View for Deck {
    type V = Seq<u32>;

    closed spec fn view(&self) -> Seq<u32> {
        self.counts@
    }
}

impl Deck {
    /// Well-formedness of the shoe: thirteen slots, each within capacity.
    pub open spec fn wf(&self) -> bool {
        shoe_wf(self@)
    }

    /// A fresh shoe of `num_decks` standard 52-card decks: four cards of
    /// every rank per deck.
    pub fn new(num_decks: u32) -> (d: Deck)
        requires
            1 <= num_decks <= MAX_DECKS,
        ensures
            d.wf(),
            d@.len() == 13,
            forall|i: int| 0 <= i < 13 ==> d@[i] == 4 * num_decks,
    {
        let per_rank = 4 * num_decks;
        let mut counts: Vec<u32> = Vec::new();
        let mut i: usize = 0;
        while i < 13
            invariant
                i <= 13,
                counts@.len() == i,
                forall|j: int| 0 <= j < i ==> counts@[j] == 4 * num_decks,
                per_rank == 4 * num_decks,
                num_decks <= MAX_DECKS,
            decreases 13 - i,
        {
            counts.push(per_rank);
            i += 1;
        }
        Deck { counts }
    }

    /// Remaining count of one rank.
    pub fn count(&self, rank: Rank) -> (c: u32)
        requires
            self@.len() == 13,
        ensures
            c == self@[idx_of(rank)],
    {
        let i = self.index_of(rank);
        self.counts[i]
    }

    /// Remaining count of the rank at slot `i`.
    pub fn count_at(&self, i: usize) -> (c: u32)
        requires
            self@.len() == 13,
            i < 13,
        ensures
            c == self@[i as int],
    {
        self.counts[i]
    }

    fn index_of(&self, rank: Rank) -> (i: usize)
        ensures
            i == idx_of(rank),
            i < 13,
    {
        match rank {
            Rank::Ace => 0,
            Rank::Two => 1,
            Rank::Three => 2,
            Rank::Four => 3,
            Rank::Five => 4,
            Rank::Six => 5,
            Rank::Seven => 6,
            Rank::Eight => 7,
            Rank::Nine => 8,
            Rank::Ten => 9,
            Rank::Jack => 10,
            Rank::Queen => 11,
            Rank::King => 12,
        }
    }

    /// Remove one card of `rank` from the shoe.  Succeeds exactly when a
    /// card of that rank remains; a depleted rank is left untouched and so
    /// are all the other counts.
    pub fn draw_specific(&mut self, rank: Rank) -> (ok: bool)
        requires
            old(self)@.len() == 13,
        ensures
            final(self)@ == draw_one(old(self)@, idx_of(rank)),
            ok <==> old(self)@[idx_of(rank)] > 0,
            old(self)@[idx_of(rank)] == 0 ==> final(self)@ == old(self)@,
            old(self).wf() ==> final(self).wf(),
    {
        let i = self.index_of(rank);
        let c = self.counts[i];
        if c > 0 {
            self.counts[i] = c - 1;
            assert(self@ =~= draw_one(old(self)@, idx_of(rank)));
            true
        } else {
            assert(self@ =~= draw_one(old(self)@, idx_of(rank)));
            false
        }
    }

    /// Remove a batch of revealed cards, one by one in order; every removal
    /// of an already-depleted rank is a no-op rather than going negative.
    pub fn remove_dealt(&mut self, dealt: &[Rank])
        requires
            old(self)@.len() == 13,
        ensures
            final(self)@ == remove_prefix(old(self)@, dealt@),
            old(self).wf() ==> final(self).wf(),
    {
        let n = dealt.len();
        let mut k: usize = 0;
        while k < n
            invariant
                k <= n,
                n == dealt@.len(),
                self@ == remove_prefix(old(self)@, dealt@.take(k as int)),
                self@.len() == 13,
                old(self).wf() ==> self.wf(),
            decreases n - k,
        {
            let r = dealt[k];
            let _ = self.draw_specific(r);
            proof {
                assert(dealt@.take(k + 1).drop_last() =~= dealt@.take(k as int));
                assert(dealt@.take(k + 1).last() == dealt@[k as int]);
            }
            k += 1;
        }
        proof {
            assert(dealt@.take(n as int) =~= dealt@);
        }
    }

    /// Sum of the pip values of every card left in the shoe.
    pub fn sum(&self) -> (v: u32)
        requires
            self.wf(),
        ensures
            v == pip_first(self@, 13),
    {
        let mut acc: u32 = 0;
        let mut i: usize = 0;
        while i < 13
            invariant
                i <= 13,
                self.wf(),
                acc == pip_first(self@, i as int),
                acc as int <= (i as int) * 200_000_000int,
            decreases 13 - i,
        {
            let r = rank_of_index(i);
            let c = self.counts[i];
            let v = r.base_value();
            proof {
                assert(c * v <= 200_000_000) by (nonlinear_arith)
                    requires
                        c <= MAX_RANK_COUNT,
                        v <= 10,
                        0 <= c,
                        0 <= v,
                ;
            }
            acc = acc + c * v;
            i += 1;
        }
        acc
    }

    /// Number of cards left in the shoe.
    pub fn total(&self) -> (n: u32)
        requires
            self.wf(),
        ensures
            n == total_cards(self@),
    {
        let mut acc: u32 = 0;
        let mut i: usize = 0;
        while i < 13
            invariant
                i <= 13,
                self.wf(),
                acc == sum_first(self@, i as int),
                acc <= i * MAX_RANK_COUNT,
            decreases 13 - i,
        {
            acc = acc + self.counts[i];
            i += 1;
        }
        acc
    }
}

impl Clone for Deck {
    /// An exact copy of the shoe; recursive exploration gives every branch
    /// its own copy so that sibling branches never interfere.
    fn clone(&self) -> (d: Self)
        ensures
            d@ == self@,
    {
        let mut counts: Vec<u32> = Vec::new();
        let mut i: usize = 0;
        let n = self.counts.len();
        while i < n
            invariant
                i <= n,
                n == self@.len(),
                counts@.len() == i,
                forall|j: int| 0 <= j < i ==> counts@[j] == self@[j],
            decreases n - i,
        {
            counts.push(self.counts[i]);
            i += 1;
        }
        let d = Deck { counts };
        assert(d@ =~= self@);
        d
    }
}

} // verus!
