//! A hand: the ordered sequence of cards visible in front of one player.
//!
//! Everything else about a hand is derived, not stored: its ace count, its
//! raw pip sum, and the soft/hard total where a single ace may count as 11
//! instead of 1 while that keeps the total at 21 or below.

use vstd::prelude::*;

use crate::deck::{rank_value, Rank};

verus! {

/// Raw pip sum of a card sequence, every ace counted as 1.
pub open spec fn raw_sum(cards: Seq<Rank>) -> int
    decreases cards.len(),
{
    if cards.len() == 0 {
        0
    } else {
        raw_sum(cards.drop_last()) + rank_value(cards.last())
    }
}

/// Number of aces in a card sequence.
pub open spec fn aces(cards: Seq<Rank>) -> int
    decreases cards.len(),
{
    if cards.len() == 0 {
        0
    } else {
        aces(cards.drop_last()) + if cards.last() == Rank::Ace {
            1int
        } else {
            0int
        }
    }
}

/// A hand is soft when it holds an ace that can count as 11 without
/// pushing the total past 21.
pub open spec fn is_soft(cards: Seq<Rank>) -> bool {
    aces(cards) > 0 && raw_sum(cards) + 10 <= 21
}

/// The hand's total under the one-ace promotion rule: the raw sum, plus 10
/// when the hand is soft.
pub open spec fn best_total(cards: Seq<Rank>) -> int {
    raw_sum(cards) + if is_soft(cards) {
        10int
    } else {
        0int
    }
}

/// A hand of `n` cards sums to between `n` and `10 n` pips and holds at
/// most `n` aces.
pub proof fn lemma_raw_sum_bounds(cards: Seq<Rank>)
    ensures
        cards.len() <= raw_sum(cards) <= 10 * cards.len(),
        0 <= aces(cards) <= cards.len(),
    decreases cards.len(),
{
    if cards.len() > 0 {
        lemma_raw_sum_bounds(cards.drop_last());
    }
}

/// An ordered sequence of drawn cards.
#[derive(Debug)]
pub struct Hand {
    pub cards: Vec<Rank>,
}

impl View for Hand {
    type V = Seq<Rank>;

    open spec fn view(&self) -> Seq<Rank> {
        self.cards@
    }
}

impl Hand {
    /// An empty hand.
    pub fn new() -> (h: Hand)
        ensures
            h@ == Seq::<Rank>::empty(),
    {
        let h = Hand { cards: Vec::new() };
        assert(h@ =~= Seq::<Rank>::empty());
        h
    }

    /// A hand holding exactly the given cards, in order.
    pub fn with_cards(initial_cards: Vec<Rank>) -> (h: Hand)
        ensures
            h@ == initial_cards@,
    {
        Hand { cards: initial_cards }
    }

    /// Append one drawn card.
    pub fn add_card(&mut self, card: Rank)
        ensures
            final(self)@ == old(self)@.push(card),
    {
        self.cards.push(card);
    }

    /// Number of aces in the hand.
    pub fn ace_count(&self) -> (n: u32)
        requires
            self@.len() <= u32::MAX,
        ensures
            n == aces(self@),
    {
        proof {
            lemma_raw_sum_bounds(self@);
        }
        let mut count: u32 = 0;
        let mut i: usize = 0;
        let len = self.cards.len();
        while i < len
            invariant
                i <= len,
                len == self@.len() <= u32::MAX,
                count == aces(self@.take(i as int)),
                count <= i,
            decreases len - i,
        {
            proof {
                lemma_raw_sum_bounds(self@.take(i as int));
                assert(self@.take(i + 1).drop_last() =~= self@.take(i as int));
            }
            if self.cards[i] == Rank::Ace {
                count += 1;
            }
            i += 1;
        }
        proof {
            assert(self@.take(len as int) =~= self@);
        }
        count
    }

    /// Whether the hand holds at least one ace.
    pub fn has_ace(&self) -> (b: bool)
        requires
            self@.len() <= u32::MAX,
        ensures
            b <==> aces(self@) > 0,
    {
        if self.ace_count() > 0 {
            true
        } else {
            false
        }
    }

    /// Raw pip sum and softness of the hand under the one-ace promotion
    /// rule: the hand is soft exactly when an ace can count as 11 without
    /// pushing the total past 21, and the playing total is then the raw
    /// sum plus 10.
    pub fn raw_and_soft(&self) -> (r: (u32, bool))
        requires
            10 * self@.len() <= u32::MAX,
        ensures
            r.0 == raw_sum(self@),
            r.1 == is_soft(self@),
    {
        let raw = self.sum_of_cards();
        let soft = self.has_ace() && raw <= 11;
        (raw, soft)
    }

    /// Raw pip sum of the hand, every ace counted as 1.
    pub fn sum_of_cards(&self) -> (v: u32)
        requires
            10 * self@.len() <= u32::MAX,
        ensures
            v == raw_sum(self@),
    {
        proof {
            lemma_raw_sum_bounds(self@);
        }
        let mut sum: u32 = 0;
        let mut i: usize = 0;
        let len = self.cards.len();
        while i < len
            invariant
                i <= len,
                len == self@.len(),
                10 * len <= u32::MAX,
                sum == raw_sum(self@.take(i as int)),
                sum <= 10 * i,
            decreases len - i,
        {
            proof {
                lemma_raw_sum_bounds(self@.take(i as int));
                assert(self@.take(i + 1).drop_last() =~= self@.take(i as int));
            }
            sum = sum + self.cards[i].base_value();
            i += 1;
        }
        proof {
            assert(self@.take(len as int) =~= self@);
        }
        sum
    }
}

} // verus!
