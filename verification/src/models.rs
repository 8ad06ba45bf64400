//! Memoization fingerprints and the player's two possible moves.
//!
//! A fingerprint captures everything a recursive result depends on: the
//! running total, the softness flag and the full remaining-shoe
//! composition.  Two fingerprints agree exactly when all of those match.

use vstd::prelude::*;

use crate::deck::Deck;

verus! {

/// The two moves the engine scores.
#[derive(Debug, Clone)]
pub enum Action {
    Hit,
    Stand,
}

/// A shoe composition packaged for use inside a fingerprint.
pub struct DeckCounts(pub Deck);

/// Fingerprint of a dealer state: running raw total, softness flag and the
/// exact remaining shoe.
pub struct DealerState {
    pub(crate) total: u32,
    pub(crate) soft: bool,
    pub(crate) deck: DeckCounts,
}

/// Fingerprint of a player state after the softness adjustment: the
/// adjusted total, the softness flag and the exact remaining shoe.
pub struct PlayerState {
    pub(crate) total: u8,
    pub(crate) soft: bool,
    pub(crate) deck: DeckCounts,
}

/// Whether two shoe compositions hold exactly the same counts.
pub fn decks_equal(a: &Deck, b: &Deck) -> (eq: bool)
    requires
        a@.len() == 13,
        b@.len() == 13,
    ensures
        eq <==> a@ == b@,
{
    let mut i: usize = 0;
    while i < 13
        invariant
            i <= 13,
            a@.len() == 13,
            b@.len() == 13,
            forall|j: int| 0 <= j < i ==> a@[j] == b@[j],
        decreases 13 - i,
    {
        if a.count_at(i) != b.count_at(i) {
            assert(a@[i as int] != b@[i as int]);
            return false;
        }
        i += 1;
    }
    proof {
        assert(a@ =~= b@);
    }
    true
}

} // verus!
