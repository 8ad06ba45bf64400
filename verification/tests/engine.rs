use blackjack_ev::deck::{Deck, Rank};
use blackjack_ev::hand::Hand;
use blackjack_ev::probs::{
    dealer_bust_probability, dealer_final_probs, decide, hit_win_probability,
    stand_win_probability, DealerCache, HitCache,
};

fn one_deck_without(seen: &[Rank]) -> Deck {
    let mut deck = Deck::new(1);
    deck.remove_dealt(seen);
    deck
}

fn as_f64(num: u128, den: u128) -> f64 {
    num as f64 / den as f64
}

#[test]
fn draw_ace_reduces_count() {
    let mut deck = Deck::new(1);

    let mut counts: Vec<u32> = Vec::new();
    for i in 0..13 {
        counts.push(deck.count_at(i));
    }
    println!("{:?}", counts);
    let mut dealer_cache = DealerCache::new();
    let mut hit_cache = HitCache::new();

    let user_hand = Hand::with_cards(vec![Rank::Eight, Rank::Ace]);
    let dealer_hand = Hand::with_cards(vec![Rank::Seven, Rank::Ten]);
    let decide = decide(
        &user_hand,
        &dealer_hand,
        &deck,
        &mut dealer_cache,
        &mut hit_cache,
    );
    println!("{:?}", decide);
    let drew = deck.draw_specific(Rank::Ace);
    assert!(drew);
    assert_eq!(deck.count(Rank::Ace), 3);
}

#[test]
fn base_values_are_exact() {
    assert_eq!(Rank::Ace.base_value(), 1);
    assert_eq!(Rank::Two.base_value(), 2);
    assert_eq!(Rank::Three.base_value(), 3);
    assert_eq!(Rank::Four.base_value(), 4);
    assert_eq!(Rank::Five.base_value(), 5);
    assert_eq!(Rank::Six.base_value(), 6);
    assert_eq!(Rank::Seven.base_value(), 7);
    assert_eq!(Rank::Eight.base_value(), 8);
    assert_eq!(Rank::Nine.base_value(), 9);
    assert_eq!(Rank::Ten.base_value(), 10);
    assert_eq!(Rank::Jack.base_value(), 10);
    assert_eq!(Rank::Queen.base_value(), 10);
    assert_eq!(Rank::King.base_value(), 10);
}

#[test]
fn fresh_shoe_aggregates() {
    let deck = Deck::new(1);
    assert_eq!(deck.total(), 52);
    // (1 + 2 + ... + 9 + 4 * 10) * 4 cards of each rank
    assert_eq!(deck.sum(), 340);
    let two_decks = Deck::new(2);
    assert_eq!(two_decks.total(), 104);
    assert_eq!(two_decks.count(Rank::King), 8);
}

#[test]
fn depleted_rank_never_draws_and_never_touches_others() {
    let mut deck = Deck::new(1);
    for _ in 0..4 {
        assert!(deck.draw_specific(Rank::Ace));
    }
    assert_eq!(deck.count(Rank::Ace), 0);
    let before: Vec<u32> = (0..13).map(|i| deck.count_at(i)).collect();
    assert!(!deck.draw_specific(Rank::Ace));
    let after: Vec<u32> = (0..13).map(|i| deck.count_at(i)).collect();
    assert_eq!(before, after);
    assert_eq!(deck.total(), 48);
}

#[test]
fn remove_dealt_clamps_at_zero() {
    let mut deck = Deck::new(1);
    deck.remove_dealt(&[Rank::Five, Rank::Five, Rank::Five, Rank::Five, Rank::Five]);
    assert_eq!(deck.count(Rank::Five), 0);
    assert_eq!(deck.count(Rank::Four), 4);
    assert_eq!(deck.total(), 48);
}

#[test]
fn hand_queries() {
    let mut hand = Hand::new();
    assert_eq!(hand.sum_of_cards(), 0);
    hand.add_card(Rank::Eight);
    hand.add_card(Rank::Ace);
    assert_eq!(hand.sum_of_cards(), 9);
    assert_eq!(hand.ace_count(), 1);
    assert!(hand.has_ace());
    let hard = Hand::with_cards(vec![Rank::Ten, Rank::King]);
    assert_eq!(hard.sum_of_cards(), 20);
    assert_eq!(hard.ace_count(), 0);
    assert!(!hard.has_ace());
}

#[test]
fn dealer_distribution_sums_to_one_exactly() {
    let deck = one_deck_without(&[Rank::Seven]);
    let dealer = Hand::with_cards(vec![Rank::Seven]);
    let mut cache = DealerCache::new();
    let dist = dealer_final_probs(false, &dealer, &deck, &mut cache);
    assert_eq!(dist.num.len(), 6);
    let total: u128 = dist.num.iter().sum();
    assert_eq!(total, dist.den);
    assert!(dist.den >= 1);
    let sum_f: f64 = dist.num.iter().map(|&n| as_f64(n, dist.den)).sum();
    assert!((sum_f - 1.0).abs() < 1e-9);
}

#[test]
fn dealer_standing_total_is_degenerate() {
    let deck = one_deck_without(&[Rank::Ten, Rank::Seven]);
    let dealer = Hand::with_cards(vec![Rank::Ten, Rank::Seven]);
    let mut cache = DealerCache::new();
    let dist = dealer_final_probs(false, &dealer, &deck, &mut cache);
    assert_eq!(dist.den, 1);
    assert_eq!(dist.num, vec![1, 0, 0, 0, 0, 0]);
}

#[test]
fn bust_probability_is_the_sixth_slot() {
    let deck = one_deck_without(&[Rank::Six]);
    let dealer = Hand::with_cards(vec![Rank::Six]);
    let mut cache = DealerCache::new();
    let dist = dealer_final_probs(false, &dealer, &deck, &mut cache);
    let mut cache2 = DealerCache::new();
    let bust = dealer_bust_probability(false, &dealer, &deck, &mut cache2);
    assert_eq!(bust.num, dist.num[5]);
    assert_eq!(bust.den, dist.den);
    assert!(bust.num <= bust.den);
}

#[test]
fn memoized_recomputation_is_bit_identical() {
    let deck = one_deck_without(&[Rank::Nine]);
    let dealer = Hand::with_cards(vec![Rank::Nine]);
    let mut cache = DealerCache::new();
    let first = dealer_final_probs(false, &dealer, &deck, &mut cache);
    // same fingerprint, same cache: the second call is answered by the
    // memo table and must be bit-identical
    let second = dealer_final_probs(false, &dealer, &deck, &mut cache);
    assert_eq!(first.num, second.num);
    assert_eq!(first.den, second.den);
    // and a fresh cache recomputes the very same values
    let mut fresh = DealerCache::new();
    let third = dealer_final_probs(false, &dealer, &deck, &mut fresh);
    assert_eq!(first.num, third.num);
    assert_eq!(first.den, third.den);
}

#[test]
fn stand_ev_is_monotone_in_player_total() {
    let deck = one_deck_without(&[Rank::Six]);
    let dealer = Hand::with_cards(vec![Rank::Six]);
    let mut cache = DealerCache::new();
    let mut prev: Option<(u128, u128)> = None;
    for total in 17u8..=21u8 {
        let p = stand_win_probability(total, &dealer, &deck, &mut cache);
        assert!(p.num <= p.den);
        if let Some((pn, pd)) = prev {
            assert_eq!(pd, p.den);
            assert!(pn <= p.num);
        }
        prev = Some((p.num, p.den));
    }
}

#[test]
fn twenty_one_decides_stand_exactly() {
    // player total 21: (hit, stand) is exactly (0, 1) whatever the shoe
    let mut dealer_cache = DealerCache::new();
    let mut hit_cache = HitCache::new();
    let player = Hand::with_cards(vec![Rank::Ten, Rank::Ace]);
    let dealer = Hand::with_cards(vec![Rank::Four]);
    let full = Deck::new(1);
    let (hit, stand) = decide(&player, &dealer, &full, &mut dealer_cache, &mut hit_cache);
    assert_eq!((hit.num, hit.den), (0, 1));
    assert_eq!((stand.num, stand.den), (1, 1));

    let mut nearly_empty = Deck::new(1);
    for _ in 0..4 {
        for i in 0..13 {
            if nearly_empty.total() > 3 {
                let ranks = [
                    Rank::Ace,
                    Rank::Two,
                    Rank::Three,
                    Rank::Four,
                    Rank::Five,
                    Rank::Six,
                    Rank::Seven,
                    Rank::Eight,
                    Rank::Nine,
                    Rank::Ten,
                    Rank::Jack,
                    Rank::Queen,
                    Rank::King,
                ];
                nearly_empty.draw_specific(ranks[i]);
            }
        }
    }
    let (hit2, stand2) = decide(
        &player,
        &dealer,
        &nearly_empty,
        &mut dealer_cache,
        &mut hit_cache,
    );
    assert_eq!((hit2.num, hit2.den), (0, 1));
    assert_eq!((stand2.num, stand2.den), (1, 1));
}

#[test]
fn soft_nineteen_against_seven_terminates_in_range() {
    // one standard shoe, player [Eight, Ace] (soft 19), dealer up-card 7
    let deck = one_deck_without(&[Rank::Eight, Rank::Ace, Rank::Seven]);
    let player = Hand::with_cards(vec![Rank::Eight, Rank::Ace]);
    let dealer = Hand::with_cards(vec![Rank::Seven]);
    let mut dealer_cache = DealerCache::new();
    let mut hit_cache = HitCache::new();
    let (hit, stand) = decide(&player, &dealer, &deck, &mut dealer_cache, &mut hit_cache);
    assert!(hit.den >= 1 && stand.den >= 1);
    assert!(hit.num <= hit.den);
    assert!(stand.num <= stand.den);
    let hit_f = as_f64(hit.num, hit.den);
    let stand_f = as_f64(stand.num, stand.den);
    assert!((0.0..=1.0).contains(&hit_f));
    assert!((0.0..=1.0).contains(&stand_f));
}

#[test]
fn hard_twenty_against_ten() {
    // player [King, King] (hard 20), dealer up-card 10, shoe without them
    let deck = one_deck_without(&[Rank::King, Rank::King, Rank::Ten]);
    let player = Hand::with_cards(vec![Rank::King, Rank::King]);
    let dealer = Hand::with_cards(vec![Rank::Ten]);
    let mut dealer_cache = DealerCache::new();
    let mut hit_cache = HitCache::new();
    let (hit, stand) = decide(&player, &dealer, &deck, &mut dealer_cache, &mut hit_cache);
    let stand_f = as_f64(stand.num, stand.den);
    let hit_f = as_f64(hit.num, hit.den);
    // the dealer needs several favorable draws to reach 20 or better
    assert!(stand_f > 0.5);
    assert!((0.0..=1.0).contains(&hit_f));
    assert!(hit.num <= hit.den);
}

#[test]
fn hit_on_busted_hand_is_zero() {
    let deck = one_deck_without(&[Rank::King, Rank::Queen, Rank::Five, Rank::Ten]);
    let player = Hand::with_cards(vec![Rank::King, Rank::Queen, Rank::Five]);
    let dealer = Hand::with_cards(vec![Rank::Ten]);
    let mut dealer_cache = DealerCache::new();
    let mut hit_cache = HitCache::new();
    let p = hit_win_probability(
        false,
        &player,
        &dealer,
        &deck,
        &mut dealer_cache,
        &mut hit_cache,
    );
    assert_eq!((p.num, p.den), (0, 1));
}

#[test]
fn stand_against_standing_dealer_exact_values() {
    // dealer holds a hard 17 and never draws: 18 wins outright, 17 pushes
    let deck = one_deck_without(&[Rank::Ten, Rank::Seven]);
    let dealer = Hand::with_cards(vec![Rank::Ten, Rank::Seven]);
    let mut cache = DealerCache::new();
    let win = stand_win_probability(18, &dealer, &deck, &mut cache);
    assert_eq!(win.num, win.den);
    let push = stand_win_probability(17, &dealer, &deck, &mut cache);
    assert_eq!((push.num, push.den), (1, 2));
    let lose = stand_win_probability(16, &dealer, &deck, &mut cache);
    assert_eq!(lose.num, 0);
}

fn two_card_shoe(a: Rank, b: Rank) -> Deck {
    let all = [
        Rank::Ace,
        Rank::Two,
        Rank::Three,
        Rank::Four,
        Rank::Five,
        Rank::Six,
        Rank::Seven,
        Rank::Eight,
        Rank::Nine,
        Rank::Ten,
        Rank::Jack,
        Rank::Queen,
        Rank::King,
    ];
    // counts only ever move downward, so start from a fresh shoe and
    // remove everything but the two wanted cards
    let mut fresh = Deck::new(1);
    for &r in all.iter() {
        let keep = (r == a) as u32 + (r == b) as u32;
        for _ in 0..(4 - keep) {
            fresh.draw_specific(r);
        }
    }
    if a == b {
        fresh.draw_specific(a);
        fresh.draw_specific(a);
    }
    assert_eq!(fresh.total(), 2);
    fresh
}

#[test]
fn dealer_one_draw_exact_distribution() {
    // dealer 15 drawing from a shoe of exactly {Two, Ten}: half the time
    // the Two lands on 17, half the time the Ten busts the hand
    let deck = two_card_shoe(Rank::Two, Rank::Ten);
    let dealer = Hand::with_cards(vec![Rank::Ten, Rank::Five]);
    let mut cache = DealerCache::new();
    let dist = dealer_final_probs(false, &dealer, &deck, &mut cache);
    assert_eq!(dist.den, 2);
    assert_eq!(dist.num, vec![1, 0, 0, 0, 0, 1]);
}

#[test]
fn hit_one_draw_exact_value() {
    // player 15 against a standing dealer 17, shoe of exactly {Two, Ten}:
    // drawing the Two reaches 17 and pushes (1/2 win), drawing the Ten
    // busts; the hit value is exactly 1/4
    let deck = two_card_shoe(Rank::Two, Rank::Ten);
    let player = Hand::with_cards(vec![Rank::Ten, Rank::Five]);
    let dealer = Hand::with_cards(vec![Rank::Ten, Rank::Seven]);
    let mut dealer_cache = DealerCache::new();
    let mut hit_cache = HitCache::new();
    let p = hit_win_probability(
        false,
        &player,
        &dealer,
        &deck,
        &mut dealer_cache,
        &mut hit_cache,
    );
    assert_eq!((p.num, p.den), (1, 4));
}
