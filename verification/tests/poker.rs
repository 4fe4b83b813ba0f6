use std::cmp::Ordering;

use poker::card::{Card, Rank, Suit};
use poker::deck::Deck;
use poker::game::{Game, Player};
use poker::hand::{best_hand, classify, Hand};
use poker::utils::{choices, combinations, pick, sample, shuffle};
use poker::EvalError;

fn card(text: &str) -> Card {
    Card::parse(text).unwrap()
}

fn hand(text: &str) -> Hand {
    Hand::parse(text).unwrap()
}

#[test]
fn rank_new_accepts_two_through_fourteen() {
    assert!(Rank::new(1).is_none());
    assert!(Rank::new(15).is_none());
    for v in 2..=14u8 {
        assert_eq!(Rank::new(v).unwrap().value(), v);
    }
}

#[test]
fn card_parse_and_accessors() {
    let c = card("AS");
    assert_eq!(c.value(), 14);
    assert_eq!(c.suit(), Suit::S);
    assert_eq!(c.rank(), Rank::new(14).unwrap());
    assert_eq!(card("TD").value(), 10);
    assert_eq!(card("2C").value(), 2);
}

#[test]
fn card_parse_rejects_malformed_text() {
    for bad in ["", "A", "ASX", "1S", "AX", "XS", "as", "0D", " S"] {
        assert_eq!(Card::parse(bad).unwrap_err(), EvalError::InvalidCardFormat);
    }
}

#[test]
fn card_round_trip_every_valid_card() {
    for r in ['2', '3', '4', '5', '6', '7', '8', '9', 'T', 'J', 'Q', 'K', 'A'] {
        for s in ['S', 'H', 'C', 'D'] {
            let text: String = [r, s].iter().collect();
            let c = Card::parse(&text).unwrap();
            assert_eq!(c.to_text(), text);
            assert_eq!(Card::parse(&c.to_text()).unwrap(), c);
        }
    }
}

#[test]
fn card_compare_ignores_suit() {
    assert_eq!(Card::compare(&card("AS"), &card("AH")), Ordering::Equal);
    assert_eq!(Card::compare(&card("2S"), &card("3S")), Ordering::Less);
    assert_eq!(Card::compare(&card("KD"), &card("QD")), Ordering::Greater);
}

#[test]
fn hand_parse_sorts_ascending() {
    let h = hand("AS, KH, QD, JC, TS");
    assert_eq!(h.to_text(), "TS, JC, QD, KH, AS");
    assert_eq!(h.high_card().value(), 14);
}

#[test]
fn hand_parse_rejects_malformed_text() {
    for bad in ["", "AS", "AS, KH, QD, JC", "AS, KH, QD, JC, T", "AS, KH, QD, JC, TS, 9D",
        "AS,KH,QD,JC,TS", "AS, KH, QD, JC, XX"] {
        assert_eq!(Hand::parse(bad).unwrap_err(), EvalError::InvalidCardFormat);
    }
}

#[test]
fn category_scores_for_each_class() {
    assert_eq!(hand("AS, KS, QS, JS, TS").score(), 9);
    assert_eq!(hand("9C, 9D, 9H, 9S, 2C").score(), 8);
    assert_eq!(hand("3C, 3D, 3H, 6C, 6D").score(), 7);
    assert_eq!(hand("2H, 7H, 9H, JH, KH").score(), 6);
    assert_eq!(hand("5C, 6D, 7H, 8S, 9C").score(), 5);
    assert_eq!(hand("4C, 4D, 4H, 9S, KC").score(), 4);
    assert_eq!(hand("8C, 8D, 5H, 5S, QC").score(), 3);
    assert_eq!(hand("JC, JD, 4H, 8S, QC").score(), 2);
    assert_eq!(hand("2C, 5D, 7H, 9S, QC").score(), 1);
}

#[test]
fn classifier_predicates() {
    let full = hand("3C, 3D, 3H, 6C, 6D");
    assert!(full.has_pair());
    assert!(full.has_three_kind());
    assert!(full.is_full_house());
    assert!(!full.has_two_pair());
    assert!(!full.is_flush());
    assert!(!full.is_straight());
    assert!(!full.is_four_kind());
    assert!(!full.is_straight_flush());

    let two_pair = hand("8C, 8D, 5H, 5S, QC");
    assert!(two_pair.has_two_pair());
    assert!(two_pair.has_pair());
    assert!(!two_pair.has_three_kind());

    let royal = hand("AS, KS, QS, JS, TS");
    assert!(royal.is_straight());
    assert!(royal.is_flush());
    assert!(royal.is_straight_flush());
}

#[test]
fn category_stable_and_order_independent() {
    let orders = ["3C, 6D, 3H, 3D, 6C", "6C, 6D, 3C, 3D, 3H", "3H, 3D, 3C, 6D, 6C"];
    for text in orders {
        let h = hand(text);
        assert_eq!(h.score(), 7);
        assert_eq!(h.score(), 7);
    }
}

#[test]
fn low_ace_straight_classifies_and_loses_to_six_high() {
    let wheel = hand("AS, 2H, 3C, 4D, 5S");
    assert_eq!(wheel.score(), 5);
    let six_high = hand("2S, 3H, 4C, 5D, 6S");
    assert_eq!(Hand::compare(&wheel, &six_high), Ordering::Less);
    assert_eq!(Hand::compare(&six_high, &wheel), Ordering::Greater);
}

#[test]
fn steel_wheel_loses_to_royal_flush() {
    let steel_wheel = hand("AS, 2S, 3S, 4S, 5S");
    assert_eq!(steel_wheel.score(), 9);
    let royal = hand("AH, KH, QH, JH, TH");
    assert_eq!(Hand::compare(&steel_wheel, &royal), Ordering::Less);
}

#[test]
fn almost_straights_are_not_straights() {
    assert_eq!(hand("2S, 3H, 4C, 5D, 7S").score(), 1);
    // a pair inside a near-run must not read as a straight
    assert_eq!(hand("3S, 4H, 5C, AD, AS").score(), 2);
}

#[test]
fn two_pair_kicker_precision() {
    let aces_kings = hand("AS, AH, KS, KH, 2C");
    let aces_queens = hand("AS, AH, QS, QH, KC");
    assert_eq!(Hand::compare(&aces_kings, &aces_queens), Ordering::Greater);
    assert_eq!(Hand::compare(&aces_queens, &aces_kings), Ordering::Less);
}

#[test]
fn tie_breaks_within_each_category() {
    // straight: higher top card wins
    assert_eq!(
        Hand::compare(&hand("5C, 6D, 7H, 8S, 9C"), &hand("6C, 7D, 8H, 9S, TC")),
        Ordering::Less
    );
    // four of a kind: quad rank, then kicker
    assert_eq!(
        Hand::compare(&hand("9C, 9D, 9H, 9S, 2C"), &hand("8C, 8D, 8H, 8S, AC")),
        Ordering::Greater
    );
    assert_eq!(
        Hand::compare(&hand("9C, 9D, 9H, 9S, 2C"), &hand("9C, 9D, 9H, 9S, 3C")),
        Ordering::Less
    );
    // full house: triple rank first, then the pair
    assert_eq!(
        Hand::compare(&hand("3C, 3D, 3H, 6C, 6D"), &hand("4C, 4D, 4H, 2C, 2D")),
        Ordering::Less
    );
    assert_eq!(
        Hand::compare(&hand("4C, 4D, 4H, 6C, 6D"), &hand("4C, 4D, 4H, 5C, 5D")),
        Ordering::Greater
    );
    // flush: highest differing card decides
    assert_eq!(
        Hand::compare(&hand("2H, 7H, 9H, JH, KH"), &hand("3S, 7S, 9S, JS, KS")),
        Ordering::Less
    );
    // three of a kind: kickers highest first
    assert_eq!(
        Hand::compare(&hand("4C, 4D, 4H, 9S, KC"), &hand("4C, 4D, 4H, TS, KD")),
        Ordering::Less
    );
    // one pair: kickers highest to lowest
    assert_eq!(
        Hand::compare(&hand("JC, JD, 4H, 8S, QC"), &hand("JC, JD, 4H, 9S, QD")),
        Ordering::Less
    );
    // high card: first difference from the top decides
    assert_eq!(
        Hand::compare(&hand("2C, 5D, 7H, 9S, QC"), &hand("3C, 5D, 7H, 9S, QD")),
        Ordering::Less
    );
}

#[test]
fn identical_hands_tie_both_ways() {
    let a = hand("AS, AH, KS, KH, 2C");
    let b = hand("AS, AH, KS, KH, 2C");
    assert_eq!(Hand::compare(&a, &b), Ordering::Equal);
    assert_eq!(Hand::compare(&b, &a), Ordering::Equal);
    assert_eq!(Hand::compare(&a, &a), Ordering::Equal);
}

#[test]
fn compare_is_a_total_order_on_samples() {
    let samples = [
        hand("AS, KS, QS, JS, TS"),
        hand("9C, 9D, 9H, 9S, 2C"),
        hand("3C, 3D, 3H, 6C, 6D"),
        hand("2H, 7H, 9H, JH, KH"),
        hand("5C, 6D, 7H, 8S, 9C"),
        hand("AS, 2H, 3C, 4D, 5S"),
        hand("4C, 4D, 4H, 9S, KC"),
        hand("8C, 8D, 5H, 5S, QC"),
        hand("JC, JD, 4H, 8S, QC"),
        hand("2C, 5D, 7H, 9S, QC"),
        hand("2D, 5C, 7S, 9H, QD"),
    ];
    for a in &samples {
        assert_eq!(Hand::compare(a, a), Ordering::Equal);
        for b in &samples {
            let ab = Hand::compare(a, b);
            let ba = Hand::compare(b, a);
            // antisymmetry: the two directions always report opposite outcomes
            match ab {
                Ordering::Less => assert_eq!(ba, Ordering::Greater),
                Ordering::Equal => assert_eq!(ba, Ordering::Equal),
                Ordering::Greater => assert_eq!(ba, Ordering::Less),
            }
            for c in &samples {
                // transitivity
                if Hand::compare(a, b) != Ordering::Greater
                    && Hand::compare(b, c) != Ordering::Greater
                {
                    assert_ne!(Hand::compare(a, c), Ordering::Greater);
                }
            }
        }
    }
}

#[test]
fn category_monotonicity_pairwise() {
    let by_category = [
        hand("2C, 5D, 7H, 9S, QC"),
        hand("JC, JD, 4H, 8S, QC"),
        hand("8C, 8D, 5H, 5S, QC"),
        hand("4C, 4D, 4H, 9S, KC"),
        hand("AS, 2H, 3C, 4D, 5S"),
        hand("2H, 7H, 9H, JH, KH"),
        hand("3C, 3D, 3H, 6C, 6D"),
        hand("9C, 9D, 9H, 9S, 2C"),
        hand("AS, 2S, 3S, 4S, 5S"),
    ];
    for (i, weaker) in by_category.iter().enumerate() {
        assert_eq!(weaker.score() as usize, i + 1);
        for stronger in &by_category[i + 1..] {
            assert_eq!(Hand::compare(stronger, weaker), Ordering::Greater);
            assert_eq!(Hand::compare(weaker, stronger), Ordering::Less);
        }
    }
}

#[test]
fn classify_checks_hand_size() {
    let four = vec![card("AS"), card("KS"), card("QS"), card("JS")];
    assert_eq!(classify(&four).unwrap_err(), EvalError::InvalidHandSize);
    let five = vec![card("AS"), card("KS"), card("QS"), card("JS"), card("TS")];
    assert_eq!(classify(&five).unwrap().score(), 9);
}

#[test]
fn best_hand_picks_the_royal_flush() {
    let seven = vec![
        card("AS"),
        card("KS"),
        card("QS"),
        card("JS"),
        card("TS"),
        card("2H"),
        card("3D"),
    ];
    let best = best_hand(&seven).unwrap();
    assert_eq!(best.score(), 9);
    assert_eq!(best.to_text(), "TS, JS, QS, KS, AS");
}

#[test]
fn best_hand_needs_five_candidates() {
    let four = vec![card("AS"), card("KS"), card("QS"), card("JS")];
    assert_eq!(best_hand(&four).unwrap_err(), EvalError::InsufficientCandidates);
}

#[test]
fn best_hand_finds_pair_across_hole_and_board() {
    let seven = vec![
        card("9C"),
        card("2D"),
        card("9H"),
        card("5S"),
        card("KC"),
        card("9D"),
        card("9S"),
    ];
    assert_eq!(best_hand(&seven).unwrap().score(), 8);
}

#[test]
fn combinations_enumerates_in_order() {
    let r = combinations(&vec![1, 2, 3], 2).unwrap();
    assert_eq!(r, vec![vec![1, 2], vec![1, 3], vec![2, 3]]);
    let all = combinations(&vec![1, 2, 3, 4], 4).unwrap();
    assert_eq!(all, vec![vec![1, 2, 3, 4]]);
    let none = combinations(&vec![1, 2, 3], 0).unwrap();
    assert_eq!(none, vec![Vec::<i32>::new()]);
    let seven = combinations(&vec![1, 2, 3, 4, 5, 6, 7], 5).unwrap();
    assert_eq!(seven.len(), 21);
}

#[test]
fn combinations_rejects_oversized_k() {
    assert_eq!(
        combinations(&vec![1, 2, 3, 4], 5).unwrap_err(),
        EvalError::InvalidCombinationSize
    );
}

#[test]
fn deck_new_holds_the_standard_fifty_two() {
    let deck = Deck::new();
    assert_eq!(deck.len(), 52);
    let cards = deck.cards();
    assert_eq!(cards[0].to_text(), "2S");
    assert_eq!(cards[12].to_text(), "AS");
    assert_eq!(cards[13].to_text(), "2H");
    assert_eq!(cards[51].to_text(), "AD");
    let mut texts: Vec<String> = cards.iter().map(|c| c.to_text()).collect();
    texts.sort();
    texts.dedup();
    assert_eq!(texts.len(), 52);
}

#[test]
fn deck_shuffle_keeps_the_same_cards() {
    let deck = Deck::new();
    let shuffled = deck.shuffled();
    assert_eq!(shuffled.len(), 52);
    let mut before: Vec<String> = deck.cards().iter().map(|c| c.to_text()).collect();
    let mut after: Vec<String> = shuffled.cards().iter().map(|c| c.to_text()).collect();
    before.sort();
    after.sort();
    assert_eq!(before, after);
}

#[test]
fn shuffle_keeps_the_multiset() {
    let input: Vec<u32> = (0..100).collect();
    let mut output = shuffle(&input);
    assert_eq!(output.len(), 100);
    output.sort();
    assert_eq!(output, input);
}

#[test]
fn deck_deal_takes_from_the_end() {
    let mut deck = Deck::new();
    let dealt = deck.deal(2).unwrap();
    assert_eq!(dealt.len(), 2);
    assert_eq!(dealt[0].to_text(), "KD");
    assert_eq!(dealt[1].to_text(), "AD");
    assert_eq!(deck.len(), 50);
    assert!(deck.deal(51).is_none());
    assert_eq!(deck.len(), 50);
}

#[test]
fn deck_add_and_remove() {
    let mut deck = Deck::from(vec![card("2S"), card("3S"), card("2S")]);
    deck.remove(card("2S"));
    let left = deck.cards();
    assert_eq!(left.len(), 1);
    assert_eq!(left[0].to_text(), "3S");
    deck.add(card("AD"));
    assert_eq!(deck.len(), 2);
    assert_eq!(deck.cards()[1].to_text(), "AD");
}

#[test]
fn deal_to_extends_the_target() {
    let mut deck = Deck::from(vec![card("2S"), card("3S"), card("4S")]);
    let mut out = vec![card("AD")];
    assert!(deck.deal_to(&mut out, 2));
    assert_eq!(out.len(), 3);
    assert_eq!(out[1].to_text(), "3S");
    assert_eq!(out[2].to_text(), "4S");
    assert!(!deck.deal_to(&mut out, 2));
    assert_eq!(out.len(), 3);
}

#[test]
fn sample_and_choices_and_pick() {
    let input: Vec<u32> = (0..10).collect();
    assert!(sample(&input, 11).is_none());
    let s = sample(&input, 4).unwrap();
    assert_eq!(s.len(), 4);
    for x in &s {
        assert!(input.contains(x));
    }
    let c = choices(&input, 7);
    assert_eq!(c.len(), 7);
    for x in &c {
        assert!(input.contains(x));
    }
    assert!(input.contains(&pick(&input)));
    assert_eq!(choices(&Vec::<u32>::new(), 0).len(), 0);
}

#[test]
fn player_hand_uses_hole_and_community() {
    let mut deck = Deck::from(vec![card("2C"), card("AS"), card("AH")]);
    let player = Player::new("one".to_string(), &mut deck).unwrap();
    assert_eq!(player.name().as_str(), "one");
    let hole = player.hole();
    assert_eq!(hole[0].to_text(), "AS");
    assert_eq!(hole[1].to_text(), "AH");
    let community = vec![card("AC"), card("AD"), card("KS")];
    let best = player.hand(&community).unwrap();
    assert_eq!(best.score(), 8);
    let short = vec![card("AC"), card("AD")];
    assert_eq!(player.hand(&short).unwrap_err(), EvalError::InsufficientCandidates);
}

#[test]
fn player_new_needs_two_cards() {
    let mut deck = Deck::from(vec![card("2C")]);
    assert!(Player::new("one".to_string(), &mut deck).is_none());
}

#[test]
fn player_compare_orders_by_best_hand() {
    let mut deck = Deck::from(vec![card("2C"), card("2D"), card("AS"), card("AH")]);
    let strong = Player::new("strong".to_string(), &mut deck).unwrap();
    let weak = Player::new("weak".to_string(), &mut deck).unwrap();
    let community = vec![card("5C"), card("9D"), card("JS")];
    assert_eq!(
        Player::compare(&strong, &weak, &community).unwrap(),
        Ordering::Greater
    );
    assert_eq!(
        Player::compare(&weak, &strong, &community).unwrap(),
        Ordering::Less
    );
    assert_eq!(
        Player::compare(&strong, &strong, &community).unwrap(),
        Ordering::Equal
    );
}

#[test]
fn game_deals_and_names_players() {
    let names = vec!["a", "b", "c"];
    let game = Game::new(&names).unwrap();
    let players = game.players();
    assert_eq!(players.len(), 3);
    for (i, p) in players.iter().enumerate() {
        assert_eq!(p.name().as_str(), names[i]);
        assert_eq!(p.hole().len(), 2);
    }
    assert_eq!(game.community().len(), 0);
}

#[test]
fn game_rejects_too_many_players() {
    let names: Vec<&str> = std::iter::repeat("p").take(27).collect();
    assert!(Game::new(&names).is_none());
}

#[test]
fn game_reveals_community_and_finds_a_winner() {
    let names = vec!["a", "b", "c"];
    let mut game = Game::new(&names).unwrap();
    assert!(game.winner().is_none());
    assert!(game.flop());
    assert_eq!(game.community().len(), 3);
    assert!(game.turn());
    assert!(game.river());
    assert_eq!(game.community().len(), 5);
    let winner = game.winner().unwrap();
    assert!(names.contains(&winner.name().as_str()));
}

#[test]
fn player_hand_draws_only_from_hole_and_community() {
    let mut deck = Deck::from(vec![card("3D"), card("2H")]);
    let player = Player::new("p".to_string(), &mut deck).unwrap();
    let community = vec![card("AS"), card("KS"), card("QS"), card("JS"), card("TS")];
    let best = player.hand(&community).unwrap();
    assert_eq!(best.score(), 9);
    assert_eq!(best.to_text(), "TS, JS, QS, KS, AS");
    for c in best.cards() {
        let t = c.to_text();
        assert_ne!(t, "2H");
        assert_ne!(t, "3D");
        assert!(community.iter().any(|cc| cc.to_text() == t));
    }
}
