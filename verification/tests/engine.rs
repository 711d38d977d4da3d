use poker_equity::card::Card;
use poker_equity::deck::Deck;
use poker_equity::deck_util::PhpDeck;
use poker_equity::hand::{parse_hand, PokerError};
use poker_equity::sim::{EquityCalculator, EquityResult};

fn equity_of(r: &EquityResult) -> f64 {
    r.half_pots as f64 / (2.0 * r.samples as f64)
}

#[test]
fn rank_is_deterministic() {
    let a = EquityCalculator::rank_hand("AhKdQs2c7h");
    let b = EquityCalculator::rank_hand("AhKdQs2c7h");
    assert_eq!(a, b);
    let c = EquityCalculator::rank_hand("2c3c4c5c6c7d8h");
    let d = EquityCalculator::rank_hand("2c3c4c5c6c7d8h");
    assert_eq!(c, d);
}

#[test]
fn category_chain_is_strictly_ordered() {
    // one representative per category, weakest kickers high in the lower
    // category so only the category decides
    let straight_flush = EquityCalculator::rank_hand("2h3h4h5h6h");
    let quads = EquityCalculator::rank_hand("AhAdAcAsKh");
    let full_house = EquityCalculator::rank_hand("AhAdAcKsKh");
    let flush = EquityCalculator::rank_hand("AhKhQhJh9h");
    let straight = EquityCalculator::rank_hand("AhKdQsJcTh");
    let trips = EquityCalculator::rank_hand("AhAdAcKsQh");
    let two_pair = EquityCalculator::rank_hand("AhAdKcKsQh");
    let pair = EquityCalculator::rank_hand("AhAdKcQsJh");
    let high = EquityCalculator::rank_hand("AhKdQc9s8h");
    assert!(straight_flush > quads);
    assert!(quads > full_house);
    assert!(full_house > flush);
    assert!(flush > straight);
    assert!(straight > trips);
    assert!(trips > two_pair);
    assert!(two_pair > pair);
    assert!(pair > high);
}

#[test]
fn kickers_break_ties_within_a_category() {
    // pair of aces, kickers K Q J against K Q 9
    let stronger = EquityCalculator::rank_hand("AhAdKsQcJd");
    let weaker = EquityCalculator::rank_hand("AhAdKsQc9d");
    assert!(stronger > weaker);
    // high card ace against high card king
    assert!(
        EquityCalculator::rank_hand("Ah9d7c5s3h") > EquityCalculator::rank_hand("Kh9d7c5s3h")
    );
}

#[test]
fn royal_flush_beats_quads_beats_flush() {
    let royal = EquityCalculator::rank_hand("AsKsQsJsTs");
    let quads = EquityCalculator::rank_hand("2h2d2c2s3h");
    let flush = EquityCalculator::rank_hand("AhKhQhJh9h");
    assert!(royal > quads);
    assert!(quads > flush);
}

#[test]
fn seven_card_hand_uses_its_best_five() {
    // seven cards holding a hidden flush must beat a bare straight
    let seven_with_flush = EquityCalculator::rank_hand("2h7h9hJhQh2c3d");
    let straight = EquityCalculator::rank_hand("9dTcJhQsKd");
    assert!(seven_with_flush > straight);
    // the wheel is the lowest straight
    let wheel = EquityCalculator::rank_hand("Ah2d3c4s5h");
    let six_high = EquityCalculator::rank_hand("2h3d4c5s6h");
    assert!(six_high > wheel);
}

#[test]
fn parse_rejects_duplicates_overflow_and_junk() {
    assert!(matches!(parse_hand("AhAh", 2), Err(PokerError::DuplicateCard)));
    assert!(matches!(parse_hand("AhKdQh", 2), Err(PokerError::TooManyCards)));
    assert!(matches!(parse_hand("Zz", 2), Err(PokerError::ParseError)));
    assert!(matches!(parse_hand("Ah", 2), Ok(_)));
    assert!(matches!(parse_hand("A", 2), Err(PokerError::ParseError)));
}

#[test]
fn parse_accepts_whitespace_separated_tokens() {
    let h = parse_hand("Ah Kd", 2).unwrap();
    assert_eq!(h.len(), 2);
    let b = parse_hand("2c 3d 4h 5s 6c", 5).unwrap();
    assert_eq!(b.len(), 5);
}

#[test]
fn calculate_propagates_each_error() {
    let calc = EquityCalculator::new();
    let no_opps: Vec<&str> = Vec::new();
    assert!(matches!(
        calc.calculate("AhAh", &no_opps, ""),
        Err(PokerError::DuplicateCard)
    ));
    assert!(matches!(
        calc.calculate("AhKdQh", &no_opps, ""),
        Err(PokerError::TooManyCards)
    ));
    assert!(matches!(
        calc.calculate("Zz", &no_opps, ""),
        Err(PokerError::ParseError)
    ));
    // the same card in two hands is a duplicate across the calculation
    let opps: Vec<&str> = vec!["AhKc"];
    assert!(matches!(
        calc.calculate("AhKd", &opps, ""),
        Err(PokerError::DuplicateCard)
    ));
    // a board card repeated in a hole hand too
    let opps2: Vec<&str> = vec!["KsKc"];
    assert!(matches!(
        calc.calculate("AhKd", &opps2, "Ah2c3c"),
        Err(PokerError::DuplicateCard)
    ));
}

#[test]
fn calculate_rejects_a_deck_too_small() {
    // 23 opponents with known hole cards leave fewer than five undealt
    let mut calc = EquityCalculator::new();
    calc.samples(10);
    calc.seed(1);
    let ranks = ["2", "3", "4", "5", "6", "7", "8", "9", "T", "J", "Q", "K"];
    let mut names: Vec<String> = Vec::new();
    for r in ranks.iter() {
        for s in ["c", "d", "h", "s"].iter() {
            names.push(format!("{}{}", r, s));
        }
    }
    // 48 distinct cards: the player's two and 23 opponents' two each
    let player = format!("{}{}", names[0], names[1]);
    let opp_names: Vec<String> = (0..23)
        .map(|i| format!("{}{}", names[2 + 2 * i], names[3 + 2 * i]))
        .collect();
    let opps: Vec<&str> = opp_names.iter().map(|s| s.as_str()).collect();
    assert!(matches!(
        calc.calculate(&player, &opps, ""),
        Err(PokerError::InsufficientDeck)
    ));
}

#[test]
fn equity_is_a_pot_share() {
    let mut calc = EquityCalculator::new();
    calc.samples(2000);
    calc.seed(9);
    let opps: Vec<&str> = vec!["KhKd"];
    let r = calc.calculate("AhAd", &opps, "").unwrap();
    assert_eq!(r.samples, 2000);
    assert!(r.half_pots <= 2 * r.samples as u64);
    let e = equity_of(&r);
    assert!((0.0..=1.0).contains(&e));
}

#[test]
fn complementary_fully_known_calls_sum_to_one() {
    let mut calc = EquityCalculator::new();
    calc.samples(3000);
    calc.seed(1234);
    let opps_b: Vec<&str> = vec!["KhKd"];
    let opps_a: Vec<&str> = vec!["AhAd"];
    let ra = calc.calculate("AhAd", &opps_b, "").unwrap();
    let rb = calc.calculate("KhKd", &opps_a, "").unwrap();
    assert_eq!(ra.half_pots + rb.half_pots, 2 * 3000u64);
}

#[test]
fn identical_seeded_calls_are_bit_identical() {
    let mut calc = EquityCalculator::new();
    calc.samples(5000);
    calc.seed(77);
    let opps: Vec<&str> = vec!["7c2d"];
    let r1 = calc.calculate("AhKh", &opps, "2c7h9d").unwrap();
    let r2 = calc.calculate("AhKh", &opps, "2c7h9d").unwrap();
    assert_eq!(r1.half_pots, r2.half_pots);
    assert_eq!(r1.samples, r2.samples);
}

#[test]
fn pocket_aces_heads_up_converge_near_085() {
    let mut calc = EquityCalculator::new();
    calc.samples(200000);
    calc.seed(42);
    let opps: Vec<&str> = vec![""];
    let r = calc.calculate("AhAd", &opps, "").unwrap();
    let e = equity_of(&r);
    assert!((e - 0.85).abs() < 0.01, "equity was {}", e);
}

#[test]
fn no_opponents_means_the_player_takes_every_pot() {
    let mut calc = EquityCalculator::new();
    calc.samples(100);
    calc.seed(5);
    let no_opps: Vec<&str> = Vec::new();
    let r = calc.calculate("AhAd", &no_opps, "").unwrap();
    assert_eq!(r.half_pots, 200);
}

#[test]
fn deck_excluding_ten_cards_has_42_and_reset_restores_it() {
    let excluded_hand = parse_hand("2c3c4c5c6c7c", 6).unwrap();
    let mut excluded: Vec<Card> = excluded_hand.cards;
    let more = parse_hand("8c9cTcJc", 4).unwrap();
    for c in more.cards.iter() {
        excluded.push(*c);
    }
    assert_eq!(excluded.len(), 10);
    let mut deck = Deck::new(&excluded, 3);
    assert_eq!(deck.len(), 42);
    let dealt = deck.deal(5);
    assert_eq!(dealt.len(), 5);
    assert_eq!(deck.len(), 37);
    deck.reset();
    assert_eq!(deck.len(), 42);
}

#[test]
fn deck_deals_fresh_cards_after_reset() {
    let none: Vec<Card> = Vec::new();
    let mut deck = Deck::new(&none, 99);
    let first = deck.deal(5);
    deck.reset();
    let second = deck.deal(5);
    // the generator advances across the rewind, so a fresh run-out is drawn
    assert_ne!(first, second);
}

#[test]
fn full_deck_utility_deals_52_distinct_notations() {
    let mut deck = PhpDeck::from_seed(7);
    assert_eq!(deck.count(), 52);
    let mut seen: Vec<String> = Vec::new();
    for _ in 0..52 {
        let s = deck.deal().unwrap();
        assert_eq!(s.len(), 2);
        assert!(!seen.contains(&s));
        seen.push(s);
    }
    assert_eq!(deck.count(), 0);
    assert!(deck.deal().is_none());
    deck.reset();
    assert_eq!(deck.count(), 52);
    assert!(deck.deal().is_some());
}

#[test]
fn seeded_full_decks_agree_and_fresh_ones_exist() {
    let mut a = PhpDeck::from_seed(11);
    let mut b = PhpDeck::from_seed(11);
    for _ in 0..10 {
        assert_eq!(a.deal(), b.deal());
    }
    let mut c = PhpDeck::new();
    assert_eq!(c.count(), 52);
    assert!(c.deal().is_some());
}

#[test]
fn calculator_settings_are_kept() {
    let mut calc = EquityCalculator::new();
    assert_eq!(calc.samples, 100000);
    assert_eq!(calc.seed, 0);
    calc.samples(500);
    calc.seed(3);
    assert_eq!(calc.samples, 500);
    assert_eq!(calc.seed, 3);
}
