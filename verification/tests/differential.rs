use aya_poker::base::Hand;
use aya_poker::poker_rank;
use poker_equity::sim::EquityCalculator;

fn spaced(hand: &str) -> String {
    let mut out = String::new();
    for (i, c) in hand.chars().enumerate() {
        if i > 0 && i % 2 == 0 {
            out.push(' ');
        }
        out.push(c);
    }
    out
}

#[test]
fn ordering_agrees_with_an_independent_evaluator() {
    let hands = [
        "2h3h4h5h6h",
        "AsKsQsJsTs",
        "AhAdAcAsKh",
        "2h2d2c2s3h",
        "AhAdAcKsKh",
        "AhKhQhJh9h",
        "AhKdQsJcTh",
        "Ah2d3c4s5h",
        "AhAdAcKsQh",
        "AhAdKcKsQh",
        "AhAdKcQsJh",
        "AhAdKsQcJd",
        "AhAdKsQc9d",
        "AhKdQc9s8h",
        "Kh9d7c5s3h",
        "2h7h9hJhQh2c3d",
        "9dTcJhQsKd",
        "2c3c4c5c6c7d8h",
    ];
    for i in 0..hands.len() {
        for j in 0..hands.len() {
            let mine_i = EquityCalculator::rank_hand(hands[i]);
            let mine_j = EquityCalculator::rank_hand(hands[j]);
            let theirs_i: Hand = spaced(hands[i]).parse().unwrap();
            let theirs_j: Hand = spaced(hands[j]).parse().unwrap();
            let ri = poker_rank(&theirs_i);
            let rj = poker_rank(&theirs_j);
            assert_eq!(
                mine_i.cmp(&mine_j),
                ri.cmp(&rj),
                "disagreement between {} and {}",
                hands[i],
                hands[j]
            );
        }
    }
}
