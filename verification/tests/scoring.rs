use tarot::game::{Bid, Chelem, CompletedHand, Poignee};
use tarot::scoring::{score, score_hands, ScoringError};

fn create_test_players() -> Vec<String> {
    vec![
        "Alice".to_string(),
        "Bob".to_string(),
        "Charlie".to_string(),
        "David".to_string(),
    ]
}

fn create_test_players_five() -> Vec<String> {
    let mut players = create_test_players();
    players.push("Eve".to_string());
    players
}

#[test]
fn test_four_player_hand_won() {
    let players = create_test_players();
    let hand = CompletedHand {
        table: "Atout".to_string(),
        hand_number: 1,
        players: players.clone(),
        bid: Bid::Petite,
        bidder: "Alice".to_string(),
        partner: None,
        defence: vec!["Bob".to_string(), "Charlie".to_string(), "David".to_string()],
        won: true,
        won_or_lost_by: 10,
        petit_au_bout: false,
        poignee: Poignee::Aucune,
        chelem: Chelem::Aucun,
    };

    let scores = score(&hand).unwrap();

    // Base score should be (25 + 10) * 1 = 35
    assert_eq!(scores.get("Alice").unwrap(), 105); // 3 * 35
    assert_eq!(scores.get("Bob").unwrap(), -35);
    assert_eq!(scores.get("Charlie").unwrap(), -35);
    assert_eq!(scores.get("David").unwrap(), -35);
}

#[test]
fn test_five_player_hand_with_partner_won() {
    let players = create_test_players_five();
    let hand = CompletedHand {
        table: "Atout".to_string(),
        hand_number: 1,
        players,
        bid: Bid::Garde,
        bidder: "Alice".to_string(),
        partner: Some("Bob".to_string()),
        defence: vec!["Charlie".to_string(), "David".to_string(), "Eve".to_string()],
        won: true,
        won_or_lost_by: 15,
        petit_au_bout: true,
        poignee: Poignee::Simple,
        chelem: Chelem::Aucun,
    };

    let scores = score(&hand).unwrap();

    // Base score should be (25 + 15 + 10) * 2 + 20 = 120
    assert_eq!(scores.get("Alice").unwrap(), 240); // 2 * 120
    assert_eq!(scores.get("Bob").unwrap(), 120); // 1 * 120
    assert_eq!(scores.get("Charlie").unwrap(), -120);
    assert_eq!(scores.get("David").unwrap(), -120);
    assert_eq!(scores.get("Eve").unwrap(), -120);
}

#[test]
fn test_five_player_hand_bidder_alone_lost() {
    let players = create_test_players_five();
    let hand = CompletedHand {
        table: "Atout".to_string(),
        hand_number: 1,
        players,
        bid: Bid::GardeSans,
        bidder: "Alice".to_string(),
        partner: None,
        defence: vec![
            "Bob".to_string(),
            "Charlie".to_string(),
            "David".to_string(),
            "Eve".to_string(),
        ],
        won: false,
        won_or_lost_by: 20,
        petit_au_bout: false,
        poignee: Poignee::Aucune,
        chelem: Chelem::Aucun,
    };

    let scores = score(&hand).unwrap();

    // Base score should be (25 + 20) * 4 = 180
    assert_eq!(scores.get("Alice").unwrap(), -720); // 4 * -180
    assert_eq!(scores.get("Bob").unwrap(), 180);
    assert_eq!(scores.get("Charlie").unwrap(), 180);
    assert_eq!(scores.get("David").unwrap(), 180);
    assert_eq!(scores.get("Eve").unwrap(), 180);
}

#[test]
fn test_chelem_and_poignee_scoring() {
    let players = create_test_players();
    let hand = CompletedHand {
        table: "Atout".to_string(),
        hand_number: 1,
        players: players.clone(),
        bid: Bid::GardeContre,
        bidder: "Alice".to_string(),
        partner: None,
        defence: vec!["Bob".to_string(), "Charlie".to_string(), "David".to_string()],
        won: true,
        won_or_lost_by: 30,
        petit_au_bout: true,
        poignee: Poignee::Double,
        chelem: Chelem::Annonce,
    };

    let scores = score(&hand).unwrap();

    // Base score should be (25 + 30 + 10) * 6 + 30 + 400 = 820
    assert_eq!(scores.get("Alice").unwrap(), 2460); // 3 * 820
    assert_eq!(scores.get("Bob").unwrap(), -820);
    assert_eq!(scores.get("Charlie").unwrap(), -820);
    assert_eq!(scores.get("David").unwrap(), -820);
}

#[test]
fn test_invalid_hand_configuration() {
    let players = vec!["Alice".to_string(), "Bob".to_string(), "Charlie".to_string()]; // Only 3 players
    let hand = CompletedHand {
        table: "Atout".to_string(),
        hand_number: 1,
        players,
        bid: Bid::Petite,
        bidder: "Alice".to_string(),
        partner: None,
        defence: vec!["Bob".to_string(), "Charlie".to_string()],
        won: true,
        won_or_lost_by: 10,
        petit_au_bout: false,
        poignee: Poignee::Aucune,
        chelem: Chelem::Aucun,
    };

    assert!(score(&hand).is_err());
}

#[test]
fn test_invalid_configuration_error_fields() {
    let players = vec!["Alice".to_string(), "Bob".to_string(), "Charlie".to_string()];
    let hand = CompletedHand {
        table: "Atout".to_string(),
        hand_number: 1,
        players,
        bid: Bid::Petite,
        bidder: "Alice".to_string(),
        partner: None,
        defence: vec!["Bob".to_string(), "Charlie".to_string()],
        won: true,
        won_or_lost_by: 10,
        petit_au_bout: false,
        poignee: Poignee::Aucune,
        chelem: Chelem::Aucun,
    };

    let err = score(&hand).unwrap_err();
    assert_eq!(
        err,
        ScoringError::InvalidConfiguration { players: 3, defenders: 2, has_partner: false }
    );
}

#[test]
fn test_imbalanced_score_detected() {
    // the bidder listed among the defenders breaks the double-entry check:
    // the bidder's insert overwrites one defender share and the sum is +35
    let players = create_test_players();
    let hand = CompletedHand {
        table: "Atout".to_string(),
        hand_number: 1,
        players,
        bid: Bid::Petite,
        bidder: "Alice".to_string(),
        partner: None,
        defence: vec!["Alice".to_string(), "Bob".to_string(), "Charlie".to_string()],
        won: true,
        won_or_lost_by: 10,
        petit_au_bout: false,
        poignee: Poignee::Aucune,
        chelem: Chelem::Aucun,
    };

    let err = score(&hand).unwrap_err();
    assert_eq!(err, ScoringError::ImbalancedScore { sum: 35 });
}

fn scenario_one() -> CompletedHand {
    CompletedHand {
        table: "Atout".to_string(),
        hand_number: 1,
        players: create_test_players(),
        bid: Bid::Petite,
        bidder: "Alice".to_string(),
        partner: None,
        defence: vec!["Bob".to_string(), "Charlie".to_string(), "David".to_string()],
        won: true,
        won_or_lost_by: 10,
        petit_au_bout: false,
        poignee: Poignee::Aucune,
        chelem: Chelem::Aucun,
    }
}

fn scenario_two() -> CompletedHand {
    CompletedHand {
        table: "Atout".to_string(),
        hand_number: 2,
        players: create_test_players_five(),
        bid: Bid::Garde,
        bidder: "Alice".to_string(),
        partner: Some("Bob".to_string()),
        defence: vec!["Charlie".to_string(), "David".to_string(), "Eve".to_string()],
        won: true,
        won_or_lost_by: 15,
        petit_au_bout: true,
        poignee: Poignee::Simple,
        chelem: Chelem::Aucun,
    }
}

#[test]
fn test_score_hands_aggregates_two_hands() {
    let (pairs, totals, counts) = score_hands(vec![scenario_one(), scenario_two()]).unwrap();

    assert_eq!(pairs.len(), 2);
    // per-hand deltas match each hand scored individually
    assert_eq!(pairs[0].1.get("Alice").unwrap(), 105);
    assert_eq!(pairs[0].1.get("Bob").unwrap(), -35);
    assert_eq!(pairs[1].1.get("Alice").unwrap(), 240);
    assert_eq!(pairs[1].1.get("Bob").unwrap(), 120);
    assert_eq!(pairs[1].1.get("Eve").unwrap(), -120);
    // the hands come back in input order
    assert_eq!(pairs[0].0.hand_number, 1);
    assert_eq!(pairs[1].0.hand_number, 2);
    // totals are the per-player sums
    assert_eq!(totals.get("Alice").unwrap(), 105 + 240);
    assert_eq!(totals.get("Bob").unwrap(), -35 + 120);
    assert_eq!(totals.get("Charlie").unwrap(), -35 - 120);
    assert_eq!(totals.get("David").unwrap(), -35 - 120);
    assert_eq!(totals.get("Eve").unwrap(), -120);
    // every roster appearance is counted
    assert_eq!(counts.get("Alice").unwrap(), 2);
    assert_eq!(counts.get("Bob").unwrap(), 2);
    assert_eq!(counts.get("Charlie").unwrap(), 2);
    assert_eq!(counts.get("David").unwrap(), 2);
    assert_eq!(counts.get("Eve").unwrap(), 1);
}

#[test]
fn test_score_hands_order_does_not_change_totals() {
    let (_, totals_a, counts_a) = score_hands(vec![scenario_one(), scenario_two()]).unwrap();
    let (_, totals_b, counts_b) = score_hands(vec![scenario_two(), scenario_one()]).unwrap();

    for name in ["Alice", "Bob", "Charlie", "David", "Eve"] {
        assert_eq!(totals_a.get(name), totals_b.get(name));
        assert_eq!(counts_a.get(name), counts_b.get(name));
    }
}

#[test]
fn test_score_hands_aborts_on_first_error() {
    let bad = CompletedHand {
        table: "Atout".to_string(),
        hand_number: 3,
        players: vec!["Alice".to_string(), "Bob".to_string(), "Charlie".to_string()],
        bid: Bid::Petite,
        bidder: "Alice".to_string(),
        partner: None,
        defence: vec!["Bob".to_string(), "Charlie".to_string()],
        won: true,
        won_or_lost_by: 10,
        petit_au_bout: false,
        poignee: Poignee::Aucune,
        chelem: Chelem::Aucun,
    };

    let err = score_hands(vec![scenario_one(), bad, scenario_two()]).unwrap_err();
    assert_eq!(
        err,
        ScoringError::InvalidConfiguration { players: 3, defenders: 2, has_partner: false }
    );
}

#[test]
fn test_score_hands_empty_input() {
    let (pairs, totals, counts) = score_hands(Vec::new()).unwrap();
    assert_eq!(pairs.len(), 0);
    assert_eq!(totals.len(), 0);
    assert_eq!(counts.len(), 0);
}

#[test]
fn test_margin_increase_scales_by_multiplier() {
    // raising the margin by 7 under a Garde (x2) moves every magnitude by
    // 14 per share: 3 x 14 for the bidder at a four-player table, 14 each
    // for the defenders
    let mut low = scenario_one();
    low.bid = Bid::Garde;
    let mut high = low.clone();
    high.won_or_lost_by += 7;

    let s_low = score(&low).unwrap();
    let s_high = score(&high).unwrap();
    assert_eq!(
        s_high.get("Alice").unwrap(),
        s_low.get("Alice").unwrap() + 3 * 7 * 2
    );
    assert_eq!(s_high.get("Bob").unwrap(), s_low.get("Bob").unwrap() - 7 * 2);
    assert_eq!(
        s_high.get("Charlie").unwrap(),
        s_low.get("Charlie").unwrap() - 7 * 2
    );
}

#[test]
fn test_multipliers_and_bonus_values() {
    assert_eq!(Bid::Petite.multiplier(), 1);
    assert_eq!(Bid::Garde.multiplier(), 2);
    assert_eq!(Bid::GardeSans.multiplier(), 4);
    assert_eq!(Bid::GardeContre.multiplier(), 6);
    assert_eq!(Poignee::Aucune.score(), 0);
    assert_eq!(Poignee::Simple.score(), 20);
    assert_eq!(Poignee::Double.score(), 30);
    assert_eq!(Poignee::Triple.score(), 40);
    assert_eq!(Chelem::Aucun.score(), 0);
    assert_eq!(Chelem::NonAnnonce.score(), 200);
    assert_eq!(Chelem::Annonce.score(), 400);
}

#[test]
fn test_zero_sum_across_configurations() {
    let mut solo = scenario_two();
    solo.partner = None;
    solo.defence = vec![
        "Bob".to_string(),
        "Charlie".to_string(),
        "David".to_string(),
        "Eve".to_string(),
    ];
    for hand in [scenario_one(), scenario_two(), solo] {
        let scores = score(&hand).unwrap();
        let mut sum: i64 = 0;
        for i in 0..scores.len() {
            sum += i64::from(scores.pair_at(i).1);
        }
        assert_eq!(sum, 0);
    }
}
