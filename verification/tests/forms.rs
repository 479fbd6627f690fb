use tarot::forms::{bool_form_value, form_data_to_game, form_data_to_hand, form_value, lines};
use tarot::game::{Bid, Chelem, Poignee};

fn pair(k: &str, v: &str) -> (String, String) {
    (k.to_string(), v.to_string())
}

fn hand_form() -> Vec<(String, String)> {
    vec![
        pair("handId", "01-Atout"),
        pair("bid", "garde"),
        pair("bidder", "Alice"),
        pair("partner", "Bob"),
        pair("defence[0]", "Charlie"),
        pair("defence[1]", "David"),
        pair("defence[2]", "Eve"),
        pair("won", "on"),
        pair("wonOrLostBy", "15"),
        pair("petitAuBout", "true"),
        pair("poignee", "simple"),
        pair("chelem", "aucun"),
    ]
}

#[test]
fn test_lines_trims_and_drops_empty() {
    assert_eq!(
        lines("  Alice  \n\n Bob\nCharlie \n   \n"),
        vec!["Alice".to_string(), "Bob".to_string(), "Charlie".to_string()]
    );
    assert_eq!(lines(""), Vec::<String>::new());
    assert_eq!(lines("  \n \n"), Vec::<String>::new());
    assert_eq!(lines("solo"), vec!["solo".to_string()]);
}

#[test]
fn test_form_value_reads_first_match() {
    let fd = vec![pair("a", "1"), pair("b", "2"), pair("a", "3")];
    assert_eq!(form_value(&fd, "a").unwrap(), "1");
    assert_eq!(form_value(&fd, "b").unwrap(), "2");
    assert!(form_value(&fd, "c").is_none());
}

#[test]
fn test_bool_form_value() {
    let fd = vec![pair("won", "on"), pair("petit", "TRUE"), pair("flat", "no")];
    assert!(bool_form_value(&fd, "won"));
    assert!(bool_form_value(&fd, "petit"));
    assert!(!bool_form_value(&fd, "flat"));
    assert!(!bool_form_value(&fd, "absent"));
}

#[test]
fn test_form_data_to_game_reads_all_fields() {
    let fd = vec![
        pair("date", "2024-05-01"),
        pair("host", "Chez Marie"),
        pair("players", " Alice \nBob\n\n Charlie"),
        pair("tables", "Atout\nBasse"),
    ];
    let game = form_data_to_game("g1".to_string(), &fd).unwrap();
    assert_eq!(game.game_id, "g1");
    assert_eq!(game.date, "2024-05-01");
    assert_eq!(game.host, "Chez Marie");
    assert_eq!(
        game.players,
        vec!["Alice".to_string(), "Bob".to_string(), "Charlie".to_string()]
    );
    assert_eq!(game.tables, vec!["Atout".to_string(), "Basse".to_string()]);
}

#[test]
fn test_form_data_to_game_allows_missing_lists() {
    let fd = vec![pair("date", "2024-05-01"), pair("host", "Chez Marie")];
    let game = form_data_to_game("g1".to_string(), &fd).unwrap();
    assert!(game.players.is_empty());
    assert!(game.tables.is_empty());
}

#[test]
fn test_form_data_to_game_requires_date_and_host() {
    assert!(form_data_to_game("g".to_string(), &vec![pair("host", "x")]).is_err());
    assert!(form_data_to_game("g".to_string(), &vec![pair("date", "x")]).is_err());
}

#[test]
fn test_form_data_to_hand_reads_all_fields() {
    let hand = form_data_to_hand(&hand_form()).unwrap();
    assert_eq!(hand.table, "Atout");
    assert_eq!(hand.hand_number, 1);
    assert_eq!(hand.bid, Bid::Garde);
    assert_eq!(hand.bidder, "Alice");
    assert_eq!(hand.partner, Some("Bob".to_string()));
    assert_eq!(
        hand.defence,
        vec!["Charlie".to_string(), "David".to_string(), "Eve".to_string()]
    );
    // the roster is inferred: defence, then bidder, then partner
    assert_eq!(
        hand.players,
        vec![
            "Charlie".to_string(),
            "David".to_string(),
            "Eve".to_string(),
            "Alice".to_string(),
            "Bob".to_string(),
        ]
    );
    assert!(hand.won);
    assert_eq!(hand.won_or_lost_by, 15);
    assert!(hand.petit_au_bout);
    assert_eq!(hand.poignee, Poignee::Simple);
    assert_eq!(hand.chelem, Chelem::Aucun);
}

#[test]
fn test_form_data_to_hand_empty_partner_means_none() {
    let mut fd = hand_form();
    fd[3] = pair("partner", "");
    let hand = form_data_to_hand(&fd).unwrap();
    assert_eq!(hand.partner, None);
    assert_eq!(hand.players.len(), 4);
}

#[test]
fn test_form_data_to_hand_requires_defence() {
    let fd: Vec<(String, String)> = hand_form()
        .into_iter()
        .filter(|(k, _)| !k.starts_with("defence"))
        .collect();
    assert!(form_data_to_hand(&fd).is_err());
}

#[test]
fn test_form_data_to_hand_rejects_bad_fields() {
    let mut fd = hand_form();
    fd[1] = pair("bid", "grande");
    assert!(form_data_to_hand(&fd).is_err());

    let mut fd = hand_form();
    fd[8] = pair("wonOrLostBy", "quinze");
    assert!(form_data_to_hand(&fd).is_err());

    let mut fd = hand_form();
    fd[10] = pair("poignee", "maxi");
    assert!(form_data_to_hand(&fd).is_err());

    let mut fd = hand_form();
    fd[11] = pair("chelem", "raté");
    assert!(form_data_to_hand(&fd).is_err());

    let fd: Vec<(String, String)> =
        hand_form().into_iter().filter(|(k, _)| k != "handId").collect();
    assert!(form_data_to_hand(&fd).is_err());

    let mut fd = hand_form();
    fd[0] = pair("handId", "pas-un-nombre");
    assert!(form_data_to_hand(&fd).is_err());
}

#[test]
fn test_form_data_to_hand_parses_negative_margin() {
    // the form decoder accepts any 32-bit number; validation of the margin's
    // sign belongs to the caller
    let mut fd = hand_form();
    fd[8] = pair("wonOrLostBy", "-3");
    let hand = form_data_to_hand(&fd).unwrap();
    assert_eq!(hand.won_or_lost_by, -3);
}
