use tarot::game::{hand_id, hand_number_and_table, CompletedHand, ValidationError};
use tarot::game::{Bid, Chelem, Poignee};

#[test]
fn test_hand_id_pads_to_two_digits() {
    assert_eq!(hand_id(1, "Atout"), "01-Atout");
    assert_eq!(hand_id(0, "T"), "00-T");
    assert_eq!(hand_id(9, ""), "09-");
    assert_eq!(hand_id(10, "Grand Jeu"), "10-Grand Jeu");
    assert_eq!(hand_id(123, "x"), "123-x");
}

#[test]
fn test_decode_hand_id() {
    assert_eq!(hand_number_and_table("01-Atout").unwrap(), (1, "Atout".to_string()));
    assert_eq!(hand_number_and_table("123-x").unwrap(), (123, "x".to_string()));
    // the split happens at the first separator; the rest is the table verbatim
    assert_eq!(
        hand_number_and_table("02-Table-Basse").unwrap(),
        (2, "Table-Basse".to_string())
    );
    // a plus sign and leading zeros parse as the number they write
    assert_eq!(hand_number_and_table("+07-T").unwrap(), (7, "T".to_string()));
    assert_eq!(hand_number_and_table("0-").unwrap(), (0, "".to_string()));
}

#[test]
fn test_decode_rejects_missing_separator() {
    assert!(hand_number_and_table("Atout").is_err());
    assert!(hand_number_and_table("").is_err());
    assert!(hand_number_and_table("12").is_err());
}

#[test]
fn test_decode_rejects_bad_number() {
    assert!(hand_number_and_table("-Atout").is_err());
    assert!(hand_number_and_table("x1-Atout").is_err());
    assert!(hand_number_and_table("1 2-Atout").is_err());
    // eleven digits cannot be a 32-bit number
    assert!(hand_number_and_table("99999999999-T").is_err());
    assert!(hand_number_and_table("2147483648-T").is_err());
    assert_eq!(
        hand_number_and_table("2147483647-T").unwrap(),
        (2147483647, "T".to_string())
    );
}

#[test]
fn test_hand_key_round_trip() {
    for (n, t) in [
        (0, "Atout"),
        (1, ""),
        (7, "Grand Jeu"),
        (10, "été"),
        (99, "a"),
        (100, "deux mots"),
    ] {
        let key = hand_id(n, t);
        assert_eq!(hand_number_and_table(&key).unwrap(), (n, t.to_string()));
    }
}

#[test]
fn test_completed_hand_hand_id() {
    let hand = CompletedHand {
        table: "Atout".to_string(),
        hand_number: 3,
        players: vec!["A".to_string(), "B".to_string()],
        bid: Bid::Petite,
        bidder: "A".to_string(),
        partner: None,
        defence: vec!["B".to_string()],
        won: true,
        won_or_lost_by: 0,
        petit_au_bout: false,
        poignee: Poignee::Aucune,
        chelem: Chelem::Aucun,
    };
    assert_eq!(hand.hand_id(), "03-Atout");
}

#[test]
fn test_validation_error_message() {
    let e = ValidationError { msg: "nope".to_string() };
    assert_eq!(e.message(), "Invalid value: nope");
}
