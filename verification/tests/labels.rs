use tarot::game::{Bid, Chelem, Poignee};

#[test]
fn test_bid_labels_round_trip() {
    for bid in [Bid::Petite, Bid::Garde, Bid::GardeSans, Bid::GardeContre] {
        assert_eq!(Bid::from_label(&bid.label()).unwrap(), bid);
    }
    assert_eq!(Bid::Petite.label(), "petite");
    assert_eq!(Bid::Garde.label(), "garde");
    assert_eq!(Bid::GardeSans.label(), "garde sans");
    assert_eq!(Bid::GardeContre.label(), "garde contre");
}

#[test]
fn test_bid_parsing_lowercases_input() {
    assert_eq!(Bid::from_label("PETITE").unwrap(), Bid::Petite);
    assert_eq!(Bid::from_label("Garde Sans").unwrap(), Bid::GardeSans);
    assert_eq!(Bid::from_label("gArDe ConTre").unwrap(), Bid::GardeContre);
}

#[test]
fn test_bid_parsing_rejects_unknown_labels() {
    let err = Bid::from_label("grande").unwrap_err();
    assert_eq!(err.msg, "grande");
    assert!(Bid::from_label("").is_err());
    assert!(Bid::from_label("petite ").is_err());
}

#[test]
fn test_poignee_labels_round_trip() {
    for p in [Poignee::Aucune, Poignee::Simple, Poignee::Double, Poignee::Triple] {
        assert_eq!(Poignee::from_label(&p.label()).unwrap(), p);
    }
    assert_eq!(Poignee::Aucune.label(), "aucune");
    assert_eq!(Poignee::Simple.label(), "simple");
    assert_eq!(Poignee::Double.label(), "double");
    assert_eq!(Poignee::Triple.label(), "triple");
    assert_eq!(Poignee::from_label("DOUBLE").unwrap(), Poignee::Double);
    assert!(Poignee::from_label("quadruple").is_err());
}

#[test]
fn test_chelem_labels_round_trip() {
    for c in [Chelem::Aucun, Chelem::NonAnnonce, Chelem::Annonce] {
        assert_eq!(Chelem::from_label(&c.label()).unwrap(), c);
    }
    assert_eq!(Chelem::Aucun.label(), "aucun");
    assert_eq!(Chelem::NonAnnonce.label(), "non annoncé");
    assert_eq!(Chelem::Annonce.label(), "annoncé");
    // uppercase accented letters fold to the accented label
    assert_eq!(Chelem::from_label("ANNONCÉ").unwrap(), Chelem::Annonce);
    assert_eq!(Chelem::from_label("Non Annoncé").unwrap(), Chelem::NonAnnonce);
    assert!(Chelem::from_label("annonce").is_err());
}
