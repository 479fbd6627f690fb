use tarot::routes::{match_route, url_for, Route};

#[test]
fn test_match_route_fixed_pages() {
    assert!(matches!(match_route(""), Some(Route::Index)));
    assert!(matches!(match_route("/"), Some(Route::Index)));
    assert!(matches!(match_route("/games"), Some(Route::Games)));
}

#[test]
fn test_match_route_game_pages() {
    match match_route("/games/abc-123") {
        Some(Route::Game { game_id }) => assert_eq!(game_id, "abc-123"),
        other => panic!("unexpected route: {:?}", other.is_some()),
    }
    match match_route("/games/g1/qrcode") {
        Some(Route::GameQRCode { game_id }) => assert_eq!(game_id, "g1"),
        _ => panic!("expected the QR code page"),
    }
    match match_route("/games/g1/hands") {
        Some(Route::GameHands { game_id }) => assert_eq!(game_id, "g1"),
        _ => panic!("expected the hand list"),
    }
    match match_route("/games/g1/hands/01-Atout") {
        Some(Route::GameHand { game_id, hand_id }) => {
            assert_eq!(game_id, "g1");
            assert_eq!(hand_id, "01-Atout");
        },
        _ => panic!("expected one hand"),
    }
}

#[test]
fn test_match_route_rejects_unknown_paths() {
    assert!(match_route("/nope").is_none());
    assert!(match_route("/games/").is_none());
    assert!(match_route("/games/a/b").is_none());
    assert!(match_route("/games/a/hands/").is_none());
    assert!(match_route("/games/a/hands/x/y").is_none());
    assert!(match_route("/games//qrcode").is_none());
    assert!(match_route("games").is_none());
    assert!(match_route("/games/a/qrcode2").is_none());
}

#[test]
fn test_url_for_writes_each_page() {
    assert_eq!(url_for(&Route::Index), "/");
    assert_eq!(url_for(&Route::Games), "/games");
    assert_eq!(url_for(&Route::Game { game_id: "g1".to_string() }), "/games/g1");
    assert_eq!(
        url_for(&Route::GameQRCode { game_id: "g1".to_string() }),
        "/games/g1/qrcode"
    );
    assert_eq!(
        url_for(&Route::GameHands { game_id: "g1".to_string() }),
        "/games/g1/hands"
    );
    assert_eq!(
        url_for(&Route::GameHand { game_id: "g1".to_string(), hand_id: "01-A".to_string() }),
        "/games/g1/hands/01-A"
    );
}

#[test]
fn test_url_round_trips_through_match_route() {
    let url = url_for(&Route::GameHand {
        game_id: "partie".to_string(),
        hand_id: "02-Basse".to_string(),
    });
    match match_route(&url) {
        Some(Route::GameHand { game_id, hand_id }) => {
            assert_eq!(game_id, "partie");
            assert_eq!(hand_id, "02-Basse");
        },
        _ => panic!("the written URL must resolve back"),
    }
}
