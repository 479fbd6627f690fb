//! The application's URL space: which path names which page, and how a page
//! writes its own URL.

use vstd::prelude::*;

use crate::text::{find_char, find_char_idx, str_eq, str_starts_with};
use crate::text::lemma_find_char_idx;

verus! {

broadcast use vstd::string::group_string_axioms;

/// A resolved request target.
pub enum Route {
    Index,
    Games,
    Game { game_id: String },
    GameQRCode { game_id: String },
    GameHands { game_id: String },
    GameHand { game_id: String, hand_id: String },
}

/// A request target over character sequences, the model of [`Route`].
pub enum RouteModel {
    Index,
    Games,
    Game { game_id: Seq<char> },
    GameQRCode { game_id: Seq<char> },
    GameHands { game_id: Seq<char> },
    GameHand { game_id: Seq<char>, hand_id: Seq<char> },
}

impl View for Route {
    type V = RouteModel;

    open spec fn view(&self) -> RouteModel {
        match self {
            Route::Index => RouteModel::Index,
            Route::Games => RouteModel::Games,
            Route::Game { game_id } => RouteModel::Game { game_id: game_id@ },
            Route::GameQRCode { game_id } => RouteModel::GameQRCode { game_id: game_id@ },
            Route::GameHands { game_id } => RouteModel::GameHands { game_id: game_id@ },
            Route::GameHand { game_id, hand_id } => RouteModel::GameHand {
                game_id: game_id@,
                hand_id: hand_id@,
            },
        }
    }
}

/// The characters of `/games`.
pub open spec fn games_path() -> Seq<char> {
    seq!['/', 'g', 'a', 'm', 'e', 's']
}

/// The characters of `/qrcode`.
pub open spec fn qrcode_suffix() -> Seq<char> {
    seq!['/', 'q', 'r', 'c', 'o', 'd', 'e']
}

/// The characters of `/hands`.
pub open spec fn hands_suffix() -> Seq<char> {
    seq!['/', 'h', 'a', 'n', 'd', 's']
}

/// A path segment: non-empty, without a `/`.
pub open spec fn seg_ok(s: Seq<char>) -> bool {
    s.len() > 0 && !s.contains('/')
}

/// What a path names below `/games/`: a game, its QR code, its hand list,
/// or one hand.
pub open spec fn route_below_games(rest: Seq<char>) -> Option<RouteModel> {
    if !rest.contains('/') {
        if rest.len() > 0 {
            Some(RouteModel::Game { game_id: rest })
        } else {
            None
        }
    } else {
        let i = find_char_idx(rest, '/');
        let g = rest.take(i);
        let tail = rest.skip(i);
        if g.len() == 0 {
            None
        } else if tail == qrcode_suffix() {
            Some(RouteModel::GameQRCode { game_id: g })
        } else if tail == hands_suffix() {
            Some(RouteModel::GameHands { game_id: g })
        } else if hands_suffix().push('/').is_prefix_of(tail) && seg_ok(
            tail.skip(hands_suffix().len() as int + 1),
        ) {
            Some(
                RouteModel::GameHand {
                    game_id: g,
                    hand_id: tail.skip(hands_suffix().len() as int + 1),
                },
            )
        } else {
            None
        }
    }
}

/// What a path names: the index at `/` or the empty path, the game list at
/// `/games`, and the pages below `/games/`; anything else is not found.
pub open spec fn route_of(p: Seq<char>) -> Option<RouteModel> {
    if p.len() == 0 || p == seq!['/'] {
        Some(RouteModel::Index)
    } else if p == games_path() {
        Some(RouteModel::Games)
    } else if games_path().push('/').is_prefix_of(p) {
        route_below_games(p.skip(games_path().len() as int + 1))
    } else {
        None
    }
}

/// The URL that names a route.
pub open spec fn url_of(r: RouteModel) -> Seq<char> {
    match r {
        RouteModel::Index => seq!['/'],
        RouteModel::Games => games_path(),
        RouteModel::Game { game_id } => games_path().push('/') + game_id,
        RouteModel::GameQRCode { game_id } => games_path().push('/') + game_id + qrcode_suffix(),
        RouteModel::GameHands { game_id } => games_path().push('/') + game_id + hands_suffix(),
        RouteModel::GameHand { game_id, hand_id } => games_path().push('/') + game_id
            + hands_suffix().push('/') + hand_id,
    }
}

/// Resolves a request path to a route, or to nothing when no page has that
/// path.
#[verifier::loop_isolation(false)]
pub fn match_route(path: &str) -> (r: Option<Route>)
    ensures
        match r {
            Some(route) => route_of(path@) == Some(route@),
            None => route_of(path@) is None,
        },
{
    proof {
        reveal_strlit("/");
        reveal_strlit("/games");
        reveal_strlit("/games/");
        reveal_strlit("/qrcode");
        reveal_strlit("/hands");
        reveal_strlit("/hands/");
        assert("/"@ =~= seq!['/']);
        assert("/games"@ =~= games_path());
        assert("/games/"@ =~= games_path().push('/'));
        assert("/qrcode"@ =~= qrcode_suffix());
        assert("/hands"@ =~= hands_suffix());
        assert("/hands/"@ =~= hands_suffix().push('/'));
    }
    let len = path.unicode_len();
    if len == 0 || str_eq(path, "/") {
        return Some(Route::Index);
    }
    if str_eq(path, "/games") {
        return Some(Route::Games);
    }
    if !str_starts_with(path, "/games/") {
        return None;
    }
    let rest = path.substring_char(7, len);
    proof {
        assert(rest@ =~= path@.skip(games_path().len() as int + 1));
    }
    let rest_len = rest.unicode_len();
    match find_char(rest, '/') {
        None => {
            proof {
                lemma_find_char_idx(rest@, '/');
            }
            if rest_len > 0 {
                Some(Route::Game { game_id: rest.to_owned() })
            } else {
                None
            }
        },
        Some(i) => {
            proof {
                lemma_find_char_idx(rest@, '/');
            }
            if i == 0 {
                proof {
                    assert(rest@.take(0).len() == 0);
                }
                return None;
            }
            let g = rest.substring_char(0, i);
            let tail = rest.substring_char(i, rest_len);
            proof {
                assert(g@ =~= rest@.take(i as int));
                assert(tail@ =~= rest@.skip(i as int));
            }
            if str_eq(tail, "/qrcode") {
                Some(Route::GameQRCode { game_id: g.to_owned() })
            } else if str_eq(tail, "/hands") {
                Some(Route::GameHands { game_id: g.to_owned() })
            } else if str_starts_with(tail, "/hands/") {
                let tail_len = tail.unicode_len();
                let h = tail.substring_char(7, tail_len);
                proof {
                    assert(h@ =~= tail@.skip(hands_suffix().len() as int + 1));
                }
                let h_has_slash = match find_char(h, '/') {
                    Some(_) => true,
                    None => false,
                };
                proof {
                    lemma_find_char_idx(h@, '/');
                }
                if h.unicode_len() > 0 && !h_has_slash {
                    Some(Route::GameHand { game_id: g.to_owned(), hand_id: h.to_owned() })
                } else {
                    None
                }
            } else {
                None
            }
        },
    }
}

/// Writes the URL that names a route.
pub fn url_for(route: &Route) -> (r: String)
    ensures
        r@ == url_of(route@),
{
    proof {
        reveal_strlit("/");
        reveal_strlit("/games");
        reveal_strlit("/games/");
        reveal_strlit("/qrcode");
        reveal_strlit("/hands");
        reveal_strlit("/hands/");
        assert("/"@ =~= seq!['/']);
        assert("/games"@ =~= games_path());
        assert("/games/"@ =~= games_path().push('/'));
        assert("/qrcode"@ =~= qrcode_suffix());
        assert("/hands"@ =~= hands_suffix());
        assert("/hands/"@ =~= hands_suffix().push('/'));
    }
    match route {
        Route::Index => String::from_str("/"),
        Route::Games => String::from_str("/games"),
        Route::Game { game_id } => {
            let mut s = String::new();
            s.append("/games/");
            s.append(game_id.as_str());
            proof {
                assert(s@ =~= url_of(route@));
            }
            s
        },
        Route::GameQRCode { game_id } => {
            let mut s = String::new();
            s.append("/games/");
            s.append(game_id.as_str());
            s.append("/qrcode");
            proof {
                assert(s@ =~= url_of(route@));
            }
            s
        },
        Route::GameHands { game_id } => {
            let mut s = String::new();
            s.append("/games/");
            s.append(game_id.as_str());
            s.append("/hands");
            proof {
                assert(s@ =~= url_of(route@));
            }
            s
        },
        Route::GameHand { game_id, hand_id } => {
            let mut s = String::new();
            s.append("/games/");
            s.append(game_id.as_str());
            s.append("/hands/");
            s.append(hand_id.as_str());
            proof {
                assert(s@ =~= url_of(route@));
            }
            s
        },
    }
}

} // verus!
