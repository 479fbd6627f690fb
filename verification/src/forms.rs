//! Decoding of submitted form data — lists of key/value pairs — into games
//! and hands.

use vstd::prelude::*;

use crate::game::{decode_key, hand_number_and_table};
use crate::game::{Bid, Chelem, CompletedHand, Game, Poignee, ValidationError};
use crate::game::{bid_label, chelem_label, poignee_label};
use crate::num::{parse_i32, parse_int_spec};
use crate::text::{find_char, find_char_idx, lower_of, lowercase, str_eq, str_starts_with};
use crate::text::{lemma_find_char_idx, trim_spec, trim_str};

verus! {

broadcast use vstd::string::group_string_axioms;

/// The pairs of a form, as character sequences.
pub open spec fn pairs_of(fd: Seq<(String, String)>) -> Seq<(Seq<char>, Seq<char>)> {
    fd.map_values(|p: (String, String)| (p.0@, p.1@))
}

/// The position of the first pair whose key is `key`, or `-1`.
pub open spec fn field_idx(fd: Seq<(Seq<char>, Seq<char>)>, key: Seq<char>) -> int
    decreases fd.len(),
{
    if fd.len() == 0 {
        -1
    } else if fd[0].0 == key {
        0
    } else if field_idx(fd.drop_first(), key) == -1 {
        -1
    } else {
        1 + field_idx(fd.drop_first(), key)
    }
}

/// The value of the first pair whose key is `key`, if any.
pub open spec fn field_of(fd: Seq<(Seq<char>, Seq<char>)>, key: Seq<char>) -> Option<Seq<char>> {
    if 0 <= field_idx(fd, key) < fd.len() {
        Some(fd[field_idx(fd, key)].1)
    } else {
        None
    }
}

/// `field_idx` finds the first pair with the key, or reports that none has
/// it.
pub proof fn lemma_field_idx(fd: Seq<(Seq<char>, Seq<char>)>, key: Seq<char>)
    ensures
        field_idx(fd, key) >= -1,
        field_idx(fd, key) == -1 ==> forall|i: int|
            0 <= i < fd.len() ==> (#[trigger] fd[i]).0 != key,
        field_idx(fd, key) >= 0 ==> field_idx(fd, key) < fd.len(),
        field_idx(fd, key) >= 0 ==> fd[field_idx(fd, key)].0 == key,
        forall|i: int| 0 <= i < field_idx(fd, key) ==> (#[trigger] fd[i]).0 != key,
    decreases fd.len(),
{
    if fd.len() > 0 && fd[0].0 != key {
        lemma_field_idx(fd.drop_first(), key);
        let d = fd.drop_first();
        let r = field_idx(d, key);
        if r >= 0 {
            assert forall|i: int| 0 <= i < field_idx(fd, key) implies (#[trigger] fd[i]).0
                != key by {
                if i > 0 {
                    assert(d[i - 1].0 != key);
                    assert(d[i - 1] == fd[i]);
                }
            }
        } else {
            assert forall|i: int| 0 <= i < fd.len() implies (#[trigger] fd[i]).0 != key by {
                if i > 0 {
                    assert(d[i - 1].0 != key);
                    assert(d[i - 1] == fd[i]);
                }
            }
        }
    }
}

/// A position whose earlier keys all differ and that holds the key is
/// `field_idx`.
pub proof fn lemma_field_idx_at(fd: Seq<(Seq<char>, Seq<char>)>, key: Seq<char>, k: int)
    requires
        0 <= k < fd.len(),
        fd[k].0 == key,
        forall|i: int| 0 <= i < k ==> (#[trigger] fd[i]).0 != key,
    ensures
        field_idx(fd, key) == k,
    decreases k,
{
    if k > 0 {
        let d = fd.drop_first();
        assert forall|i: int| 0 <= i < k - 1 implies (#[trigger] d[i]).0 != key by {
            assert(d[i] == fd[i + 1]);
        }
        assert(d[k - 1] == fd[k]);
        lemma_field_idx_at(d, key, k - 1);
        lemma_field_idx(d, key);
    }
}

/// The value of the first pair whose key is `key`, if any.
#[verifier::loop_isolation(false)]
pub fn form_value<'a>(form_data: &'a Vec<(String, String)>, key: &'a str) -> (r: Option<
    &'a String,
>)
    ensures
        match r {
            Some(v) => field_of(pairs_of(form_data@), key@) == Some(v@),
            None => field_of(pairs_of(form_data@), key@) is None,
        },
{
    let ghost fd = pairs_of(form_data@);
    let n = form_data.len();
    let mut i: usize = 0;
    while i < n
        invariant
            0 <= i <= n,
            forall|j: int| 0 <= j < i ==> (#[trigger] fd[j]).0 != key@,
        decreases n - i,
    {
        proof {
            assert(fd[i as int] == (form_data@[i as int].0@, form_data@[i as int].1@));
        }
        if str_eq(form_data[i].0.as_str(), key) {
            proof {
                lemma_field_idx_at(fd, key@, i as int);
            }
            return Some(&form_data[i].1);
        }
        i = i + 1;
    }
    proof {
        lemma_field_idx(fd, key@);
        if field_idx(fd, key@) >= 0 {
            assert(fd[field_idx(fd, key@)].0 == key@);
        }
    }
    None
}

/// Whether a checkbox-style field is set: its lowercased value is `on` or
/// `true`; an absent field is unset.
pub open spec fn bool_field(fd: Seq<(Seq<char>, Seq<char>)>, key: Seq<char>) -> bool {
    match field_of(fd, key) {
        Some(v) => lower_of(v) == "on"@ || lower_of(v) == "true"@,
        None => false,
    }
}

/// Reads a checkbox-style field.
pub fn bool_form_value(form_data: &Vec<(String, String)>, key: &str) -> (r: bool)
    ensures
        r == bool_field(pairs_of(form_data@), key@),
{
    match form_value(form_data, key) {
        Some(v) => {
            let low = lowercase(v.as_str());
            str_eq(low.as_str(), "on") || str_eq(low.as_str(), "true")
        },
        None => false,
    }
}

/// The values of every pair whose key starts with `key`, in form order.
pub open spec fn fields_with_prefix(fd: Seq<(Seq<char>, Seq<char>)>, key: Seq<char>) -> Seq<
    Seq<char>,
>
    decreases fd.len(),
{
    if fd.len() == 0 {
        Seq::empty()
    } else {
        (if key.is_prefix_of(fd[0].0) {
            seq![fd[0].1]
        } else {
            Seq::empty()
        }) + fields_with_prefix(fd.drop_first(), key)
    }
}

/// Appending one pair extends the filtered values by at most that value.
proof fn lemma_fields_with_prefix_push(
    fd: Seq<(Seq<char>, Seq<char>)>,
    key: Seq<char>,
    e: (Seq<char>, Seq<char>),
)
    ensures
        fields_with_prefix(fd.push(e), key) == fields_with_prefix(fd, key) + (if key.is_prefix_of(
            e.0,
        ) {
            seq![e.1]
        } else {
            Seq::<Seq<char>>::empty()
        }),
    decreases fd.len(),
{
    if fd.len() == 0 {
        assert(fd.push(e)[0] == e);
        assert(fd.push(e).drop_first() =~= Seq::<(Seq<char>, Seq<char>)>::empty());
        assert(fields_with_prefix(fd.push(e).drop_first(), key) =~= Seq::<Seq<char>>::empty());
        assert(fields_with_prefix(fd, key) =~= Seq::<Seq<char>>::empty());
        assert(fields_with_prefix(fd.push(e), key) =~= fields_with_prefix(fd, key) + (
        if key.is_prefix_of(e.0) {
            seq![e.1]
        } else {
            Seq::<Seq<char>>::empty()
        }));
    } else {
        assert(fd.push(e)[0] == fd[0]);
        assert(fd.push(e).drop_first() =~= fd.drop_first().push(e));
        lemma_fields_with_prefix_push(fd.drop_first(), key, e);
        assert(fields_with_prefix(fd.push(e), key) =~= fields_with_prefix(fd, key) + (
        if key.is_prefix_of(e.0) {
            seq![e.1]
        } else {
            Seq::<Seq<char>>::empty()
        }));
    }
}

/// Collects the values of every pair whose key starts with `key`.
#[verifier::loop_isolation(false)]
pub fn form_values<'a>(form_data: &'a Vec<(String, String)>, key: &str) -> (r: Vec<&'a String>)
    ensures
        r.deep_view() == fields_with_prefix(pairs_of(form_data@), key@),
{
    let ghost fd = pairs_of(form_data@);
    let n = form_data.len();
    let mut r: Vec<&'a String> = Vec::new();
    let mut i: usize = 0;
    proof {
        assert(fd.take(0) =~= Seq::<(Seq<char>, Seq<char>)>::empty());
        assert(r.deep_view() =~= fields_with_prefix(fd.take(0), key@));
    }
    while i < n
        invariant
            0 <= i <= n,
            r.deep_view() == fields_with_prefix(fd.take(i as int), key@),
        decreases n - i,
    {
        proof {
            assert(fd[i as int] == (form_data@[i as int].0@, form_data@[i as int].1@));
            assert(fd.take(i as int).push(fd[i as int]) =~= fd.take(i as int + 1));
            lemma_fields_with_prefix_push(fd.take(i as int), key@, fd[i as int]);
        }
        let ghost old_deep = r.deep_view();
        if str_starts_with(form_data[i].0.as_str(), key) {
            r.push(&form_data[i].1);
            proof {
                assert(r.deep_view() =~= old_deep.push(fd[i as int].1));
                assert(old_deep.push(fd[i as int].1) =~= old_deep + seq![fd[i as int].1]);
            }
        } else {
            proof {
                assert(old_deep + Seq::<Seq<char>>::empty() =~= old_deep);
            }
        }
        i = i + 1;
    }
    proof {
        assert(fd.take(n as int) =~= fd);
    }
    r
}

/// The value of a field that must be present; a `ValidationError` names the
/// missing field.
pub fn reqd_form_value<'a>(form_data: &'a Vec<(String, String)>, key: &'a str) -> (r: Result<
    &'a String,
    ValidationError,
>)
    ensures
        match r {
            Ok(v) => field_of(pairs_of(form_data@), key@) == Some(v@),
            Err(_) => field_of(pairs_of(form_data@), key@) is None,
        },
{
    match form_value(form_data, key) {
        Some(v) => Ok(v),
        None => {
            let mut msg = String::new();
            msg.append("Missing required field: ");
            msg.append(key);
            Err(ValidationError { msg })
        },
    }
}

/// Splits a block of text into lines, each trimmed of surrounding
/// whitespace, dropping the lines that end up empty.
pub open spec fn lines_spec(s: Seq<char>) -> Seq<Seq<char>>
    decreases s.len(),
{
    let i = find_char_idx(s, '\n');
    if 0 <= i < s.len() {
        maybe_line(trim_spec(s.take(i))) + lines_spec(s.skip(i + 1))
    } else {
        maybe_line(trim_spec(s))
    }
}

/// One trimmed line, or nothing when it is empty.
pub open spec fn maybe_line(t: Seq<char>) -> Seq<Seq<char>> {
    if t.len() == 0 {
        Seq::empty()
    } else {
        seq![t]
    }
}

/// Splits a block of text into trimmed, non-empty lines.
#[verifier::loop_isolation(false)]
pub fn lines(s: &str) -> (r: Vec<String>)
    ensures
        r.deep_view() == lines_spec(s@),
{
    let len = s.unicode_len();
    let mut r: Vec<String> = Vec::new();
    let mut start: usize = 0;
    let mut done = false;
    proof {
        assert(s@.skip(0) =~= s@);
        assert(r.deep_view() =~= Seq::<Seq<char>>::empty());
        assert(Seq::<Seq<char>>::empty() + lines_spec(s@) =~= lines_spec(s@));
    }
    while !done
        invariant
            0 <= start <= len,
            !done ==> lines_spec(s@) == r.deep_view() + lines_spec(s@.skip(start as int)),
            done ==> r.deep_view() == lines_spec(s@),
        decreases len - start, (if done {
            0int
        } else {
            1int
        }),
    {
        let seg_src = s.substring_char(start, len);
        proof {
            assert(seg_src@ =~= s@.skip(start as int));
        }
        let ghost old_deep = r.deep_view();
        match find_char(seg_src, '\n') {
            Some(i) => {
                proof {
                    lemma_find_char_idx(seg_src@, '\n');
                }
                let line = trim_str(s.substring_char(start, start + i));
                proof {
                    assert(s@.subrange(start as int, start as int + i) =~= seg_src@.take(i as int));
                    assert(seg_src@.skip(i as int + 1) =~= s@.skip(start as int + i + 1));
                }
                if line.unicode_len() > 0 {
                    r.push(line);
                    proof {
                        assert(r.deep_view() =~= old_deep + maybe_line(
                            trim_spec(seg_src@.take(find_char_idx(seg_src@, '\n'))),
                        ));
                    }
                } else {
                    proof {
                        assert(old_deep + maybe_line(
                            trim_spec(seg_src@.take(find_char_idx(seg_src@, '\n'))),
                        ) =~= old_deep);
                    }
                }
                start = start + i + 1;
            },
            None => {
                let line = trim_str(seg_src);
                proof {
                    lemma_find_char_idx(seg_src@, '\n');
                    assert(lines_spec(seg_src@) == maybe_line(trim_spec(seg_src@)));
                }
                if line.unicode_len() > 0 {
                    r.push(line);
                    proof {
                        assert(r.deep_view() =~= old_deep + maybe_line(trim_spec(seg_src@)));
                    }
                } else {
                    proof {
                        assert(old_deep + maybe_line(trim_spec(seg_src@)) =~= old_deep);
                    }
                }
                done = true;
            },
        }
    }
    r
}

/// Reads a game from its form: the date and host are required; the player
/// and table lists are optional blocks of one name per line.
pub fn form_data_to_game(game_id: String, form_data: &Vec<(String, String)>) -> (r: Result<
    Game,
    ValidationError,
>)
    ensures
        ({
            let fd = pairs_of(form_data@);
            match r {
                Ok(g) => {
                    &&& field_of(fd, "date"@) == Some(g.date@)
                    &&& field_of(fd, "host"@) == Some(g.host@)
                    &&& g.game_id == game_id
                    &&& g.players.deep_view() == match field_of(fd, "players"@) {
                        Some(v) => lines_spec(v),
                        None => Seq::<Seq<char>>::empty(),
                    }
                    &&& g.tables.deep_view() == match field_of(fd, "tables"@) {
                        Some(v) => lines_spec(v),
                        None => Seq::<Seq<char>>::empty(),
                    }
                },
                Err(_) => field_of(fd, "date"@) is None || field_of(fd, "host"@) is None,
            }
        }),
{
    let date = match reqd_form_value(form_data, "date") {
        Ok(v) => v.clone(),
        Err(e) => {
            return Err(e);
        },
    };
    let host = match reqd_form_value(form_data, "host") {
        Ok(v) => v.clone(),
        Err(e) => {
            return Err(e);
        },
    };
    let players = match form_value(form_data, "players") {
        Some(v) => lines(v.as_str()),
        None => Vec::new(),
    };
    let tables = match form_value(form_data, "tables") {
        Some(v) => lines(v.as_str()),
        None => Vec::new(),
    };
    proof {
        if field_of(pairs_of(form_data@), "players"@) is None {
            assert(players.deep_view() =~= Seq::<Seq<char>>::empty());
        }
        if field_of(pairs_of(form_data@), "tables"@) is None {
            assert(tables.deep_view() =~= Seq::<Seq<char>>::empty());
        }
    }
    Ok(Game { game_id, date, host, players, tables })
}

/// Everything a hand's form must supply for the hand to be read: the key
/// decodes, the bidder is named, at least one defender is picked, and the
/// bid, margin, poignée and chelem fields parse.
pub open spec fn hand_form_ok(fd: Seq<(Seq<char>, Seq<char>)>) -> bool {
    &&& field_of(fd, "handId"@) is Some
    &&& decode_key(field_of(fd, "handId"@).unwrap()) is Some
    &&& field_of(fd, "bidder"@) is Some
    &&& fields_with_prefix(fd, "defence"@).len() > 0
    &&& field_of(fd, "bid"@) is Some
    &&& (exists|b: Bid| lower_of(field_of(fd, "bid"@).unwrap()) == bid_label(b))
    &&& field_of(fd, "wonOrLostBy"@) is Some
    &&& parse_int_spec(field_of(fd, "wonOrLostBy"@).unwrap()) is Some
    &&& field_of(fd, "poignee"@) is Some
    &&& (exists|p: Poignee| lower_of(field_of(fd, "poignee"@).unwrap()) == poignee_label(p))
    &&& field_of(fd, "chelem"@) is Some
    &&& (exists|c: Chelem| lower_of(field_of(fd, "chelem"@).unwrap()) == chelem_label(c))
}

/// Reads a completed hand from its form. The roster is always inferred from
/// defence, bidder and partner, whatever was supplied. Any missing or
/// unparseable field is a `ValidationError`.
#[verifier::loop_isolation(false)]
pub fn form_data_to_hand(form_data: &Vec<(String, String)>) -> (r: Result<
    CompletedHand,
    ValidationError,
>)
    ensures
        ({
            let fd = pairs_of(form_data@);
            match r {
                Ok(h) => {
                    &&& hand_form_ok(fd)
                    &&& decode_key(field_of(fd, "handId"@).unwrap()) == Some(
                        (h.hand_number as int, h.table@),
                    )
                    &&& field_of(fd, "bidder"@) == Some(h.bidder@)
                    &&& match field_of(fd, "partner"@) {
                        Some(v) => if v.len() == 0 {
                            h.partner is None
                        } else {
                            h.partner matches Some(p) && p@ == v
                        },
                        None => h.partner is None,
                    }
                    &&& h.defence.deep_view() == fields_with_prefix(fd, "defence"@)
                    &&& h.players.deep_view() == fields_with_prefix(fd, "defence"@).push(h.bidder@)
                        + match h.partner {
                        Some(p) => seq![p@],
                        None => Seq::<Seq<char>>::empty(),
                    }
                    &&& lower_of(field_of(fd, "bid"@).unwrap()) == bid_label(h.bid)
                    &&& h.won == bool_field(fd, "won"@)
                    &&& parse_int_spec(field_of(fd, "wonOrLostBy"@).unwrap()) == Some(
                        h.won_or_lost_by as int,
                    )
                    &&& h.petit_au_bout == bool_field(fd, "petitAuBout"@)
                    &&& lower_of(field_of(fd, "poignee"@).unwrap()) == poignee_label(h.poignee)
                    &&& lower_of(field_of(fd, "chelem"@).unwrap()) == chelem_label(h.chelem)
                },
                Err(_) => !hand_form_ok(fd),
            }
        }),
{
    let ghost fd = pairs_of(form_data@);
    let hand_key = match reqd_form_value(form_data, "handId") {
        Ok(v) => v,
        Err(e) => {
            return Err(e);
        },
    };
    let (hand_number, table) = match hand_number_and_table(hand_key.as_str()) {
        Ok(p) => p,
        Err(e) => {
            return Err(e);
        },
    };
    let bidder = match reqd_form_value(form_data, "bidder") {
        Ok(v) => v.clone(),
        Err(e) => {
            return Err(e);
        },
    };
    let partner: Option<String> = match form_value(form_data, "partner") {
        None => None,
        Some(s) => {
            if s.unicode_len() == 0 {
                None
            } else {
                Some(s.clone())
            }
        },
    };
    let defence_refs = form_values(form_data, "defence");
    let mut defence: Vec<String> = Vec::new();
    let nd = defence_refs.len();
    let mut i: usize = 0;
    proof {
        assert(defence.deep_view() =~= defence_refs.deep_view().take(0));
    }
    while i < nd
        invariant
            0 <= i <= nd,
            defence.deep_view() == defence_refs.deep_view().take(i as int),
        decreases nd - i,
    {
        let ghost old_deep = defence.deep_view();
        defence.push(defence_refs[i].clone());
        proof {
            assert(defence.deep_view() =~= old_deep.push(defence_refs.deep_view()[i as int]));
            assert(old_deep.push(defence_refs.deep_view()[i as int]) =~= defence_refs.deep_view()
                .take(i as int + 1));
        }
        i = i + 1;
    }
    proof {
        assert(defence_refs.deep_view().take(nd as int) =~= defence_refs.deep_view());
    }
    if defence.len() == 0 {
        let mut msg = String::new();
        msg.append("Missing required field: defence");
        return Err(ValidationError { msg });
    }
    let bid = match reqd_form_value(form_data, "bid") {
        Ok(v) => match Bid::from_label(v.as_str()) {
            Ok(b) => b,
            Err(e) => {
                proof {
                    assert(forall|b: Bid| lower_of(field_of(fd, "bid"@).unwrap()) != bid_label(b));
                }
                return Err(e);
            },
        },
        Err(e) => {
            return Err(e);
        },
    };
    let won = bool_form_value(form_data, "won");
    let won_or_lost_by = match reqd_form_value(form_data, "wonOrLostBy") {
        Ok(v) => match parse_i32(v.as_str()) {
            Some(n) => n,
            None => {
                let mut msg = String::new();
                msg.append("Invalid number: ");
                msg.append(v.as_str());
                return Err(ValidationError { msg });
            },
        },
        Err(e) => {
            return Err(e);
        },
    };
    let petit_au_bout = bool_form_value(form_data, "petitAuBout");
    let poignee = match reqd_form_value(form_data, "poignee") {
        Ok(v) => match Poignee::from_label(v.as_str()) {
            Ok(p) => p,
            Err(e) => {
                proof {
                    assert(forall|p: Poignee|
                        lower_of(field_of(fd, "poignee"@).unwrap()) != poignee_label(p));
                }
                return Err(e);
            },
        },
        Err(e) => {
            return Err(e);
        },
    };
    let chelem = match reqd_form_value(form_data, "chelem") {
        Ok(v) => match Chelem::from_label(v.as_str()) {
            Ok(c) => c,
            Err(e) => {
                proof {
                    assert(forall|c: Chelem|
                        lower_of(field_of(fd, "chelem"@).unwrap()) != chelem_label(c));
                }
                return Err(e);
            },
        },
        Err(e) => {
            return Err(e);
        },
    };
    // the roster is always inferred for a completed hand
    let mut players: Vec<String> = Vec::new();
    let nd2 = defence.len();
    let mut j: usize = 0;
    proof {
        assert(players.deep_view() =~= defence.deep_view().take(0));
    }
    while j < nd2
        invariant
            0 <= j <= nd2,
            players.deep_view() == defence.deep_view().take(j as int),
        decreases nd2 - j,
    {
        let ghost old_deep = players.deep_view();
        players.push(defence[j].clone());
        proof {
            assert(players.deep_view() =~= old_deep.push(defence.deep_view()[j as int]));
            assert(old_deep.push(defence.deep_view()[j as int]) =~= defence.deep_view().take(
                j as int + 1,
            ));
        }
        j = j + 1;
    }
    proof {
        assert(defence.deep_view().take(nd2 as int) =~= defence.deep_view());
    }
    let ghost base_roster = players.deep_view();
    players.push(bidder.clone());
    proof {
        assert(players.deep_view() =~= base_roster.push(bidder@));
    }
    let partner = match partner {
        Some(p) => {
            let ghost with_bidder = players.deep_view();
            players.push(p.clone());
            proof {
                assert(players.deep_view() =~= with_bidder.push(p@));
                assert(with_bidder.push(p@) =~= with_bidder + seq![p@]);
            }
            Some(p)
        },
        None => {
            proof {
                assert(players.deep_view() + Seq::<Seq<char>>::empty() =~= players.deep_view());
            }
            None
        },
    };
    Ok(
        CompletedHand {
            table,
            hand_number,
            players,
            bid,
            bidder,
            partner,
            defence,
            won,
            won_or_lost_by,
            petit_au_bout,
            poignee,
            chelem,
        },
    )
}

} // verus!
