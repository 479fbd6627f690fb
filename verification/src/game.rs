//! Domain vocabulary of a Tarot session — bids, bonuses, games and hands —
//! and the hand identity codec that addresses a hand by `number-table`.

use vstd::prelude::*;

use crate::num::{dec_rep, parse_int_spec};
use crate::num::{parse_i32, u32_decimal};
use crate::text::{find_char_idx, lower_invariant_char, lower_of, lowercase, str_eq};
use crate::text::{lemma_find_char_idx, lemma_find_char_idx_at};

verus! {

/// Error for a value that does not have the required shape (a label that is
/// not a known bid, a malformed hand key, a missing form field).
#[derive(Debug)]
pub struct ValidationError {
    pub msg: String,
}

impl ValidationError {
    /// The error rendered as one line of text.
    pub fn message(&self) -> (r: String)
        ensures
            r@ == "Invalid value: "@ + self.msg@,
    {
        let mut r = String::new();
        r.append("Invalid value: ");
        r.append(self.msg.as_str());
        r
    }
}

/// The level of commitment the taker declared before play.
#[derive(Debug, Clone, Copy, PartialEq, Eq, Structural)]
pub enum Bid {
    Petite,
    Garde,
    GardeSans,
    GardeContre,
}

/// Bonus for revealing a qualifying set of trump cards during play.
#[derive(Debug, Clone, Copy, PartialEq, Eq, Structural)]
pub enum Poignee {
    Aucune,
    Simple,
    Double,
    Triple,
}

/// Bonus for winning every trick of a round, announced beforehand or not.
/// A chelem that was announced and then missed is not representable; the
/// record keeps only the three successful-or-absent cases.
#[derive(Debug, Clone, Copy, PartialEq, Eq, Structural)]
pub enum Chelem {
    Aucun,
    NonAnnonce,
    Annonce,
}

/// The canonical lowercase label of a bid.
pub open spec fn bid_label(b: Bid) -> Seq<char> {
    match b {
        Bid::Petite => "petite"@,
        Bid::Garde => "garde"@,
        Bid::GardeSans => "garde sans"@,
        Bid::GardeContre => "garde contre"@,
    }
}

/// The canonical lowercase label of a poignée bonus.
pub open spec fn poignee_label(p: Poignee) -> Seq<char> {
    match p {
        Poignee::Aucune => "aucune"@,
        Poignee::Simple => "simple"@,
        Poignee::Double => "double"@,
        Poignee::Triple => "triple"@,
    }
}

/// The canonical lowercase label of a chelem bonus.
pub open spec fn chelem_label(c: Chelem) -> Seq<char> {
    match c {
        Chelem::Aucun => "aucun"@,
        Chelem::NonAnnonce => "non annoncé"@,
        Chelem::Annonce => "annoncé"@,
    }
}

impl Bid {
    /// The canonical label, the exact text the parser accepts.
    pub fn label(&self) -> (r: String)
        ensures
            r@ == bid_label(*self),
    {
        match self {
            Bid::Petite => String::from_str("petite"),
            Bid::Garde => String::from_str("garde"),
            Bid::GardeSans => String::from_str("garde sans"),
            Bid::GardeContre => String::from_str("garde contre"),
        }
    }

    /// Parses a bid from its label, after lowercasing the input.
    pub fn from_label(s: &str) -> (r: Result<Bid, ValidationError>)
        ensures
            match r {
                Ok(b) => lower_of(s@) == bid_label(b),
                Err(e) => e.msg@ == s@ && forall|b: Bid| lower_of(s@) != bid_label(b),
            },
            (forall|i: int| 0 <= i < s@.len() ==> lower_invariant_char(s@[i])) ==> match r {
                Ok(b) => s@ == bid_label(b),
                Err(_) => forall|b: Bid| s@ != bid_label(b),
            },
    {
        let low = lowercase(s);
        if str_eq(low.as_str(), "petite") {
            Ok(Bid::Petite)
        } else if str_eq(low.as_str(), "garde") {
            Ok(Bid::Garde)
        } else if str_eq(low.as_str(), "garde sans") {
            Ok(Bid::GardeSans)
        } else if str_eq(low.as_str(), "garde contre") {
            Ok(Bid::GardeContre)
        } else {
            proof {
                assert forall|b: Bid| lower_of(s@) != bid_label(b) by {
                    match b {
                        Bid::Petite => {},
                        Bid::Garde => {},
                        Bid::GardeSans => {},
                        Bid::GardeContre => {},
                    }
                }
            }
            Err(ValidationError { msg: s.to_owned() })
        }
    }
}

impl Poignee {
    /// The canonical label, the exact text the parser accepts.
    pub fn label(&self) -> (r: String)
        ensures
            r@ == poignee_label(*self),
    {
        match self {
            Poignee::Aucune => String::from_str("aucune"),
            Poignee::Simple => String::from_str("simple"),
            Poignee::Double => String::from_str("double"),
            Poignee::Triple => String::from_str("triple"),
        }
    }

    /// Parses a poignée bonus from its label, after lowercasing the input.
    pub fn from_label(s: &str) -> (r: Result<Poignee, ValidationError>)
        ensures
            match r {
                Ok(p) => lower_of(s@) == poignee_label(p),
                Err(e) => e.msg@ == s@ && forall|p: Poignee| lower_of(s@) != poignee_label(p),
            },
            (forall|i: int| 0 <= i < s@.len() ==> lower_invariant_char(s@[i])) ==> match r {
                Ok(p) => s@ == poignee_label(p),
                Err(_) => forall|p: Poignee| s@ != poignee_label(p),
            },
    {
        let low = lowercase(s);
        if str_eq(low.as_str(), "aucune") {
            Ok(Poignee::Aucune)
        } else if str_eq(low.as_str(), "simple") {
            Ok(Poignee::Simple)
        } else if str_eq(low.as_str(), "double") {
            Ok(Poignee::Double)
        } else if str_eq(low.as_str(), "triple") {
            Ok(Poignee::Triple)
        } else {
            proof {
                assert forall|p: Poignee| lower_of(s@) != poignee_label(p) by {
                    match p {
                        Poignee::Aucune => {},
                        Poignee::Simple => {},
                        Poignee::Double => {},
                        Poignee::Triple => {},
                    }
                }
            }
            Err(ValidationError { msg: s.to_owned() })
        }
    }
}

impl Chelem {
    /// The canonical label, the exact text the parser accepts.
    pub fn label(&self) -> (r: String)
        ensures
            r@ == chelem_label(*self),
    {
        match self {
            Chelem::Aucun => String::from_str("aucun"),
            Chelem::NonAnnonce => String::from_str("non annoncé"),
            Chelem::Annonce => String::from_str("annoncé"),
        }
    }

    /// Parses a chelem bonus from its label, after lowercasing the input.
    pub fn from_label(s: &str) -> (r: Result<Chelem, ValidationError>)
        ensures
            match r {
                Ok(c) => lower_of(s@) == chelem_label(c),
                Err(e) => e.msg@ == s@ && forall|c: Chelem| lower_of(s@) != chelem_label(c),
            },
            (forall|i: int| 0 <= i < s@.len() ==> lower_invariant_char(s@[i])) ==> match r {
                Ok(c) => s@ == chelem_label(c),
                Err(_) => forall|c: Chelem| s@ != chelem_label(c),
            },
    {
        let low = lowercase(s);
        if str_eq(low.as_str(), "aucun") {
            Ok(Chelem::Aucun)
        } else if str_eq(low.as_str(), "non annoncé") {
            Ok(Chelem::NonAnnonce)
        } else if str_eq(low.as_str(), "annoncé") {
            Ok(Chelem::Annonce)
        } else {
            proof {
                assert forall|c: Chelem| lower_of(s@) != chelem_label(c) by {
                    match c {
                        Chelem::Aucun => {},
                        Chelem::NonAnnonce => {},
                        Chelem::Annonce => {},
                    }
                }
            }
            Err(ValidationError { msg: s.to_owned() })
        }
    }
}

/// One session: who hosted it, who plays, and at which tables.
#[derive(Debug, Clone)]
pub struct Game {
    pub game_id: String,
    pub date: String,
    pub host: String,
    pub players: Vec<String>,
    pub tables: Vec<String>,
}

/// One scored round, immutable once recorded.
#[derive(Debug, Clone)]
pub struct CompletedHand {
    pub table: String,
    pub hand_number: i32,
    pub players: Vec<String>,
    pub bid: Bid,
    pub bidder: String,
    pub partner: Option<String>,
    pub defence: Vec<String>,
    pub won: bool,
    pub won_or_lost_by: i32,
    pub petit_au_bout: bool,
    pub poignee: Poignee,
    pub chelem: Chelem,
}

impl CompletedHand {
    /// The names of the defending players.
    pub open spec fn defence_names(self) -> Seq<Seq<char>> {
        self.defence.deep_view()
    }

    /// The full roster of the hand.
    pub open spec fn player_names(self) -> Seq<Seq<char>> {
        self.players.deep_view()
    }

    /// Structural validity of a recorded hand: the margin is not negative;
    /// the defence is non-empty and free of duplicates; the bidder is not a
    /// defender; a partner, only meaningful at a five-player table, is
    /// neither the bidder nor a defender; and the roster is exactly the
    /// union of bidder, optional partner and defence, with four or five
    /// distinct players.
    pub open spec fn wf(self) -> bool {
        &&& self.won_or_lost_by >= 0
        &&& self.defence_names().len() > 0
        &&& self.defence_names().no_duplicates()
        &&& !self.defence_names().contains(self.bidder@)
        &&& match self.partner {
            Some(p) => {
                &&& p@ != self.bidder@
                &&& !self.defence_names().contains(p@)
                &&& self.player_names().len() == 5
            },
            None => true,
        }
        &&& self.player_names().no_duplicates()
        &&& self.player_names().to_set() == match self.partner {
            Some(p) => self.defence_names().to_set().insert(self.bidder@).insert(p@),
            None => self.defence_names().to_set().insert(self.bidder@),
        }
        &&& (self.player_names().len() == 4 || self.player_names().len() == 5)
    }
}

/// The position of the first `-` in `s`, or `-1` when there is none.
pub open spec fn sep_idx(s: Seq<char>) -> int {
    find_char_idx(s, '-')
}

/// The key that addresses a hand: the sequence number, zero-padded to at
/// least two digits, then `-`, then the table name.
pub open spec fn key_of(n: int, t: Seq<char>) -> Seq<char>
    recommends
        0 <= n,
{
    padded_rep(n) + seq!['-'] + t
}

/// The decimal digits of `n`, padded with `0` to at least two characters.
pub open spec fn padded_rep(n: int) -> Seq<char>
    recommends
        0 <= n,
{
    if dec_rep(n as nat).len() < 2 {
        seq!['0'] + dec_rep(n as nat)
    } else {
        dec_rep(n as nat)
    }
}

/// What decoding a hand key yields: the text before the first `-` read as a
/// number, and the text after it as the table name; nothing when there is
/// no `-` or the number does not parse.
pub open spec fn decode_key(s: Seq<char>) -> Option<(int, Seq<char>)> {
    if sep_idx(s) < 0 {
        None
    } else {
        match parse_int_spec(s.take(sep_idx(s))) {
            Some(v) => Some((v, s.skip(sep_idx(s) + 1))),
            None => None,
        }
    }
}

/// Builds the key that addresses a hand: `03-Atout` for hand 3 at table
/// `Atout`.
pub fn hand_id(hand_number: i32, table: &str) -> (r: String)
    requires
        0 <= hand_number,
    ensures
        r@ == key_of(hand_number as int, table@),
{
    let digits = u32_decimal(hand_number as u32);
    let mut r = String::new();
    proof {
        reveal_strlit("0");
        reveal_strlit("-");
        assert("0"@ =~= seq!['0']);
        assert("-"@ =~= seq!['-']);
        crate::num::lemma_dec_rep_val(hand_number as nat);
    }
    if hand_number < 10 {
        r.append("0");
    }
    r.append(digits.as_str());
    r.append("-");
    r.append(table);
    proof {
        assert(r@ =~= key_of(hand_number as int, table@));
    }
    r
}

/// Reads a hand key back into its sequence number and table name. Fails
/// when the `-` separator is absent or the part before it does not parse
/// as a number.
#[verifier::loop_isolation(false)]
pub fn hand_number_and_table(hand_id: &str) -> (r: Result<(i32, String), ValidationError>)
    ensures
        match r {
            Ok((n, t)) => decode_key(hand_id@) == Some((n as int, t@)),
            Err(_) => decode_key(hand_id@) is None,
        },
{
    let len = hand_id.unicode_len();
    let mut i: usize = 0;
    while i < len && hand_id.get_char(i) != '-'
        invariant
            0 <= i <= len,
            forall|j: int| 0 <= j < i ==> hand_id@[j] != '-',
        decreases len - i,
    {
        i = i + 1;
    }
    if i == len {
        proof {
            lemma_find_char_idx(hand_id@, '-');
            if sep_idx(hand_id@) >= 0 {
                assert(hand_id@[sep_idx(hand_id@)] == '-');
            }
        }
        let mut msg = String::new();
        msg.append("Invalid hand id: ");
        msg.append(hand_id);
        return Err(ValidationError { msg });
    }
    proof {
        lemma_find_char_idx_at(hand_id@, '-', i as int);
    }
    let left = hand_id.substring_char(0, i);
    let right = hand_id.substring_char(i + 1, len);
    proof {
        assert(left@ =~= hand_id@.take(i as int));
        assert(right@ =~= hand_id@.skip(i as int + 1));
    }
    match parse_i32(left) {
        Some(n) => Ok((n, right.to_owned())),
        None => {
            let mut msg = String::new();
            msg.append("Invalid hand number: ");
            msg.append(left);
            Err(ValidationError { msg })
        },
    }
}

impl CompletedHand {
    /// The key under which this hand is addressed.
    pub fn hand_id(&self) -> (r: String)
        requires
            0 <= self.hand_number,
        ensures
            r@ == key_of(self.hand_number as int, self.table@),
    {
        hand_id(self.hand_number, self.table.as_str())
    }
}

/// Round trip of the hand identity codec: a key built from a non-negative
/// sequence number and a table name without `-` decodes to exactly that
/// pair.
pub proof fn lemma_hand_key_round_trip(n: int, t: Seq<char>)
    requires
        0 <= n <= i32::MAX,
        forall|i: int| 0 <= i < t.len() ==> t[i] != '-',
    ensures
        decode_key(key_of(n, t)) == Some((n, t)),
{
    let d = padded_rep(n);
    let key = key_of(n, t);
    crate::num::lemma_dec_rep_val(n as nat);
    assert(crate::num::all_digits(d)) by {
        assert forall|i: int| 0 <= i < d.len() implies crate::num::is_digit_char(
            #[trigger] d[i],
        ) by {
            if dec_rep(n as nat).len() < 2 {
                if i > 0 {
                    assert(d[i] == dec_rep(n as nat)[i - 1]);
                }
            }
        }
    }
    assert forall|i: int| 0 <= i < d.len() implies #[trigger] d[i] != '-' by {
        assert(crate::num::is_digit_char(d[i]));
        assert('-' as u32 == 45);
    }
    assert(key[d.len() as int] == '-');
    assert forall|i: int| 0 <= i < d.len() implies #[trigger] key[i] != '-' by {
        assert(key[i] == d[i]);
    }
    lemma_find_char_idx_at(key, '-', d.len() as int);
    assert(key.take(d.len() as int) =~= d);
    assert(key.skip(d.len() as int + 1) =~= t);
    // the padded digits parse back to n
    assert(d[0] != '-' && d[0] != '+') by {
        assert(crate::num::is_digit_char(d[0]));
        assert('-' as u32 == 45);
        assert('+' as u32 == 43);
    }
    if dec_rep(n as nat).len() < 2 {
        assert(d =~= seq!['0'] + dec_rep(n as nat));
        assert(forall|i: int|
            0 <= i < seq!['0'].len() ==> #[trigger] seq!['0'][i] as u32 == 48);
        crate::num::lemma_digits_val_strip_zeros(seq!['0'], dec_rep(n as nat));
        assert(crate::num::digits_val(d) == n);
    } else {
        assert(crate::num::digits_val(d) == n);
    }
    assert(parse_int_spec(d) == Some(n));
}

} // verus!
