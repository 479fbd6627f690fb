//! The scoring engine: one hand becomes a zero-sum distribution of points
//! over the players at the table.

use vstd::prelude::*;

use crate::game::{Bid, Chelem, CompletedHand, Poignee};
use crate::scores::{
    abs_val, add_entries, add_names, keys_distinct, lookup, lookup0, put, put_all, sum_abs,
    sum_values, values_bounded, Scores,
};
use crate::scores::{as_map, key_sum, occ};
use crate::scores::{
    lemma_add_entries_lookup, lemma_add_names_lookup, lemma_key_sum_absent, lemma_occ_absent,
};
use crate::scores::{
    lemma_add_entries_push, lemma_add_names_push, lemma_add_put_bounded, lemma_empty_table,
    lemma_lookup0_bounded, lemma_put_all_distinct, lemma_put_all_fresh_sum, lemma_put_all_lookup,
    lemma_put_all_push, lemma_put_all_sum_abs, lemma_put_distinct, lemma_put_lookup, lemma_put_sum,
    lemma_sum_abs_nonneg, lemma_sum_push, lemma_sum_split,
};

verus! {

/// The stake multiplier of a bid.
pub open spec fn bid_multiplier(b: Bid) -> int {
    match b {
        Bid::Petite => 1,
        Bid::Garde => 2,
        Bid::GardeSans => 4,
        Bid::GardeContre => 6,
    }
}

/// The bonus points of a poignée.
pub open spec fn poignee_value(p: Poignee) -> int {
    match p {
        Poignee::Aucune => 0,
        Poignee::Simple => 20,
        Poignee::Double => 30,
        Poignee::Triple => 40,
    }
}

/// The bonus points of a chelem.
pub open spec fn chelem_value(c: Chelem) -> int {
    match c {
        Chelem::Aucun => 0,
        Chelem::NonAnnonce => 200,
        Chelem::Annonce => 400,
    }
}

impl Bid {
    /// The stake multiplier of this bid.
    pub fn multiplier(&self) -> (r: i32)
        ensures
            r as int == bid_multiplier(*self),
    {
        match self {
            Bid::Petite => 1,
            Bid::Garde => 2,
            Bid::GardeSans => 4,
            Bid::GardeContre => 6,
        }
    }
}

impl Poignee {
    /// The bonus points this poignée adds to the base.
    pub fn score(&self) -> (r: i32)
        ensures
            r as int == poignee_value(*self),
    {
        match self {
            Poignee::Aucune => 0,
            Poignee::Simple => 20,
            Poignee::Double => 30,
            Poignee::Triple => 40,
        }
    }
}

impl Chelem {
    /// The bonus points this chelem adds to the base.
    pub fn score(&self) -> (r: i32)
        ensures
            r as int == chelem_value(*self),
    {
        match self {
            Chelem::Aucun => 0,
            Chelem::NonAnnonce => 200,
            Chelem::Annonce => 400,
        }
    }
}

/// The margin-and-petit part of the base, before the multiplier.
pub open spec fn premultiplier(h: CompletedHand) -> int {
    25 + h.won_or_lost_by + if h.petit_au_bout {
        10int
    } else {
        0int
    }
}

/// The base score of a hand: margin and petit au bout times the bid's
/// multiplier, plus the flat bonuses.
pub open spec fn base_score(h: CompletedHand) -> int {
    premultiplier(h) * bid_multiplier(h.bid) + poignee_value(h.poignee) + chelem_value(h.chelem)
}

/// The base score signed for the bidding side: positive when it won.
pub open spec fn signed_base(h: CompletedHand) -> int {
    if h.won {
        base_score(h)
    } else {
        -base_score(h)
    }
}

/// The three recognized shapes of a round.
#[derive(Debug, Clone, Copy, PartialEq, Eq, Structural)]
pub enum RoundConfig {
    /// Five players at the table, the bidder called their own card: four
    /// defenders and no separate partner share.
    FivePlayerSolo,
    /// Five players at the table with a distinct called partner.
    FivePlayerWithPartner,
    /// Four players at the table, the bidder alone against three.
    FourPlayer,
}

/// Which configuration a hand falls under, if any, decided exactly as the
/// scoring dispatch reads the raw counts: five players with four defenders
/// first, then five players with a partner, then four players.
pub open spec fn config_of(h: CompletedHand) -> Option<RoundConfig> {
    if h.players@.len() == 5 && h.defence@.len() == 4 {
        Some(RoundConfig::FivePlayerSolo)
    } else if h.players@.len() == 5 && h.partner is Some {
        Some(RoundConfig::FivePlayerWithPartner)
    } else if h.players@.len() == 4 {
        Some(RoundConfig::FourPlayer)
    } else {
        None
    }
}

/// The share of the base the bidder receives, per configuration.
pub open spec fn bidder_weight(c: RoundConfig) -> int {
    match c {
        RoundConfig::FivePlayerSolo => 4,
        RoundConfig::FivePlayerWithPartner => 2,
        RoundConfig::FourPlayer => 3,
    }
}

/// The per-player point table of one hand: every defender owes one signed
/// base against the bidding side, the bidder takes the configuration's
/// share, and a called partner takes one; empty when no configuration fits.
pub open spec fn score_entries(h: CompletedHand) -> Seq<(Seq<char>, int)> {
    let sb = signed_base(h);
    let base_part = put_all(Seq::empty(), h.defence_names(), -sb);
    match config_of(h) {
        Some(RoundConfig::FivePlayerSolo) => put(base_part, h.bidder@, 4 * sb),
        Some(RoundConfig::FivePlayerWithPartner) => put(
            put(base_part, h.bidder@, 2 * sb),
            h.partner.unwrap()@,
            sb,
        ),
        Some(RoundConfig::FourPlayer) => put(base_part, h.bidder@, 3 * sb),
        None => Seq::empty(),
    }
}

/// A hand scores cleanly: it has a configuration and its table balances.
pub open spec fn hand_scored_ok(h: CompletedHand) -> bool {
    config_of(h) is Some && sum_values(score_entries(h)) == 0
}

/// The room the arithmetic of one hand needs: a non-negative margin, and
/// every value the computation touches — the base times the largest share,
/// and the balance check's running total over defenders and bidder — within
/// a 32-bit integer.
pub open spec fn arith_fits(h: CompletedHand) -> bool {
    &&& 0 <= h.won_or_lost_by
    &&& (h.defence@.len() + 4) * base_score(h) <= i32::MAX
}

/// Why a hand failed to score.
#[derive(Debug, Clone, Copy, PartialEq, Eq, Structural)]
pub enum ScoringError {
    /// The player, defender and partner counts match no known round shape.
    InvalidConfiguration { players: usize, defenders: usize, has_partner: bool },
    /// The per-player deltas did not balance: an internal defect, never
    /// accepted silently.
    ImbalancedScore { sum: i32 },
}

/// The exact error a failing hand produces.
pub open spec fn err_matches(h: CompletedHand, e: ScoringError) -> bool {
    match e {
        ScoringError::InvalidConfiguration { players, defenders, has_partner } => {
            &&& config_of(h) is None
            &&& players == h.players@.len()
            &&& defenders == h.defence@.len()
            &&& has_partner == (h.partner is Some)
        },
        ScoringError::ImbalancedScore { sum } => {
            &&& config_of(h) is Some
            &&& sum as int == sum_values(score_entries(h))
            &&& sum != 0
        },
    }
}

/// Resolves the round configuration from the raw counts of a hand.
pub fn round_config(hand: &CompletedHand) -> (r: Result<RoundConfig, ScoringError>)
    ensures
        match r {
            Ok(c) => config_of(*hand) == Some(c),
            Err(e) => config_of(*hand) is None && err_matches(*hand, e),
        },
{
    let np = hand.players.len();
    let nd = hand.defence.len();
    if np == 5 && nd == 4 {
        Ok(RoundConfig::FivePlayerSolo)
    } else if np == 5 && hand.partner.is_some() {
        Ok(RoundConfig::FivePlayerWithPartner)
    } else if np == 4 {
        Ok(RoundConfig::FourPlayer)
    } else {
        Err(
            ScoringError::InvalidConfiguration {
                players: np,
                defenders: nd,
                has_partner: hand.partner.is_some(),
            },
        )
    }
}

/// The base score is at least the flat 25 points.
pub proof fn lemma_base_positive(h: CompletedHand)
    requires
        0 <= h.won_or_lost_by,
    ensures
        base_score(h) >= 25,
        base_score(h) >= premultiplier(h),
        premultiplier(h) >= 25,
        poignee_value(h.poignee) >= 0,
        chelem_value(h.chelem) >= 0,
{
    let pre = premultiplier(h);
    assert(pre >= 25);
    assert(pre * bid_multiplier(h.bid) >= pre) by {
        match h.bid {
            Bid::Petite => {},
            Bid::Garde => {},
            Bid::GardeSans => {},
            Bid::GardeContre => {},
        }
    }
    assert(poignee_value(h.poignee) >= 0) by {
        match h.poignee {
            Poignee::Aucune => {},
            Poignee::Simple => {},
            Poignee::Double => {},
            Poignee::Triple => {},
        }
    }
    assert(chelem_value(h.chelem) >= 0) by {
        match h.chelem {
            Chelem::Aucun => {},
            Chelem::NonAnnonce => {},
            Chelem::Annonce => {},
        }
    }
}

/// What fits in the arithmetic when `arith_fits` holds.
pub proof fn lemma_fits_room(h: CompletedHand)
    requires
        arith_fits(h),
    ensures
        25 <= base_score(h),
        4 * base_score(h) <= i32::MAX,
        premultiplier(h) * bid_multiplier(h.bid) <= base_score(h),
        premultiplier(h) <= base_score(h),
{
    lemma_base_positive(h);
    let d = h.defence@.len() as int;
    assert((d + 4) * base_score(h) >= 4 * base_score(h)) by (nonlinear_arith)
        requires
            d >= 0,
            base_score(h) >= 0,
    ;
}

/// The sum of magnitudes of a hand's score table stays within the room that
/// `arith_fits` reserves: one base per defender and four for the bidding
/// side.
pub proof fn lemma_entries_abs(h: CompletedHand)
    requires
        0 <= h.won_or_lost_by,
    ensures
        sum_abs(score_entries(h)) <= (h.defence@.len() + 4) * base_score(h),
        keys_distinct(score_entries(h)),
{
    lemma_base_positive(h);
    let sb = signed_base(h);
    let b = base_score(h);
    let dn = h.defence_names();
    let d = dn.len() as int;
    let base_part = put_all(Seq::empty(), dn, -sb);
    lemma_empty_table(h.bidder@);
    assert(sum_abs(Seq::<(Seq<char>, int)>::empty()) == 0);
    lemma_put_all_sum_abs(Seq::empty(), dn, -sb);
    assert(abs_val(-sb) == b);
    assert(sum_abs(base_part) <= d * b);
    lemma_put_all_distinct(Seq::empty(), dn, -sb);
    match config_of(h) {
        Some(RoundConfig::FivePlayerSolo) => {
            lemma_put_sum(base_part, h.bidder@, 4 * sb);
            lemma_put_distinct(base_part, h.bidder@, 4 * sb);
            assert(abs_val(4 * sb) == 4 * b);
            assert(d * b + 4 * b <= (d + 4) * b) by (nonlinear_arith);
        },
        Some(RoundConfig::FivePlayerWithPartner) => {
            let s1 = put(base_part, h.bidder@, 2 * sb);
            lemma_put_sum(base_part, h.bidder@, 2 * sb);
            lemma_put_distinct(base_part, h.bidder@, 2 * sb);
            lemma_put_sum(s1, h.partner.unwrap()@, sb);
            lemma_put_distinct(s1, h.partner.unwrap()@, sb);
            assert(abs_val(2 * sb) == 2 * b);
            assert(abs_val(sb) == b);
            assert(d * b + 2 * b + b <= (d + 4) * b) by (nonlinear_arith)
                requires
                    b >= 0,
            ;
        },
        Some(RoundConfig::FourPlayer) => {
            lemma_put_sum(base_part, h.bidder@, 3 * sb);
            lemma_put_distinct(base_part, h.bidder@, 3 * sb);
            assert(abs_val(3 * sb) == 3 * b);
            assert(d * b + 3 * b <= (d + 4) * b) by (nonlinear_arith)
                requires
                    b >= 0,
            ;
        },
        None => {
            assert(sum_abs(Seq::<(Seq<char>, int)>::empty()) == 0);
            assert(0 <= (d + 4) * b) by (nonlinear_arith)
                requires
                    d >= 0,
                    b >= 0,
            ;
        },
    }
}

/// Zero-sum law: every structurally valid hand falls under one of the three
/// configurations, and its per-player deltas add up to exactly zero.
pub proof fn lemma_zero_sum(h: CompletedHand)
    requires
        h.wf(),
    ensures
        config_of(h) is Some,
        sum_values(score_entries(h)) == 0,
{
    broadcast use vstd::set::group_set_axioms;
    broadcast use vstd::seq_lib::seq_to_set_is_finite;

    let dn = h.defence_names();
    let pn = h.player_names();
    pn.unique_seq_to_set();
    dn.unique_seq_to_set();
    let bd = h.bidder@;
    let dset = dn.to_set();
    assert(!dset.contains(bd));
    let d = dn.len() as int;
    match h.partner {
        Some(pt) => {
            let p = pt@;
            assert(dset.insert(bd).len() == d + 1);
            assert(!dset.insert(bd).contains(p));
            assert(pn.to_set().len() == d + 2);
            assert(d == 3);
            assert(config_of(h) == Some(RoundConfig::FivePlayerWithPartner));
        },
        None => {
            assert(pn.to_set().len() == d + 1);
            assert(d == pn.len() - 1);
        },
    }
    let sb = signed_base(h);
    let base_part = put_all(Seq::empty(), dn, -sb);
    assert forall|i: int|
        0 <= i < dn.len() implies lookup(
        Seq::<(Seq<char>, int)>::empty(),
        #[trigger] dn[i],
    ) is None by {
        lemma_empty_table(dn[i]);
    }
    lemma_put_all_fresh_sum(Seq::empty(), dn, -sb);
    lemma_empty_table(bd);
    assert(sum_values(base_part) == d * (-sb));
    lemma_put_all_lookup(Seq::empty(), dn, -sb, bd);
    assert(lookup(base_part, bd) is None);
    match config_of(h) {
        Some(RoundConfig::FivePlayerSolo) => {
            assert(d == 4);
            lemma_put_sum(base_part, bd, 4 * sb);
            assert(sum_values(score_entries(h)) == 4 * (-sb) + 4 * sb);
        },
        Some(RoundConfig::FivePlayerWithPartner) => {
            let p = h.partner.unwrap()@;
            assert(d == 3);
            let s1 = put(base_part, bd, 2 * sb);
            lemma_put_sum(base_part, bd, 2 * sb);
            lemma_put_lookup(base_part, bd, 2 * sb, p);
            lemma_put_all_lookup(Seq::empty(), dn, -sb, p);
            lemma_empty_table(p);
            assert(p != bd);
            assert(!dn.contains(p));
            assert(lookup(s1, p) is None);
            lemma_put_sum(s1, p, sb);
            assert(sum_values(score_entries(h)) == 3 * (-sb) + 2 * sb + sb);
        },
        Some(RoundConfig::FourPlayer) => {
            assert(d == 3);
            lemma_put_sum(base_part, bd, 3 * sb);
            assert(sum_values(score_entries(h)) == 3 * (-sb) + 3 * sb);
        },
        None => {
            assert(false);
        },
    }
}

/// Scores one hand: computes the base from margin, petit au bout and
/// bonuses, distributes it over the players per the round configuration,
/// and checks that the distribution balances to zero before returning it.
#[verifier::loop_isolation(false)]
pub fn score(hand: &CompletedHand) -> (r: Result<Scores, ScoringError>)
    requires
        arith_fits(*hand),
    ensures
        match r {
            Ok(s) => {
                &&& config_of(*hand) is Some
                &&& s@ == score_entries(*hand)
                &&& sum_values(s@) == 0
                &&& s.wf()
            },
            Err(e) => err_matches(*hand, e),
        },
        hand.wf() ==> r is Ok,
{
    proof {
        lemma_fits_room(*hand);
    }
    let mult = hand.bid.multiplier();
    let petit: i32 = if hand.petit_au_bout {
        10
    } else {
        0
    };
    let base = (25 + hand.won_or_lost_by + petit) * mult + hand.poignee.score()
        + hand.chelem.score();
    proof {
        assert(base as int == base_score(*hand));
    }
    let ghost sb = signed_base(*hand);
    let ghost dn = hand.defence_names();
    let defender_delta: i32 = if hand.won {
        0 - base
    } else {
        base
    };
    proof {
        assert(defender_delta as int == -sb);
    }
    let mut scores = Scores::new();
    proof {
        assert(dn.take(0) =~= Seq::<Seq<char>>::empty());
    }
    let nd = hand.defence.len();
    let mut i: usize = 0;
    while i < nd
        invariant
            0 <= i <= nd,
            scores@ == put_all(Seq::empty(), dn.take(i as int), defender_delta as int),
            scores.wf(),
        decreases nd - i,
    {
        proof {
            lemma_put_all_push(
                Seq::empty(),
                dn.take(i as int),
                defender_delta as int,
                dn[i as int],
            );
            assert(dn.take(i as int).push(dn[i as int]) =~= dn.take(i as int + 1));
            assert(dn[i as int] == hand.defence@[i as int]@);
        }
        scores.put(hand.defence[i].clone(), defender_delta);
        i = i + 1;
    }
    proof {
        assert(dn.take(nd as int) =~= dn);
    }
    let signed: i32 = if hand.won {
        base
    } else {
        0 - base
    };
    proof {
        assert(signed as int == sb);
    }
    let cfg = match round_config(hand) {
        Ok(c) => c,
        Err(e) => {
            proof {
                if hand.wf() {
                    lemma_zero_sum(*hand);
                }
            }
            return Err(e);
        },
    };
    match cfg {
        RoundConfig::FivePlayerSolo => {
            scores.put(hand.bidder.clone(), 4 * signed);
        },
        RoundConfig::FivePlayerWithPartner => {
            scores.put(hand.bidder.clone(), 2 * signed);
            match &hand.partner {
                Some(p) => {
                    scores.put(p.clone(), signed);
                },
                None => {
                    proof {
                        assert(false);
                    }
                },
            }
        },
        RoundConfig::FourPlayer => {
            scores.put(hand.bidder.clone(), 3 * signed);
        },
    }
    proof {
        assert(scores@ == score_entries(*hand));
        lemma_entries_abs(*hand);
    }
    let total = scores.sum();
    if total != 0 {
        proof {
            if hand.wf() {
                lemma_zero_sum(*hand);
            }
        }
        return Err(ScoringError::ImbalancedScore { sum: total });
    }
    Ok(scores)
}


/// The arithmetic room one hand consumes in an aggregation: one base per
/// defender and four more for the bidding side.
pub open spec fn cost(h: CompletedHand) -> int {
    (h.defence@.len() + 4) * base_score(h)
}

/// The room a whole list of hands consumes.
pub open spec fn sum_costs(hs: Seq<CompletedHand>) -> int
    decreases hs.len(),
{
    if hs.len() == 0 {
        0
    } else {
        cost(hs[0]) + sum_costs(hs.drop_first())
    }
}

/// The running total of every hand's score table, oldest hand first.
pub open spec fn totals_of(hs: Seq<CompletedHand>) -> Seq<(Seq<char>, int)>
    decreases hs.len(),
{
    if hs.len() == 0 {
        Seq::empty()
    } else {
        add_entries(totals_of(hs.drop_last()), score_entries(hs.last()))
    }
}

/// How many hands each player appears in, counting every roster entry.
pub open spec fn counts_of(hs: Seq<CompletedHand>) -> Seq<(Seq<char>, int)>
    decreases hs.len(),
{
    if hs.len() == 0 {
        Seq::empty()
    } else {
        add_names(counts_of(hs.drop_last()), hs.last().player_names())
    }
}

/// The position of the first hand that does not score cleanly.
pub open spec fn first_bad(hs: Seq<CompletedHand>) -> int
    decreases hs.len(),
{
    if hs.len() == 0 {
        0
    } else if !hand_scored_ok(hs[0]) {
        0
    } else {
        1 + first_bad(hs.drop_first())
    }
}

/// A position whose earlier hands all score cleanly and that does not is
/// `first_bad`.
proof fn lemma_first_bad_at(hs: Seq<CompletedHand>, k: int)
    requires
        0 <= k < hs.len(),
        !hand_scored_ok(hs[k]),
        forall|i: int| 0 <= i < k ==> hand_scored_ok(#[trigger] hs[i]),
    ensures
        first_bad(hs) == k,
    decreases k,
{
    if k > 0 {
        let d = hs.drop_first();
        assert forall|i: int| 0 <= i < k - 1 implies hand_scored_ok(#[trigger] d[i]) by {
            assert(d[i] == hs[i + 1]);
        }
        assert(d[k - 1] == hs[k]);
        assert(hand_scored_ok(hs[0]));
        lemma_first_bad_at(d, k - 1);
    }
}

/// One hand's cost is at least one hundred points of room.
proof fn lemma_cost_lower(h: CompletedHand)
    requires
        0 <= h.won_or_lost_by,
    ensures
        cost(h) >= 100,
{
    lemma_base_positive(h);
    let d = h.defence@.len() as int;
    assert((d + 4) * base_score(h) >= 4 * 25) by (nonlinear_arith)
        requires
            d >= 0,
            base_score(h) >= 25,
    ;
}

/// Appending one hand extends the cost sum by that hand's cost.
proof fn lemma_sum_costs_push(hs: Seq<CompletedHand>, h: CompletedHand)
    ensures
        sum_costs(hs.push(h)) == sum_costs(hs) + cost(h),
    decreases hs.len(),
{
    if hs.len() == 0 {
        assert(hs.push(h)[0] == h);
        assert(hs.push(h).drop_first() =~= Seq::<CompletedHand>::empty());
        assert(sum_costs(hs.push(h).drop_first()) == 0);
    } else {
        assert(hs.push(h)[0] == hs[0]);
        assert(hs.push(h).drop_first() =~= hs.drop_first().push(h));
        lemma_sum_costs_push(hs.drop_first(), h);
    }
}

/// Stepping a prefix of the cost sum by one hand.
proof fn lemma_sum_costs_step(hs: Seq<CompletedHand>, k: int)
    requires
        0 <= k < hs.len(),
    ensures
        sum_costs(hs.take(k)) + cost(hs[k]) == sum_costs(hs.take(k + 1)),
{
    assert(hs.take(k).push(hs[k]) =~= hs.take(k + 1));
    lemma_sum_costs_push(hs.take(k), hs[k]);
}

/// A prefix of the cost sum holds at least one hundred points per hand.
proof fn lemma_sum_costs_lower(hs: Seq<CompletedHand>, k: int)
    requires
        0 <= k <= hs.len(),
        forall|i: int| 0 <= i < hs.len() ==> 0 <= (#[trigger] hs[i]).won_or_lost_by,
    ensures
        100 * k <= sum_costs(hs.take(k)),
    decreases k,
{
    if k == 0 {
        assert(hs.take(0) =~= Seq::<CompletedHand>::empty());
        assert(sum_costs(hs.take(0)) == 0);
    } else {
        lemma_sum_costs_lower(hs, k - 1);
        lemma_sum_costs_step(hs, k - 1);
        lemma_cost_lower(hs[k - 1]);
    }
}

/// A prefix of the cost sum never exceeds the whole list's sum.
proof fn lemma_sum_costs_upper(hs: Seq<CompletedHand>, k: int)
    requires
        0 <= k <= hs.len(),
        forall|i: int| 0 <= i < hs.len() ==> 0 <= (#[trigger] hs[i]).won_or_lost_by,
    ensures
        sum_costs(hs.take(k)) <= sum_costs(hs),
    decreases hs.len() - k,
{
    if k == hs.len() {
        assert(hs.take(k) =~= hs);
    } else {
        lemma_sum_costs_step(hs, k);
        lemma_cost_lower(hs[k]);
        lemma_sum_costs_upper(hs, k + 1);
    }
}

/// Scores a whole game, oldest hand first: each hand's own table, the
/// running totals, and how many hands each player appeared in. The first
/// hand that fails aborts the aggregation and its error is returned alone.
#[verifier::loop_isolation(false)]
pub fn score_hands(hands: Vec<CompletedHand>) -> (r: Result<
    (Vec<(CompletedHand, Scores)>, Scores, Scores),
    ScoringError,
>)
    requires
        forall|i: int| 0 <= i < hands@.len() ==> 0 <= (#[trigger] hands@[i]).won_or_lost_by,
        sum_costs(hands@) <= i32::MAX,
    ensures
        match r {
            Ok((pairs, totals, counts)) => {
                &&& forall|i: int|
                    0 <= i < hands@.len() ==> hand_scored_ok(#[trigger] hands@[i])
                &&& pairs@.len() == hands@.len()
                &&& forall|i: int| 0 <= i < hands@.len() ==> (#[trigger] pairs@[i]).0 == hands@[i]
                &&& forall|i: int|
                    0 <= i < hands@.len() ==> (#[trigger] pairs@[i]).1@ == score_entries(
                        hands@[i],
                    ) && pairs@[i].1.wf()
                &&& totals@ == totals_of(hands@)
                &&& totals.wf()
                &&& counts@ == counts_of(hands@)
                &&& counts.wf()
            },
            Err(e) => {
                &&& 0 <= first_bad(hands@) < hands@.len()
                &&& !hand_scored_ok(hands@[first_bad(hands@)])
                &&& forall|i: int|
                    0 <= i < first_bad(hands@) ==> hand_scored_ok(#[trigger] hands@[i])
                &&& err_matches(hands@[first_bad(hands@)], e)
            },
        },
{
    let ghost all = hands@;
    let mut rest = hands;
    let mut pairs: Vec<(CompletedHand, Scores)> = Vec::new();
    let mut totals = Scores::new();
    let mut counts = Scores::new();
    proof {
        assert(all.take(0) =~= Seq::<CompletedHand>::empty());
        assert(totals_of(all.take(0)) =~= Seq::<(Seq<char>, int)>::empty());
        assert(counts_of(all.take(0)) =~= Seq::<(Seq<char>, int)>::empty());
        assert(all.skip(0) =~= all);
    }
    while rest.len() > 0
        invariant
            pairs@.len() <= all.len(),
            rest@ =~= all.skip(pairs@.len() as int),
            forall|i: int|
                0 <= i < pairs@.len() ==> hand_scored_ok(#[trigger] all[i]),
            forall|i: int| 0 <= i < pairs@.len() ==> (#[trigger] pairs@[i]).0 == all[i],
            forall|i: int|
                0 <= i < pairs@.len() ==> (#[trigger] pairs@[i]).1@ == score_entries(all[i])
                    && pairs@[i].1.wf(),
            totals@ == totals_of(all.take(pairs@.len() as int)),
            totals.wf(),
            values_bounded(totals@, sum_costs(all.take(pairs@.len() as int))),
            counts@ == counts_of(all.take(pairs@.len() as int)),
            counts.wf(),
            values_bounded(counts@, sum_costs(all.take(pairs@.len() as int))),
        decreases rest@.len(),
    {
        let ghost k = pairs@.len() as int;
        proof {
            assert(rest@[0] == all[k]);
            lemma_sum_costs_step(all, k);
            lemma_sum_costs_lower(all, k);
            lemma_sum_costs_upper(all, k + 1);
            lemma_cost_lower(all[k]);
            assert(cost(all[k]) <= i32::MAX - sum_costs(all.take(k)));
            lemma_fits_room_from_cost(all[k]);
        }
        let sres = score(&rest[0]);
        let scores = match sres {
            Ok(s) => s,
            Err(e) => {
                proof {
                    lemma_first_bad_at(all, k);
                }
                return Err(e);
            },
        };
        let hand = rest.remove(0);
        proof {
            assert(hand == all[k]);
            assert(rest@ =~= all.skip(k + 1));
            lemma_entries_abs(all[k]);
        }
        // fold this hand's table into the running totals
        let ghost t0 = totals_of(all.take(k));
        let ghost es = score_entries(all[k]);
        let ghost bound0 = sum_costs(all.take(k));
        let ns = scores.len();
        let mut t: usize = 0;
        proof {
            assert(es.take(0) =~= Seq::<(Seq<char>, int)>::empty());
            lemma_sum_abs_nonneg(es.take(0));
        }
        while t < ns
            invariant
                0 <= t <= ns,
                totals@ == add_entries(t0, es.take(t as int)),
                totals.wf(),
                values_bounded(totals@, bound0 + sum_abs(es.take(t as int))),
                0 <= sum_abs(es.take(t as int)),
            decreases ns - t,
        {
            let (name, v) = scores.pair_at(t);
            proof {
                assert(es[t as int] == (name@, v as int));
                lemma_sum_split(es, t as int + 1);
                lemma_sum_abs_nonneg(es.skip(t as int + 1));
                lemma_sum_push(es.take(t as int), es[t as int]);
                assert(es.take(t as int).push(es[t as int]) =~= es.take(t as int + 1));
                lemma_add_entries_push(t0, es.take(t as int), es[t as int]);
                lemma_lookup0_bounded(totals@, name@, bound0 + sum_abs(es.take(t as int)));
                lemma_add_put_bounded(
                    totals@,
                    name@,
                    v as int,
                    bound0 + sum_abs(es.take(t as int)),
                    abs_val(v as int),
                );
            }
            totals.add_to(name, v);
            t = t + 1;
        }
        proof {
            assert(es.take(ns as int) =~= es);
            assert(all.take(k + 1).drop_last() =~= all.take(k));
            assert(all.take(k + 1).last() == all[k]);
            assert(totals@ == totals_of(all.take(k + 1)));
            assert(values_bounded(totals@, sum_costs(all.take(k + 1)))) by {
                assert(bound0 + sum_abs(es) <= sum_costs(all.take(k + 1)));
            }
        }
        // count this hand for every player on its roster
        let ghost c0 = counts_of(all.take(k));
        let ghost pn = all[k].player_names();
        let np = hand.players.len();
        proof {
            assert(hand.player_names() == pn);
            assert(pn.len() == 4 || pn.len() == 5);
        }
        let mut p: usize = 0;
        proof {
            assert(pn.take(0) =~= Seq::<Seq<char>>::empty());
        }
        while p < np
            invariant
                0 <= p <= np,
                counts@ == add_names(c0, pn.take(p as int)),
                counts.wf(),
                values_bounded(counts@, bound0 + p as int),
            decreases np - p,
        {
            proof {
                assert(pn[p as int] == hand.players@[p as int]@);
                assert(pn.take(p as int).push(pn[p as int]) =~= pn.take(p as int + 1));
                lemma_add_names_push(c0, pn.take(p as int), pn[p as int]);
                lemma_lookup0_bounded(counts@, pn[p as int], bound0 + p as int);
                lemma_add_put_bounded(counts@, pn[p as int], 1, bound0 + p as int, 1);
            }
            counts.add_to(hand.players[p].clone(), 1);
            p = p + 1;
        }
        proof {
            assert(pn.take(np as int) =~= pn);
            assert(counts@ == counts_of(all.take(k + 1)));
            assert(values_bounded(counts@, sum_costs(all.take(k + 1)))) by {
                assert(bound0 + np as int <= bound0 + 100);
                assert(bound0 + 100 <= sum_costs(all.take(k + 1)));
                assert forall|i: int|
                    0 <= i < counts@.len() implies abs_val((#[trigger] counts@[i]).1)
                    <= sum_costs(all.take(k + 1)) by {
                    assert(abs_val(counts@[i].1) <= bound0 + np as int);
                }
            }
        }
        pairs.push((hand, scores));
    }
    proof {
        assert(pairs@.len() == all.len());
        assert(all.take(all.len() as int) =~= all);
    }
    Ok((pairs, totals, counts))
}

/// `arith_fits` follows when the hand's cost has room under the 32-bit cap.
proof fn lemma_fits_room_from_cost(h: CompletedHand)
    requires
        0 <= h.won_or_lost_by,
        cost(h) <= i32::MAX,
    ensures
        arith_fits(h),
{
}


/// Where each player's delta in one hand's table comes from: the called
/// partner holds one signed base, the bidder the configuration's share, and
/// every defender the opposite of one signed base.
pub proof fn lemma_entries_lookup(h: CompletedHand, q: Seq<char>)
    requires
        config_of(h) is Some,
    ensures
        lookup(score_entries(h), q) == if config_of(h) == Some(RoundConfig::FivePlayerWithPartner)
            && q == h.partner.unwrap()@ {
            Some(signed_base(h))
        } else if q == h.bidder@ {
            Some(bidder_weight(config_of(h).unwrap()) * signed_base(h))
        } else if h.defence_names().contains(q) {
            Some(-signed_base(h))
        } else {
            None::<int>
        },
{
    let sb = signed_base(h);
    let dn = h.defence_names();
    let base_part = put_all(Seq::empty(), dn, -sb);
    lemma_put_all_lookup(Seq::empty(), dn, -sb, q);
    lemma_empty_table(q);
    match config_of(h).unwrap() {
        RoundConfig::FivePlayerSolo => {
            lemma_put_lookup(base_part, h.bidder@, 4 * sb, q);
        },
        RoundConfig::FivePlayerWithPartner => {
            let s1 = put(base_part, h.bidder@, 2 * sb);
            lemma_put_lookup(base_part, h.bidder@, 2 * sb, q);
            lemma_put_lookup(s1, h.partner.unwrap()@, sb, q);
        },
        RoundConfig::FourPlayer => {
            lemma_put_lookup(base_part, h.bidder@, 3 * sb, q);
        },
    }
}

/// How many signed bases one player's share weighs: the configuration's
/// share for the bidder, one for a defender or the called partner.
pub open spec fn role_weight(h: CompletedHand, q: Seq<char>) -> int {
    if config_of(h) == Some(RoundConfig::FivePlayerWithPartner) && q == h.partner.unwrap()@ {
        1
    } else if q == h.bidder@ {
        match config_of(h) {
            Some(c) => bidder_weight(c),
            None => 1,
        }
    } else {
        1
    }
}

/// Monotonic magnitude law: raising `won_or_lost_by` while holding every
/// other field fixed keeps the same configuration and the same set of paid
/// players, and grows each player's magnitude by exactly the margin
/// difference times the bid's multiplier, times the player's share weight.
pub proof fn lemma_margin_monotonic(h1: CompletedHand, h2: CompletedHand, q: Seq<char>)
    requires
        config_of(h1) is Some,
        0 <= h1.won_or_lost_by <= h2.won_or_lost_by,
        h2.table == h1.table,
        h2.hand_number == h1.hand_number,
        h2.players@ == h1.players@,
        h2.bid == h1.bid,
        h2.bidder == h1.bidder,
        h2.partner == h1.partner,
        h2.defence@ == h1.defence@,
        h2.won == h1.won,
        h2.petit_au_bout == h1.petit_au_bout,
        h2.poignee == h1.poignee,
        h2.chelem == h1.chelem,
    ensures
        config_of(h2) == config_of(h1),
        lookup(score_entries(h2), q) is Some <==> lookup(score_entries(h1), q) is Some,
        lookup(score_entries(h1), q) is Some ==> abs_val(lookup0(score_entries(h2), q)) == abs_val(
            lookup0(score_entries(h1), q),
        ) + role_weight(h1, q) * ((h2.won_or_lost_by - h1.won_or_lost_by) * bid_multiplier(
            h1.bid,
        )),
{
    lemma_base_positive(h1);
    lemma_base_positive(h2);
    assert(h2.defence_names() =~= h1.defence_names());
    assert(config_of(h2) == config_of(h1));
    let d = h2.won_or_lost_by - h1.won_or_lost_by;
    let m = bid_multiplier(h1.bid);
    let b1 = base_score(h1);
    let b2 = base_score(h2);
    assert(m >= 1) by {
        match h1.bid {
            Bid::Petite => {},
            Bid::Garde => {},
            Bid::GardeSans => {},
            Bid::GardeContre => {},
        }
    }
    assert(b2 == b1 + d * m) by {
        assert(premultiplier(h2) == premultiplier(h1) + d);
        assert((premultiplier(h1) + d) * m == premultiplier(h1) * m + d * m) by (nonlinear_arith);
    }
    assert(d * m >= 0) by (nonlinear_arith)
        requires
            d >= 0,
            m >= 1,
    ;
    lemma_entries_lookup(h1, q);
    lemma_entries_lookup(h2, q);
    if lookup(score_entries(h1), q) is Some {
        let c = config_of(h1).unwrap();
        let w = bidder_weight(c);
        if config_of(h1) == Some(RoundConfig::FivePlayerWithPartner) && q
            == h1.partner.unwrap()@ {
            assert(abs_val(signed_base(h1)) == b1);
            assert(abs_val(signed_base(h2)) == b2);
            assert(abs_val(signed_base(h2)) == abs_val(signed_base(h1)) + 1 * (d * m));
        } else if q == h1.bidder@ {
            assert(abs_val(w * signed_base(h2)) == abs_val(w * signed_base(h1)) + w * (d * m))
                by {
                match c {
                    RoundConfig::FivePlayerSolo => {},
                    RoundConfig::FivePlayerWithPartner => {},
                    RoundConfig::FourPlayer => {},
                }
            }
        } else {
            assert(abs_val(-signed_base(h2)) == abs_val(-signed_base(h1)) + 1 * (d * m));
        }
    }
}

/// The delta one hand assigns to player `q`, zero when the hand does not
/// pay `q`.
pub open spec fn hand_delta(h: CompletedHand, q: Seq<char>) -> int {
    key_sum(score_entries(h), q)
}

/// Whether any hand's score table mentions player `q`.
pub open spec fn appears(hs: Seq<CompletedHand>, q: Seq<char>) -> bool {
    exists|i: int| 0 <= i < hs.len() && lookup(#[trigger] score_entries(hs[i]), q) is Some
}

/// The total delta the hands assign to player `q`.
pub open spec fn delta_total(hs: Seq<CompletedHand>, q: Seq<char>) -> int
    decreases hs.len(),
{
    if hs.len() == 0 {
        0
    } else {
        delta_total(hs.drop_last(), q) + hand_delta(hs.last(), q)
    }
}

/// Whether any hand's roster mentions player `q`.
pub open spec fn appears_roster(hs: Seq<CompletedHand>, q: Seq<char>) -> bool {
    exists|i: int| 0 <= i < hs.len() && (#[trigger] hs[i].player_names()).contains(q)
}

/// How many roster entries across the hands name player `q`.
pub open spec fn count_total(hs: Seq<CompletedHand>, q: Seq<char>) -> int
    decreases hs.len(),
{
    if hs.len() == 0 {
        0
    } else {
        count_total(hs.drop_last(), q) + occ(hs.last().player_names(), q)
    }
}

/// A player no table mentions totals zero.
proof fn lemma_delta_absent(hs: Seq<CompletedHand>, q: Seq<char>)
    requires
        !appears(hs, q),
    ensures
        delta_total(hs, q) == 0,
    decreases hs.len(),
{
    if hs.len() > 0 {
        let d = hs.drop_last();
        assert(!appears(d, q)) by {
            if appears(d, q) {
                let i = choose|i: int|
                    0 <= i < d.len() && lookup(#[trigger] score_entries(d[i]), q) is Some;
                assert(hs[i] == d[i]);
                assert(lookup(score_entries(hs[i]), q) is Some);
            }
        }
        assert(lookup(score_entries(hs.last()), q) is None) by {
            assert(hs[hs.len() - 1] == hs.last());
            if lookup(score_entries(hs.last()), q) is Some {
                assert(lookup(score_entries(hs[hs.len() - 1]), q) is Some);
            }
        }
        lemma_key_sum_absent(score_entries(hs.last()), q);
        lemma_delta_absent(d, q);
    }
}

/// A player no roster mentions counts zero.
proof fn lemma_count_absent(hs: Seq<CompletedHand>, q: Seq<char>)
    requires
        !appears_roster(hs, q),
    ensures
        count_total(hs, q) == 0,
    decreases hs.len(),
{
    if hs.len() > 0 {
        let d = hs.drop_last();
        assert(!appears_roster(d, q)) by {
            if appears_roster(d, q) {
                let i = choose|i: int|
                    0 <= i < d.len() && (#[trigger] d[i].player_names()).contains(q);
                assert(hs[i] == d[i]);
                assert(hs[i].player_names().contains(q));
            }
        }
        assert(!hs.last().player_names().contains(q)) by {
            assert(hs[hs.len() - 1] == hs.last());
            if hs.last().player_names().contains(q) {
                assert(hs[hs.len() - 1].player_names().contains(q));
            }
        }
        lemma_occ_absent(hs.last().player_names(), q);
        lemma_count_absent(d, q);
    }
}

/// What the running totals hold for each player: present exactly when some
/// hand pays the player, with the sum of that player's deltas.
pub proof fn lemma_totals_lookup(hs: Seq<CompletedHand>, q: Seq<char>)
    ensures
        lookup(totals_of(hs), q) == if appears(hs, q) {
            Some(delta_total(hs, q))
        } else {
            None::<int>
        },
    decreases hs.len(),
{
    if hs.len() == 0 {
        lemma_empty_table(q);
        assert(!appears(hs, q));
    } else {
        let d = hs.drop_last();
        let es = score_entries(hs.last());
        lemma_totals_lookup(d, q);
        lemma_add_entries_lookup(totals_of(d), es, q);
        assert(appears(hs, q) <==> (appears(d, q) || lookup(es, q) is Some)) by {
            if appears(hs, q) {
                let i = choose|i: int|
                    0 <= i < hs.len() && lookup(#[trigger] score_entries(hs[i]), q) is Some;
                if i < hs.len() - 1 {
                    assert(d[i] == hs[i]);
                    assert(lookup(score_entries(d[i]), q) is Some);
                } else {
                    assert(hs[i] == hs.last());
                }
            }
            if appears(d, q) {
                let i = choose|i: int|
                    0 <= i < d.len() && lookup(#[trigger] score_entries(d[i]), q) is Some;
                assert(hs[i] == d[i]);
                assert(lookup(score_entries(hs[i]), q) is Some);
            }
            if lookup(es, q) is Some {
                assert(hs[hs.len() - 1] == hs.last());
                assert(lookup(score_entries(hs[hs.len() - 1]), q) is Some);
            }
        }
        if appears(hs, q) {
            if !appears(d, q) {
                lemma_delta_absent(d, q);
            }
            if lookup(es, q) is None {
                lemma_key_sum_absent(es, q);
            }
        }
    }
}

/// What the hand counts hold for each player: present exactly when some
/// roster names the player, with one point per roster entry.
pub proof fn lemma_counts_lookup(hs: Seq<CompletedHand>, q: Seq<char>)
    ensures
        lookup(counts_of(hs), q) == if appears_roster(hs, q) {
            Some(count_total(hs, q))
        } else {
            None::<int>
        },
    decreases hs.len(),
{
    if hs.len() == 0 {
        lemma_empty_table(q);
        assert(!appears_roster(hs, q));
    } else {
        let d = hs.drop_last();
        let pn = hs.last().player_names();
        lemma_counts_lookup(d, q);
        lemma_add_names_lookup(counts_of(d), pn, q);
        assert(appears_roster(hs, q) <==> (appears_roster(d, q) || pn.contains(q))) by {
            if appears_roster(hs, q) {
                let i = choose|i: int|
                    0 <= i < hs.len() && (#[trigger] hs[i].player_names()).contains(q);
                if i < hs.len() - 1 {
                    assert(d[i] == hs[i]);
                    assert(d[i].player_names().contains(q));
                } else {
                    assert(hs[i] == hs.last());
                }
            }
            if appears_roster(d, q) {
                let i = choose|i: int|
                    0 <= i < d.len() && (#[trigger] d[i].player_names()).contains(q);
                assert(hs[i] == d[i]);
                assert(hs[i].player_names().contains(q));
            }
            if pn.contains(q) {
                assert(hs[hs.len() - 1] == hs.last());
                assert(hs[hs.len() - 1].player_names().contains(q));
            }
        }
        if appears_roster(hs, q) {
            if !appears_roster(d, q) {
                lemma_count_absent(d, q);
            }
            if !pn.contains(q) {
                lemma_occ_absent(pn, q);
            }
        }
    }
}

/// Per-player deltas add over concatenation.
proof fn lemma_delta_total_concat(a: Seq<CompletedHand>, b: Seq<CompletedHand>, q: Seq<char>)
    ensures
        delta_total(a + b, q) == delta_total(a, q) + delta_total(b, q),
    decreases b.len(),
{
    if b.len() == 0 {
        assert(a + b =~= a);
    } else {
        assert((a + b).drop_last() =~= a + b.drop_last());
        assert((a + b).last() == b.last());
        lemma_delta_total_concat(a, b.drop_last(), q);
    }
}

/// Per-player counts add over concatenation.
proof fn lemma_count_total_concat(a: Seq<CompletedHand>, b: Seq<CompletedHand>, q: Seq<char>)
    ensures
        count_total(a + b, q) == count_total(a, q) + count_total(b, q),
    decreases b.len(),
{
    if b.len() == 0 {
        assert(a + b =~= a);
    } else {
        assert((a + b).drop_last() =~= a + b.drop_last());
        assert((a + b).last() == b.last());
        lemma_count_total_concat(a, b.drop_last(), q);
    }
}

/// Taking one hand out takes exactly its delta out of the total.
proof fn lemma_delta_total_remove(hs: Seq<CompletedHand>, i: int, q: Seq<char>)
    requires
        0 <= i < hs.len(),
    ensures
        delta_total(hs.remove(i), q) + hand_delta(hs[i], q) == delta_total(hs, q),
{
    let a = hs.take(i);
    let b = hs.skip(i + 1);
    let mid = seq![hs[i]];
    assert(hs.remove(i) =~= a + b);
    assert(hs =~= (a + mid) + b);
    lemma_delta_total_concat(a, b, q);
    lemma_delta_total_concat(a + mid, b, q);
    lemma_delta_total_concat(a, mid, q);
    assert(delta_total(mid, q) == hand_delta(hs[i], q)) by {
        assert(mid.drop_last() =~= Seq::<CompletedHand>::empty());
        assert(delta_total(Seq::<CompletedHand>::empty(), q) == 0);
        assert(mid.last() == hs[i]);
    }
}

/// Taking one hand out takes exactly its roster's occurrences out of the
/// count.
proof fn lemma_count_total_remove(hs: Seq<CompletedHand>, i: int, q: Seq<char>)
    requires
        0 <= i < hs.len(),
    ensures
        count_total(hs.remove(i), q) + occ(hs[i].player_names(), q) == count_total(hs, q),
{
    let a = hs.take(i);
    let b = hs.skip(i + 1);
    let mid = seq![hs[i]];
    assert(hs.remove(i) =~= a + b);
    assert(hs =~= (a + mid) + b);
    lemma_count_total_concat(a, b, q);
    lemma_count_total_concat(a + mid, b, q);
    lemma_count_total_concat(a, mid, q);
    assert(count_total(mid, q) == occ(hs[i].player_names(), q)) by {
        assert(mid.drop_last() =~= Seq::<CompletedHand>::empty());
        assert(count_total(Seq::<CompletedHand>::empty(), q) == 0);
        assert(mid.last() == hs[i]);
    }
}

/// The total delta of a player does not depend on the order of the hands.
proof fn lemma_delta_total_permutation(
    hs1: Seq<CompletedHand>,
    hs2: Seq<CompletedHand>,
    q: Seq<char>,
)
    requires
        hs1.to_multiset() == hs2.to_multiset(),
    ensures
        delta_total(hs1, q) == delta_total(hs2, q),
        count_total(hs1, q) == count_total(hs2, q),
    decreases hs1.len(),
{
    broadcast use vstd::seq_lib::group_to_multiset_ensures;
    broadcast use vstd::multiset::group_multiset_axioms;

    hs1.to_multiset_ensures();
    hs2.to_multiset_ensures();
    if hs1.len() == 0 {
        assert(hs2.len() == 0);
    } else {
        let e = hs1.last();
        assert(hs1.contains(e));
        assert(hs1.to_multiset().count(e) > 0);
        assert(hs2.to_multiset().count(e) > 0);
        assert(hs2.contains(e));
        let j = choose|j: int| 0 <= j < hs2.len() && hs2[j] == e;
        assert(hs1.remove(hs1.len() - 1).to_multiset() =~= hs1.to_multiset().remove(e));
        assert(hs2.remove(j).to_multiset() =~= hs2.to_multiset().remove(e));
        assert(hs1.remove(hs1.len() - 1) =~= hs1.drop_last());
        assert(hs1.drop_last().to_multiset() == hs2.remove(j).to_multiset());
        lemma_delta_total_permutation(hs1.drop_last(), hs2.remove(j), q);
        lemma_delta_total_remove(hs2, j, q);
        lemma_count_total_remove(hs2, j, q);
    }
}

/// Whether a player is mentioned at all does not depend on the order.
proof fn lemma_appears_permutation(hs1: Seq<CompletedHand>, hs2: Seq<CompletedHand>, q: Seq<char>)
    requires
        hs1.to_multiset() == hs2.to_multiset(),
    ensures
        appears(hs1, q) <==> appears(hs2, q),
        appears_roster(hs1, q) <==> appears_roster(hs2, q),
{
    broadcast use vstd::seq_lib::group_to_multiset_ensures;

    hs1.to_multiset_ensures();
    hs2.to_multiset_ensures();
    if appears(hs1, q) {
        let i = choose|i: int|
            0 <= i < hs1.len() && lookup(#[trigger] score_entries(hs1[i]), q) is Some;
        assert(hs1.contains(hs1[i]));
        assert(hs2.to_multiset().count(hs1[i]) > 0);
        assert(hs2.contains(hs1[i]));
        let j = choose|j: int| 0 <= j < hs2.len() && hs2[j] == hs1[i];
        assert(lookup(score_entries(hs2[j]), q) is Some);
    }
    if appears(hs2, q) {
        let i = choose|i: int|
            0 <= i < hs2.len() && lookup(#[trigger] score_entries(hs2[i]), q) is Some;
        assert(hs2.contains(hs2[i]));
        assert(hs1.to_multiset().count(hs2[i]) > 0);
        assert(hs1.contains(hs2[i]));
        let j = choose|j: int| 0 <= j < hs1.len() && hs1[j] == hs2[i];
        assert(lookup(score_entries(hs1[j]), q) is Some);
    }
    if appears_roster(hs1, q) {
        let i = choose|i: int| 0 <= i < hs1.len() && (#[trigger] hs1[i].player_names()).contains(q);
        assert(hs1.contains(hs1[i]));
        assert(hs2.to_multiset().count(hs1[i]) > 0);
        assert(hs2.contains(hs1[i]));
        let j = choose|j: int| 0 <= j < hs2.len() && hs2[j] == hs1[i];
        assert(hs2[j].player_names().contains(q));
    }
    if appears_roster(hs2, q) {
        let i = choose|i: int| 0 <= i < hs2.len() && (#[trigger] hs2[i].player_names()).contains(q);
        assert(hs2.contains(hs2[i]));
        assert(hs1.to_multiset().count(hs2[i]) > 0);
        assert(hs1.contains(hs2[i]));
        let j = choose|j: int| 0 <= j < hs1.len() && hs1[j] == hs2[i];
        assert(hs1[j].player_names().contains(q));
    }
}

/// Order independence law: two games that play the same hands, in whatever
/// order, end with the same total-score map and the same hand-count map.
pub proof fn lemma_order_independent(hs1: Seq<CompletedHand>, hs2: Seq<CompletedHand>)
    requires
        hs1.to_multiset() == hs2.to_multiset(),
    ensures
        as_map(totals_of(hs1)) == as_map(totals_of(hs2)),
        as_map(counts_of(hs1)) == as_map(counts_of(hs2)),
{
    let t1 = as_map(totals_of(hs1));
    let t2 = as_map(totals_of(hs2));
    assert(t1 =~= t2) by {
        assert forall|q: Seq<char>| t1.dom().contains(q) <==> t2.dom().contains(q) by {
            lemma_totals_lookup(hs1, q);
            lemma_totals_lookup(hs2, q);
            lemma_appears_permutation(hs1, hs2, q);
        }
        assert forall|q: Seq<char>| t1.dom().contains(q) implies t1[q] == t2[q] by {
            lemma_totals_lookup(hs1, q);
            lemma_totals_lookup(hs2, q);
            lemma_appears_permutation(hs1, hs2, q);
            lemma_delta_total_permutation(hs1, hs2, q);
        }
    }
    let c1 = as_map(counts_of(hs1));
    let c2 = as_map(counts_of(hs2));
    assert(c1 =~= c2) by {
        assert forall|q: Seq<char>| c1.dom().contains(q) <==> c2.dom().contains(q) by {
            lemma_counts_lookup(hs1, q);
            lemma_counts_lookup(hs2, q);
            lemma_appears_permutation(hs1, hs2, q);
        }
        assert forall|q: Seq<char>| c1.dom().contains(q) implies c1[q] == c2[q] by {
            lemma_counts_lookup(hs1, q);
            lemma_counts_lookup(hs2, q);
            lemma_appears_permutation(hs1, hs2, q);
            lemma_delta_total_permutation(hs1, hs2, q);
        }
    }
}


/// Whether a list of hands is within the aggregation's arithmetic room:
/// every margin non-negative and the summed cost within a 32-bit integer.
/// `score_hands` asks exactly this of its caller; an unverified caller can
/// test it here first.
#[verifier::loop_isolation(false)]
pub fn hands_fit(hands: &Vec<CompletedHand>) -> (r: bool)
    ensures
        r == ((forall|i: int| 0 <= i < hands@.len() ==> 0 <= (#[trigger] hands@[i]).won_or_lost_by)
            && sum_costs(hands@) <= i32::MAX),
{
    let n = hands.len();
    let mut acc: i128 = 0;
    let mut i: usize = 0;
    proof {
        assert(hands@.take(0) =~= Seq::<CompletedHand>::empty());
    }
    while i < n
        invariant
            0 <= i <= n,
            forall|j: int| 0 <= j < i ==> 0 <= (#[trigger] hands@[j]).won_or_lost_by,
            acc as int == sum_costs(hands@.take(i as int)),
            0 <= acc <= i32::MAX,
        decreases n - i,
    {
        let h = &hands[i];
        if h.won_or_lost_by < 0 {
            return false;
        }
        let pre: i128 = 25 + (h.won_or_lost_by as i128) + (if h.petit_au_bout {
            10
        } else {
            0
        });
        let mult: i128 = h.bid.multiplier() as i128;
        proof {
            assert(pre <= 0x8000_0000 + 35);
            assert(1 <= mult <= 6) by {
                match h.bid {
                    Bid::Petite => {},
                    Bid::Garde => {},
                    Bid::GardeSans => {},
                    Bid::GardeContre => {},
                }
            }
            assert(pre * mult <= 6 * (0x8000_0000 + 35) && pre * mult >= 0) by (nonlinear_arith)
                requires
                    25 <= pre <= 0x8000_0000 + 35,
                    1 <= mult <= 6,
            ;
        }
        proof {
            assert(0 <= poignee_value(h.poignee) <= 40) by {
                match h.poignee {
                    Poignee::Aucune => {},
                    Poignee::Simple => {},
                    Poignee::Double => {},
                    Poignee::Triple => {},
                }
            }
            assert(0 <= chelem_value(h.chelem) <= 400) by {
                match h.chelem {
                    Chelem::Aucun => {},
                    Chelem::NonAnnonce => {},
                    Chelem::Annonce => {},
                }
            }
        }
        let base: i128 = pre * mult + (h.poignee.score() as i128) + (h.chelem.score() as i128);
        let nd: i128 = h.defence.len() as i128;
        proof {
            assert(base as int == base_score(hands@[i as int]));
            lemma_base_positive(hands@[i as int]);
            assert(base <= 6 * (0x8000_0000 + 35) + 440);
            assert(nd <= 0xffff_ffff_ffff_ffff);
            assert((nd + 4) * base <= 237684499533176660730495109022 && (nd + 4) * base >= 0) by (nonlinear_arith)
                requires
                    0 <= nd <= 0xffff_ffff_ffff_ffff,
                    25 <= base <= 6 * (0x8000_0000 + 35) + 440,
            ;
        }
        let this_cost: i128 = (nd + 4) * base;
        proof {
            assert(this_cost as int == cost(hands@[i as int]));
            lemma_sum_costs_step(hands@, i as int);
        }
        proof {
            assert(0 <= acc + this_cost < 0x7fff_ffff_ffff_ffff_ffff_ffff_ffff_ffff);
        }
        acc = acc + this_cost;
        if acc > (i32::MAX as i128) {
            proof {
                if forall|j: int|
                    0 <= j < hands@.len() ==> 0 <= (#[trigger] hands@[j]).won_or_lost_by {
                    lemma_sum_costs_upper(hands@, i as int + 1);
                }
            }
            return false;
        }
        i = i + 1;
    }
    proof {
        assert(hands@.take(n as int) =~= hands@);
    }
    true
}

} // verus!
