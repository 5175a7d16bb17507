//! The blinds of a hand, from the setting up of the table to the first bets.
use crate::bank::{Entry, StuffModel, lemma_count_nonneg, put_each, worth_of};
use crate::error::ErrorKind;
use crate::game::{
    Game, GameStatus, Outcome, lemma_chips_same, lemma_eligible_same, reset_post, reset_seat,
    share_of, start_post,
};
use crate::player::{Player, Role};
use crate::round::{
    Mode, acted_on, dealt_seats, pick_post, resolved_to, seat_picked, seat_resolved, seats_at,
    stood, stops_at,
};
use crate::round::lemma_eligible_nonneg;
use crate::seat::{Want, chips_of, eligible_of, is_eligible, nearest, roles_of};
use crate::settle::seat_sound;
use vstd::prelude::*;

verus! {

/// The amount that the role of a seat carries: that of its blind, and
/// nothing for a seat without a blind.
pub open spec fn blind_of(role: Role) -> int {
    match role {
        Role::XiaoMang(value) => value as int,
        Role::DaMang(value) => value as int,
        _ => 0,
    }
}

/// Whether no seat has a bet.
pub open spec fn no_bets(players: Seq<Player>) -> bool {
    forall|i: int|
        0 <= i < players.len() ==> (#[trigger] players[i]).bet_bank.entries() == Seq::<
            Entry,
        >::empty()
}

/// Once the cards are dealt at a table without bets, every seat with a
/// blind has bet its blind or nothing, whatever was due of the seats; the
/// seats have in play together what they had, and the blinds are what they
/// were.
pub proof fn law_blinds_after_deal(pre: Game, post: Game, r: Result<Outcome, ErrorKind>)
    requires
        pre.game_status == GameStatus::CardsPicking,
        pick_post(pre, post, r),
        no_bets(pre.players@),
    ensures
        r is Ok,
        chips_of(post.players@) == chips_of(pre.players@),
        post.small_blind() == pre.small_blind(),
        post.big_blind() == 2 * post.small_blind(),
        forall|i: int|
            0 <= i < pre.players@.len() && ((#[trigger] pre.players@[i]).role is XiaoMang
                || pre.players@[i].role is DaMang) ==> post.players@[i].bet_bank.valuation() == 0
                || post.players@[i].bet_bank.valuation() == blind_of(pre.players@[i].role),
{
    assert forall|i: int| 0 <= i < post.players@.len() implies (#[trigger] post.players@[i]).chips()
        == pre.players@[i].chips() by {
        assert(seat_picked(pre.players@[i], post.players@[i]));
    }
    lemma_chips_same(post.players@, pre.players@);
    assert forall|i: int| 0 <= i < pre.players@.len() implies is_eligible(
        #[trigger] roles_of(post.players@)[i],
    ) == is_eligible(roles_of(pre.players@)[i]) by {
        assert(seat_picked(pre.players@[i], post.players@[i]));
    }
    lemma_eligible_same(roles_of(post.players@), roles_of(pre.players@));
    let found = stood(pre, GameStatus::BetPlacing1, dealt_seats(pre.players@, post.players@));
    let stop = choose|stop: int| #[trigger] resolved_to(found, post.players@, Mode::Deal, r->Ok_0, stop);
    assert(worth_of(Seq::<Entry>::empty()) == 0);
    assert forall|i: int|
        0 <= i < pre.players@.len() && ((#[trigger] pre.players@[i]).role is XiaoMang
            || pre.players@[i].role is DaMang) implies post.players@[i].bet_bank.valuation() == 0
        || post.players@[i].bet_bank.valuation() == blind_of(pre.players@[i].role) by {
        let before = pre.players@[i];
        let after = post.players@[i];
        assert(seat_picked(before, after));
        assert(found.players[i].bet_bank == before.bet_bank);
        assert(before.bet_bank.valuation() == 0);
        if i < stop {
            assert(stops_at(found, post.players@, Mode::Deal, i) is None);
            assert(seat_resolved(found, post.players@, Mode::Deal, i));
            let seats = seats_at(found.players, post.players@, i);
            assert(seats[i] == found.players[i]);
            assert(acted_on(seats, after, found.max_bet, found.unit, Mode::Deal, i));
        } else if i > stop {
            assert(after == found.players[i]);
        }
    }
}

/// What seats with ledgers have in play together is not negative, and at
/// most 2^32 for each seat.
pub proof fn lemma_chips_bounded(players: Seq<Player>)
    requires
        forall|i: int| 0 <= i < players.len() ==> seat_sound(#[trigger] players[i]),
    ensures
        0 <= chips_of(players) <= players.len() * 0x1_0000_0000,
    decreases players.len(),
{
    if players.len() > 0 {
        let short = players.drop_last();
        assert forall|i: int| 0 <= i < short.len() implies seat_sound(#[trigger] short[i]) by {
            assert(short[i] == players[i]);
        }
        lemma_chips_bounded(short);
        let last = players[players.len() - 1];
        assert(seat_sound(last));
        let some = StuffModel::Denomination(Seq::empty(), 0);
        lemma_count_nonneg(last.owned_bank.entries(), some);
        lemma_count_nonneg(last.bet_bank.entries(), some);
    }
}

/// A share of the chips of at most ten seats with ledgers is not negative,
/// and at most 2^36.
pub proof fn lemma_share_bounded(total: int, eligible: int, parts: int, unit: int)
    requires
        0 <= total <= 10 * 0x1_0000_0000,
        parts >= 1,
        unit <= i32::MAX,
    ensures
        0 <= share_of(total, eligible, parts, unit) <= 0x10_0000_0000,
{
    if eligible > 0 {
        let each = total / (eligible * parts);
        assert(0 <= each <= total) by (nonlinear_arith)
            requires
                each == total / (eligible * parts),
                total >= 0,
                eligible >= 1,
                parts >= 1,
        ;
        if unit > 0 && each > 0 {
            assert(0 <= each % unit < unit) by (nonlinear_arith)
                requires
                    unit > 0,
            ;
        }
    }
}

/// Seats that all have the same bankroll and no bets have in play together
/// as many times the bankroll as there are seats.
pub proof fn lemma_equal_stakes(players: Seq<Player>, bankroll: Seq<Entry>)
    requires
        forall|i: int|
            0 <= i < players.len() ==> (#[trigger] players[i]).owned_bank.entries() == bankroll
                && players[i].bet_bank.entries() == Seq::<Entry>::empty(),
    ensures
        chips_of(players) == players.len() * worth_of(bankroll),
    decreases players.len(),
{
    let w = worth_of(bankroll);
    if players.len() > 0 {
        let short = players.drop_last();
        assert forall|i: int| 0 <= i < short.len() implies (#[trigger] short[i]).owned_bank.entries()
            == bankroll && short[i].bet_bank.entries() == Seq::<Entry>::empty() by {
            assert(short[i] == players[i]);
        }
        lemma_equal_stakes(short, bankroll);
        let last = players[players.len() - 1];
        assert(worth_of(Seq::<Entry>::empty()) == 0);
        assert(last.chips() == w);
        let m = short.len() as int;
        assert((m + 1) * w == m * w + w) by (nonlinear_arith);
    } else {
        assert(0 * w == 0) by (nonlinear_arith);
    }
}

/// A table that is set up anew has no bets; the seats have in play together
/// as many times the stake as there are seats; and where a seat was
/// eligible, every blind that was dealt carries its amount: the small blind
/// of the table, or the big blind, which is twice the small blind.
pub proof fn law_blinds_dealt(pre: Game, post: Game, stake: Seq<Entry>, r: Result<Outcome, ErrorKind>)
    requires
        reset_post(pre, post, stake, r),
        forall|i: int| 0 <= i < post.players@.len() ==> seat_sound(#[trigger] post.players@[i]),
    ensures
        no_bets(post.players@),
        r is Ok ==> chips_of(post.players@) == post.players@.len() * worth_of(
            put_each(Seq::empty(), stake),
        ),
        post.big_blind() == 2 * post.small_blind(),
        eligible_of(roles_of(pre.players@)) > 0 ==> forall|i: int|
            0 <= i < post.players@.len() ==> ((#[trigger] post.players@[i]).role is XiaoMang
                ==> blind_of(post.players@[i].role) == post.small_blind()) && (
            post.players@[i].role is DaMang ==> blind_of(post.players@[i].role)
                == post.big_blind()),
{
    assert forall|i: int| 0 <= i < post.players@.len() implies (
    #[trigger] post.players@[i]).bet_bank.entries() == Seq::<Entry>::empty()
        && post.players@[i].owned_bank.entries() == (if r is Ok {
        put_each(Seq::empty(), stake)
    } else {
        Seq::empty()
    }) by {
        assert(reset_seat(pre.players@[i], post.players@[i], stake));
    }
    if r is Ok {
        lemma_equal_stakes(post.players@, put_each(Seq::empty(), stake));
    }
    lemma_chips_bounded(post.players@);
    lemma_share_bounded(
        chips_of(post.players@),
        eligible_of(roles_of(post.players@)),
        30,
        post.min_value_unit as int,
    );
    if eligible_of(roles_of(pre.players@)) > 0 {
        assert forall|i: int| 0 <= i < post.players@.len() implies ((
        #[trigger] post.players@[i]).role is XiaoMang ==> blind_of(post.players@[i].role)
            == post.small_blind()) && (post.players@[i].role is DaMang ==> blind_of(
            post.players@[i].role,
        ) == post.big_blind()) by {
            assert(roles_of(post.players@)[i] == post.players@[i].role);
            assert(roles_of(pre.players@)[i] == pre.players@[i].role);
        }
    }
}

/// From the setting up of a table to the first bets: where a table with an
/// eligible seat is set up with a stake that its ledgers take, the first
/// hand is started and the cards are dealt, both are accepted. The seats
/// then have in play together as many times the stake as there are seats.
/// The big blind is twice the small blind, and the seat of the small blind
/// and the seat of the big blind have each bet their blind or nothing.
pub proof fn law_opening(
    set: Game,
    ready: Game,
    started: Game,
    dealt: Game,
    stake: Seq<Entry>,
    started_as: Result<Outcome, ErrorKind>,
    dealt_as: Result<Outcome, ErrorKind>,
)
    requires
        reset_post(set, ready, stake, Ok(Outcome::Reset)),
        eligible_of(roles_of(set.players@)) > 0,
        forall|i: int| 0 <= i < ready.players@.len() ==> seat_sound(#[trigger] ready.players@[i]),
        start_post(ready, started, started_as),
        pick_post(started, dealt, dealt_as),
    ensures
        started_as is Ok,
        dealt_as is Ok,
        chips_of(dealt.players@) == dealt.players@.len() * worth_of(
            put_each(Seq::empty(), stake),
        ),
        dealt.big_blind() == 2 * dealt.small_blind(),
        dealt.small_blind() == ready.small_blind(),
        forall|i: int|
            0 <= i < dealt.players@.len() && (#[trigger] ready.players@[i]).role is XiaoMang
                ==> dealt.players@[i].bet_bank.valuation() == 0
                || dealt.players@[i].bet_bank.valuation() == dealt.small_blind(),
        forall|i: int|
            0 <= i < dealt.players@.len() && (#[trigger] ready.players@[i]).role is DaMang
                ==> dealt.players@[i].bet_bank.valuation() == 0
                || dealt.players@[i].bet_bank.valuation() == dealt.big_blind(),
{
    law_blinds_dealt(set, ready, stake, Ok(Outcome::Reset));
    assert(started.players == ready.players);
    law_blinds_after_deal(started, dealt, dealt_as);
    assert(started.small_blind() == ready.small_blind());
}

/// The opening at a table of two seats that are both eligible: one seat is
/// dealt the small blind and the other the big blind, so the blinds are
/// together the small and the big blind; once the cards are dealt, each of
/// the two has bet its own blind or nothing, the bets are together no more
/// than the two blinds, and the seats have in play together twice the
/// stake.
pub proof fn law_opening_for_two(
    set: Game,
    ready: Game,
    started: Game,
    dealt: Game,
    stake: Seq<Entry>,
    started_as: Result<Outcome, ErrorKind>,
    dealt_as: Result<Outcome, ErrorKind>,
)
    requires
        set.players@.len() == 2,
        is_eligible(set.players@[0].role),
        is_eligible(set.players@[1].role),
        reset_post(set, ready, stake, Ok(Outcome::Reset)),
        forall|i: int| 0 <= i < ready.players@.len() ==> seat_sound(#[trigger] ready.players@[i]),
        start_post(ready, started, started_as),
        pick_post(started, dealt, dealt_as),
    ensures
        started_as is Ok,
        dealt_as is Ok,
        blind_of(ready.players@[0].role) + blind_of(ready.players@[1].role) == dealt.small_blind()
            + dealt.big_blind(),
        dealt.big_blind() == 2 * dealt.small_blind(),
        dealt.players@[0].bet_bank.valuation() == 0 || dealt.players@[0].bet_bank.valuation()
            == blind_of(ready.players@[0].role),
        dealt.players@[1].bet_bank.valuation() == 0 || dealt.players@[1].bet_bank.valuation()
            == blind_of(ready.players@[1].role),
        0 <= dealt.players@[0].bet_bank.valuation() + dealt.players@[1].bet_bank.valuation()
            <= dealt.small_blind() + dealt.big_blind(),
        chips_of(dealt.players@) == 2 * worth_of(put_each(Seq::empty(), stake)),
{
    let roles = roles_of(set.players@);
    assert(eligible_of(roles) > 0) by {
        lemma_eligible_nonneg(roles.drop_last());
        assert(roles.last() == set.players@[1].role);
    }
    law_opening(set, ready, started, dealt, stake, started_as, dealt_as);
    law_blinds_dealt(set, ready, stake, Ok(Outcome::Reset));
    let small_seat = ready.last_XiaoMang_ID as int;
    let other = 1 - small_seat;
    assert(roles[0] == set.players@[0].role && roles[1] == set.players@[1].role);
    assert(nearest(roles, small_seat, false, Want::Eligible) == Some(other));
    assert(roles_of(ready.players@)[small_seat] == ready.players@[small_seat].role);
    assert(roles_of(ready.players@)[other] == ready.players@[other].role);
    assert(ready.players@[small_seat].role is XiaoMang);
    assert(ready.players@[other].role is DaMang);
    lemma_chips_bounded(ready.players@);
    lemma_share_bounded(
        chips_of(ready.players@),
        eligible_of(roles_of(ready.players@)),
        30,
        ready.min_value_unit as int,
    );
}

} // verus!
