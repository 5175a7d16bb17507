//! Whose turn it is: what is due of a seat when the action comes to it.
use crate::player::{Player, Role, widen};
use crate::seat::{Want, has_acted, nearest, nearest_seat, roles_of};
use vstd::prelude::*;

verus! {

/// What is due of a seat when the action comes to it.
#[derive(Clone, Copy, Debug, PartialEq, Eq, Structural)]
pub enum Turn {
    /// Nothing: the seat is out of the hand, or has placed its bet while the
    /// cards were dealt.
    Idle,
    /// The seat is the only one left in the hand, and wins it.
    Lone,
    /// The seat before it has not acted yet.
    Wait,
    /// The seat posts its blind of this amount.
    Post(i64),
    /// The seat bets against this amount.
    Act(i64),
}

/// The amount that a seat bets against: the bet of the nearest seat before
/// it that has placed its bet, and 0 where no other seat has.
pub open spec fn amount_to_meet(players: Seq<Player>, seat: int) -> int {
    match nearest(roles_of(players), seat, true, Want::Bettor) {
        Some(bettor) => players[bettor].bet_bank.valuation(),
        None => 0,
    }
}

/// What is due of a seat that is neither the small blind nor out of the
/// hand: it wins where no other seat contests the hand; it waits where the
/// nearest seat before it that is not a spectator has not acted; else
/// `due` is due of it.
pub open spec fn checked_turn(players: Seq<Player>, seat: int, due: Turn) -> Turn {
    let roles = roles_of(players);
    if nearest(roles, seat, true, Want::Live) is None {
        Turn::Lone
    } else {
        match nearest(roles, seat, true, Want::Eligible) {
            Some(before) => if has_acted(roles[before]) {
                due
            } else {
                Turn::Wait
            },
            None => Turn::Wait,
        }
    }
}

/// What is due of a seat. The small blind posts its blind. The big blind
/// posts its blind, and a seat that is `Normal` bets against the amount to
/// meet, once the action has reached it. A seat that has placed its bet
/// bets again in the same way, but not while the cards are dealt.
pub open spec fn turn_of(players: Seq<Player>, seat: int, dealing: bool) -> Turn {
    match players[seat].role {
        Role::XiaoMang(value) => Turn::Post(value),
        Role::DaMang(value) => checked_turn(players, seat, Turn::Post(value)),
        Role::Normal => checked_turn(
            players,
            seat,
            Turn::Act(amount_to_meet(players, seat) as i64),
        ),
        Role::PlaceBet => if dealing {
            Turn::Idle
        } else {
            checked_turn(players, seat, Turn::Act(amount_to_meet(players, seat) as i64))
        },
        Role::GiveUp => Turn::Idle,
        Role::Quit => Turn::Idle,
    }
}

/// The amount that a seat bets against: see `amount_to_meet`.
fn to_meet(players: &Vec<Player>, seat: usize) -> (r: i64)
    requires
        seat < players.len(),
    ensures
        r == amount_to_meet(players@, seat as int),
        0 <= r <= i32::MAX,
{
    match nearest_seat(players, seat, true, Want::Bettor) {
        Some(bettor) => widen(players[bettor].bet_bank.get_values_of_bank()),
        None => 0,
    }
}

/// What is due of a seat that may have to wait: see `checked_turn`.
fn checked(players: &Vec<Player>, seat: usize, due: Turn) -> (t: Turn)
    requires
        seat < players.len(),
    ensures
        t == checked_turn(players@, seat as int, due),
{
    if nearest_seat(players, seat, true, Want::Live).is_none() {
        return Turn::Lone;
    }
    match nearest_seat(players, seat, true, Want::Eligible) {
        Some(before) => {
            assert(roles_of(players@)[before as int] == players@[before as int].role);
            match players[before].role {
                Role::PlaceBet | Role::GiveUp => due,
                _ => Turn::Wait,
            }
        },
        None => Turn::Wait,
    }
}

/// What is due of the seat: see `turn_of`.
pub fn turn(players: &Vec<Player>, seat: usize, dealing: bool) -> (t: Turn)
    requires
        seat < players.len(),
    ensures
        t == turn_of(players@, seat as int, dealing),
{
    match players[seat].role {
        Role::XiaoMang(value) => Turn::Post(value),
        Role::DaMang(value) => checked(players, seat, Turn::Post(value)),
        Role::Normal => {
            let amount = to_meet(players, seat);
            checked(players, seat, Turn::Act(amount))
        },
        Role::PlaceBet => {
            if dealing {
                Turn::Idle
            } else {
                let amount = to_meet(players, seat);
                checked(players, seat, Turn::Act(amount))
            }
        },
        Role::GiveUp => Turn::Idle,
        Role::Quit => Turn::Idle,
    }
}

} // verus!
