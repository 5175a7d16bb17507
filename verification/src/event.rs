//! The events that drive the table.
use crate::bank::batch_of;
use crate::error::ErrorKind;
use crate::game::{Game, GameStatus, MyEvent, Outcome, add_post, reset_post, start_post};
use crate::random::RandomSource;
use crate::round::{auto_post, bet_post, bet_record, fold_post, fold_record, pick_post};
use crate::settle::{confirm_post, conserved, settle_steps};
use crate::trace::{Deed, Step, recorded, steps_for};
use vstd::prelude::*;

verus! {

/// What an accepted event led to, with the record of what was done for it.
#[derive(Debug)]
pub struct Report {
    pub outcome: Outcome,
    pub trace: Vec<Step>,
}

/// Why an event was refused, with the record of what was done for it.
#[derive(Debug)]
pub struct Refusal {
    pub kind: ErrorKind,
    pub trace: Vec<Step>,
}

/// What the answer to an event says, without its record.
pub open spec fn summary_of(r: Result<Report, Refusal>) -> Result<Outcome, ErrorKind> {
    match r {
        Ok(report) => Ok(report.outcome),
        Err(refusal) => Err(refusal.kind),
    }
}

/// The record of the answer to an event.
pub open spec fn record_of(r: Result<Report, Refusal>) -> Seq<Step> {
    match r {
        Ok(report) => report.trace@,
        Err(refusal) => refusal.trace@,
    }
}

/// What an event leads to: what its own transition says.
pub open spec fn event_post(pre: Game, post: Game, event: MyEvent, r: Result<Outcome, ErrorKind>)
    -> bool {
    match event {
        MyEvent::AddBot { num } => add_post(pre, post, num, r),
        MyEvent::ResetGame { assets } => reset_post(pre, post, batch_of(assets@), r),
        MyEvent::StartNextGame => start_post(pre, post, r),
        MyEvent::PickCards => pick_post(pre, post, r),
        MyEvent::PlaceABet { bet } => bet_post(pre, post, batch_of(bet@), r),
        MyEvent::PlaceABet_Auto => auto_post(pre, post, r),
        MyEvent::ConfirmBalance => confirm_post(pre, post, r),
        MyEvent::GiveUp => fold_post(pre, post, r),
    }
}

/// What the record of an event tells, beyond what `recorded` says of every
/// record. Seats that are added, staked or dealt their roles are told of in
/// seat order. Of a hand that is settled at a table that fits, the record is
/// `settle_steps`. What the human does stands first. An event that the state
/// of the game does not accept leaves no record.
pub open spec fn event_record(
    pre: Game,
    post: Game,
    event: MyEvent,
    r: Result<Outcome, ErrorKind>,
    steps: Seq<Step>,
) -> bool {
    match event {
        MyEvent::AddBot { num } => steps == steps_for(
            pre.players@.len() as int,
            post.players@.len() - pre.players@.len(),
            Deed::Seated,
            None,
        ),
        MyEvent::ResetGame { assets } => steps == steps_for(
            0,
            pre.players@.len() as int,
            Deed::Staked,
            match r {
                Ok(_) => None,
                Err(kind) => Some(kind),
            },
        ),
        MyEvent::StartNextGame => steps == if pre.game_status == GameStatus::Balancing && r is Ok
            && r->Ok_0 is Started {
            steps_for(0, pre.players@.len() as int, Deed::Assigned, None)
        } else {
            Seq::empty()
        },
        MyEvent::PickCards => r is Err ==> steps == Seq::<Step>::empty(),
        MyEvent::PlaceABet { bet } => bet_record(pre, r, Seq::empty(), steps),
        MyEvent::PlaceABet_Auto => r is Err ==> steps == Seq::<Step>::empty(),
        MyEvent::ConfirmBalance => (r is Err ==> steps == Seq::<Step>::empty()) && (r is Ok
            && pre.fits() ==> steps == settle_steps(pre)),
        MyEvent::GiveUp => fold_record(pre, r, Seq::empty(), steps),
    }
}

impl Game {
    /// Takes one event and makes the transition that the event stands for:
    /// see `event_post`. No event but the setting up of the table changes
    /// what is at the table: the ledgers hold together, kind for kind, what
    /// they held, and the chips in play and the pot are worth together what
    /// they were worth. The answer carries the record of what was done for
    /// the seats: see `recorded` and `event_record`.
    pub fn receive_my_event(&mut self, event: MyEvent, rng: &mut RandomSource) -> (r: Result<
        Report,
        Refusal,
    >)
        requires
            old(self).wf(),
        ensures
            final(self).wf(),
            event_post(*old(self), *final(self), event, summary_of(r)),
            !(event is ResetGame) ==> conserved(*old(self), *final(self)),
            recorded(Seq::empty(), record_of(r), old(self).players@, final(self).players@),
            event_record(*old(self), *final(self), event, summary_of(r), record_of(r)),
    {
        let mut trace: Vec<Step> = Vec::new();
        proof {
            assert forall|more: Seq<Step>| #[trigger] (Seq::<Step>::empty() + more) =~= more by {}
        }
        let answer = match event {
            MyEvent::AddBot { num } => self.add_bots(num, &mut trace),
            MyEvent::ResetGame { assets } => self.init_game(assets, rng, &mut trace),
            MyEvent::StartNextGame => self.start_next_game(&mut trace),
            MyEvent::PickCards => self.pick_cards(rng, &mut trace),
            MyEvent::PlaceABet { bet } => self.place_a_bet(bet, rng, &mut trace),
            MyEvent::PlaceABet_Auto => self.auto_bet(rng, &mut trace),
            MyEvent::ConfirmBalance => self.confirm_balance(&mut trace),
            MyEvent::GiveUp => self.give_up(rng, &mut trace),
        };
        match answer {
            Ok(outcome) => Ok(Report { outcome, trace }),
            Err(kind) => Err(Refusal { kind, trace }),
        }
    }
}

} // verus!
