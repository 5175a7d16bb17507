//! Dealing and the betting rounds.
use crate::bank::{Entry, StuffModel, StuffType, batch_of};
use crate::deck::{is_card_deck, lemma_cards_roomy, lemma_dealing_cards, lemma_held_once_empty};
use crate::error::ErrorKind;
use crate::game::{
    Game, GameStatus, Outcome, is_me, lemma_chips_same, lemma_eligible_same, sits_human,
};
use crate::player::{
    Player, Role, bets_kept, checked_stake_of, hand_of, is_raise, refused_bet, stake_of,
};
use crate::random::RandomSource;
use crate::seat::{chips_of, eligible_of, has_acted, is_eligible, is_live, roles_of};
use crate::settle::{
    conserved, lemma_conserved_twice, lemma_pools_conserved, lemma_seats_conserved,
    lemma_step_conserved, seat_units, seat_worth,
};
use crate::trace::{
    Deed, Step, first_added, is_turn, names, note, recorded, refusal, told,
};
use crate::turn::{Turn, turn, turn_of};
use std::cmp::Ordering;
use vstd::prelude::*;

verus! {

/// Which seats act when the seats are resolved: all until the action comes
/// to the human, all but the human, or all.
#[derive(Clone, Copy, Debug, PartialEq, Eq, Structural)]
pub enum Mode {
    Deal,
    Human,
    All,
}

/// Whether bets are placed in this state.
pub open spec fn is_betting(status: GameStatus) -> bool {
    status == GameStatus::BetPlacing1 || status == GameStatus::BetPlacing2 || status
        == GameStatus::BetPlacing3 || status == GameStatus::BetPlacing4
}

/// The state that follows a betting round.
pub open spec fn next_of(status: GameStatus) -> GameStatus {
    match status {
        GameStatus::BetPlacing1 => GameStatus::BetPlacing2,
        GameStatus::BetPlacing2 => GameStatus::BetPlacing3,
        GameStatus::BetPlacing3 => GameStatus::BetPlacing4,
        GameStatus::BetPlacing4 => GameStatus::Balancing,
        other => other,
    }
}

/// How a role changes while bets are placed: not at all, or a seat that
/// contests the hand places its bet or gives up.
pub open spec fn role_moved(before: Role, after: Role) -> bool {
    after == before || (is_live(before) && has_acted(after))
}

/// How the bet of a seat that had to post a blind stands once the seat has
/// placed its bet: it is worth the blind, unless the seat won the hand
/// without a bet and its ledgers are as they were.
pub open spec fn blind_posted(before: Player, after: Player) -> bool {
    match before.role {
        Role::XiaoMang(value) => after.role is PlaceBet ==> after.bet_bank.valuation() == value,
        Role::DaMang(value) => after.role is PlaceBet ==> after.bet_bank.valuation() == value || (
        after.bet_bank == before.bet_bank && after.owned_bank == before.owned_bank),
        _ => true,
    }
}

/// How a seat changes while bets are placed: it keeps its name, its cards
/// and what it has in play; a blind that places its bet posts the blind; a
/// seat that does not contest the hand does not change at all.
pub open spec fn seat_moved(before: Player, after: Player) -> bool {
    &&& after.name == before.name
    &&& after.cards_bank == before.cards_bank
    &&& after.chips() == before.chips()
    &&& forall|k: StuffModel| #[trigger] after.held(k) == before.held(k)
    &&& role_moved(before.role, after.role)
    &&& blind_posted(before, after)
    &&& !is_live(before.role) ==> after == before
}

/// How the table changes while bets are placed: the seats change as
/// `seat_moved` says, and the pot, the deck, the community cards, the unit
/// and the seat of the small blind stay.
pub open spec fn bets_moved(pre: Game, post: Game) -> bool {
    &&& post.players@.len() == pre.players@.len()
    &&& forall|i: int|
        0 <= i < pre.players@.len() ==> seat_moved(#[trigger] pre.players@[i], post.players@[i])
    &&& post.cash_pool == pre.cash_pool
    &&& post.card_pool == pre.card_pool
    &&& post.five_cards == pre.five_cards
    &&& post.last_XiaoMang_ID == pre.last_XiaoMang_ID
    &&& post.min_value_unit == pre.min_value_unit
}

/// How a seat that decides for itself bets: where it was `Normal` or had
/// placed a bet, and has placed a bet now, the bet is worth no more than
/// `max_bet`, unless the seat holds what it held.
pub open spec fn bet_bounded(before: Player, after: Player, max_bet: int) -> bool {
    (before.role is Normal || before.role is PlaceBet) && after.role is PlaceBet
        ==> after.bet_bank.valuation() <= max_bet || bets_kept(before, after)
}

/// Whether the seats from `from` on bet as `bet_bounded` says, with the
/// highest bet of the table.
pub open spec fn bets_bounded(pre: Game, post: Game, from: int) -> bool {
    forall|i: int|
        from <= i < pre.players@.len() ==> bet_bounded(
            #[trigger] pre.players@[i],
            post.players@[i],
            pre.max_bet(),
        )
}

/// The blinds and the highest bet stay while bets are placed.
pub proof fn lemma_sizes_stay(pre: Game, post: Game)
    requires
        bets_moved(pre, post),
    ensures
        post.max_bet() == pre.max_bet(),
        post.small_blind() == pre.small_blind(),
{
    lemma_moved_chips(pre, post);
    assert forall|i: int| 0 <= i < pre.players@.len() implies is_eligible(
        #[trigger] roles_of(post.players@)[i],
    ) == is_eligible(roles_of(pre.players@)[i]) by {
        assert(seat_moved(pre.players@[i], post.players@[i]));
    }
    lemma_eligible_same(roles_of(post.players@), roles_of(pre.players@));
}

/// Whether two seats differ in their cards at most.
pub open spec fn same_stake(a: Player, b: Player) -> bool {
    &&& a.name == b.name
    &&& a.role == b.role
    &&& a.owned_bank == b.owned_bank
    &&& a.bet_bank == b.bet_bank
}

/// The seats as they stand when the action comes to the seat `i`: the seats
/// before it as they are afterwards, the others as they were.
pub open spec fn seats_at(pre: Seq<Player>, post: Seq<Player>, i: int) -> Seq<Player> {
    Seq::new(pre.len(), |j: int| if j < i { post[j] } else { pre[j] })
}

/// How the resolving ends when it comes to the seat `i` of the seats
/// `players`, if it ends there: the hand ends at the seat of the small blind
/// once the last round is over; a seat that is the only one left in the hand
/// wins it; and while the cards are dealt, the resolving ends when something
/// is due of the human. The human is passed over in `Mode::Human`.
pub open spec fn stops_on(
    players: Seq<Player>,
    status: GameStatus,
    small_seat: int,
    mode: Mode,
    i: int,
) -> Option<Outcome> {
    if mode == Mode::Human && is_me(players[i]) {
        None
    } else if status == GameStatus::Balancing && i == small_seat {
        Some(Outcome::HandEnded)
    } else {
        match turn_of(players, i, mode == Mode::Deal) {
            Turn::Lone => Some(Outcome::Uncontested(i as usize)),
            Turn::Post(_) => if mode == Mode::Deal && is_me(players[i]) {
                Some(Outcome::YourTurn)
            } else {
                None
            },
            Turn::Act(_) => if mode == Mode::Deal && is_me(players[i]) {
                Some(Outcome::YourTurn)
            } else {
                None
            },
            _ => None,
        }
    }
}

/// What becomes of the seat `i` of the seats `players` when the action
/// comes to it and goes on: a seat of which nothing is due, or which has to
/// wait, keeps its stake; a blind bets its amount as `stake_of` says, and
/// gives up where that bet is refused; a seat that decides for itself places
/// a bet between the amount to meet and the highest bet, raised as some
/// rolls give, or gives up and holds what it held.
pub open spec fn acted_on(
    players: Seq<Player>,
    after: Player,
    max_bet: int,
    unit: int,
    mode: Mode,
    i: int,
) -> bool {
    let me = players[i];
    if mode == Mode::Human && is_me(me) {
        same_stake(after, me)
    } else {
        match turn_of(players, i, mode == Mode::Deal) {
            Turn::Post(value) => match stake_of(
                me.owned_bank.entries(),
                me.bet_bank.entries(),
                value as int,
            ) {
                Ok(lines) => after.role == Role::PlaceBet && after.owned_bank.entries() == lines.0
                    && after.bet_bank.entries() == lines.1,
                Err(_) => after.role == Role::GiveUp && refused_bet(me, after),
            },
            Turn::Act(amount) => (after.role == Role::PlaceBet && amount
                <= after.bet_bank.valuation() <= max_bet && is_raise(
                after.bet_bank.valuation() - amount,
                max_bet,
                unit,
            )) || (after.role == Role::GiveUp && bets_kept(me, after)),
            _ => same_stake(after, me),
        }
    }
}

/// The table as the resolving of the seats finds it: the seats, the state
/// of the game, the seat of the small blind, the highest bet and the unit.
pub struct Standing {
    pub players: Seq<Player>,
    pub status: GameStatus,
    pub small_seat: int,
    pub max_bet: int,
    pub unit: int,
}

/// How the resolving ends when it comes to the seat `i`, if it ends there:
/// see `stops_on`, with the seats as they stand at that time.
pub open spec fn stops_at(pre: Standing, post: Seq<Player>, mode: Mode, i: int) -> Option<Outcome> {
    stops_on(seats_at(pre.players, post, i), pre.status, pre.small_seat, mode, i)
}

/// What became of the seat `i` when the action came to it and went on: see
/// `acted_on`, with the seats as they stood at that time.
pub open spec fn seat_resolved(pre: Standing, post: Seq<Player>, mode: Mode, i: int) -> bool {
    acted_on(seats_at(pre.players, post, i), post[i], pre.max_bet, pre.unit, mode, i)
}

/// Whether the resolving of the seats, which found the table as `pre` says
/// and left the seats `post`, came to the seat `stop` and ended there with
/// `outcome`, or went through all seats: the seats before `stop` were
/// resolved as `seat_resolved` says, none of them ending the resolving; the
/// seats behind `stop` are as they were; and so is the seat `stop`, but
/// that it has placed its bet where it won the hand.
pub open spec fn resolved_to(
    pre: Standing,
    post: Seq<Player>,
    mode: Mode,
    outcome: Outcome,
    stop: int,
) -> bool {
    &&& 0 <= stop <= pre.players.len()
    &&& post.len() == pre.players.len()
    &&& forall|i: int|
        0 <= i < stop ==> (#[trigger] stops_at(pre, post, mode, i)) is None && seat_resolved(
            pre,
            post,
            mode,
            i,
        )
    &&& forall|i: int| stop < i < pre.players.len() ==> #[trigger] post[i] == pre.players[i]
    &&& if stop == pre.players.len() {
        outcome == Outcome::Resolved
    } else {
        &&& stops_at(pre, post, mode, stop) == Some(outcome)
        &&& same_stake(
            post[stop],
            if outcome is Uncontested {
                Player { role: Role::PlaceBet, ..pre.players[stop] }
            } else {
                pre.players[stop]
            },
        )
    }
}

/// Whether the answer `r` is the outcome of a resolving of the seats which
/// found the table as `found` says and left the seats `post`: see
/// `resolved_to`.
pub open spec fn resolves(
    found: Standing,
    post: Seq<Player>,
    mode: Mode,
    r: Result<Outcome, ErrorKind>,
) -> bool {
    match r {
        Ok(outcome) => exists|stop: int| #[trigger] resolved_to(found, post, mode, outcome, stop),
        Err(_) => false,
    }
}

/// Once the action has passed a seat, what is said of the seats up to it
/// stays whatever becomes of the seats behind it.
pub proof fn lemma_seat_done(
    pre: Standing,
    mid: Seq<Player>,
    post: Seq<Player>,
    mode: Mode,
    seat: int,
)
    requires
        0 <= seat < pre.players.len(),
        mid.len() == pre.players.len(),
        post.len() == pre.players.len(),
        forall|j: int| seat <= j < pre.players.len() ==> #[trigger] mid[j] == pre.players[j],
        forall|j: int| 0 <= j < pre.players.len() && j != seat ==> #[trigger] post[j] == mid[j],
    ensures
        forall|i: int|
            0 <= i < seat ==> (#[trigger] stops_at(pre, post, mode, i))
                == stops_at(pre, mid, mode, i)
                && seat_resolved(pre, post, mode, i) == seat_resolved(pre, mid, mode, i),
        seats_at(pre.players, post, seat) == mid,
{
    assert forall|i: int| 0 <= i < seat implies (#[trigger] stops_at(pre, post, mode, i))
        == stops_at(pre, mid, mode, i) && seat_resolved(pre, post, mode, i) == seat_resolved(
        pre,
        mid,
        mode,
        i,
    ) by {
        assert(seats_at(pre.players, post, i) =~= seats_at(pre.players, mid, i));
    }
    assert(seats_at(pre.players, post, seat) =~= mid);
}

/// Whether every seat but the first is as it was.
pub open spec fn others_kept(pre: Game, post: Game) -> bool {
    forall|i: int| 1 <= i < pre.players@.len() ==> #[trigger] post.players@[i] == pre.players@[i]
}

/// What resolving the seats says of its outcome.
pub open spec fn outcome_fits(pre: Game, post: Game, mode: Mode, outcome: Outcome) -> bool {
    match outcome {
        Outcome::Uncontested(seat) => seat < post.players@.len() && post.game_status
            == GameStatus::Balancing && post.players@[seat as int].role == Role::PlaceBet,
        Outcome::HandEnded => pre.game_status == GameStatus::Balancing && post.game_status
            == GameStatus::Balancing,
        Outcome::YourTurn => mode == Mode::Deal && post.game_status == pre.game_status,
        Outcome::Resolved => post.game_status == pre.game_status,
        _ => false,
    }
}

/// What the human's bet of the batch `items` leads to, where it has to
/// stand to `value` as `order` asks. Where the bet is refused, the state
/// stays, no other seat changes, and the human holds in its bankroll and in
/// its bet what it held. Where it stands, the human has placed
/// that bet, the round is over, and the other seats were resolved.
pub open spec fn bet_checked(
    pre: Game,
    post: Game,
    items: Seq<Entry>,
    order: Ordering,
    value: i64,
    r: Result<Outcome, ErrorKind>,
) -> bool {
    let me = pre.players@[0];
    match checked_stake_of(me.owned_bank.entries(), me.bet_bank.entries(), items, order, value) {
        Err(kind) => r == Err::<Outcome, ErrorKind>(kind) && post.game_status == pre.game_status
            && others_kept(pre, post) && post.players@[0].role == me.role && bets_kept(
            me,
            post.players@[0],
        ),
        Ok(lines) => r is Ok && (post.game_status == next_of(pre.game_status) || post.game_status
            == GameStatus::Balancing) && post.players@[0].role == Role::PlaceBet
            && post.players@[0].owned_bank.entries() == lines.0
            && post.players@[0].bet_bank.entries() == lines.1 && bets_bounded(pre, post, 1)
            && resolves(
                stood(pre, next_of(pre.game_status), pre.players@.update(0, post.players@[0])),
                post.players@,
                Mode::Human,
                r,
            ),
    }
}

/// What the human's bet leads to. It is refused with `IllegalTransition`
/// outside the betting rounds and with `NotYourTurn` where the human has to
/// wait; the table is then unchanged. Where the human is the only seat left
/// in the hand, it wins the hand. A blind has to be met exactly, and the
/// amount to meet has to be exceeded: see `bet_checked`. Where nothing is due of
/// the human, the round is over and the other seats were resolved.
pub open spec fn bet_post(pre: Game, post: Game, items: Seq<Entry>, r: Result<Outcome, ErrorKind>)
    -> bool {
    if !is_betting(pre.game_status) {
        post == pre && r == Err::<Outcome, ErrorKind>(ErrorKind::IllegalTransition)
    } else {
        match turn_of(pre.players@, 0, false) {
            Turn::Wait => post == pre && r == Err::<Outcome, ErrorKind>(ErrorKind::NotYourTurn),
            Turn::Lone => r == Ok::<Outcome, ErrorKind>(Outcome::Uncontested(0)) && post.game_status
                == GameStatus::Balancing && post.players@[0].role == Role::PlaceBet && bets_moved(
                pre,
                post,
            ) && others_kept(pre, post),
            Turn::Idle => r is Ok && bets_moved(pre, post) && bets_bounded(pre, post, 0) && (
            post.game_status == next_of(pre.game_status) || post.game_status
                == GameStatus::Balancing) && resolves(
                stood(pre, next_of(pre.game_status), pre.players@),
                post.players@,
                Mode::Human,
                r,
            ),
            Turn::Post(value) => bets_moved(pre, post) && bet_checked(
                pre,
                post,
                items,
                Ordering::Equal,
                value,
                r,
            ),
            Turn::Act(value) => bets_moved(pre, post) && bet_checked(
                pre,
                post,
                items,
                Ordering::Greater,
                value,
                r,
            ),
        }
    }
}

/// What the record tells of the human's bet: nothing where the bet is not
/// due; that the human won where it is the only seat left in the hand; else
/// that the bet was placed, and behind it what the other seats did, or that
/// it was refused and the former bet placed again.
pub open spec fn bet_record(
    pre: Game,
    r: Result<Outcome, ErrorKind>,
    before: Seq<Step>,
    after: Seq<Step>,
) -> bool {
    if !is_betting(pre.game_status) {
        after == before
    } else {
        match turn_of(pre.players@, 0, false) {
            Turn::Wait => after == before,
            Turn::Lone => after == before.push(Step { seat: 0, deed: Deed::Won, refused: None }),
            Turn::Idle => true,
            _ => match r {
                Err(kind) => after == before.push(
                    Step { seat: 0, deed: Deed::Placed, refused: Some(kind) },
                ).push(Step { seat: 0, deed: Deed::Restored, refused: None }),
                Ok(_) => after.len() > before.len() && first_added(before, after) == (Step {
                    seat: 0,
                    deed: Deed::Placed,
                    refused: None,
                }),
            },
        }
    }
}

/// What the record tells of the human's giving up: nothing where it is
/// refused; else that the human gave up, unless it is a spectator, and
/// behind it what the other seats did.
pub open spec fn fold_record(
    pre: Game,
    r: Result<Outcome, ErrorKind>,
    before: Seq<Step>,
    after: Seq<Step>,
) -> bool {
    if r is Err {
        after == before
    } else {
        pre.players@[0].role is Quit || (after.len() > before.len() && first_added(before, after)
            == (Step { seat: 0, deed: Deed::Folded, refused: None }))
    }
}

/// What the human's giving up leads to: unless it is a spectator, the human
/// has given up; the round is over, and the other seats were resolved. It is
/// refused outside the betting rounds.
pub open spec fn fold_post(pre: Game, post: Game, r: Result<Outcome, ErrorKind>) -> bool {
    if !is_betting(pre.game_status) {
        post == pre && r == Err::<Outcome, ErrorKind>(ErrorKind::IllegalTransition)
    } else {
        &&& r is Ok
        &&& post.players@.len() == pre.players@.len()
        &&& post.players@[0].role == (if pre.players@[0].role is Quit {
            Role::Quit
        } else {
            Role::GiveUp
        })
        &&& post.players@[0].name == pre.players@[0].name
        &&& post.players@[0].owned_bank == pre.players@[0].owned_bank
        &&& post.players@[0].bet_bank == pre.players@[0].bet_bank
        &&& post.players@[0].cards_bank == pre.players@[0].cards_bank
        &&& forall|i: int|
            1 <= i < pre.players@.len() ==> seat_moved(#[trigger] pre.players@[i], post.players@[i])
        &&& bets_bounded(pre, post, 1)
        &&& post.cash_pool == pre.cash_pool
        &&& post.card_pool == pre.card_pool
        &&& post.five_cards == pre.five_cards
        &&& post.last_XiaoMang_ID == pre.last_XiaoMang_ID
        &&& post.min_value_unit == pre.min_value_unit
        &&& post.game_status == next_of(pre.game_status) || post.game_status
            == GameStatus::Balancing
        &&& resolves(
                stood(pre, next_of(pre.game_status), pre.players@.update(0, folded(pre.players@[0]))),
                post.players@,
                Mode::All,
                r,
            )
    }
}

/// A seat after it has given up: a spectator stays one.
pub open spec fn folded(player: Player) -> Player {
    if player.role is Quit {
        player
    } else {
        Player { role: Role::GiveUp, ..player }
    }
}

/// What a round in which every seat decides for itself leads to: the round
/// is over and the seats were resolved. It is refused outside the betting
/// rounds.
pub open spec fn auto_post(pre: Game, post: Game, r: Result<Outcome, ErrorKind>) -> bool {
    if !is_betting(pre.game_status) {
        post == pre && r == Err::<Outcome, ErrorKind>(ErrorKind::IllegalTransition)
    } else {
        &&& r is Ok
        &&& bets_moved(pre, post)
        &&& bets_bounded(pre, post, 0)
        &&& post.game_status == next_of(pre.game_status) || post.game_status
            == GameStatus::Balancing
        &&& resolves(
                stood(pre, next_of(pre.game_status), pre.players@),
                post.players@,
                Mode::All,
                r,
            )
    }
}

/// How dealing the cards and the first bets change a seat: it keeps its
/// name and what it has in play; a spectator does not change at all.
pub open spec fn seat_picked(before: Player, after: Player) -> bool {
    &&& after.name == before.name
    &&& after.chips() == before.chips()
    &&& forall|k: StuffModel| #[trigger] after.held(k) == before.held(k)
    &&& role_moved(before.role, after.role)
    &&& blind_posted(before, after)
    &&& before.role is Quit ==> after == before
}

/// What dealing the cards leads to: every seat that is not a spectator is
/// dealt two cards and the community cards are dealt, as far as the deck
/// has them; then the seats are resolved until something is due of the
/// human. The first betting round is on, unless one seat alone is left in
/// the hand. It is refused, and nothing changes, where no hand was started.
pub open spec fn pick_post(pre: Game, post: Game, r: Result<Outcome, ErrorKind>) -> bool {
    if pre.game_status != GameStatus::CardsPicking {
        post == pre && r == Err::<Outcome, ErrorKind>(ErrorKind::IllegalTransition)
    } else {
        &&& r is Ok
        &&& outcome_fits(
            Game { game_status: GameStatus::BetPlacing1, ..pre },
            post,
            Mode::Deal,
            r->Ok_0,
        )
        &&& post.players@.len() == pre.players@.len()
        &&& forall|i: int|
            0 <= i < pre.players@.len()
                ==> seat_picked(#[trigger] pre.players@[i], post.players@[i])
        &&& bets_bounded(pre, post, 0)
        &&& post.cash_pool == pre.cash_pool
        &&& post.last_XiaoMang_ID == pre.last_XiaoMang_ID
        &&& post.min_value_unit == pre.min_value_unit
        &&& deck_ready(pre) ==> dealt_well(pre, post)
        &&& resolves(
                stood(pre, GameStatus::BetPlacing1, dealt_seats(pre.players@, post.players@)),
                post.players@,
                Mode::Deal,
                r,
            )
    }
}

/// The seats with the cards that they were dealt, before the first bets.
pub open spec fn dealt_seats(pre: Seq<Player>, post: Seq<Player>) -> Seq<Player> {
    Seq::new(pre.len(), |i: int| Player { cards_bank: post[i].cards_bank, ..pre[i] })
}

/// Whether the cards can be dealt as a hand needs them: the deck is single
/// cards, two for every seat that is not a spectator and five more; these
/// seats hold no cards, and there are no community cards.
pub open spec fn deck_ready(pre: Game) -> bool {
    &&& is_card_deck(pre.card_pool.card_pool.entries())
    &&& pre.card_pool.card_pool.entries().len() >= 2 * eligible_of(roles_of(pre.players@)) + 5
    &&& pre.five_cards.five_cards.entries() == Seq::<Entry>::empty()
    &&& forall|i: int|
        0 <= i < pre.players@.len() && !((#[trigger] pre.players@[i]).role is Quit)
            ==> pre.players@[i].cards_bank.entries() == Seq::<Entry>::empty()
}

/// Whether the cards were dealt as a hand needs them: every seat that is
/// not a spectator holds two single cards, the community cards are five
/// single cards, and the deck is the single cards that are left.
pub open spec fn dealt_well(pre: Game, post: Game) -> bool {
    &&& forall|i: int|
        0 <= i < pre.players@.len() && !((#[trigger] pre.players@[i]).role is Quit)
            ==> is_card_deck(post.players@[i].cards_bank.entries())
            && post.players@[i].cards_bank.entries().len() == 2
    &&& is_card_deck(post.five_cards.five_cards.entries())
    &&& post.five_cards.five_cards.entries().len() == 5
    &&& is_card_deck(post.card_pool.card_pool.entries())
    &&& post.card_pool.card_pool.entries().len() == pre.card_pool.card_pool.entries().len() - 2
        * eligible_of(roles_of(pre.players@)) - 5
}

/// Two single cards and five single cards are a hand of seven cards.
pub proof fn law_dealt_hand(hole: Seq<Entry>, board: Seq<Entry>)
    requires
        is_card_deck(hole),
        is_card_deck(board),
        hole.len() == 2,
        board.len() == 5,
    ensures
        hand_of(hole, board) is Some,
        hand_of(hole, board)->Some_0.len() == 7,
{
    let lines = hole + board;
    assert forall|i: int| 0 <= i < lines.len() implies (#[trigger] lines[i]).0 is Card by {
        if i < 2 {
            assert(lines[i] == hole[i]);
        } else {
            assert(lines[i] == board[i - 2]);
        }
    }
}

/// As many of the first seats are eligible as of all seats, at most.
pub proof fn lemma_eligible_prefix(roles: Seq<Role>, i: int)
    requires
        0 <= i <= roles.len(),
    ensures
        0 <= eligible_of(roles.take(i)) <= eligible_of(roles),
        i < roles.len() ==> eligible_of(roles.take(i + 1)) == eligible_of(roles.take(i)) + (
        if roles[i] is Quit {
            0int
        } else {
            1
        }),
        i < roles.len() && !(roles[i] is Quit) ==> eligible_of(roles.take(i)) < eligible_of(roles),
    decreases roles.len() - i,
{
    if i == roles.len() {
        assert(roles.take(i) =~= roles);
        lemma_eligible_nonneg(roles);
    } else {
        lemma_eligible_prefix(roles, i + 1);
        assert(roles.take(i + 1).drop_last() =~= roles.take(i));
        assert(roles.take(i + 1).last() == roles[i]);
        lemma_eligible_nonneg(roles.take(i));
    }
}

/// The number of eligible seats is not negative.
pub proof fn lemma_eligible_nonneg(roles: Seq<Role>)
    ensures
        0 <= eligible_of(roles),
    decreases roles.len(),
{
    if roles.len() > 0 {
        lemma_eligible_nonneg(roles.drop_last());
    }
}

/// Whether bets are placed in this state.
pub fn betting(status: GameStatus) -> (r: bool)
    ensures
        r == is_betting(status),
{
    match status {
        GameStatus::BetPlacing1
        | GameStatus::BetPlacing2
        | GameStatus::BetPlacing3
        | GameStatus::BetPlacing4 => true,
        _ => false,
    }
}

/// The state that follows a betting round.
pub fn next_status(status: GameStatus) -> (r: GameStatus)
    ensures
        r == next_of(status),
{
    match status {
        GameStatus::BetPlacing1 => GameStatus::BetPlacing2,
        GameStatus::BetPlacing2 => GameStatus::BetPlacing3,
        GameStatus::BetPlacing3 => GameStatus::BetPlacing4,
        GameStatus::BetPlacing4 => GameStatus::Balancing,
        other => other,
    }
}

/// The table as the resolving of the seats finds it where it is in the
/// state `status` with the seats `players`, and else as `pre`.
pub open spec fn stood(pre: Game, status: GameStatus, players: Seq<Player>) -> Standing {
    Standing {
        players,
        status,
        small_seat: pre.last_XiaoMang_ID as int,
        max_bet: pre.max_bet(),
        unit: pre.min_value_unit as int,
    }
}

impl Game {
    /// The table as the resolving of the seats finds it.
    pub open spec fn standing(&self) -> Standing {
        Standing {
            players: self.players@,
            status: self.game_status,
            small_seat: self.last_XiaoMang_ID as int,
            max_bet: self.max_bet(),
            unit: self.min_value_unit as int,
        }
    }

    /// Lets the seat act to which the action has come, and says how the
    /// resolving ends there if it does: see `stops_on` and `acted_on`.
    pub fn resolve_seat(
        &mut self,
        seat: usize,
        mode: Mode,
        rng: &mut RandomSource,
        trace: &mut Vec<Step>,
    ) -> (r: Option<Outcome>)
        requires
            old(self).wf(),
            seat < old(self).players@.len(),
        ensures
            final(self).wf(),
            final(self).players@.len() == old(self).players@.len(),
            forall|j: int|
                0 <= j < old(self).players@.len()
                    && j != seat ==> #[trigger] final(self).players@[j]
                    == old(self).players@[j],
            seat_moved(old(self).players@[seat as int], final(self).players@[seat as int]),
            bet_bounded(
                old(self).players@[seat as int],
                final(self).players@[seat as int],
                old(self).max_bet(),
            ),
            final(self).cash_pool == old(self).cash_pool,
            final(self).card_pool == old(self).card_pool,
            final(self).five_cards == old(self).five_cards,
            final(self).last_XiaoMang_ID == old(self).last_XiaoMang_ID,
            final(self).min_value_unit == old(self).min_value_unit,
            final(self).game_status == if r is Some && r->Some_0 is Uncontested {
                GameStatus::Balancing
            } else {
                old(self).game_status
            },
            r == stops_on(
                old(self).players@,
                old(self).game_status,
                old(self).last_XiaoMang_ID as int,
                mode,
                seat as int,
            ),
            r is None ==> acted_on(
                old(self).players@,
                final(self).players@[seat as int],
                old(self).max_bet(),
                old(self).min_value_unit as int,
                mode,
                seat as int,
            ),
            r is Some ==> same_stake(
                final(self).players@[seat as int],
                if r->Some_0 is Uncontested {
                    Player { role: Role::PlaceBet, ..old(self).players@[seat as int] }
                } else {
                    old(self).players@[seat as int]
                },
            ),
            final(trace)@ == old(trace)@ || (final(trace)@ == old(trace)@.push(final(trace)@.last())
                && final(trace)@.len() == old(trace)@.len() + 1 && final(trace)@.last().seat == seat
                && is_turn(final(trace)@.last().deed) && told(
                final(trace)@.last(),
                final(self).players@[seat as int],
            ) && is_live(old(self).players@[seat as int].role)),
            final(trace)@ == old(trace)@ ==> final(self).players@[seat as int]
                == old(self).players@[seat as int],
    {
        let dealing = match mode {
            Mode::Deal => true,
            _ => false,
        };
        let passing = match mode {
            Mode::Human => true,
            _ => false,
        };
        let human = sits_human(&self.players[seat]);
        if passing && human {
            return None;
        }
        if self.last_XiaoMang_ID as usize == seat {
            match self.game_status {
                GameStatus::Balancing => {
                    return Some(Outcome::HandEnded);
                },
                _ => {},
            }
        }
        match turn(&self.players, seat, dealing) {
            Turn::Idle => None,
            Turn::Wait => None,
            Turn::Lone => {
                self.players[seat].role = Role::PlaceBet;
                self.game_status = GameStatus::Balancing;
                note(trace, seat, Deed::Won, None);
                Some(Outcome::Uncontested(seat))
            },
            Turn::Post(value) => {
                if dealing && human {
                    return Some(Outcome::YourTurn);
                }
                let posted = self.players[seat].place_a_bet_with_value(value);
                note(trace, seat, Deed::Posted, refusal(&posted));
                None
            },
            Turn::Act(amount) => {
                if dealing && human {
                    return Some(Outcome::YourTurn);
                }
                let max_bet = self.get_max_bet_value();
                let unit = self.min_value_unit;
                let placed = self.players[seat].place_a_bet_with_last_value(
                    amount,
                    max_bet,
                    unit,
                    rng,
                );
                if placed {
                    note(trace, seat, Deed::Decided, None);
                } else {
                    note(trace, seat, Deed::Folded, None);
                }
                None
            },
        }
    }

    /// Lets the seats act, in seat order. Once the last round is over, the
    /// hand ends when the seat of the small blind is reached. A seat acts as
    /// `turn_of` says is due of it: it is passed over where nothing is due or
    /// it has to wait; it wins the hand where it is the only seat left in
    /// it; it posts its blind; or it decides what to bet against the amount
    /// to meet. In `Mode::Human` the human is passed over; in `Mode::Deal`
    /// the resolving ends when something is due of the human. What is done
    /// for a seat is added to the record.
    pub fn resolve(&mut self, mode: Mode, rng: &mut RandomSource, trace: &mut Vec<Step>) -> (outcome:
        Outcome)
        requires
            old(self).wf(),
        ensures
            final(self).wf(),
            bets_moved(*old(self), *final(self)),
            bets_bounded(*old(self), *final(self), 0),
            chips_of(final(self).players@) == chips_of(old(self).players@),
            conserved(*old(self), *final(self)),
            outcome_fits(*old(self), *final(self), mode, outcome),
            mode == Mode::Human ==> forall|i: int|
                0 <= i < old(self).players@.len() && is_me(#[trigger] old(self).players@[i])
                    ==> final(self).players@[i] == old(self).players@[i],
            recorded(old(trace)@, final(trace)@, old(self).players@, final(self).players@),
            forall|j: int|
                old(trace)@.len() <= j < final(trace)@.len() ==> is_turn(
                    (#[trigger] final(trace)@[j]).deed,
                ) && is_live(old(self).players@[final(trace)@[j].seat as int].role),
            exists|stop: int|
                #[trigger] resolved_to(old(self).standing(), final(self).players@, mode, outcome, stop),
    {
        let n = self.players.len();
        let ghost start = trace@.len() as int;
        let mut seat: usize = 0;
        proof {
            lemma_nothing_noted(trace@, self.players@);
        }
        while seat < n
            invariant
                0 <= seat <= n,
                n == self.players@.len(),
                old(self).wf(),
                self.wf(),
                bets_moved(*old(self), *self),
                bets_bounded(*old(self), *self, 0),
                forall|i: int| seat <= i < n ==> #[trigger] self.players@[i]
                    == old(self).players@[i],
                self.game_status == old(self).game_status,
                mode == Mode::Human ==> forall|i: int|
                    0 <= i < n && is_me(#[trigger] old(self).players@[i]) ==> self.players@[i]
                        == old(self).players@[i],
                start == old(trace)@.len(),
                forall|i: int|
                    0 <= i < seat ==> (#[trigger] stops_at(
                        old(self).standing(),
                        self.players@,
                        mode,
                        i,
                    )) is None && seat_resolved(old(self).standing(), self.players@, mode, i),
                recorded(old(trace)@, trace@, old(self).players@, self.players@),
                forall|j: int|
                    start <= j < trace@.len() ==> is_turn((#[trigger] trace@[j]).deed)
                        && trace@[j].seat
                        < seat && is_live(old(self).players@[trace@[j].seat as int].role),
            decreases n - seat,
        {
            let ghost before = *self;
            let ghost steps = trace@;
            proof {
                lemma_sizes_stay(*old(self), *self);
            }
            let ended = self.resolve_seat(seat, mode, rng, trace);
            proof {
                lemma_seat_done(
                    old(self).standing(),
                    before.players@,
                    self.players@,
                    mode,
                    seat as int,
                );
                if trace@ != steps {
                    lemma_noted(
                        old(trace)@,
                        steps,
                        trace@,
                        old(self).players@,
                        before.players@,
                        self.players@,
                    );
                } else {
                    assert(self.players@ =~= before.players@);
                }
                assert(seat_moved(old(self).players@[seat as int], self.players@[seat as int]));
            }
            match ended {
                Some(outcome) => {
                    proof {
                        lemma_moved_chips(*old(self), *self);
                        assert(resolved_to(
                            old(self).standing(),
                            self.players@,
                            mode,
                            outcome,
                            seat as int,
                        ));
                    }
                    return outcome;
                },
                None => {},
            }
            seat = seat + 1;
        }
        proof {
            lemma_moved_chips(*old(self), *self);
            assert(resolved_to(
                old(self).standing(),
                self.players@,
                mode,
                Outcome::Resolved,
                n as int,
            ));
        }
        Outcome::Resolved
    }

    /// Deals the cards and lets the seats act until something is due of the
    /// human: see `pick_post`.
    pub fn pick_cards(&mut self, rng: &mut RandomSource, trace: &mut Vec<Step>) -> (r: Result<
        Outcome,
        ErrorKind,
    >)
        requires
            old(self).wf(),
        ensures
            final(self).wf(),
            pick_post(*old(self), *final(self), r),
            chips_of(final(self).players@) == chips_of(old(self).players@),
            conserved(*old(self), *final(self)),
            recorded(old(trace)@, final(trace)@, old(self).players@, final(self).players@),
            r is Err ==> final(trace)@ == old(trace)@,
    {
        proof {
            lemma_nothing_noted(trace@, self.players@);
        }
        match self.game_status {
            GameStatus::CardsPicking => {},
            _ => {
                return Err(ErrorKind::IllegalTransition);
            },
        }
        self.game_status = GameStatus::BetPlacing1;
        proof {
            lemma_seats_conserved(*old(self), *self);
        }
        let n = self.players.len();
        let ghost roles = roles_of(self.players@);
        let ghost ready = deck_ready(*old(self));
        let ghost deck0 = self.card_pool.card_pool.entries();
        let mut seat: usize = 0;
        proof {
            assert(roles.take(0) =~= Seq::<Role>::empty());
        }
        while seat < n
            invariant
                0 <= seat <= n,
                n == self.players@.len(),
                n == old(self).players@.len(),
                self.wf(),
                roles == roles_of(old(self).players@),
                ready == deck_ready(*old(self)),
                deck0 == old(self).card_pool.card_pool.entries(),
                forall|i: int|
                    0 <= i < n ==> (#[trigger] self.players@[i]).name == old(self).players@[i].name
                        && self.players@[i].role == old(self).players@[i].role
                        && self.players@[i].owned_bank == old(self).players@[i].owned_bank
                        && self.players@[i].bet_bank == old(self).players@[i].bet_bank
                            && (old(self).players@[i].role is Quit ==> self.players@[i] == old(self).players@[i]),
                forall|i: int| seat <= i < n ==> #[trigger] self.players@[i]
                    == old(self).players@[i],
                self.cash_pool == old(self).cash_pool,
                self.five_cards == old(self).five_cards,
                self.game_status == GameStatus::BetPlacing1,
                self.last_XiaoMang_ID == old(self).last_XiaoMang_ID,
                self.min_value_unit == old(self).min_value_unit,
                conserved(*old(self), *self),
                recorded(old(trace)@, trace@, old(self).players@, self.players@),
                forall|j: int|
                    old(trace)@.len() <= j < trace@.len() ==> !is_turn((#[trigger] trace@[j]).deed),
                ready ==> is_card_deck(self.card_pool.card_pool.entries())
                    && self.card_pool.card_pool.entries().len() == deck0.len() - 2 * eligible_of(
                    roles.take(seat as int),
                ),
                ready ==> forall|i: int|
                    0 <= i < seat && !((#[trigger] old(self).players@[i]).role is Quit)
                        ==> is_card_deck(self.players@[i].cards_bank.entries())
                        && self.players@[i].cards_bank.entries().len() == 2,
            decreases n - seat,
        {
            proof {
                lemma_eligible_prefix(roles, seat as int);
                assert(roles[seat as int] == old(self).players@[seat as int].role);
            }
            match self.players[seat].role {
                Role::Quit => {},
                _ => {
                    let ghost deck = self.card_pool.card_pool.entries();
                    let ghost hole = self.players@[seat as int].cards_bank.entries();
                    proof {
                        use_type_invariant(&self.card_pool.card_pool);
                        if ready {
                            lemma_held_once_empty(deck);
                            lemma_cards_roomy(deck, hole);
                        }
                    }
                    let ghost before = *self;
                    let ghost steps = trace@;
                    let dealt = self.players[seat].get_two_cards(&mut self.card_pool, rng);
                    note(trace, seat, Deed::Dealt, refusal(&dealt));
                    proof {
                        lemma_noted(
                            old(trace)@,
                            steps,
                            trace@,
                            old(self).players@,
                            before.players@,
                            self.players@,
                        );
                        assert(self.players@ =~= before.players@.update(
                            seat as int,
                            self.players@[seat as int],
                        ));
                        lemma_step_conserved(before, *self, seat as int);
                        lemma_conserved_twice(*old(self), before, *self);
                        if ready {
                            lemma_dealing_cards(
                                deck,
                                hole,
                                self.card_pool.card_pool.entries(),
                                self.players@[seat as int].cards_bank.entries(),
                                2,
                            );
                        }
                    }
                },
            }
            seat = seat + 1;
        }
        let ghost deck = self.card_pool.card_pool.entries();
        proof {
            assert(roles.take(n as int) =~= roles);
            use_type_invariant(&self.card_pool.card_pool);
            if ready {
                lemma_held_once_empty(deck);
                lemma_cards_roomy(deck, Seq::empty());
                lemma_eligible_nonneg(roles);
            }
        }
        let ghost dealt = *self;
        let ghost steps = trace@;
        let shared = self.five_cards.get_five_cards(&mut self.card_pool, rng);
        note(trace, 0, Deed::Shared, refusal(&shared));
        let ghost mid = *self;
        let ghost noted = trace@;
        proof {
            lemma_noted(
                old(trace)@,
                steps,
                trace@,
                old(self).players@,
                dealt.players@,
                self.players@,
            );
            lemma_pools_conserved(dealt, mid);
            lemma_conserved_twice(*old(self), dealt, mid);
            if ready {
                lemma_dealing_cards(
                    deck,
                    Seq::empty(),
                    self.card_pool.card_pool.entries(),
                    self.five_cards.five_cards.entries(),
                    5,
                );
            }
            assert forall|i: int| 0 <= i < n implies (#[trigger] mid.players@[i]).chips()
                == old(self).players@[i].chips() by {}
            lemma_chips_same(mid.players@, old(self).players@);
        }
        let outcome = self.resolve(Mode::Deal, rng, trace);
        proof {
            lemma_recorded_twice(
                old(trace)@,
                noted,
                trace@,
                old(self).players@,
                mid.players@,
                self.players@,
            );
            lemma_conserved_twice(*old(self), mid, *self);
            assert forall|i: int| 0 <= i < n implies seat_picked(
                #[trigger] old(self).players@[i],
                self.players@[i],
            ) by {
                assert(seat_moved(mid.players@[i], self.players@[i]));
            }
            assert(roles_of(mid.players@) =~= roles_of(old(self).players@));
            assert(mid.players@ =~= dealt_seats(old(self).players@, self.players@)) by {
                assert forall|i: int| 0 <= i < n implies #[trigger] mid.players@[i] == dealt_seats(
                    old(self).players@,
                    self.players@,
                )[i] by {
                    assert(seat_moved(mid.players@[i], self.players@[i]));
                }
            }
            lemma_resolved_from(
                mid,
                stood(
                    *old(self),
                    GameStatus::BetPlacing1,
                    dealt_seats(old(self).players@, self.players@),
                ),
                self.players@,
                Mode::Deal,
                outcome,
            );
            assert forall|i: int| 0 <= i < n implies bet_bounded(
                #[trigger] old(self).players@[i],
                self.players@[i],
                old(self).max_bet(),
            ) by {
                assert(bet_bounded(mid.players@[i], self.players@[i], mid.max_bet()));
            }
        }
        Ok(outcome)
    }

    /// A round in which every seat decides for itself: see `auto_post`.
    pub fn auto_bet(&mut self, rng: &mut RandomSource, trace: &mut Vec<Step>) -> (r: Result<
        Outcome,
        ErrorKind,
    >)
        requires
            old(self).wf(),
        ensures
            final(self).wf(),
            auto_post(*old(self), *final(self), r),
            chips_of(final(self).players@) == chips_of(old(self).players@),
            conserved(*old(self), *final(self)),
            recorded(old(trace)@, final(trace)@, old(self).players@, final(self).players@),
            r is Err ==> final(trace)@ == old(trace)@,
    {
        proof {
            lemma_nothing_noted(trace@, self.players@);
        }
        if !betting(self.game_status) {
            return Err(ErrorKind::IllegalTransition);
        }
        self.game_status = next_status(self.game_status);
        let ghost mid = *self;
        let outcome = self.resolve(Mode::All, rng, trace);
        proof {
            lemma_resolved_from(
                mid,
                stood(*old(self), next_of(old(self).game_status), old(self).players@),
                self.players@,
                Mode::All,
                outcome,
            );
        }
        Ok(outcome)
    }

    /// The human gives up: see `fold_post`.
    pub fn give_up(&mut self, rng: &mut RandomSource, trace: &mut Vec<Step>) -> (r: Result<
        Outcome,
        ErrorKind,
    >)
        requires
            old(self).wf(),
        ensures
            final(self).wf(),
            fold_post(*old(self), *final(self), r),
            chips_of(final(self).players@) == chips_of(old(self).players@),
            conserved(*old(self), *final(self)),
            recorded(old(trace)@, final(trace)@, old(self).players@, final(self).players@),
            fold_record(*old(self), r, old(trace)@, final(trace)@),
    {
        proof {
            lemma_nothing_noted(trace@, self.players@);
        }
        if !betting(self.game_status) {
            return Err(ErrorKind::IllegalTransition);
        }
        self.game_status = next_status(self.game_status);
        let ghost steps = trace@;
        match self.players[0].role {
            Role::Quit => {},
            _ => {
                self.players[0].role = Role::GiveUp;
                note(trace, 0, Deed::Folded, None);
                proof {
                    lemma_noted(
                        old(trace)@,
                        steps,
                        trace@,
                        old(self).players@,
                        old(self).players@,
                        self.players@,
                    );
                }
            },
        }
        let ghost mid = *self;
        let ghost noted = trace@;
        proof {
            assert forall|i: int| 0 <= i < mid.players@.len() implies (
            #[trigger] mid.players@[i]).chips() == old(self).players@[i].chips() by {}
            lemma_chips_same(mid.players@, old(self).players@);
            lemma_seats_conserved(*old(self), mid);
        }
        let outcome = self.resolve(Mode::All, rng, trace);
        proof {
            assert(seat_moved(mid.players@[0], self.players@[0]));
            assert forall|j: int, k: int|
                old(trace)@.len() <= j < noted.len() <= k < trace@.len() && is_turn(
                    (#[trigger] noted[j]).deed,
                )
                    && is_turn((#[trigger] trace@[k]).deed) implies noted[j].seat < trace@[k].seat by {
                assert(is_live(mid.players@[trace@[k].seat as int].role));
            }
            lemma_recorded_twice(
                old(trace)@,
                noted,
                trace@,
                old(self).players@,
                mid.players@,
                self.players@,
            );
            lemma_conserved_twice(*old(self), mid, *self);
            assert(mid.players@ =~= old(self).players@.update(0, folded(old(self).players@[0])));
            assert forall|i: int| 0 <= i < mid.players@.len() implies is_eligible(
                #[trigger] roles_of(mid.players@)[i],
            ) == is_eligible(roles_of(old(self).players@)[i]) by {}
            lemma_eligible_same(roles_of(mid.players@), roles_of(old(self).players@));
            lemma_resolved_from(
                mid,
                stood(
                    *old(self),
                    next_of(old(self).game_status),
                    old(self).players@.update(0, folded(old(self).players@[0])),
                ),
                self.players@,
                Mode::All,
                outcome,
            );
            assert forall|i: int| 1 <= i < mid.players@.len() implies seat_moved(
                #[trigger] old(self).players@[i],
                self.players@[i],
            ) by {
                assert(mid.players@[i] == old(self).players@[i]);
                assert(seat_moved(mid.players@[i], self.players@[i]));
            }
            assert forall|i: int| 0 <= i < mid.players@.len() implies is_eligible(
                #[trigger] roles_of(mid.players@)[i],
            ) == is_eligible(roles_of(old(self).players@)[i]) by {}
            lemma_eligible_same(roles_of(mid.players@), roles_of(old(self).players@));
            assert forall|i: int| 1 <= i < mid.players@.len() implies bet_bounded(
                #[trigger] old(self).players@[i],
                self.players@[i],
                old(self).max_bet(),
            ) by {
                assert(mid.players@[i] == old(self).players@[i]);
                assert(bet_bounded(mid.players@[i], self.players@[i], mid.max_bet()));
            }
        }
        Ok(outcome)
    }

    /// The human bets the batch `bet`: see `bet_post`.
    pub fn place_a_bet(
        &mut self,
        bet: &Vec<(&StuffType, i32)>,
        rng: &mut RandomSource,
        trace: &mut Vec<Step>,
    ) -> (r: Result<Outcome, ErrorKind>)
        requires
            old(self).wf(),
        ensures
            final(self).wf(),
            bet_post(*old(self), *final(self), batch_of(bet@), r),
            chips_of(final(self).players@) == chips_of(old(self).players@),
            conserved(*old(self), *final(self)),
            recorded(old(trace)@, final(trace)@, old(self).players@, final(self).players@),
            bet_record(*old(self), r, old(trace)@, final(trace)@),
    {
        let ghost steps = trace@;
        proof {
            lemma_nothing_noted(trace@, self.players@);
        }
        if !betting(self.game_status) {
            return Err(ErrorKind::IllegalTransition);
        }
        match turn(&self.players, 0, false) {
            Turn::Wait => Err(ErrorKind::NotYourTurn),
            Turn::Lone => {
                self.players[0].role = Role::PlaceBet;
                self.game_status = GameStatus::Balancing;
                note(trace, 0, Deed::Won, None);
                proof {
                    assert(seat_moved(old(self).players@[0], self.players@[0]));
                    lemma_moved_chips(*old(self), *self);
                    lemma_noted(
                        old(trace)@,
                        steps,
                        trace@,
                        old(self).players@,
                        old(self).players@,
                        self.players@,
                    );
                }
                Ok(Outcome::Uncontested(0))
            },
            Turn::Idle => {
                self.game_status = next_status(self.game_status);
                let ghost mid = *self;
                let outcome = self.resolve(Mode::Human, rng, trace);
                proof {
                    lemma_resolved_from(
                        mid,
                        stood(*old(self), next_of(old(self).game_status), old(self).players@),
                        self.players@,
                        Mode::Human,
                        outcome,
                    );
                }
                Ok(outcome)
            },
            Turn::Post(value) => self.bet_against(bet, Ordering::Equal, value, rng, trace),
            Turn::Act(value) => self.bet_against(bet, Ordering::Greater, value, rng, trace),
        }
    }

    /// The human bets the batch `bet`, which has to stand to `value` as
    /// `order` asks: see `bet_checked`. Where the bet is refused, the human's
    /// former bet is placed again if it can be.
    fn bet_against(
        &mut self,
        bet: &Vec<(&StuffType, i32)>,
        order: Ordering,
        value: i64,
        rng: &mut RandomSource,
        trace: &mut Vec<Step>,
    ) -> (r: Result<Outcome, ErrorKind>)
        requires
            old(self).wf(),
            is_betting(old(self).game_status),
            is_live(old(self).players@[0].role),
            match old(self).players@[0].role {
                Role::XiaoMang(amount) => order is Equal && value == amount,
                Role::DaMang(amount) => order is Equal && value == amount,
                _ => true,
            },
        ensures
            final(self).wf(),
            bets_moved(*old(self), *final(self)),
            bet_checked(*old(self), *final(self), batch_of(bet@), order, value, r),
            chips_of(final(self).players@) == chips_of(old(self).players@),
            conserved(*old(self), *final(self)),
            recorded(old(trace)@, final(trace)@, old(self).players@, final(self).players@),
            match r {
                Err(kind) => final(trace)@ == old(trace)@.push(
                    Step { seat: 0, deed: Deed::Placed, refused: Some(kind) },
                ).push(Step { seat: 0, deed: Deed::Restored, refused: None }),
                Ok(_) => final(trace)@.len() > old(trace)@.len() && first_added(
                    old(trace)@,
                    final(trace)@,
                ) == (Step { seat: 0, deed: Deed::Placed, refused: None }),
            },
    {
        let ghost steps = trace@;
        proof {
            lemma_nothing_noted(trace@, self.players@);
        }
        let former = self.players[0].bet_bank.clone();
        let backup = former.get_basket_vec();
        let owned = &self.players[0].owned_bank;
        let placed = &self.players[0].bet_bank;
        proof {
            use_type_invariant(owned);
            use_type_invariant(placed);
        }
        match self.players[0].place_a_bet_and_check_value(bet, order, value) {
            Err(kind) => {
                let ghost refused = *self;
                note(trace, 0, Deed::Placed, Some(kind));
                let ghost noted = trace@;
                proof {
                    lemma_noted(
                        old(trace)@,
                        steps,
                        noted,
                        old(self).players@,
                        old(self).players@,
                        refused.players@,
                    );
                }
                self.players[0].restore_bet(&backup, Ghost(old(self).players@[0]));
                note(trace, 0, Deed::Restored, None);
                proof {
                    lemma_noted(
                        old(trace)@,
                        noted,
                        trace@,
                        old(self).players@,
                        refused.players@,
                        self.players@,
                    );
                    assert(seat_moved(old(self).players@[0], self.players@[0]));
                    lemma_moved_chips(*old(self), *self);
                }
                Err(kind)
            },
            Ok(()) => {
                self.game_status = next_status(self.game_status);
                note(trace, 0, Deed::Placed, None);
                let ghost mid = *self;
                let ghost noted = trace@;
                proof {
                    lemma_noted(
                        old(trace)@,
                        steps,
                        noted,
                        old(self).players@,
                        old(self).players@,
                        mid.players@,
                    );
                    assert(seat_moved(old(self).players@[0], mid.players@[0]));
                    assert(bets_moved(*old(self), mid));
                    lemma_moved_chips(*old(self), mid);
                }
                let outcome = self.resolve(Mode::Human, rng, trace);
                proof {
                    lemma_recorded_twice(
                        old(trace)@,
                        noted,
                        trace@,
                        old(self).players@,
                        mid.players@,
                        self.players@,
                    );
                    assert forall|i: int| 0 <= i < mid.players@.len() implies seat_moved(
                        #[trigger] old(self).players@[i],
                        self.players@[i],
                    ) by {
                        assert(seat_moved(old(self).players@[i], mid.players@[i]));
                        assert(seat_moved(mid.players@[i], self.players@[i]));
                    }
                    lemma_sizes_stay(*old(self), mid);
                    assert(mid.players@ =~= old(self).players@.update(0, self.players@[0]));
                    lemma_resolved_from(
                        mid,
                        stood(
                            *old(self),
                            next_of(old(self).game_status),
                            old(self).players@.update(0, self.players@[0]),
                        ),
                        self.players@,
                        Mode::Human,
                        outcome,
                    );
                    assert forall|i: int| 1 <= i < mid.players@.len() implies bet_bounded(
                        #[trigger] old(self).players@[i],
                        self.players@[i],
                        old(self).max_bet(),
                    ) by {
                        assert(mid.players@[i] == old(self).players@[i]);
                        assert(bet_bounded(mid.players@[i], self.players@[i], mid.max_bet()));
                    }
                }
                Ok(outcome)
            },
        }
    }
}

/// A record that is continued with an entry for the one seat that changed
/// is the record of the change, where the entry tells what became of the
/// seat and names a seat behind those named before.
pub proof fn lemma_noted(
    first: Seq<Step>,
    before: Seq<Step>,
    after: Seq<Step>,
    pre: Seq<Player>,
    mid: Seq<Player>,
    post: Seq<Player>,
)
    requires
        recorded(first, before, pre, mid),
        after == before.push(after.last()),
        after.len() == before.len() + 1,
        0 <= after.last().seat < mid.len(),
        mid.len() == post.len(),
        forall|i: int| 0 <= i < mid.len()
            && i != after.last().seat ==> #[trigger] post[i] == mid[i],
        is_turn(after.last().deed) ==> told(after.last(), post[after.last().seat as int]),
        forall|j: int|
            first.len() <= j < before.len()
                && is_turn((#[trigger] before[j]).deed) ==> before[j].seat
                != after.last().seat && (is_turn(after.last().deed) ==> before[j].seat
                < after.last().seat),
    ensures
        recorded(first, after, pre, post),
{
    let from = first.len() as int;
    assert(after.drop_last() =~= before);
    assert(after.take(from) =~= before.take(from));
    assert forall|j: int| from <= j < after.len() implies 0 <= (#[trigger] after[j]).seat
        < post.len() by {
        if j < before.len() {
            assert(after[j] == before[j]);
        }
    }
    assert forall|i: int| 0 <= i < pre.len() && !names(after, from, i) implies #[trigger] post[i]
        == pre[i] by {
        assert(after[after.len() - 1].seat != i);
        if names(before, from, i) {
            let j = choose|j: int| from <= j < before.len() && (#[trigger] before[j]).seat == i;
            assert(after[j] == before[j]);
        }
    }
    assert forall|j: int|
        from <= j < after.len() && is_turn((#[trigger] after[j]).deed) implies told(
        after[j],
        post[after[j].seat as int],
    ) by {
        if j < before.len() {
            assert(after[j] == before[j]);
        }
    }
    assert forall|j: int, k: int|
        from <= j < k < after.len() && is_turn((#[trigger] after[j]).deed) && is_turn(
            (#[trigger] after[k]).deed,
        ) implies after[j].seat < after[k].seat by {
        assert(after[j] == before[j]);
        if k < before.len() {
            assert(after[k] == before[k]);
        }
    }
}

/// What the resolving of the seats says of the table that it found, it
/// says of the same table described otherwise.
pub proof fn lemma_resolved_from(
    mid: Game,
    found: Standing,
    post: Seq<Player>,
    mode: Mode,
    outcome: Outcome,
)
    requires
        exists|stop: int| #[trigger] resolved_to(mid.standing(), post, mode, outcome, stop),
        mid.standing() == found,
    ensures
        exists|stop: int| #[trigger] resolved_to(found, post, mode, outcome, stop),
{
}

/// A record that is not continued is the record of no change.
pub proof fn lemma_nothing_noted(steps: Seq<Step>, players: Seq<Player>)
    ensures
        recorded(steps, steps, players, players),
{
    assert(steps.take(steps.len() as int) =~= steps);
}

/// A record in two parts is the record of both changes, where the second
/// change leaves the seats whose turn it was in the first part, and names
/// seats behind them where it names seats whose turn it was.
pub proof fn lemma_recorded_twice(
    first: Seq<Step>,
    before: Seq<Step>,
    after: Seq<Step>,
    pre: Seq<Player>,
    mid: Seq<Player>,
    post: Seq<Player>,
)
    requires
        recorded(first, before, pre, mid),
        recorded(before, after, mid, post),
        mid.len() == post.len(),
        forall|j: int|
            first.len() <= j < before.len() && is_turn((#[trigger] before[j]).deed)
                ==> post[before[j].seat as int] == mid[before[j].seat as int],
        forall|j: int, k: int|
            first.len() <= j < before.len() <= k < after.len() && is_turn(
                (#[trigger] before[j]).deed,
            ) && is_turn((#[trigger] after[k]).deed) ==> before[j].seat < after[k].seat,
    ensures
        recorded(first, after, pre, post),
{
    let from = first.len() as int;
    let cut = before.len() as int;
    assert(after.take(cut) == before);
    assert(after.take(from) =~= before.take(from));
    assert forall|j: int| from <= j < cut implies #[trigger] after[j] == before[j] by {
        assert(after.take(cut)[j] == after[j]);
    }
    assert forall|j: int| from <= j < after.len() implies 0 <= (#[trigger] after[j]).seat
        < post.len() by {
        if j < cut {
            assert(after[j] == before[j]);
        }
    }
    assert forall|i: int| 0 <= i < pre.len() && !names(after, from, i) implies #[trigger] post[i]
        == pre[i] by {
        if names(before, from, i) {
            let j = choose|j: int| from <= j < before.len() && (#[trigger] before[j]).seat == i;
            assert(after[j] == before[j]);
        }
        if names(after, cut, i) {
            let j = choose|j: int| cut <= j < after.len() && (#[trigger] after[j]).seat == i;
            assert(from <= j);
        }
        assert(post[i] == mid[i]);
    }
    assert forall|j: int|
        from <= j < after.len() && is_turn((#[trigger] after[j]).deed) implies told(
        after[j],
        post[after[j].seat as int],
    ) by {
        if j < cut {
            assert(after[j] == before[j]);
        }
    }
    assert forall|j: int, k: int|
        from <= j < k < after.len() && is_turn((#[trigger] after[j]).deed) && is_turn(
            (#[trigger] after[k]).deed,
        ) implies after[j].seat < after[k].seat by {
        if j < cut {
            assert(after[j] == before[j]);
        }
        if k < cut {
            assert(after[k] == before[k]);
        }
    }
}

/// What the seats have in play together stays while bets are placed.
pub proof fn lemma_moved_chips(pre: Game, post: Game)
    requires
        bets_moved(pre, post),
    ensures
        chips_of(post.players@) == chips_of(pre.players@),
        conserved(pre, post),
{
    assert forall|i: int| 0 <= i < post.players@.len() implies (#[trigger] post.players@[i]).chips()
        == pre.players@[i].chips() && seat_worth(post.players@[i]) == seat_worth(
        pre.players@[i],
    ) by {
        assert(seat_moved(pre.players@[i], post.players@[i]));
    }
    assert forall|i: int, k: StuffModel| 0 <= i < pre.players@.len() implies #[trigger] seat_units(
        post.players@[i],
        k,
    ) == seat_units(pre.players@[i], k) by {
        assert(seat_moved(pre.players@[i], post.players@[i]));
        assert(post.players@[i].held(k) == pre.players@[i].held(k));
    }
    lemma_chips_same(post.players@, pre.players@);
    lemma_seats_conserved(pre, post);
}

} // verus!
