//! The showdown: who wins the hand, and how the chips and cards are settled.
use crate::bank::{Entry, StuffModel, lemma_count_nonneg};
use crate::card::{FiveCardsCategory, evaluate, evaluate_of};
use crate::deck::roomy;
use crate::error::ErrorKind;
use crate::game::{Game, GameStatus, Outcome};
use crate::player::{Player, Role, hand_of, widen};
use crate::seat::{bettors_of, chips_of, count_bettors, roles_of};
use crate::sweep::lemma_pour;
use crate::trace::{Deed, Step, continues, is_turn, lemma_all_named, names, note, recorded, refusal};
use vstd::prelude::*;

verus! {

/// What a seat shows at the showdown: the rank and category of its seven
/// cards where it has placed its bet and holds, with the community cards,
/// seven lines of cards; else the rank 0.
pub open spec fn shown_by(player: Player, board: Seq<Entry>) -> (int, FiveCardsCategory) {
    if player.role is PlaceBet && hand_of(player.cards_bank.entries(), board) is Some {
        evaluate_of(hand_of(player.cards_bank.entries(), board)->Some_0)
    } else {
        (0, FiveCardsCategory::HighCard)
    }
}

/// The winner among the first `upto` seats: the first seat that shows the
/// highest rank above 0, with that rank and its category; the first seat,
/// with the rank 0, where no seat shows a rank.
pub open spec fn best_seat(players: Seq<Player>, board: Seq<Entry>, upto: int) -> (
    int,
    int,
    FiveCardsCategory,
)
    decreases upto,
{
    if upto <= 0 {
        (0, 0, FiveCardsCategory::HighCard)
    } else {
        let before = best_seat(players, board, upto - 1);
        let shown = shown_by(players[upto - 1], board);
        if shown.0 > before.1 {
            (upto - 1, shown.0, shown.1)
        } else {
            before
        }
    }
}

/// Whether the hand can be settled: the hand is over, or it is past its
/// first round and one seat alone has placed its bet; and there are
/// community cards.
pub open spec fn can_settle(game: Game) -> bool {
    &&& game.game_status == GameStatus::Balancing || ((game.game_status == GameStatus::BetPlacing2
        || game.game_status == GameStatus::BetPlacing3 || game.game_status
        == GameStatus::BetPlacing4) && bettors_of(roles_of(game.players@)) == 1)
    &&& game.five_cards.five_cards.entries().len() > 0
}

/// How settling changes a seat: it keeps its name; it is a spectator
/// afterwards where it was one or its bankroll is worth nothing, and keeps
/// its role otherwise.
pub open spec fn seat_settled(before: Player, after: Player) -> bool {
    &&& after.name == before.name
    &&& after.role == if before.role is Quit || after.owned_bank.valuation() == 0 {
        Role::Quit
    } else {
        before.role
    }
}

/// How many units of a kind a seat holds in its three ledgers.
pub open spec fn seat_units(player: Player, k: StuffModel) -> int {
    player.owned_bank@.counts[k] + player.bet_bank@.counts[k] + player.cards_bank@.counts[k]
}

/// What the three ledgers of a seat are worth.
pub open spec fn seat_worth(player: Player) -> int {
    player.owned_bank.valuation() + player.bet_bank.valuation() + player.cards_bank.valuation()
}

/// Whether the three ledgers of a seat are ledgers.
pub open spec fn seat_sound(player: Player) -> bool {
    player.owned_bank.wf() && player.bet_bank.wf() && player.cards_bank.wf()
}

/// How many units of a kind the seats hold.
pub open spec fn units_of(players: Seq<Player>, k: StuffModel) -> int
    decreases players.len(),
{
    if players.len() == 0 {
        0
    } else {
        units_of(players.drop_last(), k) + seat_units(players.last(), k)
    }
}

/// What the ledgers of the seats are worth.
pub open spec fn worths_of(players: Seq<Player>) -> int
    decreases players.len(),
{
    if players.len() == 0 {
        0
    } else {
        worths_of(players.drop_last()) + seat_worth(players.last())
    }
}

/// How settling leaves the bankroll of a seat that does not win: empty
/// where it was worth less than the small blind, and as it was otherwise.
pub open spec fn bankroll_kept(before: Player, after: Player, small: int) -> bool {
    if before.owned_bank.valuation() < small {
        after.owned_bank.entries() == Seq::<Entry>::empty()
    } else {
        after.owned_bank == before.owned_bank
    }
}

/// Whether everything was moved as settling moves it: the bets, and the
/// bankrolls worth less than the small blind, have gone to the pot and the
/// pot to the winner; the hole cards and the community cards have gone to
/// the deck.
pub open spec fn swept(pre: Game, post: Game, winner: int, small: int) -> bool {
    &&& post.cash_pool.cash_pool.entries() == Seq::<Entry>::empty()
    &&& post.five_cards.five_cards.entries() == Seq::<Entry>::empty()
    &&& forall|i: int|
        0 <= i < pre.players@.len() ==> (#[trigger] post.players@[i]).bet_bank.entries() == Seq::<
            Entry,
        >::empty() && post.players@[i].cards_bank.entries() == Seq::<Entry>::empty() && (i
            != winner ==> bankroll_kept(pre.players@[i], post.players@[i], small))
}

/// What settling the hand leads to. The winner is the first seat that shows
/// the highest rank. A seat whose bankroll is worth less than the small
/// blind gives it to the pot; every bet goes to the pot; the hole cards and
/// the community cards go back to the deck; the pot goes to the winner. Each
/// of these moves wholly or, where the receiving ledger cannot take it, not
/// at all, so that what is at the table is worth what it was; all of them
/// move where the table fits. A seat whose bankroll is then worth nothing is
/// a spectator. It is refused, and nothing changes, where the hand cannot be
/// settled.
pub open spec fn confirm_post(pre: Game, post: Game, r: Result<Outcome, ErrorKind>) -> bool {
    if !can_settle(pre) {
        post == pre && r == Err::<Outcome, ErrorKind>(ErrorKind::IllegalTransition)
    } else {
        let best = best_seat(
            pre.players@,
            pre.five_cards.five_cards.entries(),
            pre.players@.len() as int,
        );
        &&& r == Ok::<Outcome, ErrorKind>(
            Outcome::Settled { winner: best.0 as usize, category: best.2 },
        )
        &&& post.game_status == GameStatus::Balancing
        &&& post.players@.len() == pre.players@.len()
        &&& forall|i: int|
            0 <= i < pre.players@.len() ==> seat_settled(
                #[trigger] pre.players@[i],
                post.players@[i],
            )
        &&& post.table_chips() == pre.table_chips()
        &&& post.all_worth() == pre.all_worth()
        &&& forall|k: StuffModel| #[trigger] post.all_units(k) == pre.all_units(k)
        &&& post.last_XiaoMang_ID == pre.last_XiaoMang_ID
        &&& post.min_value_unit == pre.min_value_unit
        &&& pre.fits() ==> swept(pre, post, best.0, pre.small_blind())
    }
}

/// How many units of a kind the seats hold changes by what one of them
/// gains.
pub proof fn lemma_units_update(players: Seq<Player>, i: int, after: Player, k: StuffModel)
    requires
        0 <= i < players.len(),
    ensures
        units_of(players.update(i, after), k) == units_of(players, k) - seat_units(players[i], k)
            + seat_units(after, k),
    decreases players.len(),
{
    if i == players.len() - 1 {
        assert(players.update(i, after).drop_last() =~= players.drop_last());
    } else {
        lemma_units_update(players.drop_last(), i, after, k);
        assert(players.update(i, after).drop_last() =~= players.drop_last().update(i, after));
    }
}

/// What the ledgers of the seats are worth changes by what one of them
/// gains.
pub proof fn lemma_worths_update(players: Seq<Player>, i: int, after: Player)
    requires
        0 <= i < players.len(),
    ensures
        worths_of(players.update(i, after)) == worths_of(players) - seat_worth(players[i])
            + seat_worth(after),
    decreases players.len(),
{
    if i == players.len() - 1 {
        assert(players.update(i, after).drop_last() =~= players.drop_last());
    } else {
        lemma_worths_update(players.drop_last(), i, after);
        assert(players.update(i, after).drop_last() =~= players.drop_last().update(i, after));
    }
}

/// The seats hold at least what one of them holds.
pub proof fn lemma_seat_covered(players: Seq<Player>, i: int, k: StuffModel)
    requires
        0 <= i < players.len(),
        forall|j: int| 0 <= j < players.len() ==> seat_sound(#[trigger] players[j]),
    ensures
        0 <= seat_units(players[i], k) <= units_of(players, k),
        0 <= seat_worth(players[i]) <= worths_of(players),
        0 <= players[i].owned_bank@.counts[k],
        0 <= players[i].bet_bank@.counts[k],
        0 <= players[i].cards_bank@.counts[k],
        0 <= players[i].owned_bank.valuation(),
        0 <= players[i].bet_bank.valuation(),
        0 <= players[i].cards_bank.valuation(),
    decreases players.len(),
{
    let last = players[players.len() - 1];
    assert(seat_sound(last));
    lemma_count_nonneg(last.owned_bank.entries(), k);
    lemma_count_nonneg(last.bet_bank.entries(), k);
    lemma_count_nonneg(last.cards_bank.entries(), k);
    lemma_seats_nonneg(players.drop_last(), k);
    if i < players.len() - 1 {
        lemma_seat_covered(players.drop_last(), i, k);
    }
}

/// The seats hold nothing less than nothing.
pub proof fn lemma_seats_nonneg(players: Seq<Player>, k: StuffModel)
    requires
        forall|j: int| 0 <= j < players.len() ==> seat_sound(#[trigger] players[j]),
    ensures
        0 <= units_of(players, k),
        0 <= worths_of(players),
    decreases players.len(),
{
    if players.len() > 0 {
        let last = players[players.len() - 1];
        assert(seat_sound(last));
        lemma_count_nonneg(last.owned_bank.entries(), k);
        lemma_count_nonneg(last.bet_bank.entries(), k);
        lemma_count_nonneg(last.cards_bank.entries(), k);
        assert forall|j: int| 0 <= j < players.drop_last().len() implies seat_sound(
            #[trigger] players.drop_last()[j],
        ) by {
            assert(players.drop_last()[j] == players[j]);
        }
        lemma_seats_nonneg(players.drop_last(), k);
    }
}

/// At a table that fits, the pot can take the bankroll and the bet of any
/// seat, the deck its cards and the community cards, and its bankroll the
/// pot.
pub proof fn lemma_room(game: Game, seat: int)
    requires
        game.sound(),
        game.fits(),
        0 <= seat < game.players@.len(),
    ensures
        roomy(game.cash_pool.cash_pool@, game.players@[seat].owned_bank@),
        roomy(game.cash_pool.cash_pool@, game.players@[seat].bet_bank@),
        roomy(game.card_pool.card_pool@, game.players@[seat].cards_bank@),
        roomy(game.players@[seat].owned_bank@, game.cash_pool.cash_pool@),
        roomy(game.card_pool.card_pool@, game.five_cards.five_cards@),
{
    let p = game.players@[seat];
    let some = StuffModel::Denomination(Seq::empty(), 0);
    lemma_seat_covered(game.players@, seat, some);
    lemma_count_nonneg(game.cash_pool.cash_pool.entries(), some);
    lemma_count_nonneg(game.card_pool.card_pool.entries(), some);
    lemma_count_nonneg(game.five_cards.five_cards.entries(), some);
    assert forall|k: StuffModel|
        #![trigger game.all_units(k)]
        game.cash_pool.cash_pool@.counts[k] + p.owned_bank@.counts[k] <= i32::MAX
            && game.cash_pool.cash_pool@.counts[k] + p.bet_bank@.counts[k] <= i32::MAX
            && game.card_pool.card_pool@.counts[k] + p.cards_bank@.counts[k] <= i32::MAX
            && game.card_pool.card_pool@.counts[k] + game.five_cards.five_cards@.counts[k]
            <= i32::MAX by {
        lemma_seat_covered(game.players@, seat, k);
        lemma_count_nonneg(game.cash_pool.cash_pool.entries(), k);
        lemma_count_nonneg(game.card_pool.card_pool.entries(), k);
        lemma_count_nonneg(game.five_cards.five_cards.entries(), k);
        assert(game.all_units(k) <= i32::MAX);
    }
    assert forall|k: StuffModel| #[trigger]
        game.cash_pool.cash_pool@.counts[k] + p.owned_bank@.counts[k] <= i32::MAX by {
        assert(game.all_units(k) <= i32::MAX);
    }
    assert forall|k: StuffModel| #[trigger]
        game.cash_pool.cash_pool@.counts[k] + p.bet_bank@.counts[k] <= i32::MAX by {
        assert(game.all_units(k) <= i32::MAX);
    }
    assert forall|k: StuffModel| #[trigger]
        game.card_pool.card_pool@.counts[k] + p.cards_bank@.counts[k] <= i32::MAX by {
        assert(game.all_units(k) <= i32::MAX);
    }
    assert forall|k: StuffModel| #[trigger]
        p.owned_bank@.counts[k] + game.cash_pool.cash_pool@.counts[k] <= i32::MAX by {
        assert(game.all_units(k) <= i32::MAX);
    }
    assert forall|k: StuffModel| #[trigger]
        game.card_pool.card_pool@.counts[k] + game.five_cards.five_cards@.counts[k]
            <= i32::MAX by {
        assert(game.all_units(k) <= i32::MAX);
    }
}

/// Whether two tables hold the same, kind for kind, and are worth the same.
pub open spec fn conserved(pre: Game, post: Game) -> bool {
    &&& post.all_worth() == pre.all_worth()
    &&& post.table_chips() == pre.table_chips()
    &&& forall|k: StuffModel| #[trigger] post.all_units(k) == pre.all_units(k)
}

/// Whether two tables differ in the ledgers of one seat, in the pot and in
/// the deck at most.
pub open spec fn seat_framed(pre: Game, post: Game, seat: int) -> bool {
    &&& post.players@.len() == pre.players@.len()
    &&& forall|j: int|
        0 <= j < pre.players@.len() && j != seat ==> #[trigger] post.players@[j]
            == pre.players@[j]
    &&& post.players@[seat].name == pre.players@[seat].name
    &&& post.players@[seat].role == pre.players@[seat].role
    &&& post.five_cards == pre.five_cards
    &&& post.game_status == pre.game_status
    &&& post.last_XiaoMang_ID == pre.last_XiaoMang_ID
    &&& post.min_value_unit == pre.min_value_unit
}

/// Seats that hold the same, seat by seat, hold the same together.
pub proof fn lemma_units_same(a: Seq<Player>, b: Seq<Player>, k: StuffModel)
    requires
        a.len() == b.len(),
        forall|i: int| 0 <= i < a.len() ==> seat_units(#[trigger] a[i], k) == seat_units(b[i], k),
    ensures
        units_of(a, k) == units_of(b, k),
    decreases a.len(),
{
    if a.len() > 0 {
        assert forall|i: int| 0 <= i < a.drop_last().len() implies seat_units(
            #[trigger] a.drop_last()[i],
            k,
        ) == seat_units(b.drop_last()[i], k) by {
            assert(a.drop_last()[i] == a[i] && b.drop_last()[i] == b[i]);
        }
        lemma_units_same(a.drop_last(), b.drop_last(), k);
        assert(seat_units(a[a.len() - 1], k) == seat_units(b[b.len() - 1], k));
    }
}

/// Seats that are worth the same, seat by seat, are worth the same together.
pub proof fn lemma_worths_same(a: Seq<Player>, b: Seq<Player>)
    requires
        a.len() == b.len(),
        forall|i: int| 0 <= i < a.len() ==> seat_worth(#[trigger] a[i]) == seat_worth(b[i]),
    ensures
        worths_of(a) == worths_of(b),
    decreases a.len(),
{
    if a.len() > 0 {
        assert forall|i: int| 0 <= i < a.drop_last().len() implies seat_worth(
            #[trigger] a.drop_last()[i],
        ) == seat_worth(b.drop_last()[i]) by {
            assert(a.drop_last()[i] == a[i] && b.drop_last()[i] == b[i]);
        }
        lemma_worths_same(a.drop_last(), b.drop_last());
        assert(seat_worth(a[a.len() - 1]) == seat_worth(b[b.len() - 1]));
    }
}

/// A table whose seats hold and are worth what they did, seat by seat, and
/// whose pools are as they were, holds what it held.
pub proof fn lemma_seats_conserved(pre: Game, post: Game)
    requires
        post.players@.len() == pre.players@.len(),
        forall|i: int|
            0 <= i < pre.players@.len() ==> seat_worth(#[trigger] post.players@[i]) == seat_worth(
                pre.players@[i],
            ) && post.players@[i].chips() == pre.players@[i].chips(),
        forall|i: int, k: StuffModel|
            0 <= i < pre.players@.len() ==> #[trigger] seat_units(post.players@[i], k)
                == seat_units(pre.players@[i], k),
        post.cash_pool == pre.cash_pool,
        post.card_pool == pre.card_pool,
        post.five_cards == pre.five_cards,
    ensures
        conserved(pre, post),
{
    lemma_worths_same(post.players@, pre.players@);
    crate::game::lemma_chips_same(post.players@, pre.players@);
    assert forall|k: StuffModel| #[trigger] post.all_units(k) == pre.all_units(k) by {
        assert forall|i: int| 0 <= i < post.players@.len() implies seat_units(
            #[trigger] post.players@[i],
            k,
        ) == seat_units(pre.players@[i], k) by {}
        lemma_units_same(post.players@, pre.players@, k);
    }
}

/// Seats that hold nothing add nothing to the table.
pub proof fn lemma_empty_seats(players: Seq<Player>, from: int, k: StuffModel)
    requires
        0 <= from <= players.len(),
        forall|i: int|
            from <= i < players.len() ==> (#[trigger] players[i]).owned_bank.entries() == Seq::<
                Entry,
            >::empty() && players[i].bet_bank.entries() == Seq::<Entry>::empty()
                && players[i].cards_bank.entries() == Seq::<Entry>::empty(),
    ensures
        units_of(players, k) == units_of(players.take(from), k),
        worths_of(players) == worths_of(players.take(from)),
    decreases players.len() - from,
{
    if from == players.len() {
        assert(players.take(from) =~= players);
    } else {
        let short = players.drop_last();
        assert forall|i: int| from <= i < short.len() implies (#[trigger] short[i]).owned_bank.entries()
            == Seq::<Entry>::empty() && short[i].bet_bank.entries() == Seq::<Entry>::empty()
            && short[i].cards_bank.entries() == Seq::<Entry>::empty() by {
            assert(short[i] == players[i]);
        }
        lemma_empty_seats(short, from, k);
        assert(short.take(from) =~= players.take(from));
        let last = players[players.len() - 1];
        assert(crate::bank::worth_of(Seq::<Entry>::empty()) == 0);
        assert(crate::bank::count_of(Seq::<Entry>::empty(), k) == 0);
        assert(seat_units(last, k) == 0);
        assert(seat_worth(last) == 0);
    }
}

/// What is conserved twice is conserved.
pub proof fn lemma_conserved_twice(a: Game, b: Game, c: Game)
    requires
        conserved(a, b),
        conserved(b, c),
    ensures
        conserved(a, c),
{
    assert forall|k: StuffModel| #[trigger] c.all_units(k) == a.all_units(k) by {
        assert(b.all_units(k) == a.all_units(k));
    }
}

/// Where the deck and the community cards alone change, and hold together
/// what they held, the table holds what it held.
pub proof fn lemma_pools_conserved(pre: Game, post: Game)
    requires
        post.players == pre.players,
        post.cash_pool == pre.cash_pool,
        forall|k: StuffModel| #[trigger]
            post.card_pool.card_pool@.counts[k] + post.five_cards.five_cards@.counts[k]
                == pre.card_pool.card_pool@.counts[k] + pre.five_cards.five_cards@.counts[k],
        post.card_pool.card_pool.valuation() + post.five_cards.five_cards.valuation()
            == pre.card_pool.card_pool.valuation() + pre.five_cards.five_cards.valuation(),
    ensures
        conserved(pre, post),
{
    assert forall|k: StuffModel| #[trigger] post.all_units(k) == pre.all_units(k) by {
        assert(post.card_pool.card_pool@.counts[k] + post.five_cards.five_cards@.counts[k]
            == pre.card_pool.card_pool@.counts[k] + pre.five_cards.five_cards@.counts[k]);
    }
}

/// A table that holds what a table that fits held fits as well: no event
/// but the setting up of the table makes a table that fits one that does
/// not.
pub proof fn law_fitting_stays(pre: Game, post: Game)
    requires
        conserved(pre, post),
        pre.fits(),
    ensures
        post.fits(),
{
    assert forall|k: StuffModel| #[trigger] post.all_units(k) <= i32::MAX by {
        assert(post.all_units(k) == pre.all_units(k));
    }
}

/// Seats that all have the same bankroll, and neither bets nor cards, hold
/// together as many times the bankroll as there are seats.
pub proof fn lemma_equal_seats(players: Seq<Player>, bankroll: Seq<Entry>, k: StuffModel)
    requires
        forall|i: int|
            0 <= i < players.len() ==> (#[trigger] players[i]).owned_bank.entries() == bankroll
                && players[i].bet_bank.entries() == Seq::<Entry>::empty()
                && players[i].cards_bank.entries() == Seq::<Entry>::empty(),
    ensures
        units_of(players, k) == players.len() * crate::bank::count_of(bankroll, k),
        worths_of(players) == players.len() * crate::bank::worth_of(bankroll),
    decreases players.len(),
{
    if players.len() > 0 {
        let short = players.drop_last();
        assert forall|i: int| 0 <= i < short.len() implies (#[trigger] short[i]).owned_bank.entries()
            == bankroll && short[i].bet_bank.entries() == Seq::<Entry>::empty()
            && short[i].cards_bank.entries() == Seq::<Entry>::empty() by {
            assert(short[i] == players[i]);
        }
        lemma_equal_seats(short, bankroll, k);
        let last = players[players.len() - 1];
        assert(crate::bank::worth_of(Seq::<Entry>::empty()) == 0);
        assert(crate::bank::count_of(Seq::<Entry>::empty(), k) == 0);
        let c = crate::bank::count_of(bankroll, k);
        let w = crate::bank::worth_of(bankroll);
        let m = short.len() as int;
        assert((m + 1) * c == m * c + c) by (nonlinear_arith);
        assert((m + 1) * w == m * w + w) by (nonlinear_arith);
    } else {
        let c = crate::bank::count_of(bankroll, k);
        let w = crate::bank::worth_of(bankroll);
        assert(0 * c == 0 && 0 * w == 0) by (nonlinear_arith);
    }
}

/// A table set up anew with a stake fits where a single ledger could hold
/// the stakes of all seats, and one unit more of each kind.
pub proof fn law_reset_fits(pre: Game, post: Game, stake: Seq<Entry>)
    requires
        crate::game::reset_post(pre, post, stake, Ok(Outcome::Reset)),
        post.card_pool.card_pool.wf(),
        post.players@.len() * crate::bank::worth_of(crate::bank::put_each(Seq::empty(), stake))
            <= i32::MAX,
        forall|k: StuffModel|
            post.players@.len() * #[trigger] crate::bank::count_of(
                crate::bank::put_each(Seq::empty(), stake),
                k,
            ) + 1 <= i32::MAX,
    ensures
        post.fits(),
{
    let bankroll = crate::bank::put_each(Seq::empty(), stake);
    let some = StuffModel::Denomination(Seq::empty(), 0);
    assert forall|i: int| 0 <= i < post.players@.len() implies (
    #[trigger] post.players@[i]).owned_bank.entries() == bankroll
        && post.players@[i].bet_bank.entries() == Seq::<Entry>::empty()
        && post.players@[i].cards_bank.entries() == Seq::<Entry>::empty() by {
        assert(crate::game::reset_seat(pre.players@[i], post.players@[i], stake));
    }
    lemma_equal_seats(post.players@, bankroll, some);
    crate::deck::lemma_cards_worthless(post.card_pool.card_pool.entries());
    assert(crate::bank::worth_of(Seq::<Entry>::empty()) == 0);
    assert forall|k: StuffModel| #[trigger] post.all_units(k) <= i32::MAX by {
        lemma_equal_seats(post.players@, bankroll, k);
        assert(crate::bank::count_of(Seq::<Entry>::empty(), k) == 0);
        let deck = post.card_pool.card_pool.entries();
        lemma_count_nonneg(deck, k);
        if crate::bank::holds(deck, k) {
            crate::bank::lemma_count_present(deck, crate::bank::slot(deck, k));
        }
        assert(post.players@.len() * crate::bank::count_of(bankroll, k) + 1 <= i32::MAX);
    }
}

impl Game {
    /// Whether every ledger at the table is a ledger.
    pub open spec fn sound(&self) -> bool {
        &&& forall|i: int| 0 <= i < self.players@.len() ==> seat_sound(#[trigger] self.players@[i])
        &&& self.cash_pool.cash_pool.wf()
        &&& self.card_pool.card_pool.wf()
        &&& self.five_cards.five_cards.wf()
    }

    /// How many units of a kind are at the table, in whatever ledger.
    pub open spec fn all_units(&self, k: StuffModel) -> int {
        units_of(self.players@, k) + self.cash_pool.cash_pool@.counts[k]
            + self.card_pool.card_pool@.counts[k] + self.five_cards.five_cards@.counts[k]
    }

    /// What all the ledgers at the table are worth.
    pub open spec fn all_worth(&self) -> int {
        worths_of(self.players@) + self.cash_pool.cash_pool.valuation()
            + self.card_pool.card_pool.valuation() + self.five_cards.five_cards.valuation()
    }

    /// Whether the table fits: a single ledger could hold all that is at the
    /// table.
    pub open spec fn fits(&self) -> bool {
        &&& self.all_worth() <= i32::MAX
        &&& forall|k: StuffModel| #[trigger] self.all_units(k) <= i32::MAX
    }

    /// Every ledger at the table is a ledger.
    pub fn audit(&self)
        ensures
            self.sound(),
    {
        let mut i: usize = 0;
        while i < self.players.len()
            invariant
                0 <= i <= self.players@.len(),
                forall|j: int| 0 <= j < i ==> seat_sound(#[trigger] self.players@[j]),
            decreases self.players@.len() - i,
        {
            let owned = &self.players[i].owned_bank;
            let bet = &self.players[i].bet_bank;
            let cards = &self.players[i].cards_bank;
            proof {
                use_type_invariant(owned);
                use_type_invariant(bet);
                use_type_invariant(cards);
            }
            i = i + 1;
        }
        proof {
            use_type_invariant(&self.cash_pool.cash_pool);
            use_type_invariant(&self.card_pool.card_pool);
            use_type_invariant(&self.five_cards.five_cards);
        }
    }
}

/// The entries of the settling of one seat where nothing is refused: its
/// bankroll goes to the pot where it is worth less than `small`, its bet goes
/// to the pot, and its cards go back to the deck.
pub open spec fn seat_steps(player: Player, seat: int, small: int) -> Seq<Step> {
    let swept = seq![
        Step { seat: seat as usize, deed: Deed::Swept, refused: None },
        Step { seat: seat as usize, deed: Deed::Returned, refused: None },
    ];
    if player.owned_bank.valuation() < small {
        seq![Step { seat: seat as usize, deed: Deed::Forfeited, refused: None }] + swept
    } else {
        swept
    }
}

/// The entries of the settling of the first `upto` seats where nothing is
/// refused.
pub open spec fn sweep_steps(players: Seq<Player>, small: int, upto: int) -> Seq<Step>
    decreases upto,
{
    if upto <= 0 {
        Seq::empty()
    } else {
        sweep_steps(players, small, upto - 1) + seat_steps(players[upto - 1], upto - 1, small)
    }
}

/// The record of a settling in which nothing is refused: the seats are
/// settled in seat order, the pot goes to the winner, and the community
/// cards go back to the deck.
pub open spec fn settle_steps(pre: Game) -> Seq<Step> {
    sweep_steps(pre.players@, pre.small_blind(), pre.players@.len() as int).push(
        Step {
            seat: best_seat(
                pre.players@,
                pre.five_cards.five_cards.entries(),
                pre.players@.len() as int,
            ).0 as usize,
            deed: Deed::Paid,
            refused: None,
        },
    ).push(Step { seat: 0, deed: Deed::Cleared, refused: None })
}

/// Whether nothing that the entries from `from` on tell of was refused.
pub open spec fn none_refused(steps: Seq<Step>, from: int) -> bool {
    forall|j: int| from <= j < steps.len() ==> (#[trigger] steps[j]).refused is None
}

/// Whether the entries from `from` on tell of no seat's turn, and name seats
/// of a table of `n` seats.
pub open spec fn plain_steps(steps: Seq<Step>, from: int, n: int) -> bool {
    forall|j: int|
        from <= j < steps.len() ==> !is_turn((#[trigger] steps[j]).deed) && 0 <= steps[j].seat < n
}

/// What the seats have in play changes by what one of them gains.
pub proof fn lemma_chips_update(players: Seq<Player>, i: int, after: Player)
    requires
        0 <= i < players.len(),
    ensures
        chips_of(players.update(i, after))
            == chips_of(players) - players[i].chips() + after.chips(),
    decreases players.len(),
{
    if i == players.len() - 1 {
        assert(players.update(i, after).drop_last() =~= players.drop_last());
    } else {
        lemma_chips_update(players.drop_last(), i, after);
        assert(players.update(i, after).drop_last() =~= players.drop_last().update(i, after));
    }
}

impl Game {
    /// The winner of the showdown: see `best_seat`.
    pub fn find_winner(&self) -> (r: (usize, i32, FiveCardsCategory))
        ensures
            r.0 == best_seat(
                self.players@,
                self.five_cards.five_cards.entries(),
                self.players@.len() as int,
            ).0,
            r.1 == best_seat(
                self.players@,
                self.five_cards.five_cards.entries(),
                self.players@.len() as int,
            ).1,
            r.2 == best_seat(
                self.players@,
                self.five_cards.five_cards.entries(),
                self.players@.len() as int,
            ).2,
            self.players@.len() > 0 ==> r.0 < self.players@.len(),
    {
        let mut winner: usize = 0;
        let mut max_value: i32 = 0;
        let mut max_category = FiveCardsCategory::HighCard;
        let mut seat: usize = 0;
        while seat < self.players.len()
            invariant
                0 <= seat <= self.players@.len(),
                winner == best_seat(
                    self.players@,
                    self.five_cards.five_cards.entries(),
                    seat as int,
                ).0,
                max_value == best_seat(
                    self.players@,
                    self.five_cards.five_cards.entries(),
                    seat as int,
                ).1,
                max_category == best_seat(
                    self.players@,
                    self.five_cards.five_cards.entries(),
                    seat as int,
                ).2,
                self.players@.len() > 0 ==> winner < self.players@.len(),
                0 <= max_value,
            decreases self.players@.len() - seat,
        {
            let bets = match self.players[seat].role {
                Role::PlaceBet => true,
                _ => false,
            };
            if bets {
                match self.players[seat].seven_cards(&self.five_cards) {
                    Some(seven) => {
                        let (value, category) = evaluate(&seven);
                        if value > max_value {
                            max_value = value;
                            max_category = category;
                            winner = seat;
                        }
                    },
                    None => {},
                }
            }
            seat = seat + 1;
        }
        (winner, max_value, max_category)
    }

    /// Settles one seat: its bankroll goes to the pot where it is worth less
    /// than `small`, its bet goes to the pot, and its cards go back to the
    /// deck, each wholly or not at all.
    fn sweep_seat(&mut self, seat: usize, small: i64, trace: &mut Vec<Step>)
        requires
            old(self).wf(),
            old(self).sound(),
            seat < old(self).players@.len(),
        ensures
            final(self).wf(),
            final(self).sound(),
            conserved(*old(self), *final(self)),
            seat_framed(*old(self), *final(self), seat as int),
            continues(old(trace)@, final(trace)@),
            plain_steps(final(trace)@, old(trace)@.len() as int, old(self).players@.len() as int),
            names(final(trace)@, old(trace)@.len() as int, seat as int),
            old(self).fits() ==> none_refused(final(trace)@, old(trace)@.len() as int),
            old(self).fits() ==> final(trace)@ == old(trace)@ + seat_steps(
                old(self).players@[seat as int],
                seat as int,
                small as int,
            ),
            old(self).fits() ==> final(self).players@[seat as int].bet_bank.entries() == Seq::<
                Entry,
            >::empty() && final(self).players@[seat as int].cards_bank.entries() == Seq::<
                Entry,
            >::empty() && bankroll_kept(
                old(self).players@[seat as int],
                final(self).players@[seat as int],
                small as int,
            ),
    {
        let ghost g0 = *self;
        proof {
            if g0.fits() {
                lemma_room(g0, seat as int);
                lemma_pour(
                    g0.cash_pool.cash_pool.entries(),
                    g0.players@[seat as int].owned_bank.entries(),
                );
            }
        }
        let ghost t0 = trace@;
        proof {
            assert(t0.take(t0.len() as int) =~= t0);
        }
        if widen(self.players[seat].owned_bank.get_values_of_bank()) < small {
            let given = self.players[seat].send_owned_to_pool(&mut self.cash_pool);
            note(trace, seat, Deed::Forfeited, refusal(&given));
        }
        let ghost t1 = trace@;
        let ghost g1 = *self;
        proof {
            assert(g1.players@ =~= g0.players@.update(seat as int, g1.players@[seat as int]));
            lemma_step_conserved(g0, g1, seat as int);
            assert(g1.sound()) by {
                assert forall|i: int| 0 <= i < g1.players@.len() implies seat_sound(
                    #[trigger] g1.players@[i],
                ) by {
                    assert(seat_sound(g0.players@[i]));
                }
            }
            if g0.fits() {
                lemma_room(g1, seat as int);
                lemma_pour(
                    g1.cash_pool.cash_pool.entries(),
                    g1.players@[seat as int].bet_bank.entries(),
                );
            }
        }
        let swept = self.players[seat].send_bets_to_pool(&mut self.cash_pool);
        note(trace, seat, Deed::Swept, refusal(&swept));
        let ghost t2 = trace@;
        let ghost g2 = *self;
        proof {
            assert(g2.players@ =~= g1.players@.update(seat as int, g2.players@[seat as int]));
            lemma_step_conserved(g1, g2, seat as int);
            assert(g2.sound()) by {
                assert forall|i: int| 0 <= i < g2.players@.len() implies seat_sound(
                    #[trigger] g2.players@[i],
                ) by {
                    assert(seat_sound(g1.players@[i]));
                }
            }
            if g0.fits() {
                lemma_room(g2, seat as int);
                lemma_pour(
                    g2.card_pool.card_pool.entries(),
                    g2.players@[seat as int].cards_bank.entries(),
                );
            }
        }
        let returned = self.players[seat].send_cards_back(&mut self.card_pool);
        note(trace, seat, Deed::Returned, refusal(&returned));
        proof {
            let from = t0.len() as int;
            assert(trace@.take(from) =~= t0);
            assert(trace@[trace@.len() - 1].seat == seat);
            assert forall|j: int| from <= j < trace@.len() implies !is_turn(
                (#[trigger] trace@[j]).deed,
            ) && 0 <= trace@[j].seat < old(self).players@.len() && (old(self).fits()
                ==> trace@[j].refused is None) by {
                if j < t1.len() {
                    assert(trace@[j] == t1[j]);
                } else if j < t2.len() {
                    assert(trace@[j] == t2[j]);
                }
            }
            if old(self).fits() {
                assert(trace@ =~= t0 + seat_steps(
                    old(self).players@[seat as int],
                    seat as int,
                    small as int,
                ));
            }
            assert(self.players@ =~= g2.players@.update(seat as int, self.players@[seat as int]));
            lemma_step_conserved(g2, *self, seat as int);
            assert(self.sound()) by {
                assert forall|i: int| 0 <= i < self.players@.len() implies seat_sound(
                    #[trigger] self.players@[i],
                ) by {
                    assert(seat_sound(g2.players@[i]));
                }
            }
        }
    }

    /// The pot goes to the bankroll of the winner, wholly or not at all.
    fn pay_winner(&mut self, winner: usize, trace: &mut Vec<Step>)
        requires
            old(self).wf(),
            old(self).sound(),
            winner < old(self).players@.len(),
        ensures
            final(self).wf(),
            final(self).sound(),
            conserved(*old(self), *final(self)),
            seat_framed(*old(self), *final(self), winner as int),
            final(self).card_pool == old(self).card_pool,
            final(self).players@[winner as int].bet_bank
                == old(self).players@[winner as int].bet_bank,
            final(self).players@[winner as int].cards_bank
                == old(self).players@[winner as int].cards_bank,
            old(self).cash_pool.cash_pool.entries()
                == Seq::<Entry>::empty()
                    ==> final(self).players@[winner as int].owned_bank.entries()
                == old(self).players@[winner as int].owned_bank.entries(),
            old(self).fits() ==> final(self).cash_pool.cash_pool.entries() == Seq::<Entry>::empty(),
            final(trace)@ == old(trace)@.push(final(trace)@.last()),
            final(trace)@.len() == old(trace)@.len() + 1,
            final(trace)@.last().seat == winner,
            final(trace)@.last().deed == Deed::Paid,
            old(self).fits() ==> final(trace)@.last().refused is None,
    {
        let ghost g0 = *self;
        proof {
            if g0.fits() {
                lemma_room(g0, winner as int);
                lemma_pour(
                    g0.players@[winner as int].owned_bank.entries(),
                    g0.cash_pool.cash_pool.entries(),
                );
            }
        }
        let paid = self.players[winner].get_bets_from_pool(&mut self.cash_pool);
        note(trace, winner, Deed::Paid, refusal(&paid));
        proof {
            assert(self.players@ =~= g0.players@.update(winner as int, self.players@[winner as int]));
            lemma_step_conserved(g0, *self, winner as int);
            assert(self.sound()) by {
                assert forall|i: int| 0 <= i < self.players@.len() implies seat_sound(
                    #[trigger] self.players@[i],
                ) by {
                    assert(seat_sound(g0.players@[i]));
                }
            }
        }
    }

    /// The community cards go back to the deck, all or none.
    fn return_board(&mut self, trace: &mut Vec<Step>)
        requires
            old(self).wf(),
            old(self).sound(),
        ensures
            final(self).wf(),
            final(self).sound(),
            conserved(*old(self), *final(self)),
            final(self).players == old(self).players,
            final(self).cash_pool == old(self).cash_pool,
            final(self).game_status == old(self).game_status,
            final(self).last_XiaoMang_ID == old(self).last_XiaoMang_ID,
            final(self).min_value_unit == old(self).min_value_unit,
            old(self).fits() ==> final(self).five_cards.five_cards.entries() == Seq::<
                Entry,
            >::empty(),
            final(trace)@ == old(trace)@.push(final(trace)@.last()),
            final(trace)@.len() == old(trace)@.len() + 1,
            final(trace)@.last().seat == 0,
            final(trace)@.last().deed == Deed::Cleared,
            old(self).fits() ==> final(trace)@.last().refused is None,
    {
        proof {
            if self.fits() {
                lemma_room(*self, 0);
                lemma_pour(
                    self.card_pool.card_pool.entries(),
                    self.five_cards.five_cards.entries(),
                );
            }
        }
        let cleared = self.five_cards.send_cards_back(&mut self.card_pool);
        note(trace, 0, Deed::Cleared, refusal(&cleared));
    }

    /// Settles the hand: see `confirm_post`.
    pub fn confirm_balance(&mut self, trace: &mut Vec<Step>) -> (r: Result<Outcome, ErrorKind>)
        requires
            old(self).wf(),
        ensures
            final(self).wf(),
            confirm_post(*old(self), *final(self), r),
            recorded(old(trace)@, final(trace)@, old(self).players@, final(self).players@),
            r is Err ==> final(trace)@ == old(trace)@,
            old(self).fits() ==> none_refused(final(trace)@, old(trace)@.len() as int),
            r is Ok && old(self).fits() ==> final(trace)@ == old(trace)@ + settle_steps(*old(self)),
    {
        proof {
            crate::round::lemma_nothing_noted(trace@, self.players@);
        }
        let ready = match self.game_status {
            GameStatus::Balancing => true,
            GameStatus::BetPlacing2 | GameStatus::BetPlacing3 | GameStatus::BetPlacing4 => {
                count_bettors(&self.players) == 1
            },
            _ => false,
        };
        if !ready || self.five_cards.five_cards.kinds() == 0 {
            return Err(ErrorKind::IllegalTransition);
        }
        self.audit();
        let (winner, value, category) = self.find_winner();
        let small = self.get_XiaoMang_value();
        self.game_status = GameStatus::Balancing;
        let ghost start = *self;
        let n = self.players.len();
        let mut seat: usize = 0;
        proof {
            assert(trace@ + Seq::<Step>::empty() =~= trace@);
        }
        while seat < n
            invariant
                0 <= seat <= n,
                n == self.players@.len(),
                n == start.players@.len(),
                winner < n,
                winner == best_seat(
                    old(self).players@,
                    old(self).five_cards.five_cards.entries(),
                    n as int,
                ).0,
                small == old(self).small_blind(),
                self.wf(),
                self.sound(),
                conserved(start, *self),
                forall|i: int|
                    0 <= i < n ==> (#[trigger] self.players@[i]).name == start.players@[i].name
                        && self.players@[i].role == start.players@[i].role,
                forall|i: int| seat <= i < n ==> #[trigger] self.players@[i] == start.players@[i],
                start.fits() ==> forall|i: int|
                    0 <= i < seat ==> (#[trigger] self.players@[i]).bet_bank.entries() == Seq::<
                        Entry,
                    >::empty() && self.players@[i].cards_bank.entries() == Seq::<Entry>::empty()
                        && bankroll_kept(start.players@[i], self.players@[i], small as int),
                self.five_cards == start.five_cards,
                self.game_status == GameStatus::Balancing,
                self.last_XiaoMang_ID == start.last_XiaoMang_ID,
                self.min_value_unit == start.min_value_unit,
                continues(old(trace)@, trace@),
                plain_steps(trace@, old(trace)@.len() as int, n as int),
                forall|i: int| 0 <= i < seat ==> names(trace@, old(trace)@.len() as int, i),
                start.fits() ==> none_refused(trace@, old(trace)@.len() as int),
                start.fits() ==> trace@ == old(trace)@ + sweep_steps(
                    start.players@,
                    small as int,
                    seat as int,
                ),
            decreases n - seat,
        {
            let ghost before = *self;
            let ghost steps = trace@;
            self.sweep_seat(seat, small, trace);
            proof {
                let from = old(trace)@.len() as int;
                assert(trace@.take(from) =~= steps.take(from));
                assert forall|j: int| from <= j < steps.len() implies #[trigger] trace@[j]
                    == steps[j] by {
                    assert(trace@.take(steps.len() as int)[j] == trace@[j]);
                }
                assert forall|i: int| 0 <= i < seat + 1 implies names(trace@, from, i) by {
                    if i < seat {
                        assert(names(steps, from, i));
                        let j = choose|j: int| from <= j < steps.len() && (#[trigger] steps[j]).seat
                            == i;
                        assert(trace@[j] == steps[j]);
                    } else {
                        assert(names(trace@, steps.len() as int, seat as int));
                        let j = choose|j: int|
                            steps.len() <= j < trace@.len() && (#[trigger] trace@[j]).seat == seat;
                        assert(from <= j);
                    }
                }
                if start.fits() {
                    assert(before.fits());
                    assert(trace@ =~= old(trace)@ + sweep_steps(
                        start.players@,
                        small as int,
                        seat + 1,
                    ));
                }
                assert forall|i: int| 0 <= i < seat implies (#[trigger] self.players@[i])
                    == before.players@[i] by {}
            }
            seat = seat + 1;
        }
        let ghost mid = *self;
        let ghost swept_steps = trace@;
        proof {
            assert(old(trace)@ + Seq::<Step>::empty() =~= old(trace)@);
        }
        self.pay_winner(winner, trace);
        let ghost paid = *self;
        let ghost paid_steps = trace@;
        self.return_board(trace);
        let ghost done = *self;
        proof {
            let from = old(trace)@.len() as int;
            assert(paid_steps.drop_last() =~= swept_steps);
            assert(trace@.drop_last() =~= paid_steps);
            assert(trace@.take(from) =~= swept_steps.take(from));
            assert forall|j: int| from <= j < trace@.len() implies !is_turn(
                (#[trigger] trace@[j]).deed,
            ) && 0 <= trace@[j].seat < n && (start.fits() ==> trace@[j].refused is None) by {
                if j < swept_steps.len() {
                    assert(trace@[j] == swept_steps[j]);
                } else if j < paid_steps.len() {
                    assert(trace@[j] == paid_steps[j]);
                    assert(mid.fits() <== start.fits());
                } else {
                    assert(paid.fits() <== start.fits());
                }
            }
            if start.fits() {
                assert(mid.fits());
                assert(paid.fits());
                assert(trace@ =~= old(trace)@ + settle_steps(*old(self)));
            }
            assert forall|i: int| 0 <= i < n implies names(trace@, from, i) by {
                assert(names(swept_steps, from, i));
                let j = choose|j: int| from <= j < swept_steps.len()
                    && (#[trigger] swept_steps[j]).seat
                    == i;
                assert(trace@[j] == swept_steps[j]);
            }
        }
        proof {
            if start.fits() {
                assert(mid.fits());
                assert(paid.fits());
                assert forall|i: int| 0 <= i < n implies (#[trigger] done.players@[i]).bet_bank.entries()
                    == Seq::<Entry>::empty() && done.players@[i].cards_bank.entries() == Seq::<
                    Entry,
                >::empty() && (i != winner ==> bankroll_kept(
                    start.players@[i],
                    done.players@[i],
                    small as int,
                )) by {
                    assert(mid.players@[i].bet_bank.entries() == Seq::<Entry>::empty());
                    if i != winner {
                        assert(paid.players@[i] == mid.players@[i]);
                    }
                }
            }
        }
        let mut seat: usize = 0;
        while seat < n
            invariant
                0 <= seat <= n,
                n == self.players@.len(),
                n == start.players@.len(),
                self.wf(),
                conserved(start, *self),
                forall|i: int|
                    0 <= i < seat ==> seat_settled(#[trigger] start.players@[i], self.players@[i]),
                forall|i: int|
                    seat <= i < n ==> (#[trigger] self.players@[i]).name == start.players@[i].name
                        && self.players@[i].role == start.players@[i].role,
                n == done.players@.len(),
                forall|i: int|
                    0 <= i < n ==> (#[trigger] self.players@[i]).owned_bank
                        == done.players@[i].owned_bank && self.players@[i].bet_bank
                        == done.players@[i].bet_bank && self.players@[i].cards_bank
                        == done.players@[i].cards_bank,
                self.cash_pool == done.cash_pool,
                self.five_cards == done.five_cards,
                self.game_status == GameStatus::Balancing,
                self.last_XiaoMang_ID == start.last_XiaoMang_ID,
                self.min_value_unit == start.min_value_unit,
            decreases n - seat,
        {
            let ghost before = *self;
            if self.players[seat].owned_bank.get_values_of_bank() == 0 {
                self.players[seat].role = Role::Quit;
            }
            proof {
                assert(self.players@ =~= before.players@.update(seat as int, self.players@[seat as int]));
                lemma_step_conserved(before, *self, seat as int);
            }
            seat = seat + 1;
        }
        proof {
            lemma_all_named(old(trace)@, trace@, old(self).players@, self.players@);
            assert(conserved(*old(self), start)) by {
                lemma_status_conserved(*old(self), start);
            }
            if old(self).fits() {
                assert(start.fits());
                assert forall|i: int| 0 <= i < n implies (#[trigger] self.players@[i]).bet_bank.entries()
                    == Seq::<Entry>::empty() && self.players@[i].cards_bank.entries() == Seq::<
                    Entry,
                >::empty() && (i != winner ==> bankroll_kept(
                    old(self).players@[i],
                    self.players@[i],
                    old(self).small_blind(),
                )) by {
                    assert(done.players@[i].bet_bank.entries() == Seq::<Entry>::empty());
                }
            }
        }
        Ok(Outcome::Settled { winner, category })
    }
}

/// A table whose seats and pools are those of another holds the same.
pub proof fn lemma_status_conserved(pre: Game, post: Game)
    requires
        post.players == pre.players,
        post.cash_pool == pre.cash_pool,
        post.card_pool == pre.card_pool,
        post.five_cards == pre.five_cards,
    ensures
        conserved(pre, post),
{
}

/// Where one seat and the pools change, and hold together what they held,
/// the table holds what it held.
pub proof fn lemma_step_conserved(pre: Game, post: Game, seat: int)
    requires
        0 <= seat < pre.players@.len(),
        post.players@ == pre.players@.update(seat, post.players@[seat]),
        forall|k: StuffModel| #[trigger]
            seat_units(post.players@[seat], k) + post.cash_pool.cash_pool@.counts[k]
                + post.card_pool.card_pool@.counts[k] + post.five_cards.five_cards@.counts[k]
                == seat_units(pre.players@[seat], k) + pre.cash_pool.cash_pool@.counts[k]
                + pre.card_pool.card_pool@.counts[k] + pre.five_cards.five_cards@.counts[k],
        seat_worth(post.players@[seat]) + post.cash_pool.cash_pool.valuation()
            + post.card_pool.card_pool.valuation() + post.five_cards.five_cards.valuation()
            == seat_worth(pre.players@[seat]) + pre.cash_pool.cash_pool.valuation()
            + pre.card_pool.card_pool.valuation() + pre.five_cards.five_cards.valuation(),
        post.players@[seat].chips() + post.cash_pool.cash_pool.valuation()
            == pre.players@[seat].chips()
            + pre.cash_pool.cash_pool.valuation(),
    ensures
        conserved(pre, post),
{
    lemma_chips_update(pre.players@, seat, post.players@[seat]);
    lemma_worths_update(pre.players@, seat, post.players@[seat]);
    assert forall|k: StuffModel| #[trigger] post.all_units(k) == pre.all_units(k) by {
        lemma_units_update(pre.players@, seat, post.players@[seat], k);
        assert(seat_units(post.players@[seat], k) + post.cash_pool.cash_pool@.counts[k]
            + post.card_pool.card_pool@.counts[k] + post.five_cards.five_cards@.counts[k]
            == seat_units(pre.players@[seat], k) + pre.cash_pool.cash_pool@.counts[k]
            + pre.card_pool.card_pool@.counts[k] + pre.five_cards.five_cards@.counts[k]);
    }
}

} // verus!
