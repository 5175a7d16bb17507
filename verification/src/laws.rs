//! What holds of ledgers, hands and seats whatever is done with them.
use crate::bank::{
    Entry, MyBank, StuffModel, contents, lemma_count_nonneg, lemma_move_each_tidy,
    lemma_put_each_tidy, lemma_put_entry, lemma_take_each_tidy, lemma_take_entry, move_each,
    move_faults, move_one, move_result, put_each, put_entry, put_faults, put_ok, take_each,
    take_entry, take_fault, take_faults, tidy, worth_of,
};
use crate::card::{
    Card, FiveCardsCategory, bonus_of, candidate, category_of, evaluate_of, exclusions,
    kept_place, lemma_best_of, rank_sum, sort_desc, value_of,
};
use crate::game::{GameStatus, Outcome};
use crate::player::Player;
use crate::round::{Mode, acted_on, same_stake, stops_on};
use crate::runs::lemma_sort_desc;
use crate::seat::{Want, nearest, roles_of};
use crate::turn::turn_of;
use vstd::prelude::*;

verus! {

/// One thing that is done to a single ledger.
pub enum Change {
    /// So many units of a kind are put in.
    Put(StuffModel, int),
    /// So many units of a kind are taken out.
    Take(StuffModel, int),
    /// A batch is put in, all or nothing if the flag is set.
    PutBatch(Seq<Entry>, bool),
    /// A batch is taken out, all or nothing if the flag is set.
    TakeBatch(Seq<Entry>, bool),
    /// The ledger is emptied.
    Clear,
}

/// The lines of a ledger after a change. A change that is refused leaves the
/// lines; of a batch that is refused as a whole the lines are left as well,
/// for the ledger then holds what it held.
pub open spec fn changed(e: Seq<Entry>, change: Change) -> Seq<Entry> {
    match change {
        Change::Put(k, n) => if put_ok(contents(e), k, n) {
            put_entry(e, k, n)
        } else {
            e
        },
        Change::Take(k, n) => if take_fault(contents(e), k, n) is None {
            take_entry(e, k, n)
        } else {
            e
        },
        Change::PutBatch(items, atomic) => if atomic && put_faults(e, items).len() > 0 {
            e
        } else {
            put_each(e, items)
        },
        Change::TakeBatch(items, atomic) => if atomic && take_faults(e, items).len() > 0 {
            e
        } else {
            take_each(e, items)
        },
        Change::Clear => Seq::empty(),
    }
}

/// The lines of a ledger after the changes, one after the other.
pub open spec fn changed_all(e: Seq<Entry>, changes: Seq<Change>) -> Seq<Entry>
    decreases changes.len(),
{
    if changes.len() == 0 {
        e
    } else {
        changed(changed_all(e, changes.drop_last()), changes.last())
    }
}

/// Whatever is done to a ledger, every line of it holds a positive quantity
/// afterwards, and no kind of stuff stands on two lines.
pub proof fn law_quantities_stay_positive(e: Seq<Entry>, changes: Seq<Change>)
    requires
        tidy(e),
    ensures
        tidy(changed_all(e, changes)),
        forall|i: int|
            0 <= i < changed_all(e, changes).len()
                ==> (#[trigger] changed_all(e, changes)[i]).1 > 0,
    decreases changes.len(),
{
    if changes.len() > 0 {
        law_quantities_stay_positive(e, changes.drop_last());
        let before = changed_all(e, changes.drop_last());
        match changes.last() {
            Change::Put(k, n) => {
                if put_ok(contents(before), k, n) {
                    lemma_put_entry(before, k, n);
                }
            },
            Change::Take(k, n) => {
                if take_fault(contents(before), k, n) is None {
                    lemma_take_entry(before, k, n);
                }
            },
            Change::PutBatch(items, atomic) => {
                lemma_put_each_tidy(before, items);
            },
            Change::TakeBatch(items, atomic) => {
                lemma_take_each_tidy(before, items);
            },
            Change::Clear => {
                assert(worth_of(Seq::<Entry>::empty()) == 0);
            },
        }
    }
}

/// The lines of a ledger hold positive quantities.
pub proof fn law_lines_positive(bank: MyBank)
    requires
        bank.wf(),
    ensures
        forall|i: int| 0 <= i < bank.entries().len() ==> (#[trigger] bank.entries()[i]).1 > 0,
{
}

/// Putting, taking and moving nothing succeeds and changes nothing.
pub proof fn law_nothing_moves_nothing(from: Seq<Entry>, to: Seq<Entry>, k: StuffModel)
    requires
        tidy(from),
        tidy(to),
    ensures
        put_ok(contents(from), k, 0),
        put_entry(from, k, 0) == from,
        take_fault(contents(from), k, 0) is None,
        take_entry(from, k, 0) == from,
        move_result(contents(from), contents(to), k, 0) is Ok,
        move_one(from, to, k, 0) == (from, to),
{
    lemma_count_nonneg(from, k);
}

/// One transfer in a system of ledgers: a batch moves from one ledger to
/// another, all or nothing if the flag is set. A single kind of stuff moves
/// as a batch of one item.
pub struct Relocation {
    pub from: int,
    pub to: int,
    pub items: Seq<Entry>,
    pub atomic: bool,
}

/// The lines of the two ledgers of a transfer after it. Of a batch that is
/// refused as a whole the lines are left, for the ledgers then hold what
/// they held.
pub open spec fn relocated(from: Seq<Entry>, to: Seq<Entry>, t: Relocation) -> (
    Seq<Entry>,
    Seq<Entry>,
) {
    if t.atomic && move_faults(from, to, t.items).len() > 0 {
        (from, to)
    } else {
        move_each(from, to, t.items)
    }
}

/// The ledgers of a system after a transfer between two of them.
pub open spec fn system_after(ledgers: Seq<Seq<Entry>>, t: Relocation) -> Seq<Seq<Entry>> {
    if 0 <= t.from < ledgers.len() && 0 <= t.to < ledgers.len() && t.from != t.to {
        let moved = relocated(ledgers[t.from], ledgers[t.to], t);
        ledgers.update(t.from, moved.0).update(t.to, moved.1)
    } else {
        ledgers
    }
}

/// The ledgers of a system after the transfers, one after the other.
pub open spec fn system_after_all(ledgers: Seq<Seq<Entry>>, ts: Seq<Relocation>) -> Seq<Seq<Entry>>
    decreases ts.len(),
{
    if ts.len() == 0 {
        ledgers
    } else {
        system_after(system_after_all(ledgers, ts.drop_last()), ts.last())
    }
}

/// What the ledgers of a system are worth together.
pub open spec fn total_worth(ledgers: Seq<Seq<Entry>>) -> int
    decreases ledgers.len(),
{
    if ledgers.len() == 0 {
        0
    } else {
        total_worth(ledgers.drop_last()) + worth_of(ledgers.last())
    }
}

/// What the ledgers of a system are worth changes by what one of them
/// gains.
proof fn lemma_total_update(ledgers: Seq<Seq<Entry>>, i: int, e: Seq<Entry>)
    requires
        0 <= i < ledgers.len(),
    ensures
        total_worth(ledgers.update(i, e)) == total_worth(ledgers) - worth_of(ledgers[i]) + worth_of(
            e,
        ),
    decreases ledgers.len(),
{
    if i == ledgers.len() - 1 {
        assert(ledgers.update(i, e).drop_last() =~= ledgers.drop_last());
    } else {
        lemma_total_update(ledgers.drop_last(), i, e);
        assert(ledgers.update(i, e).drop_last() =~= ledgers.drop_last().update(i, e));
    }
}

/// Whatever is moved between the ledgers of a system, single kinds or
/// batches, accepted or refused, the ledgers are worth together what they
/// were worth.
pub proof fn law_transfers_conserve(ledgers: Seq<Seq<Entry>>, ts: Seq<Relocation>)
    requires
        forall|i: int| 0 <= i < ledgers.len() ==> tidy(#[trigger] ledgers[i]),
    ensures
        system_after_all(ledgers, ts).len() == ledgers.len(),
        forall|i: int| 0 <= i < ledgers.len() ==> tidy(#[trigger] system_after_all(ledgers, ts)[i]),
        total_worth(system_after_all(ledgers, ts)) == total_worth(ledgers),
    decreases ts.len(),
{
    if ts.len() > 0 {
        law_transfers_conserve(ledgers, ts.drop_last());
        let before = system_after_all(ledgers, ts.drop_last());
        let t = ts.last();
        if 0 <= t.from < before.len() && 0 <= t.to < before.len() && t.from != t.to {
            let moved = relocated(before[t.from], before[t.to], t);
            lemma_move_each_tidy(before[t.from], before[t.to], t.items);
            lemma_total_update(before, t.from, moved.0);
            lemma_total_update(before.update(t.from, moved.0), t.to, moved.1);
        }
    }
}

/// The action passes over a seat that has given up or watches: nothing is
/// due of it, it does not end the resolving of the seats unless the hand
/// ends at it, and it keeps its stake.
pub proof fn law_folded_seat_is_passed(
    players: Seq<Player>,
    after: Player,
    max_bet: int,
    unit: int,
    status: GameStatus,
    small_seat: int,
    mode: Mode,
    seat: int,
)
    requires
        0 <= seat < players.len(),
        players[seat].role is GiveUp || players[seat].role is Quit,
    ensures
        turn_of(players, seat, mode == Mode::Deal) is Idle,
        stops_on(players, status, small_seat, mode, seat) is None || stops_on(
            players,
            status,
            small_seat,
            mode,
            seat,
        ) == Some(Outcome::HandEnded),
        acted_on(players, after, max_bet, unit, mode, seat) ==> same_stake(after, players[seat]),
{
}

/// The action reaches the seat behind a seat that has given up: something is
/// due of a blind or a seat that is `Normal`, if the nearest seat before it
/// that is no spectator has given up and another seat still contests the
/// hand.
pub proof fn law_action_passes_fold(players: Seq<Player>, seat: int, folded: int, dealing: bool)
    requires
        0 <= seat < players.len(),
        players[seat].role is Normal || players[seat].role is DaMang || players[seat].role
            is XiaoMang,
        nearest(roles_of(players), seat, true, Want::Eligible) == Some(folded),
        0 <= folded < players.len(),
        players[folded].role is GiveUp,
        nearest(roles_of(players), seat, true, Want::Live) is Some,
    ensures
        turn_of(players, seat, dealing) is Post || turn_of(players, seat, dealing) is Act,
{
}

/// The ranks of five cards add up to their sum.
pub proof fn lemma_rank_sum_five(five: Seq<Card>)
    requires
        five.len() == 5,
    ensures
        rank_sum(five) == five[0].rank() + five[1].rank() + five[2].rank() + five[3].rank()
            + five[4].rank(),
{
    let a = five.drop_last();
    let b = a.drop_last();
    let c = b.drop_last();
    let d = c.drop_last();
    assert(rank_sum(d.drop_last()) == 0);
    assert(rank_sum(d) == five[0].rank());
    assert(rank_sum(c) == rank_sum(d) + five[1].rank());
    assert(rank_sum(b) == rank_sum(c) + five[2].rank());
    assert(rank_sum(a) == rank_sum(b) + five[3].rank());
    assert(rank_sum(five) == rank_sum(a) + five[4].rank());
}

/// A hand of five ranks higher when one of its cards is replaced with a
/// higher card and its category stays.
pub proof fn law_higher_card_in_five(five: Seq<Card>, place: int, card: Card)
    requires
        five.len() == 5,
        0 <= place < 5,
        card.rank() > five[place].rank(),
        category_of(five.update(place, card)) == category_of(five),
    ensures
        value_of(five.update(place, card)) > value_of(five),
{
    lemma_rank_sum_five(five);
    lemma_rank_sum_five(five.update(place, card));
}

/// Whether the hand `five` is worth at least as much as the best hand of
/// the seven cards `seven`: it is of the category of the seven cards or of a
/// better one, and the ranks of its cards add up to at least as much.
pub open spec fn keeps_up(five: Seq<Card>, seven: Seq<Card>) -> bool {
    bonus_of(category_of(five)) >= bonus_of(evaluate_of(seven).1) && rank_sum(five) + bonus_of(
        evaluate_of(seven).1,
    ) >= evaluate_of(seven).0
}

/// Seven cards do not rank lower when one of them is replaced with a higher
/// card of its suit, if the category of the seven cards stays and one of
/// the hands of five of the new cards is worth at least as much as the best
/// hand was. Without the last condition the rank can fall: a straight that
/// loses its top card to the replacement can leave a lower straight as the
/// best hand.
pub proof fn law_higher_card_in_seven(seven: Seq<Card>, place: int, card: Card)
    requires
        seven.len() == 7,
        forall|k: int| 0 <= k < 7 ==> (#[trigger] seven[k]).inv(),
        card.inv(),
        0 <= place < 7,
        card.rank() > seven[place].rank(),
        card.suit() == seven[place].suit(),
        evaluate_of(seven.update(place, card)).1 == evaluate_of(seven).1,
        exists|t: int|
            0 <= t < 21 && keeps_up(#[trigger] candidate(seven.update(place, card), t), seven),
    ensures
        evaluate_of(seven.update(place, card)).0 >= evaluate_of(seven).0,
{
    let after = seven.update(place, card);
    let t = choose|t: int| 0 <= t < 21 && keeps_up(#[trigger] candidate(after, t), seven);
    lemma_best_of(after, 21);
    assert(value_of(candidate(after, t)) <= evaluate_of(after).0);
}

/// The cards of a hand of five of valid cards are valid.
pub proof fn lemma_candidate_valid(seven: Seq<Card>, t: int)
    requires
        seven.len() == 7,
        forall|k: int| 0 <= k < 7 ==> (#[trigger] seven[k]).inv(),
        0 <= t < 21,
    ensures
        candidate(seven, t).len() == 5,
        forall|k: int| 0 <= k < 5 ==> (#[trigger] candidate(seven, t)[k]).inv(),
{
    let e = exclusions()[t];
    assert forall|k: int| 0 <= k < 5 implies (#[trigger] candidate(seven, t)[k]).inv() by {
        assert(0 <= kept_place(k, e.0, e.1) < 7);
    }
}

/// The ranks of five valid cards add up to a number from 10 to 70.
pub proof fn lemma_rank_sum_bounds(five: Seq<Card>)
    requires
        five.len() == 5,
        forall|k: int| 0 <= k < 5 ==> (#[trigger] five[k]).inv(),
    ensures
        10 <= rank_sum(five) <= 70,
{
    lemma_rank_sum_five(five);
    five[0].lemma_rank();
    five[1].lemma_rank();
    five[2].lemma_rank();
    five[3].lemma_rank();
    five[4].lemma_rank();
}

/// Two hands of the same rank are of categories that add the same, and
/// their cards' ranks add up to the same.
pub proof fn lemma_same_value(a: Seq<Card>, b: Seq<Card>)
    requires
        a.len() == 5,
        b.len() == 5,
        forall|k: int| 0 <= k < 5 ==> (#[trigger] a[k]).inv(),
        forall|k: int| 0 <= k < 5 ==> (#[trigger] b[k]).inv(),
        value_of(a) == value_of(b),
    ensures
        bonus_of(category_of(a)) == bonus_of(category_of(b)),
        rank_sum(a) == rank_sum(b),
{
    lemma_rank_sum_bounds(a);
    lemma_rank_sum_bounds(b);
}

/// The condition of `law_higher_card_in_seven` holds where one of the hands
/// of five that gave the seven cards their rank keeps its category or
/// betters it, the new card standing in the place of the old one.
pub proof fn law_higher_card_in_place(seven: Seq<Card>, place: int, card: Card, t: int)
    requires
        seven.len() == 7,
        forall|k: int| 0 <= k < 7 ==> (#[trigger] seven[k]).inv(),
        card.inv(),
        0 <= place < 7,
        card.rank() > seven[place].rank(),
        0 <= t < 21,
        value_of(candidate(seven, t)) == evaluate_of(seven).0,
        bonus_of(category_of(candidate(seven.update(place, card), t))) >= bonus_of(
            category_of(candidate(seven, t)),
        ),
    ensures
        keeps_up(candidate(seven.update(place, card), t), seven),
{
    let after = seven.update(place, card);
    lemma_best_of(seven, 21);
    let old_five = candidate(seven, t);
    let new_five = candidate(after, t);
    let best = choose|u: int|
        0 <= u < 21 && evaluate_of(seven) == (
            value_of(#[trigger] candidate(seven, u)),
            category_of(candidate(seven, u)),
        );
    lemma_candidate_valid(seven, t);
    lemma_candidate_valid(seven, best);
    lemma_same_value(old_five, candidate(seven, best));
    assert(rank_sum(new_five) >= rank_sum(old_five)) by {
        lemma_rank_sum_five(old_five);
        lemma_rank_sum_five(new_five);
        let e = exclusions()[t];
        assert forall|k: int| 0 <= k < 5 implies (#[trigger] new_five[k]).rank()
            >= old_five[k].rank() by {
            assert(0 <= kept_place(k, e.0, e.1) < 7);
        }
    }
}

/// Seven cards that are a high card, and stay one, do not rank lower when
/// one of them is replaced with a higher card.
pub proof fn law_higher_card_in_high_card(seven: Seq<Card>, place: int, card: Card)
    requires
        seven.len() == 7,
        forall|k: int| 0 <= k < 7 ==> (#[trigger] seven[k]).inv(),
        card.inv(),
        0 <= place < 7,
        card.rank() > seven[place].rank(),
        card.suit() == seven[place].suit(),
        evaluate_of(seven).1 == FiveCardsCategory::HighCard,
        evaluate_of(seven.update(place, card)).1 == evaluate_of(seven).1,
    ensures
        evaluate_of(seven.update(place, card)).0 >= evaluate_of(seven).0,
{
    lemma_best_of(seven, 21);
    let t = choose|t: int|
        0 <= t < 21 && evaluate_of(seven) == (
            value_of(#[trigger] candidate(seven, t)),
            category_of(candidate(seven, t)),
        );
    law_higher_card_in_place(seven, place, card, t);
    law_higher_card_in_seven(seven, place, card);
}

/// Five cards of one suit stay a flush or better when one of them is
/// replaced with a card of the suit.
pub proof fn lemma_flush_stays(five: Seq<Card>, k: int, card: Card)
    requires
        five.len() == 5,
        0 <= k < 5,
        card.suit() == five[k].suit(),
        category_of(five) == FiveCardsCategory::Flush,
    ensures
        bonus_of(category_of(five.update(k, card))) >= bonus_of(FiveCardsCategory::Flush),
{
    let s = sort_desc(five);
    let after = five.update(k, card);
    let t = sort_desc(after);
    lemma_sort_desc(five);
    lemma_sort_desc(after);
    let suit = s[0].suit();
    assert(s[1].suit() == suit && s[2].suit() == suit && s[3].suit() == suit && s[4].suit()
        == suit);
    assert forall|i: int| 0 <= i < 5 implies (#[trigger] five[i]).suit() == suit by {
        assert(five.contains(five[i]));
        let m = choose|m: int| 0 <= m < s.len() && s[m] == five[i];
        assert(s[m].suit() == suit);
    }
    assert forall|i: int| 0 <= i < 5 implies (#[trigger] t[i]).suit() == suit by {
        assert(t.contains(t[i]));
        let m = choose|m: int| 0 <= m < after.len() && after[m] == t[i];
        assert(m == k || after[m] == five[m]);
    }
    assert(t[0].suit() == suit && t[1].suit() == suit && t[2].suit() == suit && t[3].suit() == suit
        && t[4].suit() == suit);
}

/// Seven cards that are a flush, and stay one, do not rank lower when one
/// of them is replaced with a higher card of its suit.
pub proof fn law_higher_card_in_flush(seven: Seq<Card>, place: int, card: Card)
    requires
        seven.len() == 7,
        forall|k: int| 0 <= k < 7 ==> (#[trigger] seven[k]).inv(),
        card.inv(),
        0 <= place < 7,
        card.rank() > seven[place].rank(),
        card.suit() == seven[place].suit(),
        evaluate_of(seven).1 == FiveCardsCategory::Flush,
        evaluate_of(seven.update(place, card)).1 == evaluate_of(seven).1,
    ensures
        evaluate_of(seven.update(place, card)).0 >= evaluate_of(seven).0,
{
    let after = seven.update(place, card);
    lemma_best_of(seven, 21);
    let t = choose|t: int|
        0 <= t < 21 && evaluate_of(seven) == (
            value_of(#[trigger] candidate(seven, t)),
            category_of(candidate(seven, t)),
        );
    let e = exclusions()[t];
    let five = candidate(seven, t);
    assert(0 <= e.0 < e.1 < 7) by {
        lemma_hand_places(t);
    }
    if place == e.0 || place == e.1 {
        assert(candidate(after, t) =~= five);
    } else {
        let k = if place < e.0 {
            place
        } else if place < e.1 {
            place - 1
        } else {
            place - 2
        };
        assert(kept_place(k, e.0, e.1) == place);
        assert(candidate(after, t) =~= five.update(k, card));
        lemma_flush_stays(five, k, card);
    }
    law_higher_card_in_place(seven, place, card, t);
    law_higher_card_in_seven(seven, place, card);
}

/// Every hand of five leaves out two places of the seven.
pub proof fn lemma_hand_places(t: int)
    requires
        0 <= t < 21,
    ensures
        0 <= exclusions()[t].0 < exclusions()[t].1 < 7,
{
    let e = exclusions();
    assert(e[0] == (0int, 1int) && e[1] == (0int, 2int) && e[2] == (0int, 3int) && e[3] == (
        0int,
        4int,
    ) && e[4] == (0int, 5int) && e[5] == (0int, 6int));
    assert(e[6] == (1int, 2int) && e[7] == (1int, 3int) && e[8] == (1int, 4int) && e[9] == (
        1int,
        5int,
    ) && e[10] == (1int, 6int));
    assert(e[11] == (2int, 3int) && e[12] == (2int, 4int) && e[13] == (2int, 5int) && e[14] == (
        2int,
        6int,
    ));
    assert(e[15] == (3int, 4int) && e[16] == (3int, 5int) && e[17] == (3int, 6int));
    assert(e[18] == (4int, 5int) && e[19] == (4int, 6int) && e[20] == (5int, 6int));
}

} // verus!
