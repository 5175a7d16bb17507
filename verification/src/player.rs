//! A seat at the table: its ledgers, its role and its bets.
use crate::bank::{
    BankManager, Entry, Fault, MyBank, StuffModel, StuffType, batch_of, contents, count_of,
    lemma_count_nonneg, lemma_move_each_tidy, listing, move_each, move_faults, put_each,
    put_faults, report_of, tidy, worth_of,
};
use crate::card::{Card, FiveCardsCategory, evaluate, evaluate_of};
use crate::collect::{collect_of, law_collect_sound};
use crate::deck::{CardPool, FiveCards, dealing, roomy};
use crate::error::ErrorKind;
use crate::random::RandomSource;
use crate::sweep::{lemma_nothing_held, lemma_part_moves, lemma_pour, lemma_poured};
use std::cmp::Ordering;
use vstd::prelude::*;

verus! {

/// What a seat is doing in the hand. A blind carries the amount that it has
/// to post.
#[derive(Clone, Copy, Debug, PartialEq, Eq, Structural)]
pub enum Role {
    Normal,
    DaMang(i64),
    XiaoMang(i64),
    PlaceBet,
    GiveUp,
    Quit,
}

/// A seat at the table: its bankroll, its bet in the running hand and its
/// hole cards.
#[derive(Debug)]
pub struct Player {
    pub name: String,
    pub role: Role,
    pub owned_bank: MyBank,
    pub bet_bank: MyBank,
    pub cards_bank: MyBank,
}

/// The pot.
#[derive(Debug)]
pub struct CashPool {
    pub cash_pool: MyBank,
}

/// The first refusal of a report.
pub open spec fn first_kind(faults: Seq<Fault>) -> ErrorKind {
    faults[0].1
}

/// Two ledgers that hold together what one ledger holds can take each
/// other's holdings.
pub proof fn lemma_sum_roomy(a: Seq<Entry>, b: Seq<Entry>, whole: Seq<Entry>)
    requires
        tidy(whole),
        worth_of(a) + worth_of(b) == worth_of(whole),
        forall|k: StuffModel| #[trigger] count_of(a, k) + count_of(b, k) == count_of(whole, k),
    ensures
        roomy(contents(a), contents(b)),
{
    assert forall|k: StuffModel| #[trigger]
        contents(a).counts[k] + contents(b).counts[k] <= i32::MAX by {
        lemma_count_nonneg(whole, k);
        assert(count_of(a, k) + count_of(b, k) == count_of(whole, k));
    }
}

/// What betting the amount `value` makes of a bankroll and a bet with the
/// lines `owned` and `bet`: the bet returns to the bankroll, units worth
/// `value` are collected from it, and they move to the bet. The result is
/// the lines of both, or why there is no bet: the bankroll cannot take the
/// bet, or no units worth `value` can be collected.
pub open spec fn stake_of(owned: Seq<Entry>, bet: Seq<Entry>, value: int) -> Result<
    (Seq<Entry>, Seq<Entry>),
    ErrorKind,
> {
    if put_faults(owned, bet).len() > 0 {
        Err(ErrorKind::InvalidQuantity)
    } else if value < i32::MIN || value > i32::MAX {
        Err(ErrorKind::CannotCollect)
    } else {
        let merged = put_each(owned, bet);
        match collect_of(merged, value) {
            None => Err(ErrorKind::CannotCollect),
            Some(picked) => Ok(move_each(merged, Seq::empty(), picked)),
        }
    }
}

/// Whether a seat holds in its bankroll and in its bet what it held.
pub open spec fn bets_kept(before: Player, after: Player) -> bool {
    after.owned_bank@ == before.owned_bank@ && after.bet_bank@ == before.bet_bank@
}

/// Whether the bet of a seat has returned to its bankroll.
pub open spec fn bets_returned(before: Player, after: Player) -> bool {
    after.bet_bank.entries() == Seq::<Entry>::empty() && after.owned_bank@ == contents(
        put_each(before.owned_bank.entries(), before.bet_bank.entries()),
    )
}

/// How a refused bet leaves the bankroll and the bet of a seat: as they
/// were, where the bankroll cannot take the bet; else the bet has returned
/// to the bankroll.
pub open spec fn refused_bet(before: Player, after: Player) -> bool {
    if put_faults(before.owned_bank.entries(), before.bet_bank.entries()).len() > 0 {
        bets_kept(before, after)
    } else {
        bets_returned(before, after)
    }
}

/// Whether a bet worth `num` stands to `value` as `order` asks: equal to it,
/// greater than it, or not above it.
pub open spec fn satisfies(order: Ordering, num: int, value: i64) -> bool {
    match order {
        Ordering::Equal => num == value,
        Ordering::Greater => num > value,
        Ordering::Less => num <= value,
    }
}

/// What betting the batch `items` makes of a bankroll and a bet with the
/// lines `owned` and `bet`, where the new bet has to stand to `value` as
/// `order` asks: the lines of both, or why there is no bet.
pub open spec fn checked_stake_of(
    owned: Seq<Entry>,
    bet: Seq<Entry>,
    items: Seq<Entry>,
    order: Ordering,
    value: i64,
) -> Result<(Seq<Entry>, Seq<Entry>), ErrorKind> {
    if put_faults(owned, bet).len() > 0 {
        Err(ErrorKind::InvalidQuantity)
    } else {
        let merged = put_each(owned, bet);
        if move_faults(merged, Seq::empty(), items).len() > 0 {
            Err(first_kind(move_faults(merged, Seq::empty(), items)))
        } else {
            let placed = move_each(merged, Seq::empty(), items);
            if satisfies(order, worth_of(placed.1), value) {
                Ok(placed)
            } else {
                Err(ErrorKind::BetMismatch)
            }
        }
    }
}

/// `x` rounded up to a multiple of `unit`. Nothing is rounded where `unit`
/// or `x` is not positive.
pub open spec fn round_up_of(x: int, unit: int) -> int {
    if unit > 0 && x > 0 && x % unit != 0 {
        x + (unit - x % unit)
    } else {
        x
    }
}

/// A tenth of the highest bet, the step by which a bet is raised; 0 where
/// the highest bet is not positive.
pub open spec fn step_of(max_bet: int) -> int {
    if max_bet > 0 {
        max_bet / 10
    } else {
        0
    }
}

/// By how much the rolls raise a bet: not at all where the first roll is at
/// most 50; else by one step where the second roll is at most 70, and by
/// `times_roll` steps otherwise; rounded up to the unit.
pub open spec fn raise_of(call_roll: int, size_roll: int, times_roll: int, max_bet: int, unit: int)
    -> int {
    if call_roll <= 50 {
        round_up_of(0, unit)
    } else if size_roll <= 70 {
        round_up_of(step_of(max_bet), unit)
    } else {
        round_up_of(step_of(max_bet) * times_roll, unit)
    }
}

/// Whether `d` is a raise that some rolls give.
pub open spec fn is_raise(d: int, max_bet: int, unit: int) -> bool {
    exists|a: int, b: int, c: int|
        1 <= a <= 100 && 1 <= b <= 100 && 2 <= c <= 5 && d == #[trigger] raise_of(
            a,
            b,
            c,
            max_bet,
            unit,
        )
}

/// Whether a seat that rolled `fold_roll` gives up before it tries a bet:
/// on a roll of at most 20.
pub open spec fn folds_on(fold_roll: int) -> bool {
    fold_roll <= 20
}

/// The amount that a seat tries to bet against the amount `last` on the
/// given rolls: `last` with the raise that the rolls give.
pub open spec fn amount_of(
    last: int,
    call_roll: int,
    size_roll: int,
    times_roll: int,
    max_bet: int,
    unit: int,
) -> int {
    last + raise_of(call_roll, size_roll, times_roll, max_bet, unit)
}

/// What one try makes of a bankroll and a bet with the lines `owned` and
/// `bet`: the lines of both once the amount `amount` is bet, or nothing
/// where the amount lies above the highest bet `max_bet` or cannot be bet.
pub open spec fn try_of(owned: Seq<Entry>, bet: Seq<Entry>, amount: int, max_bet: int) -> Option<
    (Seq<Entry>, Seq<Entry>),
> {
    if amount > max_bet {
        None
    } else {
        match stake_of(owned, bet, amount) {
            Ok(lines) => Some(lines),
            Err(_) => None,
        }
    }
}

/// `x` rounded up to a multiple of `unit`.
pub fn round_up(x: i64, unit: i32) -> (r: i64)
    requires
        x <= i64::MAX - unit,
    ensures
        r == round_up_of(x as int, unit as int),
{
    if unit > 0 && x > 0 && x % (unit as i64) != 0 {
        x + (unit as i64 - x % (unit as i64))
    } else {
        x
    }
}

/// By how much a seat raises on the given rolls: see `raise_of`.
pub fn raise_by(call_roll: u8, size_roll: u8, times_roll: u8, max_bet_value: i64, min_value_unit: i32)
    -> (d: i64)
    requires
        times_roll <= 5,
    ensures
        d == raise_of(
            call_roll as int,
            size_roll as int,
            times_roll as int,
            max_bet_value as int,
            min_value_unit as int,
        ),
        d >= 0,
{
    let step: i64 = if max_bet_value > 0 {
        max_bet_value / 10
    } else {
        0
    };
    if call_roll <= 50 {
        round_up(0, min_value_unit)
    } else if size_roll <= 70 {
        round_up(step, min_value_unit)
    } else {
        assert(step * (times_roll as int) <= 0x4000_0000_0000_0000) by (nonlinear_arith)
            requires
                0 <= step <= 0x0ccc_cccc_cccc_cccc,
                0 <= times_roll <= 5,
        ;
        assert(step * (times_roll as int) >= 0) by (nonlinear_arith)
            requires
                0 <= step,
                0 <= times_roll,
        ;
        round_up(step * (times_roll as i64), min_value_unit)
    }
}

/// Whether a seat that rolled `fold_roll` gives up before it tries a bet.
pub fn folds_at_once(fold_roll: u8) -> (r: bool)
    ensures
        r == folds_on(fold_roll as int),
{
    fold_roll <= 20
}

/// Whether the amount `last` with the raise `raise` lies above the highest
/// bet.
pub fn above_limit(last: i64, raise: i64, max_bet_value: i64) -> (r: bool)
    ensures
        r == (last + raise > max_bet_value),
{
    last as i128 + raise as i128 > max_bet_value as i128
}

/// Whether every line is a card.
pub open spec fn all_cards(e: Seq<Entry>) -> bool {
    forall|i: int| 0 <= i < e.len() ==> (#[trigger] e[i]).0 is Card
}

/// The cards that the lines name, one for each line.
pub open spec fn cards_of(e: Seq<Entry>) -> Seq<Card> {
    e.map_values(|p: Entry| p.0->Card_0)
}

/// The seven cards of a seat: its hole cards and the community cards, if
/// these are seven lines of cards.
pub open spec fn hand_of(hole: Seq<Entry>, board: Seq<Entry>) -> Option<Seq<Card>> {
    if hole.len() + board.len() == 7 && all_cards(hole + board) {
        Some(cards_of(hole + board))
    } else {
        None
    }
}

impl Player {
    /// What the seat has in play: its bankroll and its bet.
    pub open spec fn chips(&self) -> int {
        self.owned_bank.valuation() + self.bet_bank.valuation()
    }

    /// How many units of a kind the seat has in play.
    #[verifier::inline]
    pub open spec fn held(&self, k: StuffModel) -> int {
        self.owned_bank@.counts[k] + self.bet_bank@.counts[k]
    }

    /// A seat with the given name, with nothing in its ledgers.
    pub fn new(name: &str) -> (player: Player)
        ensures
            player.name@ == name@,
            player.role == Role::Normal,
            player.owned_bank.entries() == Seq::<Entry>::empty(),
            player.bet_bank.entries() == Seq::<Entry>::empty(),
            player.cards_bank.entries() == Seq::<Entry>::empty(),
    {
        Player {
            name: name.to_owned(),
            role: Role::Normal,
            owned_bank: MyBank::new(),
            bet_bank: MyBank::new(),
            cards_bank: MyBank::new(),
        }
    }

    /// Moves the batch from the bankroll to the bet, all of it or nothing.
    /// It is refused as the first item that cannot move is.
    pub fn place_a_bet(&mut self, bet: &Vec<(&StuffType, i32)>) -> (r: Result<(), ErrorKind>)
        ensures
            final(self).chips() == old(self).chips(),
            forall|k: StuffModel| #[trigger] final(self).held(k) == old(self).held(k),
            final(self).role == old(self).role,
            final(self).name == old(self).name,
            final(self).cards_bank == old(self).cards_bank,
            r is Ok <==> move_faults(
                old(self).owned_bank.entries(),
                old(self).bet_bank.entries(),
                batch_of(bet@),
            ).len() == 0,
            r is Ok ==> (final(self).owned_bank.entries(), final(self).bet_bank.entries())
                == move_each(
                old(self).owned_bank.entries(),
                old(self).bet_bank.entries(),
                batch_of(bet@),
            ),
            r is Err ==> final(self).owned_bank@ == old(self).owned_bank@ && final(self).bet_bank@
                == old(self).bet_bank@ && r->Err_0 == first_kind(
                move_faults(
                    old(self).owned_bank.entries(),
                    old(self).bet_bank.entries(),
                    batch_of(bet@),
                ),
            ),
    {
        match self.owned_bank.stuff_transfer(bet, true, &mut self.bet_bank) {
            Ok(()) => Ok(()),
            Err(report) => {
                assert(report_of(report@).len() == 1);
                assert(report_of(report@)[0].1 == report@[0].1);
                Err(report[0].1)
            },
        }
    }

    /// The bet returns to the bankroll, all of it or nothing.
    pub fn get_bets_back(&mut self) -> (r: Result<(), ErrorKind>)
        ensures
            final(self).chips() == old(self).chips(),
            forall|k: StuffModel| #[trigger] final(self).held(k) == old(self).held(k),
            final(self).role == old(self).role,
            final(self).name == old(self).name,
            final(self).cards_bank == old(self).cards_bank,
            r is Ok <==> put_faults(old(self).owned_bank.entries(), old(self).bet_bank.entries()).len()
                == 0,
            r is Ok ==> final(self).bet_bank.entries() == Seq::<Entry>::empty()
                && final(self).owned_bank.entries() == put_each(
                old(self).owned_bank.entries(),
                old(self).bet_bank.entries(),
            ),
            r is Err ==> r == Err::<(), ErrorKind>(ErrorKind::InvalidQuantity)
                && final(self).owned_bank@ == old(self).owned_bank@
                    && final(self).bet_bank@ == old(self).bet_bank@,
    {
        self.bet_bank.hand_over(&mut self.owned_bank)
    }

    /// Bets the amount `value`: the bet returns to the bankroll, units worth
    /// `value` are collected from the bankroll and move to the bet. With a
    /// bet the seat has placed its bet; without one it gives up.
    pub fn place_a_bet_with_value(&mut self, value: i64) -> (r: Result<(), ErrorKind>)
        ensures
            final(self).chips() == old(self).chips(),
            forall|k: StuffModel| #[trigger] final(self).held(k) == old(self).held(k),
            final(self).name == old(self).name,
            final(self).cards_bank == old(self).cards_bank,
            match stake_of(
                old(self).owned_bank.entries(),
                old(self).bet_bank.entries(),
                value as int,
            ) {
                Ok(lines) => r is Ok && final(self).role == Role::PlaceBet
                    && final(self).owned_bank.entries() == lines.0
                        && final(self).bet_bank.entries() == lines.1
                    && final(self).bet_bank.valuation() == value,
                Err(kind) => r == Err::<(), ErrorKind>(kind) && final(self).role == Role::GiveUp
                    && refused_bet(*old(self), *final(self)),
            },
    {
        if self.get_bets_back().is_err() {
            self.role = Role::GiveUp;
            return Err(ErrorKind::InvalidQuantity);
        }
        if value < i32::MIN as i64 || value > i32::MAX as i64 {
            self.role = Role::GiveUp;
            return Err(ErrorKind::CannotCollect);
        }
        let ghost merged = self.owned_bank.entries();
        match self.owned_bank.collect_stuff(value as i32) {
            Err(kind) => {
                self.role = Role::GiveUp;
                Err(kind)
            },
            Ok(picked) => {
                let mut batch: Vec<(&StuffType, i32)> = Vec::new();
                let mut i: usize = 0;
                while i < picked.len()
                    invariant
                        0 <= i <= picked.len(),
                        batch_of(batch@) == listing(picked@).take(i as int),
                    decreases picked.len() - i,
                {
                    let ghost before = batch@;
                    batch.push((&picked[i].0, picked[i].1));
                    assert(batch@.drop_last() =~= before);
                    assert(batch_of(batch@) =~= batch_of(before).push(listing(picked@)[i as int]));
                    assert(listing(picked@).take(i + 1) =~= listing(picked@).take(i as int).push(
                        listing(picked@)[i as int],
                    ));
                    i = i + 1;
                }
                assert(listing(picked@).take(picked.len() as int) =~= listing(picked@));
                proof {
                    use_type_invariant(&self.owned_bank);
                    use_type_invariant(&self.bet_bank);
                    law_collect_sound(merged, value as int);
                    lemma_part_moves(merged, batch_of(batch@), batch_of(batch@).len() as int);
                    assert(batch_of(batch@).take(batch_of(batch@).len() as int) =~= batch_of(
                        batch@,
                    ));
                }
                match self.place_a_bet(&batch) {
                    Ok(()) => {
                        self.role = Role::PlaceBet;
                        Ok(())
                    },
                    Err(kind) => {
                        self.role = Role::GiveUp;
                        Err(kind)
                    },
                }
            },
        }
    }

    /// Places the former bet again after a bet was refused: where the bet is
    /// empty, the batch `former` moves from the bankroll to the bet. The
    /// seat then holds in its bankroll and in its bet what it held before
    /// the refused bet.
    pub(crate) fn restore_bet(
        &mut self,
        former: &Vec<(&StuffType, i32)>,
        Ghost(before): Ghost<Player>,
    )
        requires
            batch_of(former@) == before.bet_bank.entries(),
            before.owned_bank.wf(),
            before.bet_bank.wf(),
            refused_bet(before, *old(self)),
        ensures
            bets_kept(before, *final(self)),
            final(self).role == old(self).role,
            final(self).name == old(self).name,
            final(self).cards_bank == old(self).cards_bank,
    {
        let ghost o = before.owned_bank.entries();
        let ghost b = before.bet_bank.entries();
        let ghost e1 = self.owned_bank.entries();
        proof {
            use_type_invariant(&self.owned_bank);
            use_type_invariant(&self.bet_bank);
        }
        if self.bet_bank.kinds() == 0 {
            proof {
                assert(self.bet_bank.entries() =~= Seq::<Entry>::empty());
                if put_faults(o, b).len() > 0 {
                    assert forall|k: StuffModel| #[trigger] count_of(b, k) == 0 by {
                        assert(self.bet_bank@.counts[k] == before.bet_bank@.counts[k]);
                    }
                    lemma_nothing_held(b);
                } else {
                    assert(b.take(b.len() as int) =~= b);
                    lemma_poured(o, b, b.len() as int);
                    assert forall|k: StuffModel| #[trigger] count_of(b, k) <= count_of(e1, k) by {
                        assert(self.owned_bank@.counts[k] == contents(put_each(o, b)).counts[k]);
                        lemma_count_nonneg(o, k);
                    }
                    lemma_part_moves(e1, b, b.len() as int);
                }
            }
            let restored = self.place_a_bet(former);
            proof {
                if put_faults(o, b).len() == 0 {
                    assert(self.owned_bank@.counts =~= before.owned_bank@.counts) by {
                        assert forall|k: StuffModel|
                            self.owned_bank@.counts[k]
                                == #[trigger] before.owned_bank@.counts[k] by {
                            assert(count_of(e1, k) == contents(put_each(o, b)).counts[k]);
                            assert(count_of(put_each(o, b), k) == count_of(o, k) + count_of(b, k));
                            assert(count_of(move_each(e1, Seq::empty(), b).0, k) == count_of(e1, k)
                                - count_of(b, k));
                        }
                    }
                    assert(self.bet_bank@.counts =~= before.bet_bank@.counts) by {
                        assert forall|k: StuffModel|
                            self.bet_bank@.counts[k] == #[trigger] before.bet_bank@.counts[k] by {
                            assert(count_of(move_each(e1, Seq::empty(), b).1, k) == count_of(b, k));
                        }
                    }
                    assert(worth_of(e1) == contents(put_each(o, b)).worth);
                }
            }
        }
    }

    /// Bets the batch `bet` in place of the present bet, if the new bet
    /// stands to `value` as `order` asks: the present bet returns to the
    /// bankroll, then the batch moves to the bet, all of it or nothing.
    /// With a bet the seat has placed its bet. It is refused where the
    /// present bet cannot return, where an item of the batch cannot move,
    /// and with `BetMismatch` where the new bet does not stand to `value` as
    /// asked; the batch has then returned to the bankroll if the bankroll
    /// can take it. The seat keeps its role where the bet is refused.
    pub fn place_a_bet_and_check_value(
        &mut self,
        bet: &Vec<(&StuffType, i32)>,
        order: Ordering,
        value: i64,
    ) -> (r: Result<(), ErrorKind>)
        ensures
            final(self).chips() == old(self).chips(),
            forall|k: StuffModel| #[trigger] final(self).held(k) == old(self).held(k),
            final(self).name == old(self).name,
            final(self).cards_bank == old(self).cards_bank,
            match checked_stake_of(
                old(self).owned_bank.entries(),
                old(self).bet_bank.entries(),
                batch_of(bet@),
                order,
                value,
            ) {
                Ok(lines) => r is Ok && final(self).role == Role::PlaceBet
                    && final(self).owned_bank.entries() == lines.0
                        && final(self).bet_bank.entries() == lines.1,
                Err(kind) => r == Err::<(), ErrorKind>(kind) && final(self).role == old(self).role
                    && refused_bet(*old(self), *final(self)),
            },
    {
        if self.get_bets_back().is_err() {
            return Err(ErrorKind::InvalidQuantity);
        }
        let ghost merged = self.owned_bank.entries();
        proof {
            use_type_invariant(&self.owned_bank);
        }
        match self.place_a_bet(bet) {
            Err(kind) => {
                proof {
                    use_type_invariant(&self.bet_bank);
                    assert forall|k: StuffModel| #[trigger]
                        count_of(self.bet_bank.entries(), k) == 0 by {
                        assert(self.bet_bank@.counts[k] == contents(Seq::<Entry>::empty()).counts[k]);
                    }
                    lemma_nothing_held(self.bet_bank.entries());
                }
                Err(kind)
            },
            Ok(()) => {
                let num: i64 = widen(self.bet_bank.get_values_of_bank());
                let meets = match order {
                    Ordering::Equal => num == value,
                    Ordering::Greater => num > value,
                    Ordering::Less => num <= value,
                };
                if meets {
                    self.role = Role::PlaceBet;
                    Ok(())
                } else {
                    let ghost owned1 = self.owned_bank.entries();
                    let ghost bet1 = self.bet_bank.entries();
                    proof {
                        use_type_invariant(&self.owned_bank);
                        use_type_invariant(&self.bet_bank);
                        lemma_move_each_tidy(merged, Seq::empty(), batch_of(bet@));
                        assert(worth_of(Seq::<Entry>::empty()) == 0);
                        lemma_sum_roomy(owned1, bet1, merged);
                        lemma_pour(owned1, bet1);
                    }
                    let back = self.get_bets_back();
                    proof {
                        assert(self.owned_bank@.counts =~= contents(merged).counts);
                    }
                    Err(ErrorKind::BetMismatch)
                }
            },
        }
    }

    /// One try at a bet against the amount `last_player_value`, on the
    /// given rolls, and whether the bet stands. The rolls give a raise (see
    /// `raise_of`). An amount above `max_bet_value` is passed over. Else the
    /// amount with the raise is bet, as `place_a_bet_with_value` bets it;
    /// where that bet is refused, the former bet is put back. With a bet
    /// the seat has placed its bet; without one it keeps its role and holds
    /// in its bankroll and in its bet what it held.
    pub fn try_bet(
        &mut self,
        last_player_value: i64,
        max_bet_value: i64,
        min_value_unit: i32,
        call_roll: u8,
        size_roll: u8,
        times_roll: u8,
    ) -> (placed: bool)
        requires
            times_roll <= 5,
        ensures
            final(self).chips() == old(self).chips(),
            forall|k: StuffModel| #[trigger] final(self).held(k) == old(self).held(k),
            final(self).name == old(self).name,
            final(self).cards_bank == old(self).cards_bank,
            match try_of(
                old(self).owned_bank.entries(),
                old(self).bet_bank.entries(),
                amount_of(
                    last_player_value as int,
                    call_roll as int,
                    size_roll as int,
                    times_roll as int,
                    max_bet_value as int,
                    min_value_unit as int,
                ),
                max_bet_value as int,
            ) {
                Some(lines) => placed && final(self).role == Role::PlaceBet
                    && final(self).owned_bank.entries() == lines.0
                        && final(self).bet_bank.entries() == lines.1
                    && final(self).bet_bank.valuation() == amount_of(
                    last_player_value as int,
                    call_roll as int,
                    size_roll as int,
                    times_roll as int,
                    max_bet_value as int,
                    min_value_unit as int,
                ),
                None => !placed && final(self).role == old(self).role && bets_kept(
                    *old(self),
                    *final(self),
                ),
            },
    {
        let d_value = raise_by(call_roll, size_roll, times_roll, max_bet_value, min_value_unit);
        if above_limit(last_player_value, d_value, max_bet_value) {
            return false;
        }
        let role = self.role;
        let former = self.bet_bank.clone();
        let backup = former.get_basket_vec();
        let ghost before = *self;
        proof {
            use_type_invariant(&self.owned_bank);
            use_type_invariant(&self.bet_bank);
        }
        match self.place_a_bet_with_value(last_player_value + d_value) {
            Ok(()) => true,
            Err(kind) => {
                self.restore_bet(&backup, Ghost(before));
                self.role = role;
                false
            },
        }
    }

    /// Decides for the seat what to bet against the amount
    /// `last_player_value`, and says whether a bet stands. It rolls a number
    /// from 1 to 100 and gives up at once where `folds_at_once` says so: with
    /// one chance in five. Else it tries up to twenty times: it rolls a
    /// raise and makes one try with it (see `try_bet`). After twenty tries
    /// without a bet it gives up.
    pub fn place_a_bet_with_last_value(
        &mut self,
        last_player_value: i64,
        max_bet_value: i64,
        min_value_unit: i32,
        rng: &mut RandomSource,
    ) -> (placed: bool)
        ensures
            final(self).chips() == old(self).chips(),
            forall|k: StuffModel| #[trigger] final(self).held(k) == old(self).held(k),
            final(self).name == old(self).name,
            final(self).cards_bank == old(self).cards_bank,
            placed ==> final(self).role == Role::PlaceBet
                && last_player_value <= final(self).bet_bank.valuation() <= max_bet_value
                    && is_raise(
                final(self).bet_bank.valuation() - last_player_value,
                max_bet_value as int,
                min_value_unit as int,
            ),
            !placed ==> final(self).role == Role::GiveUp && bets_kept(*old(self), *final(self)),
    {
        let fold_roll = rng.between(1, 100);
        if folds_at_once(fold_roll) {
            self.role = Role::GiveUp;
            return false;
        }
        let mut times: usize = 0;
        while times < 20
            invariant
                0 <= times <= 20,
                self.chips() == old(self).chips(),
                forall|k: StuffModel| #[trigger] self.held(k) == old(self).held(k),
                self.name == old(self).name,
                self.cards_bank == old(self).cards_bank,
                bets_kept(*old(self), *self),
            decreases 20 - times,
        {
            times = times + 1;
            let call_roll = rng.between(1, 100);
            let size_roll = if call_roll <= 50 {
                1
            } else {
                rng.between(1, 100)
            };
            let times_roll = if call_roll <= 50 || size_roll <= 70 {
                2
            } else {
                rng.between(2, 5)
            };
            if self.try_bet(
                last_player_value,
                max_bet_value,
                min_value_unit,
                call_roll,
                size_roll,
                times_roll,
            ) {
                return true;
            }
        }
        self.role = Role::GiveUp;
        false
    }

    /// Puts the batch into the bankroll, all of it or nothing. It is refused
    /// with `InvalidQuantity` where an item cannot be put in.
    pub fn initial_my_owned_bank(&mut self, initial: &Vec<(&StuffType, i32)>) -> (r: Result<
        (),
        ErrorKind,
    >)
        ensures
            final(self).role == old(self).role,
            final(self).name == old(self).name,
            final(self).cards_bank == old(self).cards_bank,
            final(self).bet_bank == old(self).bet_bank,
            r is Ok <==> put_faults(old(self).owned_bank.entries(), batch_of(initial@)).len() == 0,
            r is Ok ==> final(self).owned_bank.entries() == put_each(
                old(self).owned_bank.entries(),
                batch_of(initial@),
            ),
            r is Err ==> r == Err::<(), ErrorKind>(ErrorKind::InvalidQuantity)
                && final(self).owned_bank@ == old(self).owned_bank@,
    {
        match self.owned_bank.stuff_in(initial, true) {
            Ok(()) => Ok(()),
            Err(report) => Err(ErrorKind::InvalidQuantity),
        }
    }

    /// Drops the hole cards.
    pub fn clear_my_cards(&mut self)
        ensures
            final(self).cards_bank.entries() == Seq::<Entry>::empty(),
            final(self).role == old(self).role,
            final(self).name == old(self).name,
            final(self).owned_bank == old(self).owned_bank,
            final(self).bet_bank == old(self).bet_bank,
    {
        self.cards_bank.stuff_clear();
    }

    /// Drops the bet.
    pub fn clear_my_bet_bank(&mut self)
        ensures
            final(self).bet_bank.entries() == Seq::<Entry>::empty(),
            final(self).role == old(self).role,
            final(self).name == old(self).name,
            final(self).owned_bank == old(self).owned_bank,
            final(self).cards_bank == old(self).cards_bank,
    {
        self.bet_bank.stuff_clear();
    }

    /// The bet moves to the pot, all of it or nothing.
    pub fn send_bets_to_pool(&mut self, to: &mut CashPool) -> (r: Result<(), ErrorKind>)
        ensures
            forall|k: StuffModel| #[trigger]
                final(self).bet_bank@.counts[k] + final(to).cash_pool@.counts[k]
                    == old(self).bet_bank@.counts[k]
                    + old(to).cash_pool@.counts[k],
            final(self).bet_bank.wf(),
            final(to).cash_pool.wf(),
            final(self).bet_bank.valuation() + final(to).cash_pool.valuation()
                == old(self).bet_bank.valuation() + old(to).cash_pool.valuation(),
            final(self).role == old(self).role,
            final(self).name == old(self).name,
            final(self).owned_bank == old(self).owned_bank,
            final(self).cards_bank == old(self).cards_bank,
            r is Ok <==> put_faults(old(to).cash_pool.entries(), old(self).bet_bank.entries()).len()
                == 0,
            r is Ok ==> final(self).bet_bank.entries() == Seq::<Entry>::empty()
                && final(to).cash_pool.entries() == put_each(
                old(to).cash_pool.entries(),
                old(self).bet_bank.entries(),
            ),
            r is Err ==> r == Err::<(), ErrorKind>(ErrorKind::InvalidQuantity)
                && final(self).bet_bank@ == old(self).bet_bank@
                    && final(to).cash_pool@ == old(to).cash_pool@,
    {
        self.bet_bank.hand_over(&mut to.cash_pool)
    }

    /// The bankroll moves to the pot, all of it or nothing.
    pub fn send_owned_to_pool(&mut self, to: &mut CashPool) -> (r: Result<(), ErrorKind>)
        ensures
            forall|k: StuffModel| #[trigger]
                final(self).owned_bank@.counts[k] + final(to).cash_pool@.counts[k]
                    == old(self).owned_bank@.counts[k]
                    + old(to).cash_pool@.counts[k],
            final(self).owned_bank.wf(),
            final(to).cash_pool.wf(),
            final(self).owned_bank.valuation() + final(to).cash_pool.valuation()
                == old(self).owned_bank.valuation() + old(to).cash_pool.valuation(),
            final(self).role == old(self).role,
            final(self).name == old(self).name,
            final(self).bet_bank == old(self).bet_bank,
            final(self).cards_bank == old(self).cards_bank,
            r is Ok <==> put_faults(old(to).cash_pool.entries(), old(self).owned_bank.entries()).len()
                == 0,
            r is Ok ==> final(self).owned_bank.entries() == Seq::<Entry>::empty()
                && final(to).cash_pool.entries() == put_each(
                old(to).cash_pool.entries(),
                old(self).owned_bank.entries(),
            ),
            r is Err ==> r == Err::<(), ErrorKind>(ErrorKind::InvalidQuantity)
                && final(self).owned_bank@ == old(self).owned_bank@
                    && final(to).cash_pool@ == old(to).cash_pool@,
    {
        self.owned_bank.hand_over(&mut to.cash_pool)
    }

    /// The pot moves to the bankroll, all of it or nothing.
    pub fn get_bets_from_pool(&mut self, from: &mut CashPool) -> (r: Result<(), ErrorKind>)
        ensures
            forall|k: StuffModel| #[trigger]
                final(self).owned_bank@.counts[k] + final(from).cash_pool@.counts[k]
                    == old(self).owned_bank@.counts[k]
                    + old(from).cash_pool@.counts[k],
            final(self).owned_bank.wf(),
            final(from).cash_pool.wf(),
            final(self).owned_bank.valuation() + final(from).cash_pool.valuation()
                == old(self).owned_bank.valuation() + old(from).cash_pool.valuation(),
            final(self).role == old(self).role,
            final(self).name == old(self).name,
            final(self).bet_bank == old(self).bet_bank,
            final(self).cards_bank == old(self).cards_bank,
            r is Ok <==> put_faults(old(self).owned_bank.entries(), old(from).cash_pool.entries()).len()
                == 0,
            r is Ok ==> final(from).cash_pool.entries() == Seq::<Entry>::empty()
                && final(self).owned_bank.entries() == put_each(
                old(self).owned_bank.entries(),
                old(from).cash_pool.entries(),
            ),
            r is Err ==> r == Err::<(), ErrorKind>(ErrorKind::InvalidQuantity)
                && final(self).owned_bank@ == old(self).owned_bank@
                    && final(from).cash_pool@ == old(from).cash_pool@,
    {
        from.cash_pool.hand_over(&mut self.owned_bank)
    }

    /// Deals two cards from the deck to the seat: see `MyBank::deal`.
    pub fn get_two_cards(&mut self, from: &mut CardPool, rng: &mut RandomSource) -> (r: Result<
        (),
        ErrorKind,
    >)
        ensures
            final(self).cards_bank.wf(),
            final(from).card_pool.wf(),
            final(self).cards_bank.valuation() + final(from).card_pool.valuation()
                == old(self).cards_bank.valuation()
                + old(from).card_pool.valuation(),
            final(self).role == old(self).role,
            final(self).name == old(self).name,
            final(self).owned_bank == old(self).owned_bank,
            final(self).bet_bank == old(self).bet_bank,
            forall|k: StuffModel| #[trigger]
                final(from).card_pool@.counts[k] + final(self).cards_bank@.counts[k]
                    == old(from).card_pool@.counts[k] + old(self).cards_bank@.counts[k],
            old(from).card_pool.entries().len() < 2 ==> r == Err::<(), ErrorKind>(
                ErrorKind::InsufficientStuff,
            )
                && final(from).card_pool.entries() == old(from).card_pool.entries()
                && final(self).cards_bank.entries() == old(self).cards_bank.entries(),
            old(from).card_pool.entries().len() >= 2 && roomy(
                old(self).cards_bank@,
                old(from).card_pool@,
            ) ==> r is Ok,
            r is Ok ==> dealing(
                old(from).card_pool.entries(),
                old(self).cards_bank.entries(),
                final(from).card_pool.entries(),
                final(self).cards_bank.entries(),
                2,
            ),
            r is Err ==> r == Err::<(), ErrorKind>(ErrorKind::InsufficientStuff) || r == Err::<
                (),
                ErrorKind,
            >(ErrorKind::InvalidQuantity),
    {
        from.card_pool.deal(&mut self.cards_bank, 2, rng)
    }

    /// The hole cards return to the deck, all or none.
    pub fn send_cards_back(&mut self, to: &mut CardPool) -> (r: Result<(), ErrorKind>)
        ensures
            final(self).cards_bank.valuation() + final(to).card_pool.valuation()
                == old(self).cards_bank.valuation()
                + old(to).card_pool.valuation(),
            forall|k: StuffModel| #[trigger]
                final(self).cards_bank@.counts[k] + final(to).card_pool@.counts[k]
                    == old(self).cards_bank@.counts[k]
                    + old(to).card_pool@.counts[k],
            final(self).cards_bank.wf(),
            final(to).card_pool.wf(),
            final(self).role == old(self).role,
            final(self).name == old(self).name,
            final(self).owned_bank == old(self).owned_bank,
            final(self).bet_bank == old(self).bet_bank,
            r is Ok <==> put_faults(old(to).card_pool.entries(), old(self).cards_bank.entries()).len()
                == 0,
            r is Ok ==> final(self).cards_bank.entries() == Seq::<Entry>::empty()
                && final(to).card_pool.entries() == put_each(
                old(to).card_pool.entries(),
                old(self).cards_bank.entries(),
            ),
            r is Err ==> r == Err::<(), ErrorKind>(ErrorKind::InvalidQuantity)
                && final(self).cards_bank@ == old(self).cards_bank@
                    && final(to).card_pool@ == old(to).card_pool@,
    {
        self.cards_bank.hand_over(&mut to.card_pool)
    }

    /// The seat's seven cards, hole cards first, if its hole cards and the
    /// community cards are seven lines of cards.
    pub fn seven_cards(&self, five_cards: &FiveCards) -> (r: Option<Vec<Card>>)
        ensures
            match hand_of(self.cards_bank.entries(), five_cards.five_cards.entries()) {
                Some(seven) => r is Some && r->Some_0@ == seven,
                None => r is None,
            },
    {
        let hole = self.cards_bank.get_basket_vec();
        let board = five_cards.five_cards.get_basket_vec();
        let ghost lines = self.cards_bank.entries() + five_cards.five_cards.entries();
        if hole.len() > 7 || board.len() > 7 || hole.len() + board.len() != 7 {
            return None;
        }
        let mut seven: Vec<Card> = Vec::new();
        let mut i: usize = 0;
        while i < 7
            invariant
                0 <= i <= 7,
                hole.len() + board.len() == 7,
                lines == batch_of(hole@) + batch_of(board@),
                lines == self.cards_bank.entries() + five_cards.five_cards.entries(),
                seven@ == cards_of(lines.take(i as int)),
                all_cards(lines.take(i as int)),
            decreases 7 - i,
        {
            let kind: &StuffType = if i < hole.len() {
                hole[i].0
            } else {
                board[i - hole.len()].0
            };
            assert(kind@ == lines[i as int].0);
            match kind {
                StuffType::CardType(card) => {
                    seven.push(*card);
                    assert(lines.take(i + 1) =~= lines.take(i as int).push(lines[i as int]));
                    assert(seven@ =~= cards_of(lines.take(i + 1)));
                },
                StuffType::GeneralType(_, _) => {
                    assert(!(lines[i as int].0 is Card));
                    return None;
                },
            }
            i = i + 1;
        }
        assert(lines.take(7) =~= lines);
        Some(seven)
    }

    /// The rank and the category of the best hand of five among the seat's
    /// hole cards and the community cards.
    pub fn get_cards_max_value_and_category(&self, five_cards: &FiveCards) -> (r: (
        i32,
        FiveCardsCategory,
    ))
        requires
            hand_of(self.cards_bank.entries(), five_cards.five_cards.entries()) is Some,
        ensures
            r.0 == evaluate_of(
                hand_of(self.cards_bank.entries(), five_cards.five_cards.entries())->Some_0,
            ).0,
            r.1 == evaluate_of(
                hand_of(self.cards_bank.entries(), five_cards.five_cards.entries())->Some_0,
            ).1,
    {
        let seven = self.seven_cards(five_cards).unwrap();
        assert(seven@.len() == 7);
        evaluate(&seven)
    }
}

/// The same amount in 64 bits.
pub fn widen(x: i32) -> (r: i64)
    ensures
        r == x,
{
    x as i64
}

impl Clone for Player {
    /// A seat with the same name, role and ledgers.
    fn clone(&self) -> (r: Player)
        ensures
            r.name@ == self.name@,
            r.role == self.role,
            r.owned_bank.entries() == self.owned_bank.entries(),
            r.bet_bank.entries() == self.bet_bank.entries(),
            r.cards_bank.entries() == self.cards_bank.entries(),
    {
        Player {
            name: self.name.clone(),
            role: self.role,
            owned_bank: self.owned_bank.clone(),
            bet_bank: self.bet_bank.clone(),
            cards_bank: self.cards_bank.clone(),
        }
    }
}

impl Clone for CashPool {
    /// A pot with the same lines.
    fn clone(&self) -> (r: CashPool)
        ensures
            r.cash_pool.entries() == self.cash_pool.entries(),
    {
        CashPool { cash_pool: self.cash_pool.clone() }
    }
}

impl CashPool {
    /// An empty pot.
    pub fn new() -> (pool: CashPool)
        ensures
            pool.cash_pool.entries() == Seq::<Entry>::empty(),
    {
        CashPool { cash_pool: MyBank::new() }
    }

    /// Empties the pot.
    pub fn clear_cash_pool(&mut self)
        ensures
            final(self).cash_pool.entries() == Seq::<Entry>::empty(),
    {
        self.cash_pool.stuff_clear();
    }
}

} // verus!
