//! The deck, the community cards, and dealing.
use crate::bank::{
    BankManager, Entry, Holdings, MyBank, StuffModel, StuffType, contents, count_of, holds,
    lemma_count_absent, lemma_count_nonneg, lemma_count_present, lemma_move_one,
    lemma_weigh_remove, lemma_weigh_whole_nonneg, move_one, move_result, price, put_each,
    put_entry, put_faults, put_ok, put_one, slot, take_one, tidy, worth_of,
};
use crate::card::{Card, CardColor};
use crate::error::ErrorKind;
use crate::random::RandomSource;
use vstd::prelude::*;

verus! {

/// The deck from which cards are dealt.
#[derive(Debug)]
pub struct CardPool {
    pub card_pool: MyBank,
}

/// The community cards.
#[derive(Debug)]
pub struct FiveCards {
    pub five_cards: MyBank,
}

/// The suits in the order in which a fresh deck lists them.
pub open spec fn suit_of(i: int) -> CardColor {
    if i == 0 {
        CardColor::HeiTao
    } else if i == 1 {
        CardColor::HongTao
    } else if i == 2 {
        CardColor::MeiHua
    } else {
        CardColor::FangKuai
    }
}

/// The lines of a fresh deck: one of each of the 52 cards, rank after rank
/// from 2 to the ace, and within a rank suit after suit.
pub open spec fn full_deck() -> Seq<Entry> {
    Seq::new(52, |i: int| (StuffModel::Card(Card::of(2 + i / 4, suit_of(i % 4))), 1int))
}

/// The lines of two ledgers after one unit of the `i`-th kind of the first
/// was to move to the second.
pub open spec fn deal_at(from: Seq<Entry>, into: Seq<Entry>, i: int) -> (Seq<Entry>, Seq<Entry>) {
    move_one(from, into, from[i].0, 1)
}

/// Whether `n` units, each of a kind chosen among those that the first
/// ledger then held, moved one after the other from the first ledger to the
/// second, and so led from the lines `from0` and `into0` to `from1` and
/// `into1`.
pub open spec fn dealing(
    from0: Seq<Entry>,
    into0: Seq<Entry>,
    from1: Seq<Entry>,
    into1: Seq<Entry>,
    n: nat,
) -> bool
    decreases n,
{
    if n == 0 {
        from1 == from0 && into1 == into0
    } else {
        exists|i: int|
            0 <= i < from0.len() && move_result(contents(from0), contents(into0), from0[i].0, 1)
                is Ok && dealing(
                (#[trigger] deal_at(from0, into0, i)).0,
                deal_at(from0, into0, i).1,
                from1,
                into1,
                (n - 1) as nat,
            )
    }
}

/// Whether a ledger with contents `into` can take all that one with contents
/// `from` holds.
pub open spec fn roomy(into: Holdings, from: Holdings) -> bool {
    &&& into.worth + from.worth <= i32::MAX
    &&& forall|k: StuffModel| #[trigger] into.counts[k] + from.counts[k] <= i32::MAX
}

/// One more unit dealt continues a dealing.
pub proof fn lemma_dealing_more(
    from0: Seq<Entry>,
    into0: Seq<Entry>,
    from1: Seq<Entry>,
    into1: Seq<Entry>,
    n: nat,
    i: int,
)
    requires
        dealing(from0, into0, from1, into1, n),
        0 <= i < from1.len(),
        move_result(contents(from1), contents(into1), from1[i].0, 1) is Ok,
    ensures
        dealing(
            from0,
            into0,
            deal_at(from1, into1, i).0,
            deal_at(from1, into1, i).1,
            (n + 1) as nat,
        ),
    decreases n,
{
    let next = deal_at(from1, into1, i);
    if n == 0 {
        assert(dealing(next.0, next.1, next.0, next.1, 0));
        assert(deal_at(from0, into0, i) == next);
    } else {
        let j = choose|j: int|
            0 <= j < from0.len() && move_result(contents(from0), contents(into0), from0[j].0, 1)
                is Ok && dealing(
                (#[trigger] deal_at(from0, into0, j)).0,
                deal_at(from0, into0, j).1,
                from1,
                into1,
                (n - 1) as nat,
            );
        let mid = deal_at(from0, into0, j);
        lemma_dealing_more(mid.0, mid.1, from1, into1, (n - 1) as nat, i);
        assert(dealing(mid.0, mid.1, next.0, next.1, n));
    }
}

/// A held kind is worth no more than the ledger.
pub proof fn lemma_worth_covers(e: Seq<Entry>, i: int)
    requires
        tidy(e),
        0 <= i < e.len(),
    ensures
        0 <= e[i].0.value() <= worth_of(e),
{
    lemma_weigh_remove(e, i, price());
    let rest = e.remove(i);
    assert forall|j: int| 0 <= j < rest.len() implies price()(#[trigger] rest[j]) >= 0 by {
        let j0 = if j < i { j } else { j + 1 };
        assert(rest[j] == e[j0]);
        assert(e[j0].0.value() * e[j0].1 >= 0) by (nonlinear_arith)
            requires
                e[j0].0.value() >= 0,
                e[j0].1 > 0,
        ;
    }
    lemma_weigh_whole_nonneg(rest, price());
    assert(e[i].0.value() * e[i].1 >= e[i].0.value()) by (nonlinear_arith)
        requires
            e[i].0.value() >= 0,
            e[i].1 >= 1,
    ;
}

/// Whether the lines are single cards: every line is a card, held once.
pub open spec fn is_card_deck(e: Seq<Entry>) -> bool {
    forall|i: int| 0 <= i < e.len() ==> (#[trigger] e[i]).0 is Card && e[i].1 == 1
}

/// Whether no kind of stuff is held twice by two ledgers together.
pub open spec fn held_once(a: Seq<Entry>, b: Seq<Entry>) -> bool {
    forall|k: StuffModel| #[trigger] count_of(a, k) + count_of(b, k) <= 1
}

/// Single cards are worth nothing.
pub proof fn lemma_cards_worthless(e: Seq<Entry>)
    requires
        is_card_deck(e),
    ensures
        worth_of(e) == 0,
    decreases e.len(),
{
    if e.len() > 0 {
        assert forall|i: int| 0 <= i < e.drop_last().len() implies (#[trigger] e.drop_last()[i]).0
            is Card && e.drop_last()[i].1 == 1 by {
            assert(e.drop_last()[i] == e[i]);
        }
        lemma_cards_worthless(e.drop_last());
        assert(e.last() == e[e.len() - 1]);
    }
}

/// A card dealt from single cards to single cards that do not hold it
/// leaves single cards: the line leaves the one ledger and is added to the
/// other.
pub proof fn lemma_deal_card(from: Seq<Entry>, into: Seq<Entry>, i: int)
    requires
        tidy(from),
        tidy(into),
        is_card_deck(from),
        is_card_deck(into),
        held_once(from, into),
        0 <= i < from.len(),
    ensures
        move_result(contents(from), contents(into), from[i].0, 1) is Ok,
        deal_at(from, into, i) == (from.remove(i), into.push(from[i])),
        tidy(deal_at(from, into, i).0),
        tidy(deal_at(from, into, i).1),
        is_card_deck(deal_at(from, into, i).0),
        is_card_deck(deal_at(from, into, i).1),
        held_once(deal_at(from, into, i).0, deal_at(from, into, i).1),
{
    let k = from[i].0;
    lemma_count_present(from, i);
    lemma_count_nonneg(from, k);
    lemma_count_nonneg(into, k);
    lemma_cards_worthless(into);
    assert(count_of(from, k) + count_of(into, k) <= 1);
    assert(k.value() * 1 == 0);
    lemma_move_one(from, into, k, 1);
    let after = deal_at(from, into, i);
    assert(after.0 =~= from.remove(i));
    assert(after.1 =~= into.push(from[i]));
    assert forall|j: int| 0 <= j < after.0.len() implies (#[trigger] after.0[j]).0 is Card
        && after.0[j].1 == 1 by {
        let j0 = if j < i { j } else { j + 1 };
        assert(after.0[j] == from[j0]);
    }
    assert forall|j: int| 0 <= j < after.1.len() implies (#[trigger] after.1[j]).0 is Card
        && after.1[j].1 == 1 by {
        if j < into.len() {
            assert(after.1[j] == into[j]);
        }
    }
    assert forall|k2: StuffModel| #[trigger]
        count_of(after.0, k2) + count_of(after.1, k2) <= 1 by {
        assert(count_of(from, k2) + count_of(into, k2) <= 1);
        assert(contents(after.0).counts[k2] == take_one(contents(from), k, 1).counts[k2]);
        assert(contents(after.1).counts[k2] == put_one(contents(into), k, 1).counts[k2]);
    }
}

/// Dealing `n` cards from single cards to single cards, none of which is
/// held twice, moves `n` lines and leaves single cards.
pub proof fn lemma_dealing_cards(
    from0: Seq<Entry>,
    into0: Seq<Entry>,
    from1: Seq<Entry>,
    into1: Seq<Entry>,
    n: nat,
)
    requires
        tidy(from0),
        tidy(into0),
        is_card_deck(from0),
        is_card_deck(into0),
        held_once(from0, into0),
        dealing(from0, into0, from1, into1, n),
    ensures
        is_card_deck(from1),
        is_card_deck(into1),
        held_once(from1, into1),
        from1.len() == from0.len() - n,
        into1.len() == into0.len() + n,
    decreases n,
{
    if n > 0 {
        let i = choose|i: int|
            0 <= i < from0.len() && move_result(contents(from0), contents(into0), from0[i].0, 1)
                is Ok && dealing(
                (#[trigger] deal_at(from0, into0, i)).0,
                deal_at(from0, into0, i).1,
                from1,
                into1,
                (n - 1) as nat,
            );
        lemma_deal_card(from0, into0, i);
        let mid = deal_at(from0, into0, i);
        lemma_dealing_cards(mid.0, mid.1, from1, into1, (n - 1) as nat);
    }
}

/// Single cards of which none is held twice can all be taken over.
pub proof fn lemma_cards_roomy(from: Seq<Entry>, into: Seq<Entry>)
    requires
        is_card_deck(from),
        is_card_deck(into),
        held_once(from, into),
    ensures
        roomy(contents(into), contents(from)),
{
    lemma_cards_worthless(from);
    lemma_cards_worthless(into);
    assert forall|k: StuffModel| #[trigger]
        contents(into).counts[k] + contents(from).counts[k] <= i32::MAX by {
        assert(count_of(from, k) + count_of(into, k) <= 1);
    }
}

/// Nothing is held twice by single cards and an empty ledger.
pub proof fn lemma_held_once_empty(from: Seq<Entry>)
    requires
        tidy(from),
        is_card_deck(from),
    ensures
        held_once(from, Seq::empty()),
        is_card_deck(Seq::<Entry>::empty()),
        tidy(Seq::<Entry>::empty()),
{
    assert forall|k: StuffModel| #[trigger]
        count_of(from, k) + count_of(Seq::<Entry>::empty(), k) <= 1 by {
        lemma_count_nonneg(from, k);
        if holds(from, k) {
            lemma_count_present(from, slot(from, k));
        }
    }
    assert(worth_of(Seq::<Entry>::empty()) == 0);
}

impl MyBank {
    /// Moves one unit of the kind on the `index`-th line to `into`, as a
    /// single transfer does. It is refused with `InsufficientStuff` where
    /// there is no such line.
    pub fn deal_one(&mut self, into: &mut MyBank, index: usize) -> (r: Result<(), ErrorKind>)
        ensures
            final(self).wf(),
            final(into).wf(),
            index >= old(self).entries().len() ==> r == Err::<(), ErrorKind>(
                ErrorKind::InsufficientStuff,
            )
                && final(self).entries() == old(self).entries()
                && final(into).entries() == old(into).entries(),
            index < old(self).entries().len() ==> r == move_result(
                old(self)@,
                old(into)@,
                old(self).entries()[index as int].0,
                1,
            ) && (final(self).entries(), final(into).entries()) == deal_at(
                old(self).entries(),
                old(into).entries(),
                index as int,
            ),
    {
        proof {
            use_type_invariant(&*self);
            use_type_invariant(&*into);
        }
        if index >= self.kinds() {
            return Err(ErrorKind::InsufficientStuff);
        }
        let kind: StuffType = *self.item_at(index);
        self.stuff_transfer(&kind, 1, into)
    }

    /// Moves `n` units to `into`, one after the other, each of a kind drawn
    /// from those that the ledger then holds, every kind as likely as any
    /// other. It is refused with `InsufficientStuff`, and nothing moves,
    /// where the ledger holds fewer than `n` kinds. It is refused with
    /// `InvalidQuantity` where `into` cannot take a drawn unit; the units
    /// drawn before stay moved. It succeeds where the ledger holds `n` kinds
    /// and `into` can take all that it holds.
    pub fn deal(&mut self, into: &mut MyBank, n: usize, rng: &mut RandomSource) -> (r: Result<
        (),
        ErrorKind,
    >)
        ensures
            final(self).wf(),
            final(into).wf(),
            final(self).valuation() + final(into).valuation()
                == old(self).valuation() + old(into).valuation(),
            forall|k: StuffModel| #[trigger]
                final(self)@.counts[k] + final(into)@.counts[k]
                    == old(self)@.counts[k] + old(into)@.counts[k],
            old(self).entries().len() < n ==> r == Err::<(), ErrorKind>(
                ErrorKind::InsufficientStuff,
            )
                && final(self).entries() == old(self).entries()
                && final(into).entries() == old(into).entries(),
            old(self).entries().len() >= n && roomy(old(into)@, old(self)@) ==> r is Ok,
            r is Ok ==> dealing(
                old(self).entries(),
                old(into).entries(),
                final(self).entries(),
                final(into).entries(),
                n as nat,
            ),
            r is Err ==> r == Err::<(), ErrorKind>(ErrorKind::InsufficientStuff) || r == Err::<
                (),
                ErrorKind,
            >(ErrorKind::InvalidQuantity),
    {
        proof {
            use_type_invariant(&*self);
            use_type_invariant(&*into);
        }
        if self.kinds() < n {
            return Err(ErrorKind::InsufficientStuff);
        }
        let ghost from0 = self.entries();
        let ghost into0 = into.entries();
        let mut dealt: usize = 0;
        while dealt < n
            invariant
                0 <= dealt <= n,
                from0 == old(self).entries(),
                into0 == old(into).entries(),
                from0.len() >= n,
                self.wf(),
                into.wf(),
                self.entries().len() + dealt >= n,
                self.valuation() + into.valuation() == worth_of(from0) + worth_of(into0),
                forall|k: StuffModel| #[trigger]
                    self@.counts[k] + into@.counts[k] == contents(from0).counts[k] + contents(
                        into0,
                    ).counts[k],
                dealing(from0, into0, self.entries(), into.entries(), dealt as nat),
            decreases n - dealt,
        {
            let drawn = rng.below(self.kinds());
            let ghost e = self.entries();
            let ghost k = e[drawn as int].0;
            proof {
                lemma_count_present(e, drawn as int);
                lemma_count_nonneg(e, k);
                lemma_count_nonneg(into.entries(), k);
                lemma_worth_covers(e, drawn as int);
                if roomy(contents(into0), contents(from0)) {
                    assert(into@.counts[k] + self@.counts[k] <= i32::MAX);
                    assert(k.value() * 1 == k.value());
                    assert(put_ok(into@, k, 1));
                }
            }
            let ghost ie = into.entries();
            proof {
                lemma_move_one(e, ie, k, 1);
            }
            match self.deal_one(into, drawn) {
                Ok(()) => {
                    proof {
                        lemma_dealing_more(from0, into0, e, ie, dealt as nat, drawn as int);
                    }
                },
                Err(kind) => {
                    return Err(kind);
                },
            }
            dealt = dealt + 1;
        }
        Ok(())
    }
}

impl Clone for CardPool {
    /// A deck with the same lines.
    fn clone(&self) -> (r: CardPool)
        ensures
            r.card_pool.entries() == self.card_pool.entries(),
    {
        CardPool { card_pool: self.card_pool.clone() }
    }
}

impl Clone for FiveCards {
    /// Community cards with the same lines.
    fn clone(&self) -> (r: FiveCards)
        ensures
            r.five_cards.entries() == self.five_cards.entries(),
    {
        FiveCards { five_cards: self.five_cards.clone() }
    }
}

impl CardPool {
    /// A fresh deck of 52 cards.
    pub fn new() -> (pool: CardPool)
        ensures
            pool.card_pool.entries() == full_deck(),
    {
        let mut bank = MyBank::new();
        let mut rank: u8 = 2;
        while rank <= 14
            invariant
                2 <= rank <= 15,
                bank.wf(),
                bank.entries() == full_deck().take(4 * (rank - 2)),
            decreases 15 - rank,
        {
            let mut s: usize = 0;
            while s < 4
                invariant
                    2 <= rank <= 14,
                    0 <= s <= 4,
                    bank.wf(),
                    bank.entries() == full_deck().take(4 * (rank - 2) + s),
                decreases 4 - s,
            {
                let suit = if s == 0 {
                    CardColor::HeiTao
                } else if s == 1 {
                    CardColor::HongTao
                } else if s == 2 {
                    CardColor::MeiHua
                } else {
                    CardColor::FangKuai
                };
                let card = Card::new(rank, suit).unwrap();
                let ghost t = 4 * (rank - 2) + s;
                let ghost e = bank.entries();
                let ghost k = StuffModel::Card(card);
                proof {
                    assert(full_deck()[t] == (k, 1int));
                    assert(!holds(e, k)) by {
                        if holds(e, k) {
                            let i = slot(e, k);
                            assert(e[i] == full_deck()[i]);
                            Card::lemma_of(2 + i / 4, suit_of(i % 4));
                            Card::lemma_of(2 + t / 4, suit_of(t % 4));
                        }
                    }
                    lemma_count_absent(e, k);
                    lemma_count_nonneg(e, k);
                    assert(k.value() * 1 == 0);
                    assert(put_entry(e, k, 1) =~= full_deck().take(t + 1));
                }
                let put = bank.stuff_in(&StuffType::CardType(card), 1);
                s = s + 1;
            }
            rank = rank + 1;
        }
        assert(full_deck().take(52) =~= full_deck());
        CardPool { card_pool: bank }
    }

    /// A fresh deck of 52 cards.
    pub fn reset_card_pool(&self) -> (pool: CardPool)
        ensures
            pool.card_pool.entries() == full_deck(),
    {
        CardPool::new()
    }
}

impl FiveCards {
    /// No community cards.
    pub fn new() -> (cards: FiveCards)
        ensures
            cards.five_cards.entries() == Seq::<Entry>::empty(),
    {
        FiveCards { five_cards: MyBank::new() }
    }

    /// Drops the community cards.
    pub fn clear_five_cards(&mut self)
        ensures
            final(self).five_cards.entries() == Seq::<Entry>::empty(),
    {
        self.five_cards.stuff_clear();
    }

    /// Deals five cards from the deck to the community cards: see
    /// `MyBank::deal`.
    pub fn get_five_cards(&mut self, from: &mut CardPool, rng: &mut RandomSource) -> (r: Result<
        (),
        ErrorKind,
    >)
        ensures
            final(self).five_cards.wf(),
            final(from).card_pool.wf(),
            final(self).five_cards.valuation() + final(from).card_pool.valuation()
                == old(self).five_cards.valuation()
                + old(from).card_pool.valuation(),
            forall|k: StuffModel| #[trigger]
                final(from).card_pool@.counts[k] + final(self).five_cards@.counts[k]
                    == old(from).card_pool@.counts[k] + old(self).five_cards@.counts[k],
            old(from).card_pool.entries().len() < 5 ==> r == Err::<(), ErrorKind>(
                ErrorKind::InsufficientStuff,
            )
                && final(from).card_pool.entries() == old(from).card_pool.entries()
                && final(self).five_cards.entries() == old(self).five_cards.entries(),
            old(from).card_pool.entries().len() >= 5 && roomy(
                old(self).five_cards@,
                old(from).card_pool@,
            ) ==> r is Ok,
            r is Ok ==> dealing(
                old(from).card_pool.entries(),
                old(self).five_cards.entries(),
                final(from).card_pool.entries(),
                final(self).five_cards.entries(),
                5,
            ),
            r is Err ==> r == Err::<(), ErrorKind>(ErrorKind::InsufficientStuff) || r == Err::<
                (),
                ErrorKind,
            >(ErrorKind::InvalidQuantity),
    {
        from.card_pool.deal(&mut self.five_cards, 5, rng)
    }

    /// Returns the community cards to the deck, all or none: see
    /// `MyBank::hand_over`.
    pub fn send_cards_back(&mut self, to: &mut CardPool) -> (r: Result<(), ErrorKind>)
        ensures
            forall|k: StuffModel| #[trigger]
                final(self).five_cards@.counts[k] + final(to).card_pool@.counts[k]
                    == old(self).five_cards@.counts[k]
                    + old(to).card_pool@.counts[k],
            final(self).five_cards.valuation() + final(to).card_pool.valuation()
                == old(self).five_cards.valuation()
                + old(to).card_pool.valuation(),
            final(self).five_cards.wf(),
            final(to).card_pool.wf(),
            r is Ok <==> put_faults(old(to).card_pool.entries(), old(self).five_cards.entries()).len()
                == 0,
            r is Ok ==> final(self).five_cards.entries() == Seq::<Entry>::empty()
                && final(to).card_pool.entries() == put_each(
                old(to).card_pool.entries(),
                old(self).five_cards.entries(),
            ),
            r is Err ==> r == Err::<(), ErrorKind>(ErrorKind::InvalidQuantity)
                && final(self).five_cards@ == old(self).five_cards@
                    && final(to).card_pool@ == old(to).card_pool@,
    {
        self.five_cards.hand_over(&mut to.card_pool)
    }
}

} // verus!
