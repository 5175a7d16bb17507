//! Handing a whole ledger over to another.
use crate::bank::{
    BankManager, Entry, MyBank, StuffModel, contents, count_of, holds, lemma_count_absent,
    lemma_count_present, lemma_move_one, lemma_move_step, lemma_put_each_tidy, lemma_put_entry,
    lemma_put_step, lemma_take_entry, lemma_weigh_bounds, lemma_weigh_take_next, move_each,
    move_faults, move_result, price, put_each, put_entry, put_faults, put_ok, put_one, slot,
    take_entry, take_one, tally, tidy, worth_of,
};
use crate::deck::roomy;
use crate::error::ErrorKind;
use vstd::prelude::*;

verus! {

/// The end of a ledger's lines is a ledger's lines.
pub proof fn lemma_skip_tidy(e: Seq<Entry>, i: int)
    requires
        tidy(e),
        0 <= i <= e.len(),
    ensures
        tidy(e.skip(i)),
    decreases i,
{
    if i > 0 {
        lemma_skip_tidy(e, i - 1);
        let s = e.skip(i - 1);
        lemma_count_present(s, 0);
        lemma_take_entry(s, s[0].0, s[0].1);
        assert(take_entry(s, s[0].0, s[0].1) =~= e.skip(i));
    } else {
        assert(e.skip(0) =~= e);
    }
}

/// Moving the first `i` lines of a ledger out of it, whole, leaves the other
/// lines, and is refused exactly where the receiving ledger cannot take one
/// of them.
pub proof fn lemma_hand_over(from: Seq<Entry>, to: Seq<Entry>, i: int)
    requires
        tidy(from),
        tidy(to),
        0 <= i <= from.len(),
    ensures
        move_faults(from, to, from.take(i)).len() == 0 <==> put_faults(to, from.take(i)).len() == 0,
        put_faults(to, from.take(i)).len() == 0 ==> move_each(from, to, from.take(i)) == (
            from.skip(i),
            put_each(to, from.take(i)),
        ),
    decreases i,
{
    if i == 0 {
        assert(from.take(0) =~= Seq::<Entry>::empty());
        assert(from.skip(0) =~= from);
    } else {
        lemma_hand_over(from, to, i - 1);
        lemma_move_step(from, to, from, i - 1);
        lemma_put_step(to, from, i - 1);
        assert(from.take(i) =~= from.take(i).take(i));
        assert(from.take(i - 1) =~= from.take(i).take(i - 1));
        lemma_move_step(from, to, from.take(i), i - 1);
        lemma_put_step(to, from.take(i), i - 1);
        if put_faults(to, from.take(i - 1)).len() == 0 {
            let s = from.skip(i - 1);
            let (k, n) = from[i - 1];
            lemma_skip_tidy(from, i - 1);
            assert(s[0] == from[i - 1]);
            lemma_count_present(s, 0);
            lemma_put_each_tidy(to, from.take(i - 1));
            assert(take_entry(s, k, n) =~= from.skip(i));
        }
    }
}

/// A ledger that can take all that another holds takes its first `i` lines
/// without a refusal, and then holds of every kind what both held.
pub proof fn lemma_pour_prefix(into: Seq<Entry>, from: Seq<Entry>, i: int)
    requires
        tidy(into),
        tidy(from),
        roomy(contents(into), contents(from)),
        0 <= i <= from.len(),
    ensures
        put_faults(into, from.take(i)).len() == 0,
        tidy(put_each(into, from.take(i))),
        worth_of(put_each(into, from.take(i))) == worth_of(into) + worth_of(from.take(i)),
        forall|k: StuffModel| #[trigger]
            count_of(put_each(into, from.take(i)), k) == count_of(into, k) + count_of(
                from.take(i),
                k,
            ),
    decreases i,
{
    if i == 0 {
        assert(from.take(0) =~= Seq::<Entry>::empty());
    } else {
        lemma_pour_prefix(into, from, i - 1);
        let before = put_each(into, from.take(i - 1));
        let (k, n) = from[i - 1];
        assert(from.take(i).drop_last() =~= from.take(i - 1));
        assert(from.take(i).last() == from[i - 1]);
        assert forall|j: int| 0 <= j < from.len() implies tally(k)(#[trigger] from[j]) >= 0 by {}
        assert forall|j: int| 0 <= j < from.len() implies price()(#[trigger] from[j]) >= 0 by {
            assert(from[j].0.value() * from[j].1 >= 0) by (nonlinear_arith)
                requires
                    from[j].0.value() >= 0,
                    from[j].1 > 0,
            ;
        }
        lemma_weigh_bounds(from, i, tally(k));
        lemma_weigh_bounds(from, i, price());
        lemma_weigh_take_next(from, i - 1, tally(k));
        lemma_weigh_take_next(from, i - 1, price());
        assert(contents(into).counts[k] + contents(from).counts[k] <= i32::MAX);
        assert(put_ok(contents(before), k, n));
        lemma_put_entry(before, k, n);
        assert forall|k2: StuffModel| #[trigger]
            count_of(put_each(into, from.take(i)), k2) == count_of(into, k2) + count_of(
                from.take(i),
                k2,
            ) by {
            lemma_weigh_take_next(from, i - 1, tally(k2));
            assert(contents(put_entry(before, k, n)).counts[k2] == put_one(
                contents(before),
                k,
                n,
            ).counts[k2]);
            assert(count_of(before, k2) == count_of(into, k2) + count_of(from.take(i - 1), k2));
        }
    }
}

/// A ledger that can take all that another holds takes it without a
/// refusal, and then holds of every kind what both held.
pub proof fn lemma_pour(into: Seq<Entry>, from: Seq<Entry>)
    requires
        tidy(into),
        tidy(from),
        roomy(contents(into), contents(from)),
    ensures
        put_faults(into, from).len() == 0,
        worth_of(put_each(into, from)) == worth_of(into) + worth_of(from),
        forall|k: StuffModel| #[trigger]
            count_of(put_each(into, from), k) == count_of(into, k) + count_of(from, k),
{
    lemma_pour_prefix(into, from, from.len() as int);
    assert(from.take(from.len() as int) =~= from);
}

/// Lines that hold nothing are no lines.
pub proof fn lemma_nothing_held(e: Seq<Entry>)
    requires
        tidy(e),
        forall|k: StuffModel| #[trigger] count_of(e, k) == 0,
    ensures
        e == Seq::<Entry>::empty(),
{
    if e.len() > 0 {
        lemma_count_present(e, 0);
        assert(count_of(e, e[0].0) == 0);
    }
    assert(e =~= Seq::<Entry>::empty());
}

/// What was put into a ledger without a refusal is held in addition to what
/// the ledger held.
pub proof fn lemma_poured(into: Seq<Entry>, from: Seq<Entry>, i: int)
    requires
        tidy(into),
        tidy(from),
        0 <= i <= from.len(),
        put_faults(into, from.take(i)).len() == 0,
    ensures
        tidy(put_each(into, from.take(i))),
        worth_of(put_each(into, from.take(i))) == worth_of(into) + worth_of(from.take(i)),
        forall|k: StuffModel| #[trigger]
            count_of(put_each(into, from.take(i)), k) == count_of(into, k) + count_of(
                from.take(i),
                k,
            ),
    decreases i,
{
    if i == 0 {
        assert(from.take(0) =~= Seq::<Entry>::empty());
    } else {
        lemma_put_step(into, from, i - 1);
        lemma_poured(into, from, i - 1);
        let before = put_each(into, from.take(i - 1));
        let (k, n) = from[i - 1];
        lemma_weigh_take_next(from, i - 1, price());
        lemma_put_entry(before, k, n);
        assert forall|k2: StuffModel| #[trigger]
            count_of(put_each(into, from.take(i)), k2) == count_of(into, k2) + count_of(
                from.take(i),
                k2,
            ) by {
            lemma_weigh_take_next(from, i - 1, tally(k2));
            assert(contents(put_entry(before, k, n)).counts[k2] == put_one(
                contents(before),
                k,
                n,
            ).counts[k2]);
            assert(count_of(before, k2) == count_of(into, k2) + count_of(from.take(i - 1), k2));
        }
    }
}

/// A part of what a ledger holds moves to an empty ledger without a refusal:
/// the first `i` of lines that name no kind twice and of no kind more than
/// the ledger holds. The ledger then lacks them, and the other ledger holds
/// them.
pub proof fn lemma_part_moves(from: Seq<Entry>, part: Seq<Entry>, i: int)
    requires
        tidy(from),
        tidy(part),
        forall|k: StuffModel| #[trigger] count_of(part, k) <= count_of(from, k),
        0 <= i <= part.len(),
    ensures
        move_faults(from, Seq::empty(), part.take(i)).len() == 0,
        tidy(move_each(from, Seq::empty(), part.take(i)).0),
        tidy(move_each(from, Seq::empty(), part.take(i)).1),
        worth_of(move_each(from, Seq::empty(), part.take(i)).1) == worth_of(part.take(i)),
        worth_of(move_each(from, Seq::empty(), part.take(i)).0) == worth_of(from) - worth_of(
            part.take(i),
        ),
        forall|k: StuffModel| #[trigger]
            count_of(move_each(from, Seq::empty(), part.take(i)).1, k) == count_of(part.take(i), k),
        forall|k: StuffModel| #[trigger]
            count_of(move_each(from, Seq::empty(), part.take(i)).0, k) == count_of(from, k)
                - count_of(part.take(i), k),
    decreases i,
{
    let none = Seq::<Entry>::empty();
    if i == 0 {
        assert(part.take(0) =~= none);
        assert(worth_of(none) == 0);
    } else {
        lemma_part_moves(from, part, i - 1);
        lemma_move_step(from, none, part, i - 1);
        let before = move_each(from, none, part.take(i - 1));
        let (k, n) = part[i - 1];
        let short = part.take(i - 1);
        assert(!holds(short, k)) by {
            if holds(short, k) {
                let j = slot(short, k);
                assert(short[j] == part[j]);
            }
        }
        lemma_count_absent(short, k);
        lemma_count_present(part, i - 1);
        assert(count_of(part, k) <= count_of(from, k));
        assert forall|j: int| 0 <= j < part.len() implies price()(#[trigger] part[j]) >= 0 by {
            assert(part[j].0.value() * part[j].1 >= 0) by (nonlinear_arith)
                requires
                    part[j].0.value() >= 0,
                    part[j].1 > 0,
            ;
        }
        lemma_weigh_bounds(part, i, price());
        lemma_weigh_take_next(part, i - 1, price());
        lemma_move_one(before.0, before.1, k, n);
        assert(move_result(contents(before.0), contents(before.1), k, n) is Ok);
        let after = move_each(from, none, part.take(i));
        assert forall|k2: StuffModel| #[trigger]
            count_of(after.1, k2) == count_of(part.take(i), k2) by {
            lemma_weigh_take_next(part, i - 1, tally(k2));
            assert(contents(after.1).counts[k2] == put_one(contents(before.1), k, n).counts[k2]);
            assert(count_of(before.1, k2) == count_of(short, k2));
        }
        assert forall|k2: StuffModel| #[trigger]
            count_of(after.0, k2) == count_of(from, k2) - count_of(part.take(i), k2) by {
            lemma_weigh_take_next(part, i - 1, tally(k2));
            assert(contents(after.0).counts[k2] == take_one(contents(before.0), k, n).counts[k2]);
            assert(count_of(before.0, k2) == count_of(from, k2) - count_of(short, k2));
        }
    }
}

impl MyBank {
    /// Moves everything that the ledger holds to `destination`, or nothing:
    /// it is refused where `destination` cannot take one of the lines, and
    /// both ledgers then hold what they held.
    pub fn hand_over(&mut self, destination: &mut MyBank) -> (r: Result<(), ErrorKind>)
        ensures
            final(self).wf(),
            final(destination).wf(),
            final(self).valuation() + final(destination).valuation()
                == old(self).valuation() + old(destination).valuation(),
            forall|k: StuffModel| #[trigger]
                final(self)@.counts[k] + final(destination)@.counts[k] == old(self)@.counts[k]
                    + old(destination)@.counts[k],
            r is Ok <==> put_faults(old(destination).entries(), old(self).entries()).len() == 0,
            r is Ok ==> final(self).entries() == Seq::<Entry>::empty()
                && final(destination).entries()
                    == put_each(old(destination).entries(), old(self).entries()),
            r is Err ==> r == Err::<(), ErrorKind>(ErrorKind::InvalidQuantity) && final(self)@
                == old(self)@ && final(destination)@ == old(destination)@,
    {
        let snapshot = self.clone();
        let everything = snapshot.get_basket_vec();
        proof {
            let a = self.entries();
            let b = destination.entries();
            use_type_invariant(&*destination);
            lemma_hand_over(a, b, a.len() as int);
            assert(a.take(a.len() as int) =~= a);
            assert(a.skip(a.len() as int) =~= Seq::<Entry>::empty());
        }
        match self.stuff_transfer(&everything, true, destination) {
            Ok(()) => Ok(()),
            Err(report) => Err(ErrorKind::InvalidQuantity),
        }
    }
}

} // verus!
