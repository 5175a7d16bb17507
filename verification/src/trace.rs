//! The record of what was done for the seats while an event was handled.
use crate::error::ErrorKind;
use crate::player::{Player, Role};
use vstd::prelude::*;

verus! {

/// What was done for a seat while an event was handled.
#[derive(Clone, Copy, Debug, PartialEq, Eq, Structural)]
pub enum Deed {
    /// The seat was added to the table.
    Seated,
    /// The seat was given its stake.
    Staked,
    /// The seat was dealt its role for the hand.
    Assigned,
    /// The seat was dealt its two cards.
    Dealt,
    /// The community cards were dealt.
    Shared,
    /// The seat was to post its blind.
    Posted,
    /// The seat decided to bet.
    Decided,
    /// The seat decided to give up.
    Folded,
    /// The seat was the only one left in the hand.
    Won,
    /// The human was to place the bet that it named.
    Placed,
    /// The human's former bet was placed again.
    Restored,
    /// The bankroll of the seat was to go to the pot.
    Forfeited,
    /// The bet of the seat was to go to the pot.
    Swept,
    /// The cards of the seat were to go back to the deck.
    Returned,
    /// The pot was to go to the seat.
    Paid,
    /// The community cards were to go back to the deck.
    Cleared,
}

/// One entry of the record of an event: what was done, for which seat, and
/// why it was refused if it was. What concerns the whole table stands under
/// the first seat.
#[derive(Clone, Copy, Debug, PartialEq, Eq, Structural)]
pub struct Step {
    pub seat: usize,
    pub deed: Deed,
    pub refused: Option<ErrorKind>,
}

/// Whether the record `after` continues the record `before`.
pub open spec fn continues(before: Seq<Step>, after: Seq<Step>) -> bool {
    before.len() <= after.len() && after.take(before.len() as int) == before
}

/// Whether the entries from `from` on name seats of a table of `n` seats.
pub open spec fn seats_named(steps: Seq<Step>, from: int, n: int) -> bool {
    forall|j: int| from <= j < steps.len() ==> 0 <= (#[trigger] steps[j]).seat < n
}

/// Whether an entry from `from` on names the seat.
pub open spec fn names(steps: Seq<Step>, from: int, seat: int) -> bool {
    exists|j: int| from <= j < steps.len() && (#[trigger] steps[j]).seat == seat
}

/// Whether the entry tells what became of the seat whose turn it was: the
/// seat has placed its bet where it posted its blind, decided to bet or won
/// the hand, and has given up where it decided so or was refused.
pub open spec fn told(step: Step, after: Player) -> bool {
    match step.deed {
        Deed::Posted => if step.refused is None {
            after.role == Role::PlaceBet
        } else {
            after.role == Role::GiveUp
        },
        Deed::Decided => step.refused is None && after.role == Role::PlaceBet,
        Deed::Folded => step.refused is None && after.role == Role::GiveUp,
        Deed::Won => step.refused is None && after.role == Role::PlaceBet,
        _ => false,
    }
}

/// The first entry by which the record `after` continues the record
/// `before`.
pub open spec fn first_added(before: Seq<Step>, after: Seq<Step>) -> Step {
    after[before.len() as int]
}

/// Whether the deed is what a seat does when its turn has come.
pub open spec fn is_turn(deed: Deed) -> bool {
    deed == Deed::Posted || deed == Deed::Decided || deed == Deed::Folded || deed == Deed::Won
}

/// What the record of an event says of the seats: the entries that were
/// added name seats of the table; a seat that they do not name is as it was;
/// an entry for a seat whose turn it was tells what became of the seat; and
/// such entries stand in rising order of their seats.
pub open spec fn recorded(before: Seq<Step>, after: Seq<Step>, pre: Seq<Player>, post: Seq<Player>)
    -> bool {
    &&& continues(before, after)
    &&& seats_named(after, before.len() as int, post.len() as int)
    &&& pre.len() <= post.len()
    &&& forall|i: int|
        0 <= i < pre.len() && !names(after, before.len() as int, i) ==> #[trigger] post[i] == pre[i]
    &&& forall|j: int|
        before.len() <= j < after.len() && is_turn((#[trigger] after[j]).deed) ==> told(
            after[j],
            post[after[j].seat as int],
        )
    &&& forall|j: int, k: int|
        before.len() <= j < k < after.len() && is_turn((#[trigger] after[j]).deed) && is_turn(
            (#[trigger] after[k]).deed,
        ) ==> after[j].seat < after[k].seat
}

/// Adds an entry to the record.
pub fn note(trace: &mut Vec<Step>, seat: usize, deed: Deed, refused: Option<ErrorKind>)
    ensures
        final(trace)@ == old(trace)@.push(Step { seat, deed, refused }),
{
    trace.push(Step { seat, deed, refused });
}

/// The entries that tell the same of `count` seats from the seat `from` on.
pub open spec fn steps_for(from: int, count: int, deed: Deed, refused: Option<ErrorKind>) -> Seq<
    Step,
> {
    Seq::new(count as nat, |i: int| Step { seat: (from + i) as usize, deed, refused })
}

/// Entries for one seat more.
pub proof fn lemma_steps_for_more(from: int, count: int, deed: Deed, refused: Option<ErrorKind>)
    requires
        0 <= count,
    ensures
        steps_for(from, count + 1, deed, refused) == steps_for(from, count, deed, refused).push(
            Step { seat: (from + count) as usize, deed, refused },
        ),
        steps_for(from, 0, deed, refused) == Seq::<Step>::empty(),
{
    assert(steps_for(from, count + 1, deed, refused) =~= steps_for(from, count, deed, refused).push(
        Step { seat: (from + count) as usize, deed, refused },
    ));
    assert(steps_for(from, 0, deed, refused) =~= Seq::<Step>::empty());
}

/// Adds an entry for every seat of a table of `n` seats.
pub fn note_all(trace: &mut Vec<Step>, n: usize, deed: Deed)
    ensures
        final(trace)@ == old(trace)@ + steps_for(0, n as int, deed, None),
{
    let ghost start = trace@;
    let mut seat: usize = 0;
    proof {
        lemma_steps_for_more(0, 0, deed, None);
        assert(start + Seq::<Step>::empty() =~= start);
    }
    while seat < n
        invariant
            0 <= seat <= n,
            trace@ == start + steps_for(0, seat as int, deed, None),
        decreases n - seat,
    {
        note(trace, seat, deed, None);
        proof {
            lemma_steps_for_more(0, seat as int, deed, None);
            assert(trace@ =~= start + steps_for(0, seat + 1, deed, None));
        }
        seat = seat + 1;
    }
}

/// A record that is continued with the same entry for every seat is the
/// record of any change of the seats.
pub proof fn lemma_all_noted(
    before: Seq<Step>,
    deed: Deed,
    refused: Option<ErrorKind>,
    pre: Seq<Player>,
    post: Seq<Player>,
)
    requires
        pre.len() <= post.len(),
        post.len() <= usize::MAX,
        !is_turn(deed),
    ensures
        recorded(before, before + steps_for(0, post.len() as int, deed, refused), pre, post),
{
    let after = before + steps_for(0, post.len() as int, deed, refused);
    assert(after.take(before.len() as int) =~= before);
    assert forall|i: int| 0 <= i < pre.len() implies names(after, before.len() as int, i) by {
        assert(after[before.len() + i].seat == i);
    }
    lemma_all_named(before, after, pre, post);
}

/// A record that names every seat, and no seat's turn, is the record of any
/// change.
pub proof fn lemma_all_named(before: Seq<Step>, after: Seq<Step>, pre: Seq<Player>, post: Seq<Player>)
    requires
        continues(before, after),
        seats_named(after, before.len() as int, post.len() as int),
        pre.len() <= post.len(),
        forall|i: int| 0 <= i < pre.len() ==> names(after, before.len() as int, i),
        forall|j: int| before.len() <= j < after.len() ==> !is_turn((#[trigger] after[j]).deed),
    ensures
        recorded(before, after, pre, post),
{
}

/// The refusal of a result, if it is one.
pub fn refusal(r: &Result<(), ErrorKind>) -> (kind: Option<ErrorKind>)
    ensures
        kind == match *r {
            Ok(_) => None::<ErrorKind>,
            Err(e) => Some(e),
        },
{
    match r {
        Ok(_) => None,
        Err(e) => Some(*e),
    }
}

} // verus!
