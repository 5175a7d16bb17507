//! Five ranks in a row in one suit, and what seven cards that hold them are.
use crate::card::{
    Card, CardColor, FiveCardsCategory, candidate, category_of, evaluate_of, exclusions,
    insert_desc, kept_place, lemma_best_of, pattern_of, sort_desc, value_of, without,
};
use crate::laws::{lemma_candidate_valid, lemma_rank_sum_bounds};
use vstd::prelude::*;

verus! {

/// Whether no card ranks above a card that stands before it.
pub open spec fn descending(s: Seq<Card>) -> bool {
    forall|i: int, j: int| 0 <= i < j < s.len() ==> s[i].rank() >= s[j].rank()
}

/// A card put into a descending sequence leaves it descending, and the
/// sequence then holds the card and what it held.
pub proof fn lemma_insert_desc(s: Seq<Card>, c: Card)
    requires
        descending(s),
    ensures
        descending(insert_desc(s, c)),
        insert_desc(s, c).len() == s.len() + 1,
        forall|x: Card|
            #![trigger insert_desc(s, c).contains(x)]
            #![trigger s.contains(x)]
            insert_desc(s, c).contains(x) <==> (s.contains(x) || x == c),
    decreases s.len(),
{
    let r = insert_desc(s, c);
    if s.len() == 0 {
        assert(r[0] == c);
    } else if s.last().rank() >= c.rank() {
        assert(r[s.len() as int] == c);
        assert forall|x: Card| s.contains(x) implies r.contains(x) by {
            let k = choose|k: int| 0 <= k < s.len() && s[k] == x;
            assert(r[k] == x);
        }
    } else {
        let d = s.drop_last();
        let q = insert_desc(d, c);
        lemma_insert_desc(d, c);
        assert forall|i: int, j: int| 0 <= i < j < r.len() implies r[i].rank() >= r[j].rank() by {
            if j == q.len() {
                assert(q.contains(q[i]));
                if q[i] != c {
                    let k = choose|k: int| 0 <= k < d.len() && d[k] == q[i];
                    assert(s[k].rank() >= s[s.len() - 1].rank());
                }
            } else {
                assert(r[i] == q[i] && r[j] == q[j]);
            }
        }
        assert forall|x: Card| r.contains(x) <==> (s.contains(x) || x == c) by {
            if r.contains(x) {
                let k = choose|k: int| 0 <= k < r.len() && r[k] == x;
                if k < q.len() {
                    assert(q.contains(q[k]));
                    if x != c {
                        let m = choose|m: int| 0 <= m < d.len() && d[m] == x;
                        assert(s[m] == x);
                    }
                } else {
                    assert(s[s.len() - 1] == x);
                }
            }
            if s.contains(x) {
                let k = choose|k: int| 0 <= k < s.len() && s[k] == x;
                if k < d.len() {
                    assert(d[k] == x);
                    assert(d.contains(x));
                    let m = choose|m: int| 0 <= m < q.len() && q[m] == x;
                    assert(r[m] == x);
                } else {
                    assert(r[q.len() as int] == x);
                }
            }
            if x == c {
                assert(q.contains(c));
                let m = choose|m: int| 0 <= m < q.len() && q[m] == x;
                assert(r[m] == x);
            }
        }
    }
}

/// Sorted cards are descending, and they are the cards that were sorted.
pub proof fn lemma_sort_desc(s: Seq<Card>)
    ensures
        descending(sort_desc(s)),
        sort_desc(s).len() == s.len(),
        forall|x: Card|
            #![trigger sort_desc(s).contains(x)]
            #![trigger s.contains(x)]
            sort_desc(s).contains(x) <==> s.contains(x),
    decreases s.len(),
{
    if s.len() > 0 {
        let d = s.drop_last();
        lemma_sort_desc(d);
        lemma_insert_desc(sort_desc(d), s.last());
        assert forall|x: Card| sort_desc(s).contains(x) <==> s.contains(x) by {
            if s.contains(x) {
                let k = choose|k: int| 0 <= k < s.len() && s[k] == x;
                if k < d.len() {
                    assert(d[k] == x);
                }
            }
            if d.contains(x) {
                let k = choose|k: int| 0 <= k < d.len() && d[k] == x;
                assert(s[k] == x);
            }
            if x == s.last() {
                assert(s[s.len() - 1] == x);
            }
        }
    }
}

/// Whether the cards hold the five cards of the suit that rank from `low`
/// to `low + 4`.
pub open spec fn holds_run(cards: Seq<Card>, low: int, suit: CardColor) -> bool {
    forall|r: int| low <= r <= low + 4 ==> cards.contains(#[trigger] Card::of(r, suit))
}

/// The place of a card among the cards that hold it.
pub open spec fn place_of(cards: Seq<Card>, c: Card) -> int {
    choose|k: int| 0 <= k < cards.len() && cards[k] == c
}

/// The five cards of a run in one suit stand in five places.
pub proof fn lemma_run_places(cards: Seq<Card>, low: int, suit: CardColor)
    requires
        2 <= low <= 10,
        holds_run(cards, low, suit),
    ensures
        forall|r: int|
            low <= r <= low + 4 ==> 0 <= place_of(cards, #[trigger] Card::of(r, suit)) < cards.len()
                && cards[place_of(cards, Card::of(r, suit))] == Card::of(r, suit) && Card::of(
                r,
                suit,
            ).rank() == r && Card::of(r, suit).suit() == suit,
{
    assert forall|r: int| low <= r <= low + 4 implies 0 <= place_of(
        cards,
        #[trigger] Card::of(r, suit),
    ) < cards.len() && cards[place_of(cards, Card::of(r, suit))] == Card::of(r, suit) && Card::of(
        r,
        suit,
    ).rank() == r && Card::of(r, suit).suit() == suit by {
        Card::lemma_of(r, suit);
        assert(cards.contains(Card::of(r, suit)));
    }
}

/// Five cards that are a run in one suit, in whatever order, are a royal
/// flush where the run starts at 6 or above, and a straight flush otherwise.
pub proof fn lemma_run_of_five(five: Seq<Card>, low: int, suit: CardColor)
    requires
        five.len() == 5,
        2 <= low <= 10,
        holds_run(five, low, suit),
    ensures
        low >= 6 ==> category_of(five) == FiveCardsCategory::RoyalFlush,
        low < 6 ==> category_of(five) == FiveCardsCategory::StraightFlush,
{
    let s = sort_desc(five);
    lemma_sort_desc(five);
    assert(holds_run(s, low, suit)) by {
        assert forall|r: int| low <= r <= low + 4 implies s.contains(
            #[trigger] Card::of(r, suit),
        ) by {
            assert(five.contains(Card::of(r, suit)));
        }
    }
    lemma_run_places(s, low, suit);
    let at0 = place_of(s, Card::of(low, suit));
    let at1 = place_of(s, Card::of(low + 1, suit));
    let at2 = place_of(s, Card::of(low + 2, suit));
    let at3 = place_of(s, Card::of(low + 3, suit));
    let at4 = place_of(s, Card::of(low + 4, suit));
    assert(at4 < at3) by {
        if at3 < at4 {
            assert(s[at3].rank() >= s[at4].rank());
        }
    }
    assert(at3 < at2) by {
        if at2 < at3 {
            assert(s[at2].rank() >= s[at3].rank());
        }
    }
    assert(at2 < at1) by {
        if at1 < at2 {
            assert(s[at1].rank() >= s[at2].rank());
        }
    }
    assert(at1 < at0) by {
        if at0 < at1 {
            assert(s[at0].rank() >= s[at1].rank());
        }
    }
    assert(at4 == 0 && at3 == 1 && at2 == 2 && at1 == 3 && at0 == 4);
}

/// What is left of seven cards holds every card but the two that were left
/// out, and holds cards of the seven only.
pub proof fn lemma_without(seven: Seq<Card>, i: int, j: int)
    requires
        seven.len() == 7,
        0 <= i < j < 7,
    ensures
        without(seven, i, j).len() == 5,
        forall|p: int|
            0 <= p < 7 && p != i && p != j ==> without(seven, i, j).contains(#[trigger] seven[p]),
        forall|k: int|
            0 <= k < 5 ==> 0 <= kept_place(k, i, j) < 7 && #[trigger] without(seven, i, j)[k]
                == seven[kept_place(k, i, j)],
{
    let five = without(seven, i, j);
    assert forall|p: int| 0 <= p < 7 && p != i && p != j implies five.contains(
        #[trigger] seven[p],
    ) by {
        let k = if p < i {
            p
        } else if p < j {
            p - 1
        } else {
            p - 2
        };
        assert(five[k] == seven[p]);
    }
}

/// Where in the order of the twenty-one hands the hand stands that leaves
/// out the places `i < j`.
pub open spec fn hand_index(i: int, j: int) -> int {
    let base = if i == 0 {
        0int
    } else if i == 1 {
        6
    } else if i == 2 {
        11
    } else if i == 3 {
        15
    } else if i == 4 {
        18
    } else {
        20
    };
    base + (j - i - 1)
}

/// Every pair of places is left out by one of the twenty-one hands.
pub proof fn lemma_hand_index(i: int, j: int)
    requires
        0 <= i < j < 7,
    ensures
        0 <= hand_index(i, j) < 21,
        exclusions()[hand_index(i, j)] == (i, j),
{
    let e = exclusions();
    assert(e[0] == (0int, 1int) && e[1] == (0int, 2int) && e[2] == (0int, 3int) && e[3] == (
        0int,
        4int,
    ) && e[4] == (0int, 5int) && e[5] == (0int, 6int));
    assert(e[6] == (1int, 2int) && e[7] == (1int, 3int) && e[8] == (1int, 4int) && e[9] == (
        1int,
        5int,
    ) && e[10] == (1int, 6int));
    assert(e[11] == (2int, 3int) && e[12] == (2int, 4int) && e[13] == (2int, 5int) && e[14] == (
        2int,
        6int,
    ));
    assert(e[15] == (3int, 4int) && e[16] == (3int, 5int) && e[17] == (3int, 6int));
    assert(e[18] == (4int, 5int) && e[19] == (4int, 6int) && e[20] == (5int, 6int));
}

/// Whether `x` is one of five places.
pub open spec fn among(x: int, a: int, b: int, c: int, d: int, e: int) -> bool {
    x == a || x == b || x == c || x == d || x == e
}

/// Five of seven places leave two places free.
pub proof fn lemma_two_free(a: int, b: int, c: int, d: int, e: int) -> (r: (int, int))
    requires
        0 <= a < 7 && 0 <= b < 7 && 0 <= c < 7 && 0 <= d < 7 && 0 <= e < 7,
        a != b && a != c && a != d && a != e && b != c && b != d && b != e && c != d && c != e && d
            != e,
    ensures
        0 <= r.0 < r.1 < 7,
        !among(r.0, a, b, c, d, e),
        !among(r.1, a, b, c, d, e),
        forall|x: int| 0 <= x < 7 ==> #[trigger] among(x, a, b, c, d, e) || x == r.0 || x == r.1,
{
    let i = if !among(0, a, b, c, d, e) {
        0int
    } else if !among(1, a, b, c, d, e) {
        1
    } else if !among(2, a, b, c, d, e) {
        2
    } else if !among(3, a, b, c, d, e) {
        3
    } else if !among(4, a, b, c, d, e) {
        4
    } else {
        5
    };
    let j = if i < 1 && !among(1, a, b, c, d, e) {
        1int
    } else if i < 2 && !among(2, a, b, c, d, e) {
        2
    } else if i < 3 && !among(3, a, b, c, d, e) {
        3
    } else if i < 4 && !among(4, a, b, c, d, e) {
        4
    } else if i < 5 && !among(5, a, b, c, d, e) {
        5
    } else {
        6
    };
    (i, j)
}

/// Seven cards that hold a run in one suit hold a hand of five that is this
/// run.
pub proof fn lemma_run_hand(seven: Seq<Card>, low: int, suit: CardColor) -> (t: int)
    requires
        seven.len() == 7,
        2 <= low <= 10,
        holds_run(seven, low, suit),
    ensures
        0 <= t < 21,
        holds_run(candidate(seven, t), low, suit),
        candidate(seven, t).len() == 5,
{
    lemma_run_places(seven, low, suit);
    let a = place_of(seven, Card::of(low, suit));
    let b = place_of(seven, Card::of(low + 1, suit));
    let c = place_of(seven, Card::of(low + 2, suit));
    let d = place_of(seven, Card::of(low + 3, suit));
    let e = place_of(seven, Card::of(low + 4, suit));
    assert(seven[a].rank() == low && seven[b].rank() == low + 1 && seven[c].rank() == low + 2
        && seven[d].rank() == low + 3 && seven[e].rank() == low + 4);
    let free = lemma_two_free(a, b, c, d, e);
    let i = free.0;
    let j = free.1;
    lemma_hand_index(i, j);
    lemma_without(seven, i, j);
    let t = hand_index(i, j);
    assert forall|r: int| low <= r <= low + 4 implies candidate(seven, t).contains(
        #[trigger] Card::of(r, suit),
    ) by {
        let p = place_of(seven, Card::of(r, suit));
        assert(r == low || r == low + 1 || r == low + 2 || r == low + 3 || r == low + 4);
        assert(among(p, a, b, c, d, e));
        assert(without(seven, i, j).contains(seven[p]));
    }
    t
}

/// Seven cards that hold a run in one suit are a straight flush or a royal
/// flush, and a royal flush where the run starts at 6 or above.
pub proof fn law_run_in_seven(seven: Seq<Card>, low: int, suit: CardColor)
    requires
        seven.len() == 7,
        forall|k: int| 0 <= k < 7 ==> (#[trigger] seven[k]).inv(),
        2 <= low <= 10,
        holds_run(seven, low, suit),
    ensures
        evaluate_of(seven).1 == FiveCardsCategory::RoyalFlush || evaluate_of(seven).1
            == FiveCardsCategory::StraightFlush,
        low >= 6 ==> evaluate_of(seven).1 == FiveCardsCategory::RoyalFlush,
{
    let t = lemma_run_hand(seven, low, suit);
    let five = candidate(seven, t);
    lemma_run_of_five(five, low, suit);
    lemma_candidate_valid(seven, t);
    lemma_rank_sum_bounds(five);
    lemma_best_of(seven, 21);
    let u = choose|u: int|
        0 <= u < 21 && evaluate_of(seven) == (
            value_of(#[trigger] candidate(seven, u)),
            category_of(candidate(seven, u)),
        );
    lemma_candidate_valid(seven, u);
    lemma_rank_sum_bounds(candidate(seven, u));
    assert(value_of(five) <= evaluate_of(seven).0);
}

/// The place among the seven cards of a card of the sorted hand.
pub open spec fn source_of(seven: Seq<Card>, c: Card) -> int {
    choose|p: int| 0 <= p < 7 && seven[p] == c
}

/// Every card of a sorted hand of five of seven cards is one of the seven.
pub proof fn lemma_sorted_from_seven(seven: Seq<Card>, t: int, k: int)
    requires
        seven.len() == 7,
        0 <= t < 21,
        0 <= k < 5,
    ensures
        0 <= source_of(seven, sort_desc(candidate(seven, t))[k]) < 7,
        seven[source_of(seven, sort_desc(candidate(seven, t))[k])] == sort_desc(
            candidate(seven, t),
        )[k],
{
    let five = candidate(seven, t);
    let s = sort_desc(five);
    lemma_sort_desc(five);
    assert(s.contains(s[k]));
    assert(five.contains(s[k]));
    let m = choose|m: int| 0 <= m < five.len() && five[m] == s[k];
    let e = exclusions()[t];
    assert(0 <= kept_place(m, e.0, e.1) < 7);
    assert(seven[kept_place(m, e.0, e.1)] == s[k]);
}

/// Seven cards that hold the run from 2 to 6 in one suit are a straight
/// flush, whatever the two other cards are and wherever the cards stand:
/// with two more cards no run in that suit reaches the 10.
pub proof fn law_lowest_run_in_seven(seven: Seq<Card>, suit: CardColor)
    requires
        seven.len() == 7,
        forall|k: int| 0 <= k < 7 ==> (#[trigger] seven[k]).inv(),
        holds_run(seven, 2, suit),
    ensures
        evaluate_of(seven).1 == FiveCardsCategory::StraightFlush,
{
    law_run_in_seven(seven, 2, suit);
    if evaluate_of(seven).1 == FiveCardsCategory::RoyalFlush {
        lemma_best_of(seven, 21);
        let u = choose|u: int|
            0 <= u < 21 && evaluate_of(seven) == (
                value_of(#[trigger] candidate(seven, u)),
                category_of(candidate(seven, u)),
            );
        let s = sort_desc(candidate(seven, u));
        lemma_sort_desc(candidate(seven, u));
        assert(pattern_of(s) == FiveCardsCategory::RoyalFlush);
        lemma_sorted_from_seven(seven, u, 0);
        lemma_sorted_from_seven(seven, u, 1);
        lemma_sorted_from_seven(seven, u, 2);
        lemma_sorted_from_seven(seven, u, 3);
        lemma_sorted_from_seven(seven, u, 4);
        lemma_run_places(seven, 2, suit);
        let q0 = source_of(seven, s[0]);
        let q1 = source_of(seven, s[1]);
        let q2 = source_of(seven, s[2]);
        let q3 = source_of(seven, s[3]);
        let q4 = source_of(seven, s[4]);
        let a = place_of(seven, Card::of(2, suit));
        let b = place_of(seven, Card::of(3, suit));
        let c = place_of(seven, Card::of(4, suit));
        assert(s[0].rank() >= 10 && s[1].rank() == s[0].rank() - 1 && s[2].rank() == s[0].rank() - 2
            && s[3].rank() == s[0].rank() - 3 && s[4].rank() == s[0].rank() - 4);
        assert(seven[a].rank() == 2 && seven[b].rank() == 3 && seven[c].rank() == 4);
        let free = lemma_two_free(q0, q1, q2, q3, q4);
        assert(among(a, q0, q1, q2, q3, q4) || a == free.0 || a == free.1);
        assert(among(b, q0, q1, q2, q3, q4) || b == free.0 || b == free.1);
        assert(among(c, q0, q1, q2, q3, q4) || c == free.0 || c == free.1);
    }
}

} // verus!
