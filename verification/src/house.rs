//! Three twos and two threes among seven cards.
use crate::card::{
    Card, CardColor, FiveCardsCategory, bonus_of, candidate, category_of, evaluate_of, exclusions,
    kept_place, lemma_best_of, sort_desc, value_of, without,
};
use crate::laws::{lemma_candidate_valid, lemma_rank_sum_bounds};
use crate::runs::{
    among, hand_index, lemma_hand_index, lemma_sort_desc, lemma_sorted_from_seven,
    lemma_two_free, lemma_without, place_of, source_of,
};
use vstd::prelude::*;

verus! {

/// Whether no card stands twice among the cards.
pub open spec fn distinct(cards: Seq<Card>) -> bool {
    forall|i: int, j: int| 0 <= i < j < cards.len() ==> cards[i] != cards[j]
}

/// The five cards of the house: the twos of spades, hearts and diamonds,
/// and the threes of clubs and diamonds.
pub open spec fn house() -> Seq<Card> {
    seq![
        Card::of(2, CardColor::HeiTao),
        Card::of(2, CardColor::HongTao),
        Card::of(2, CardColor::FangKuai),
        Card::of(3, CardColor::MeiHua),
        Card::of(3, CardColor::FangKuai),
    ]
}

/// Whether the cards hold the five cards of the house.
pub open spec fn holds_house(cards: Seq<Card>) -> bool {
    forall|k: int| 0 <= k < 5 ==> cards.contains(#[trigger] house()[k])
}

/// The five cards of the house have their ranks and suits.
pub proof fn lemma_house()
    ensures
        house().len() == 5,
        house()[0].rank() == 2 && house()[0].suit() == CardColor::HeiTao,
        house()[1].rank() == 2 && house()[1].suit() == CardColor::HongTao,
        house()[2].rank() == 2 && house()[2].suit() == CardColor::FangKuai,
        house()[3].rank() == 3 && house()[3].suit() == CardColor::MeiHua,
        house()[4].rank() == 3 && house()[4].suit() == CardColor::FangKuai,
{
    Card::lemma_of(2, CardColor::HeiTao);
    Card::lemma_of(2, CardColor::HongTao);
    Card::lemma_of(2, CardColor::FangKuai);
    Card::lemma_of(3, CardColor::MeiHua);
    Card::lemma_of(3, CardColor::FangKuai);
}

/// Sorting five different cards leaves five different cards.
pub proof fn lemma_sorted_distinct(five: Seq<Card>)
    requires
        five.len() == 5,
        distinct(five),
    ensures
        distinct(sort_desc(five)),
{
    let s = sort_desc(five);
    lemma_sort_desc(five);
    assert forall|k: int| 0 <= k < 5 implies s.contains(#[trigger] five[k]) by {
        assert(five.contains(five[k]));
    }
    let a = place_of(s, five[0]);
    let b = place_of(s, five[1]);
    let c = place_of(s, five[2]);
    let d = place_of(s, five[3]);
    let e = place_of(s, five[4]);
    assert(s[a] == five[0] && s[b] == five[1] && s[c] == five[2] && s[d] == five[3] && s[e]
        == five[4]);
    assert forall|i: int, j: int| 0 <= i < j < 5 implies s[i] != s[j] by {
        assert(among(i, a, b, c, d, e));
        assert(among(j, a, b, c, d, e));
    }
}

/// The five cards of the house, in whatever order, are a full house.
pub proof fn lemma_house_of_five(five: Seq<Card>)
    requires
        five.len() == 5,
        holds_house(five),
    ensures
        category_of(five) == FiveCardsCategory::FullHouse,
{
    let s = sort_desc(five);
    lemma_sort_desc(five);
    lemma_house();
    assert forall|k: int| 0 <= k < 5 implies s.contains(#[trigger] house()[k]) by {
        assert(five.contains(house()[k]));
    }
    let a = place_of(s, house()[0]);
    let b = place_of(s, house()[1]);
    let c = place_of(s, house()[2]);
    let d = place_of(s, house()[3]);
    let e = place_of(s, house()[4]);
    assert(s[a] == house()[0] && s[b] == house()[1] && s[c] == house()[2] && s[d] == house()[3]
        && s[e] == house()[4]);
    assert(d < a && d < b && d < c && e < a && e < b && e < c) by {
        if a < d {
            assert(s[a].rank() >= s[d].rank());
        }
        if b < d {
            assert(s[b].rank() >= s[d].rank());
        }
        if c < d {
            assert(s[c].rank() >= s[d].rank());
        }
        if a < e {
            assert(s[a].rank() >= s[e].rank());
        }
        if b < e {
            assert(s[b].rank() >= s[e].rank());
        }
        if c < e {
            assert(s[c].rank() >= s[e].rank());
        }
    }
    assert(among(0, d, e, d, e, d) && among(1, d, e, d, e, d));
    assert(among(2, a, b, c, a, b) && among(3, a, b, c, a, b) && among(4, a, b, c, a, b));
}

/// Seven cards that hold the house hold a hand of five that is the house.
pub proof fn lemma_house_hand(seven: Seq<Card>) -> (t: int)
    requires
        seven.len() == 7,
        holds_house(seven),
    ensures
        0 <= t < 21,
        holds_house(candidate(seven, t)),
        candidate(seven, t).len() == 5,
{
    lemma_house();
    assert forall|k: int| 0 <= k < 5 implies 0 <= place_of(seven, #[trigger] house()[k]) < 7
        && seven[place_of(seven, house()[k])] == house()[k] by {
        assert(seven.contains(house()[k]));
    }
    let a = place_of(seven, house()[0]);
    let b = place_of(seven, house()[1]);
    let c = place_of(seven, house()[2]);
    let d = place_of(seven, house()[3]);
    let e = place_of(seven, house()[4]);
    assert(seven[a] == house()[0] && seven[b] == house()[1] && seven[c] == house()[2] && seven[d]
        == house()[3] && seven[e] == house()[4]);
    let free = lemma_two_free(a, b, c, d, e);
    lemma_hand_index(free.0, free.1);
    lemma_without(seven, free.0, free.1);
    let t = hand_index(free.0, free.1);
    assert forall|k: int| 0 <= k < 5 implies candidate(seven, t).contains(#[trigger] house()[k]) by {
        let p = place_of(seven, house()[k]);
        assert(among(p, a, b, c, d, e));
        assert(without(seven, free.0, free.1).contains(seven[p]));
    }
    t
}

/// Whether the seven cards can be more than a full house with the house:
/// they hold the two of clubs, or the threes of spades and hearts.
pub open spec fn fills_four(seven: Seq<Card>) -> bool {
    seven.contains(Card::of(2, CardColor::MeiHua)) || (seven.contains(
        Card::of(3, CardColor::HeiTao),
    ) && seven.contains(Card::of(3, CardColor::HongTao)))
}

/// No hand of five of seven different cards that hold the house is better
/// than a full house, unless the two other cards fill four of a kind.
pub proof fn lemma_no_better(seven: Seq<Card>, u: int)
    requires
        seven.len() == 7,
        forall|k: int| 0 <= k < 7 ==> (#[trigger] seven[k]).inv(),
        distinct(seven),
        holds_house(seven),
        !fills_four(seven),
        0 <= u < 21,
    ensures
        bonus_of(category_of(candidate(seven, u))) <= 600,
{
    let five = candidate(seven, u);
    let s = sort_desc(five);
    let x = exclusions()[u];
    lemma_candidate_valid(seven, u);
    assert(distinct(five)) by {
        assert forall|i: int, j: int| 0 <= i < j < 5 implies five[i] != five[j] by {
            assert(0 <= kept_place(i, x.0, x.1) < kept_place(j, x.0, x.1) < 7);
        }
    }
    lemma_sorted_distinct(five);
    lemma_sort_desc(five);
    lemma_sorted_from_seven(seven, u, 0);
    lemma_sorted_from_seven(seven, u, 1);
    lemma_sorted_from_seven(seven, u, 2);
    lemma_sorted_from_seven(seven, u, 3);
    lemma_sorted_from_seven(seven, u, 4);
    let q0 = source_of(seven, s[0]);
    let q1 = source_of(seven, s[1]);
    let q2 = source_of(seven, s[2]);
    let q3 = source_of(seven, s[3]);
    let q4 = source_of(seven, s[4]);
    assert(s[0] != s[1] && s[0] != s[2] && s[0] != s[3] && s[0] != s[4] && s[1] != s[2] && s[1]
        != s[3] && s[1] != s[4] && s[2] != s[3] && s[2] != s[4] && s[3] != s[4]);
    lemma_house();
    assert forall|k: int| 0 <= k < 5 implies 0 <= place_of(seven, #[trigger] house()[k]) < 7
        && seven[place_of(seven, house()[k])] == house()[k] by {
        assert(seven.contains(house()[k]));
    }
    let a = place_of(seven, house()[0]);
    let b = place_of(seven, house()[1]);
    let c = place_of(seven, house()[2]);
    let d = place_of(seven, house()[3]);
    let e = place_of(seven, house()[4]);
    assert(seven[a] == house()[0] && seven[b] == house()[1] && seven[c] == house()[2] && seven[d]
        == house()[3] && seven[e] == house()[4]);
    let free = lemma_two_free(a, b, c, d, e);
    let f = free.0;
    let g = free.1;
    seven[f].lemma_rank();
    seven[g].lemma_rank();
    assert(seven[f] != seven[g]);
    assert(among(q0, a, b, c, d, e) || q0 == f || q0 == g);
    assert(among(q1, a, b, c, d, e) || q1 == f || q1 == g);
    assert(among(q2, a, b, c, d, e) || q2 == f || q2 == g);
    assert(among(q3, a, b, c, d, e) || q3 == f || q3 == g);
    assert(among(q4, a, b, c, d, e) || q4 == f || q4 == g);
    assert(seven[f] != Card::of(2, CardColor::MeiHua) && seven[g] != Card::of(2, CardColor::MeiHua));
    assert(seven[f] != seven[a] && seven[f] != seven[b] && seven[f] != seven[c] && seven[f]
        != seven[d] && seven[f] != seven[e]);
    assert(seven[g] != seven[a] && seven[g] != seven[b] && seven[g] != seven[c] && seven[g]
        != seven[d] && seven[g] != seven[e]);
    if seven[f].rank() == 3 && seven[g].rank() == 3 {
        assert(seven.contains(Card::of(3, CardColor::HeiTao)) && seven.contains(
            Card::of(3, CardColor::HongTao),
        )) by {
            assert(seven[f] == Card::of(3, CardColor::HeiTao) || seven[f] == Card::of(
                3,
                CardColor::HongTao,
            ));
            assert(seven[g] == Card::of(3, CardColor::HeiTao) || seven[g] == Card::of(
                3,
                CardColor::HongTao,
            ));
        }
    }
    assert(seven[f].rank() != 2);
    assert(seven[g].rank() != 2);
}

/// Seven different cards that hold the twos of spades, hearts and diamonds
/// and the threes of clubs and diamonds are a full house, wherever the
/// cards stand, unless the two other cards fill four of a kind: with the
/// two of clubs, or with the threes of spades and hearts.
pub proof fn law_house_in_seven(seven: Seq<Card>)
    requires
        seven.len() == 7,
        forall|k: int| 0 <= k < 7 ==> (#[trigger] seven[k]).inv(),
        distinct(seven),
        holds_house(seven),
        !fills_four(seven),
    ensures
        evaluate_of(seven).1 == FiveCardsCategory::FullHouse,
{
    let t = lemma_house_hand(seven);
    let five = candidate(seven, t);
    lemma_house_of_five(five);
    lemma_candidate_valid(seven, t);
    lemma_rank_sum_bounds(five);
    lemma_best_of(seven, 21);
    let u = choose|u: int|
        0 <= u < 21 && evaluate_of(seven) == (
            value_of(#[trigger] candidate(seven, u)),
            category_of(candidate(seven, u)),
        );
    lemma_candidate_valid(seven, u);
    lemma_rank_sum_bounds(candidate(seven, u));
    lemma_no_better(seven, u);
    assert(value_of(five) <= evaluate_of(seven).0);
}

} // verus!
