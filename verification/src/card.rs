//! Playing cards, the categories of a hand of five, and the rank of the best
//! hand among seven cards.
use vstd::prelude::*;

verus! {

/// The four suits.
#[derive(Clone, Copy, Debug, PartialEq, Eq, Structural, Hash)]
pub enum CardColor {
    HeiTao,
    HongTao,
    MeiHua,
    FangKuai,
}

/// A playing card: a rank from 2 to 14 (the ace) and a suit.
#[derive(Clone, Copy, Debug, PartialEq, Eq, Structural, Hash)]
pub struct Card {
    value: u8,
    color: CardColor,
}

/// The ten hand categories, strongest first.
#[derive(Clone, Copy, Debug, PartialEq, Eq, Structural, Hash)]
pub enum FiveCardsCategory {
    RoyalFlush,
    StraightFlush,
    FourOfAKind,
    FullHouse,
    Flush,
    Straight,
    ThreeOfAKind,
    TwoPairs,
    Pair,
    HighCard,
}

impl Card {
    /// A card's rank lies between 2 and 14.
    #[verifier::type_invariant]
    pub closed spec fn inv(&self) -> bool {
        2 <= self.value <= 14
    }

    /// The card's rank.
    pub closed spec fn rank(&self) -> int {
        self.value as int
    }

    /// The card's suit.
    pub closed spec fn suit(&self) -> CardColor {
        self.color
    }

    /// The card of the given rank and suit.
    pub closed spec fn of(rank: int, suit: CardColor) -> Card {
        Card { value: rank as u8, color: suit }
    }

    /// A card of a rank from 2 to 14 has that rank and its suit, and is a
    /// valid card.
    pub proof fn lemma_of(rank: int, suit: CardColor)
        requires
            2 <= rank <= 14,
        ensures
            Card::of(rank, suit).rank() == rank,
            Card::of(rank, suit).suit() == suit,
            Card::of(rank, suit).inv(),
    {
    }

    /// A valid card ranks from 2 to 14, and is the card of its rank and
    /// suit.
    pub proof fn lemma_rank(self)
        requires
            self.inv(),
        ensures
            2 <= self.rank() <= 14,
            self == Card::of(self.rank(), self.suit()),
    {
    }

    /// A card of the given rank and suit, if the rank lies between 2 and 14.
    pub fn new(rank: u8, suit: CardColor) -> (r: Option<Card>)
        ensures
            r.is_some() <==> 2 <= rank <= 14,
            r.is_some() ==> r.unwrap() == Card::of(rank as int, suit),
            r.is_some() ==> r.unwrap().rank() == rank && r.unwrap().suit() == suit,
    {
        if 2 <= rank && rank <= 14 {
            Some(Card { value: rank, color: suit })
        } else {
            None
        }
    }

    /// The card's rank.
    pub fn get_rank(&self) -> (r: u8)
        ensures
            r == self.rank(),
            2 <= r <= 14,
    {
        proof {
            use_type_invariant(self);
        }
        self.value
    }

    /// The card's suit.
    pub fn get_suit(&self) -> (r: CardColor)
        ensures
            r == self.suit(),
    {
        self.color
    }
}

/// Whether two neighbours have the same rank.
pub open spec fn pair_at(h: Seq<Card>, i: int) -> bool {
    h[i].rank() == h[i + 1].rank()
}

/// Whether two neighbours have the same suit.
pub open spec fn suited_at(h: Seq<Card>, i: int) -> bool {
    h[i].suit() == h[i + 1].suit()
}

/// Whether the left neighbour ranks exactly one above the right one.
pub open spec fn near_at(h: Seq<Card>, i: int) -> bool {
    h[i].rank() == h[i + 1].rank() + 1
}

/// `c` put into the descending sequence `s` behind every card that ranks at
/// least as high.
pub open spec fn insert_desc(s: Seq<Card>, c: Card) -> Seq<Card>
    decreases s.len(),
{
    if s.len() == 0 {
        seq![c]
    } else if s.last().rank() >= c.rank() {
        s.push(c)
    } else {
        insert_desc(s.drop_last(), c).push(s.last())
    }
}

/// The cards of `s` in descending order of rank; cards of equal rank keep
/// their order.
pub open spec fn sort_desc(s: Seq<Card>) -> Seq<Card>
    decreases s.len(),
{
    if s.len() == 0 {
        Seq::empty()
    } else {
        insert_desc(sort_desc(s.drop_last()), s.last())
    }
}

/// The category that five cards in descending order show on their four
/// boundaries, the strongest that fits: a run of ranks in one suit is a royal
/// flush where its highest card ranks 10 or more, and a straight flush
/// otherwise; three boundaries of equal ranks make four of a kind or a full
/// house; then come the flush, the straight (an ace does not start one),
/// three of a kind, two pairs, and the pair.
pub open spec fn pattern_of(h: Seq<Card>) -> FiveCardsCategory {
    let run = near_at(h, 0) && near_at(h, 1) && near_at(h, 2) && near_at(h, 3);
    let flush = suited_at(h, 0) && suited_at(h, 1) && suited_at(h, 2) && suited_at(h, 3);
    if run && flush && h[0].rank() >= 10 {
        FiveCardsCategory::RoyalFlush
    } else if run && flush {
        FiveCardsCategory::StraightFlush
    } else if (pair_at(h, 0) && pair_at(h, 1) && pair_at(h, 2)) || (pair_at(h, 1) && pair_at(h, 2)
        && pair_at(h, 3)) {
        FiveCardsCategory::FourOfAKind
    } else if (pair_at(h, 0) && pair_at(h, 1) && pair_at(h, 3)) || (pair_at(h, 0) && pair_at(h, 2)
        && pair_at(h, 3)) {
        FiveCardsCategory::FullHouse
    } else if flush {
        FiveCardsCategory::Flush
    } else if run {
        FiveCardsCategory::Straight
    } else if (pair_at(h, 0) && pair_at(h, 1)) || (pair_at(h, 1) && pair_at(h, 2)) || (pair_at(h, 2)
        && pair_at(h, 3)) {
        FiveCardsCategory::ThreeOfAKind
    } else if (pair_at(h, 0) && pair_at(h, 2)) || (pair_at(h, 1) && pair_at(h, 3)) || (pair_at(h, 0)
        && pair_at(h, 3)) {
        FiveCardsCategory::TwoPairs
    } else if pair_at(h, 0) || pair_at(h, 1) || pair_at(h, 2) || pair_at(h, 3) {
        FiveCardsCategory::Pair
    } else {
        FiveCardsCategory::HighCard
    }
}

/// The category of a five-card hand.
pub open spec fn category_of(five: Seq<Card>) -> FiveCardsCategory {
    pattern_of(sort_desc(five))
}

/// What a category adds to the ranks of its five cards.
pub open spec fn bonus_of(c: FiveCardsCategory) -> int {
    match c {
        FiveCardsCategory::RoyalFlush => 900,
        FiveCardsCategory::StraightFlush => 800,
        FiveCardsCategory::FourOfAKind => 700,
        FiveCardsCategory::FullHouse => 600,
        FiveCardsCategory::Flush => 500,
        FiveCardsCategory::Straight => 400,
        FiveCardsCategory::ThreeOfAKind => 300,
        FiveCardsCategory::TwoPairs => 200,
        FiveCardsCategory::Pair => 100,
        FiveCardsCategory::HighCard => 0,
    }
}

/// The sum of the ranks of the cards of `s`.
pub open spec fn rank_sum(s: Seq<Card>) -> int
    decreases s.len(),
{
    if s.len() == 0 {
        0
    } else {
        rank_sum(s.drop_last()) + s.last().rank()
    }
}

/// The numeric rank of a five-card hand: its cards' ranks and its category's
/// bonus.
pub open spec fn value_of(five: Seq<Card>) -> int {
    rank_sum(five) + bonus_of(category_of(five))
}

/// A card goes to the place behind the last card that ranks at least as
/// high.
proof fn lemma_insert_desc_at(s: Seq<Card>, c: Card, p: int)
    requires
        0 <= p <= s.len(),
        forall|j: int| p <= j < s.len() ==> s[j].rank() < c.rank(),
        p > 0 ==> s[p - 1].rank() >= c.rank(),
    ensures
        insert_desc(s, c) == s.insert(p, c),
    decreases s.len(),
{
    if s.len() == 0 {
        assert(s.insert(p, c) =~= seq![c]);
    } else if p == s.len() {
        assert(s.insert(p, c) =~= s.push(c));
    } else {
        lemma_insert_desc_at(s.drop_last(), c, p);
        assert(s.insert(p, c) =~= s.drop_last().insert(p, c).push(s.last()));
    }
}

/// The cards in descending order of rank, equal ranks in their first order.
pub fn sorted_desc(cards: &Vec<Card>) -> (r: Vec<Card>)
    ensures
        r@ == sort_desc(cards@),
{
    let mut out: Vec<Card> = Vec::new();
    let mut i: usize = 0;
    while i < cards.len()
        invariant
            0 <= i <= cards.len(),
            out@ == sort_desc(cards@.take(i as int)),
        decreases cards.len() - i,
    {
        let c = cards[i];
        let mut p: usize = out.len();
        while p > 0 && out[p - 1].get_rank() < c.get_rank()
            invariant
                0 <= p <= out.len(),
                forall|j: int| p <= j < out.len() ==> out@[j].rank() < c.rank(),
            decreases p,
        {
            p = p - 1;
        }
        proof {
            lemma_insert_desc_at(out@, c, p as int);
            assert(cards@.take(i + 1).drop_last() =~= cards@.take(i as int));
        }
        out.insert(p, c);
        i = i + 1;
    }
    proof {
        assert(cards@.take(cards.len() as int) =~= cards@);
    }
    out
}

/// Whether two cards have the same rank.
fn is_pair(card1: &Card, card2: &Card) -> (r: bool)
    ensures
        r == (card1.rank() == card2.rank()),
{
    card1.get_rank() == card2.get_rank()
}

/// Whether two cards have the same suit.
fn is_same_color(card1: &Card, card2: &Card) -> (r: bool)
    ensures
        r == (card1.suit() == card2.suit()),
{
    card1.get_suit() == card2.get_suit()
}

/// Whether the first card ranks exactly one above the second.
fn is_near(card1: &Card, card2: &Card) -> (r: bool)
    ensures
        r == (card1.rank() == card2.rank() + 1),
{
    card1.get_rank() == card2.get_rank() + 1
}

/// A card put in makes one card more.
proof fn lemma_insert_desc_len(s: Seq<Card>, c: Card)
    ensures
        insert_desc(s, c).len() == s.len() + 1,
    decreases s.len(),
{
    if s.len() > 0 && s.last().rank() < c.rank() {
        lemma_insert_desc_len(s.drop_last(), c);
    }
}

/// Sorting keeps the number of cards.
pub proof fn lemma_sort_desc_len(s: Seq<Card>)
    ensures
        sort_desc(s).len() == s.len(),
    decreases s.len(),
{
    if s.len() > 0 {
        lemma_sort_desc_len(s.drop_last());
        lemma_insert_desc_len(sort_desc(s.drop_last()), s.last());
    }
}

/// The category of five cards: the strongest pattern that their four
/// boundaries show once the cards stand in descending order.
pub fn get_five_cards_category(five_cards: &Vec<Card>) -> (r: FiveCardsCategory)
    requires
        five_cards.len() == 5,
    ensures
        r == category_of(five_cards@),
{
    let h = sorted_desc(five_cards);
    proof {
        lemma_sort_desc_len(five_cards@);
    }
    let pair_ab = is_pair(&h[0], &h[1]);
    let pair_bc = is_pair(&h[1], &h[2]);
    let pair_cd = is_pair(&h[2], &h[3]);
    let pair_de = is_pair(&h[3], &h[4]);
    let flush = is_same_color(&h[0], &h[1]) && is_same_color(&h[1], &h[2]) && is_same_color(
        &h[2],
        &h[3],
    ) && is_same_color(&h[3], &h[4]);
    let run = is_near(&h[0], &h[1]) && is_near(&h[1], &h[2]) && is_near(&h[2], &h[3]) && is_near(
        &h[3],
        &h[4],
    );
    if run && flush && h[0].get_rank() >= 10 {
        FiveCardsCategory::RoyalFlush
    } else if run && flush {
        FiveCardsCategory::StraightFlush
    } else if (pair_ab && pair_bc && pair_cd) || (pair_bc && pair_cd && pair_de) {
        FiveCardsCategory::FourOfAKind
    } else if (pair_ab && pair_bc && pair_de) || (pair_ab && pair_cd && pair_de) {
        FiveCardsCategory::FullHouse
    } else if flush {
        FiveCardsCategory::Flush
    } else if run {
        FiveCardsCategory::Straight
    } else if (pair_ab && pair_bc) || (pair_bc && pair_cd) || (pair_cd && pair_de) {
        FiveCardsCategory::ThreeOfAKind
    } else if (pair_ab && pair_cd) || (pair_bc && pair_de) || (pair_ab && pair_de) {
        FiveCardsCategory::TwoPairs
    } else if pair_ab || pair_bc || pair_cd || pair_de {
        FiveCardsCategory::Pair
    } else {
        FiveCardsCategory::HighCard
    }
}

/// What a category adds to the ranks of its five cards.
fn bonus(c: FiveCardsCategory) -> (r: i32)
    ensures
        r == bonus_of(c),
{
    match c {
        FiveCardsCategory::RoyalFlush => 900,
        FiveCardsCategory::StraightFlush => 800,
        FiveCardsCategory::FourOfAKind => 700,
        FiveCardsCategory::FullHouse => 600,
        FiveCardsCategory::Flush => 500,
        FiveCardsCategory::Straight => 400,
        FiveCardsCategory::ThreeOfAKind => 300,
        FiveCardsCategory::TwoPairs => 200,
        FiveCardsCategory::Pair => 100,
        FiveCardsCategory::HighCard => 0,
    }
}

/// The numeric rank of five cards: the sum of their ranks and the bonus of
/// their category.
pub fn get_five_cards_value(five_cards: &Vec<Card>) -> (r: i32)
    requires
        five_cards.len() == 5,
    ensures
        r == value_of(five_cards@),
        10 <= r <= 970,
{
    let mut value: i32 = 0;
    let mut i: usize = 0;
    while i < 5
        invariant
            0 <= i <= 5,
            five_cards.len() == 5,
            value == rank_sum(five_cards@.take(i as int)),
            2 * i <= value <= 14 * i,
        decreases 5 - i,
    {
        let c = five_cards[i];
        proof {
            assert(five_cards@.take(i + 1).drop_last() =~= five_cards@.take(i as int));
        }
        value = value + c.get_rank() as i32;
        i = i + 1;
    }
    proof {
        assert(five_cards@.take(5) =~= five_cards@);
    }
    value + bonus(get_five_cards_category(five_cards))
}


/// The pairs of places left out of seven cards, in the order in which the
/// twenty-one hands of five are tried.
pub open spec fn exclusions() -> Seq<(int, int)> {
    seq![
        (0, 1), (0, 2), (0, 3), (0, 4), (0, 5), (0, 6),
        (1, 2), (1, 3), (1, 4), (1, 5), (1, 6),
        (2, 3), (2, 4), (2, 5), (2, 6),
        (3, 4), (3, 5), (3, 6),
        (4, 5), (4, 6),
        (5, 6),
    ]
}

/// The place in the seven cards of the `k`-th card of the hand that leaves
/// out the places `i < j`.
pub open spec fn kept_place(k: int, i: int, j: int) -> int {
    if k < i {
        k
    } else if k + 1 < j {
        k + 1
    } else {
        k + 2
    }
}

/// The five cards that remain when the places `i < j` are left out.
pub open spec fn without(seven: Seq<Card>, i: int, j: int) -> Seq<Card> {
    Seq::new(5, |k: int| seven[kept_place(k, i, j)])
}

/// The `t`-th hand of five that is tried.
pub open spec fn candidate(seven: Seq<Card>, t: int) -> Seq<Card> {
    without(seven, exclusions()[t].0, exclusions()[t].1)
}

/// The best rank among the first `t` hands, with the category of the first
/// hand that reaches it.
pub open spec fn best_of(seven: Seq<Card>, t: int) -> (int, FiveCardsCategory)
    decreases t,
{
    if t <= 0 {
        (0, FiveCardsCategory::HighCard)
    } else {
        let before = best_of(seven, t - 1);
        let five = candidate(seven, t - 1);
        if value_of(five) > before.0 {
            (value_of(five), category_of(five))
        } else {
            before
        }
    }
}

/// The rank and category of seven cards: those of the best of the twenty-one
/// hands of five.
pub open spec fn evaluate_of(seven: Seq<Card>) -> (int, FiveCardsCategory) {
    best_of(seven, 21)
}

/// A hand of valid cards ranks at least 10.
pub proof fn lemma_value_positive(five: Seq<Card>)
    requires
        five.len() == 5,
        forall|k: int| 0 <= k < 5 ==> (#[trigger] five[k]).inv(),
    ensures
        10 <= value_of(five) <= 970,
{
    let a = five.drop_last();
    let b = a.drop_last();
    let c = b.drop_last();
    let d = c.drop_last();
    assert(rank_sum(d.drop_last()) == 0);
    assert(rank_sum(d) == five[0].rank());
    assert(rank_sum(c) == rank_sum(d) + five[1].rank());
    assert(rank_sum(b) == rank_sum(c) + five[2].rank());
    assert(rank_sum(a) == rank_sum(b) + five[3].rank());
    assert(rank_sum(five) == rank_sum(a) + five[4].rank());
    assert(five[0].inv() && five[1].inv() && five[2].inv() && five[3].inv() && five[4].inv());
}

/// What `best_of` picks: no tried hand ranks above it, and it is the rank and
/// category of the first tried hand that ranks that high.
pub proof fn lemma_best_of(seven: Seq<Card>, n: int)
    requires
        seven.len() == 7,
        forall|k: int| 0 <= k < 7 ==> (#[trigger] seven[k]).inv(),
        0 < n <= 21,
    ensures
        forall|t: int| 0 <= t < n
            ==> value_of(#[trigger] candidate(seven, t)) <= best_of(seven, n).0,
        exists|t: int|
            0 <= t < n && best_of(seven, n) == (
                value_of(#[trigger] candidate(seven, t)),
                category_of(candidate(seven, t)),
            ) && forall|u: int|
                0 <= u < t ==> value_of(#[trigger] candidate(seven, u)) < best_of(seven, n).0,
    decreases n,
{
    let five = candidate(seven, n - 1);
    assert(10 <= value_of(five)) by {
        assert forall|k: int| 0 <= k < 5 implies (#[trigger] five[k]).inv() by {
            let e = exclusions()[n - 1];
            assert(0 <= kept_place(k, e.0, e.1) < 7);
        }
        lemma_value_positive(five);
    }
    if n == 1 {
        assert(best_of(seven, 0) == (0int, FiveCardsCategory::HighCard));
        assert(best_of(seven, 1) == (value_of(five), category_of(five)));
    } else {
        lemma_best_of(seven, n - 1);
        let before = best_of(seven, n - 1);
        if value_of(five) > before.0 {
            assert(best_of(seven, n) == (value_of(five), category_of(five)));
        } else {
            let t0 = choose|t: int|
                0 <= t < n - 1 && before == (
                    value_of(#[trigger] candidate(seven, t)),
                    category_of(candidate(seven, t)),
                ) && forall|u: int|
                    0 <= u < t ==> value_of(#[trigger] candidate(seven, u)) < before.0;
            assert(0 <= t0 < n && best_of(seven, n) == (
                value_of(candidate(seven, t0)),
                category_of(candidate(seven, t0)),
            ));
        }
    }
}

/// The rank and the category of seven cards. Every pair of places is left out
/// in turn; of the twenty-one hands of five the best rank counts, with the
/// category of the first hand that reaches it.
pub fn evaluate(seven: &Vec<Card>) -> (r: (i32, FiveCardsCategory))
    requires
        seven.len() == 7,
    ensures
        r.0 == evaluate_of(seven@).0,
        r.1 == evaluate_of(seven@).1,
        10 <= r.0 <= 970,
{
    let mut max_value: i32 = 0;
    let mut max_category = FiveCardsCategory::HighCard;
    let ghost mut t: int = 0;
    let mut i: usize = 0;
    while i < 6
        invariant
            0 <= i <= 6,
            seven.len() == 7,
            0 <= t <= 21,
            i < 6 ==> t < 21 && exclusions()[t] == (i as int, i + 1),
            i == 6 ==> t == 21,
            max_value == best_of(seven@, t).0,
            max_category == best_of(seven@, t).1,
            t > 0 ==> 10 <= max_value <= 970,
            t == 0 ==> max_value == 0,
        decreases 6 - i,
    {
        let mut j: usize = i + 1;
        while j < 7
            invariant
                0 <= i < 6,
                i < j <= 7,
                seven.len() == 7,
                0 <= t <= 21,
                j < 7 ==> t < 21 && exclusions()[t] == (i as int, j as int),
                j == 7 && i < 5 ==> t < 21 && exclusions()[t] == (i + 1, i + 2),
                j == 7 && i == 5 ==> t == 21,
                max_value == best_of(seven@, t).0,
                max_category == best_of(seven@, t).1,
                t > 0 ==> 10 <= max_value <= 970,
                t == 0 ==> max_value == 0,
            decreases 7 - j,
        {
            let mut five: Vec<Card> = Vec::new();
            let mut k: usize = 0;
            while k < 7
                invariant
                    0 <= k <= 7,
                    0 <= i < j < 7,
                    seven.len() == 7,
                    five.len()
                        == k - (if k > i { 1int } else { 0 }) - (if k > j { 1int } else { 0 }),
                    forall|m: int|
                        0 <= m < five.len() ==> five@[m]
                            == seven@[kept_place(m, i as int, j as int)],
                decreases 7 - k,
            {
                if k != i && k != j {
                    five.push(seven[k]);
                }
                k = k + 1;
            }
            assert(five@ =~= candidate(seven@, t));
            let value = get_five_cards_value(&five);
            let category = get_five_cards_category(&five);
            if value > max_value {
                max_value = value;
                max_category = category;
            }
            proof {
                t = t + 1;
            }
            j = j + 1;
        }
        i = i + 1;
    }
    (max_value, max_category)
}

} // verus!
