use poker_engine::card::CardColor::{FangKuai, HeiTao, HongTao, MeiHua};
use poker_engine::card::FiveCardsCategory::{
    Flush, FourOfAKind, FullHouse, HighCard, Pair, RoyalFlush, Straight, StraightFlush,
    ThreeOfAKind, TwoPairs,
};
use poker_engine::card::{
    evaluate, get_five_cards_category, get_five_cards_value, sorted_desc, Card, CardColor,
};
use poker_engine::deck::CardPool;

fn c(rank: u8, suit: CardColor) -> Card {
    Card::new(rank, suit).unwrap()
}

#[test]
fn a_card_has_a_rank_from_two_to_the_ace() {
    assert!(Card::new(1, HeiTao).is_none());
    assert!(Card::new(15, HeiTao).is_none());
    assert!(Card::new(0, HeiTao).is_none());
    let ace = Card::new(14, MeiHua).unwrap();
    assert_eq!(ace.get_rank(), 14);
    assert_eq!(ace.get_suit(), MeiHua);
    assert_eq!(Card::new(2, FangKuai).unwrap().get_rank(), 2);
}

#[test]
fn cards_are_sorted_downwards_and_keep_their_order() {
    let hand = vec![c(5, HeiTao), c(9, HongTao), c(5, MeiHua), c(14, HeiTao), c(9, FangKuai)];
    assert_eq!(
        sorted_desc(&hand),
        vec![c(14, HeiTao), c(9, HongTao), c(9, FangKuai), c(5, HeiTao), c(5, MeiHua)]
    );
}

#[test]
fn every_category_is_recognised() {
    let cases = vec![
        (vec![c(10, HeiTao), c(14, HeiTao), c(12, HeiTao), c(13, HeiTao), c(11, HeiTao)], RoyalFlush, 960),
        (vec![c(5, HongTao), c(9, HongTao), c(7, HongTao), c(8, HongTao), c(6, HongTao)], StraightFlush, 835),
        (vec![c(9, HeiTao), c(9, HongTao), c(2, HeiTao), c(9, MeiHua), c(9, FangKuai)], FourOfAKind, 738),
        (vec![c(2, HeiTao), c(9, HongTao), c(9, HeiTao), c(9, MeiHua), c(9, FangKuai)], FourOfAKind, 738),
        (vec![c(2, HeiTao), c(2, HongTao), c(2, FangKuai), c(3, MeiHua), c(3, FangKuai)], FullHouse, 612),
        (vec![c(3, HeiTao), c(2, HongTao), c(2, FangKuai), c(3, MeiHua), c(3, FangKuai)], FullHouse, 613),
        (vec![c(2, MeiHua), c(9, MeiHua), c(4, MeiHua), c(13, MeiHua), c(6, MeiHua)], Flush, 534),
        (vec![c(5, HongTao), c(9, HeiTao), c(7, HongTao), c(8, HongTao), c(6, HongTao)], Straight, 435),
        (vec![c(7, HongTao), c(9, HeiTao), c(7, HeiTao), c(7, MeiHua), c(6, HongTao)], ThreeOfAKind, 336),
        (vec![c(7, HongTao), c(9, HeiTao), c(7, HeiTao), c(9, MeiHua), c(6, HongTao)], TwoPairs, 238),
        (vec![c(7, HongTao), c(9, HeiTao), c(7, HeiTao), c(14, MeiHua), c(9, HongTao)], TwoPairs, 246),
        (vec![c(7, HongTao), c(9, HeiTao), c(2, HeiTao), c(14, MeiHua), c(9, HongTao)], Pair, 141),
        (vec![c(7, HongTao), c(9, HeiTao), c(2, HeiTao), c(14, MeiHua), c(10, HongTao)], HighCard, 42),
    ];
    for (hand, category, value) in cases {
        assert_eq!(get_five_cards_category(&hand), category, "{:?}", hand);
        assert_eq!(get_five_cards_value(&hand), value, "{:?}", hand);
    }
}

#[test]
fn an_ace_does_not_start_a_straight() {
    let wheel = vec![c(14, HeiTao), c(2, HongTao), c(3, HeiTao), c(4, MeiHua), c(5, HongTao)];
    assert_eq!(get_five_cards_category(&wheel), HighCard);
    assert_eq!(get_five_cards_value(&wheel), 28);
    let suited = vec![c(14, HeiTao), c(2, HeiTao), c(3, HeiTao), c(4, HeiTao), c(5, HeiTao)];
    assert_eq!(get_five_cards_category(&suited), Flush);
}

#[test]
fn a_straight_flush_is_royal_from_the_ten_upwards() {
    let ten_high = vec![c(10, HeiTao), c(9, HeiTao), c(8, HeiTao), c(7, HeiTao), c(6, HeiTao)];
    assert_eq!(get_five_cards_category(&ten_high), RoyalFlush);
    let nine_high = vec![c(5, HeiTao), c(9, HeiTao), c(8, HeiTao), c(7, HeiTao), c(6, HeiTao)];
    assert_eq!(get_five_cards_category(&nine_high), StraightFlush);
}

#[test]
fn two_to_six_of_spades_is_a_straight_flush_with_any_two_cards() {
    let deck = CardPool::new();
    let all: Vec<Card> = deck
        .card_pool
        .get_basket_vec()
        .iter()
        .map(|(k, _)| match k {
            poker_engine::bank::StuffType::CardType(card) => *card,
            _ => panic!("a deck holds cards"),
        })
        .collect();
    assert_eq!(all.len(), 52);
    let base = [c(2, HeiTao), c(3, HeiTao), c(4, HeiTao), c(5, HeiTao), c(6, HeiTao)];
    let mut tried = 0;
    for i in 0..52 {
        for j in (i + 1)..52 {
            if base.contains(&all[i]) || base.contains(&all[j]) {
                continue;
            }
            let mut seven = base.to_vec();
            seven.push(all[i]);
            seven.push(all[j]);
            let (rank, category) = evaluate(&seven);
            assert_eq!(category, StraightFlush, "{:?}", seven);
            assert!(rank >= 820 && rank <= 830);
            let swapped = vec![all[j], base[4], base[0], all[i], base[2], base[1], base[3]];
            assert_eq!(evaluate(&swapped), (rank, category));
            tried += 1;
        }
    }
    assert_eq!(tried, 47 * 46 / 2);
}

#[test]
fn royal_flush_is_recognised() {
    let seven = vec![
        c(14, HeiTao),
        c(13, HeiTao),
        c(12, HeiTao),
        c(11, HeiTao),
        c(10, HeiTao),
        c(2, HongTao),
        c(3, HongTao),
    ];
    assert_eq!(evaluate(&seven), (960, RoyalFlush));
    let mixed = vec![
        c(3, HongTao),
        c(10, HeiTao),
        c(13, HeiTao),
        c(2, HongTao),
        c(12, HeiTao),
        c(14, HeiTao),
        c(11, HeiTao),
    ];
    assert_eq!(evaluate(&mixed), (960, RoyalFlush));
}

#[test]
fn a_run_in_one_suit_up_to_the_ten_or_above_is_royal_with_any_two_cards() {
    let deck = CardPool::new();
    let all: Vec<Card> = deck
        .card_pool
        .get_basket_vec()
        .iter()
        .map(|(k, _)| match k {
            poker_engine::bank::StuffType::CardType(card) => *card,
            _ => panic!("a deck holds cards"),
        })
        .collect();
    for (low, suit) in [(10u8, HeiTao), (6u8, HongTao), (8u8, FangKuai)] {
        let base: Vec<Card> = (low..low + 5).map(|r| c(r, suit)).collect();
        for i in 0..52 {
            for j in (i + 1)..52 {
                if base.contains(&all[i]) || base.contains(&all[j]) {
                    continue;
                }
                let seven = vec![all[j], base[4], base[0], all[i], base[2], base[1], base[3]];
                let (rank, category) = evaluate(&seven);
                assert_eq!(category, RoyalFlush, "{:?}", seven);
                if low == 10 {
                    assert_eq!(rank, 960);
                }
            }
        }
    }
}

#[test]
fn full_house_is_recognised() {
    let seven = vec![
        c(2, HeiTao),
        c(2, HongTao),
        c(2, FangKuai),
        c(3, MeiHua),
        c(3, FangKuai),
        c(9, HeiTao),
        c(13, HongTao),
    ];
    assert_eq!(evaluate(&seven), (612, FullHouse));
}

#[test]
fn twos_full_of_threes_are_a_full_house_unless_four_of_a_kind_are_filled() {
    let deck = CardPool::new();
    let all: Vec<Card> = deck
        .card_pool
        .get_basket_vec()
        .iter()
        .map(|(k, _)| match k {
            poker_engine::bank::StuffType::CardType(card) => *card,
            _ => panic!("a deck holds cards"),
        })
        .collect();
    let base = [c(2, HeiTao), c(2, HongTao), c(2, FangKuai), c(3, MeiHua), c(3, FangKuai)];
    let mut fours = 0;
    for i in 0..52 {
        for j in (i + 1)..52 {
            if base.contains(&all[i]) || base.contains(&all[j]) {
                continue;
            }
            let seven = vec![all[j], base[4], base[0], all[i], base[2], base[1], base[3]];
            let others = [all[i], all[j]];
            let filled = others.contains(&c(2, MeiHua))
                || (others.contains(&c(3, HeiTao)) && others.contains(&c(3, HongTao)));
            let (_, category) = evaluate(&seven);
            if filled {
                assert_eq!(category, FourOfAKind, "{:?}", seven);
                fours += 1;
            } else {
                assert_eq!(category, FullHouse, "{:?}", seven);
            }
        }
    }
    assert_eq!(fours, 46 + 1);
}

#[test]
fn the_best_of_twenty_one_hands_counts() {
    let seven = vec![
        c(13, HeiTao),
        c(13, HongTao),
        c(2, MeiHua),
        c(3, FangKuai),
        c(4, HongTao),
        c(7, MeiHua),
        c(8, FangKuai),
    ];
    assert_eq!(evaluate(&seven), (145, Pair));
    let high = vec![
        c(13, HeiTao),
        c(12, HongTao),
        c(2, MeiHua),
        c(3, FangKuai),
        c(5, HongTao),
        c(7, MeiHua),
        c(9, FangKuai),
    ];
    assert_eq!(evaluate(&high), (46, HighCard));
}

#[test]
fn a_higher_card_raises_the_rank_of_a_hand_that_keeps_its_category() {
    let seven = vec![
        c(13, HeiTao),
        c(13, HongTao),
        c(2, MeiHua),
        c(3, FangKuai),
        c(4, HongTao),
        c(7, MeiHua),
        c(8, FangKuai),
    ];
    let mut higher = seven.clone();
    higher[5] = c(10, MeiHua);
    assert_eq!(evaluate(&seven), (145, Pair));
    assert_eq!(evaluate(&higher), (148, Pair));
}

#[test]
fn a_flush_and_a_high_card_rank_higher_with_a_higher_card() {
    let flush = vec![
        c(2, HongTao), c(5, HongTao), c(8, HongTao), c(11, HongTao), c(13, HongTao), c(3, HeiTao),
        c(4, FangKuai),
    ];
    assert_eq!(evaluate(&flush), (539, Flush));
    let mut higher = flush.clone();
    higher[0] = c(9, HongTao);
    assert_eq!(evaluate(&higher), (546, Flush));
    let mut higher = flush.clone();
    higher[4] = c(14, HongTao);
    assert_eq!(evaluate(&higher), (540, Flush));
    let high = vec![
        c(2, HongTao), c(5, HeiTao), c(8, FangKuai), c(11, MeiHua), c(13, HongTao), c(3, HeiTao),
        c(9, FangKuai),
    ];
    assert_eq!(evaluate(&high), (46, HighCard));
    let mut higher = high.clone();
    higher[0] = c(4, HongTao);
    assert_eq!(evaluate(&higher), (46, HighCard));
    let mut higher = high.clone();
    higher[1] = c(6, HeiTao);
    assert_eq!(evaluate(&higher), (47, HighCard));
}

#[test]
fn a_pair_that_loses_a_card_can_leave_a_higher_pair() {
    let seven = vec![
        c(5, HeiTao), c(5, HongTao), c(13, FangKuai), c(9, MeiHua), c(7, FangKuai), c(6, FangKuai),
        c(2, MeiHua),
    ];
    assert_eq!(evaluate(&seven), (139, Pair));
    let mut higher = seven.clone();
    higher[0] = c(6, HeiTao);
    assert_eq!(evaluate(&higher), (141, Pair));
    let kept = vec![c(6, HeiTao), c(5, HongTao), c(13, FangKuai), c(9, MeiHua), c(7, FangKuai)];
    assert_eq!(get_five_cards_category(&kept), HighCard);
    let witness = vec![c(6, HeiTao), c(13, FangKuai), c(9, MeiHua), c(7, FangKuai), c(6, FangKuai)];
    assert_eq!(get_five_cards_category(&witness), Pair);
    assert_eq!(get_five_cards_value(&witness), 141);
}

#[test]
fn two_pairs_that_lose_a_card_can_rank_lower() {
    let seven = vec![
        c(9, HeiTao), c(9, HongTao), c(5, FangKuai), c(5, MeiHua), c(3, FangKuai), c(3, MeiHua),
        c(13, HongTao),
    ];
    assert_eq!(evaluate(&seven), (241, TwoPairs));
    let mut higher = seven.clone();
    higher[0] = c(10, HeiTao);
    assert_eq!(evaluate(&higher), (229, TwoPairs));
}

#[test]
fn a_straight_that_loses_its_top_card_can_rank_lower() {
    let seven = vec![
        c(2, HeiTao),
        c(3, HongTao),
        c(4, FangKuai),
        c(5, MeiHua),
        c(6, HeiTao),
        c(7, HongTao),
        c(13, FangKuai),
    ];
    let mut higher = seven.clone();
    higher[5] = c(9, HongTao);
    assert_eq!(evaluate(&seven), (425, Straight));
    assert_eq!(evaluate(&higher), (420, Straight));
}

#[test]
fn a_fresh_deck_lists_fifty_two_cards_by_rank_and_suit() {
    let deck = CardPool::new();
    let lines = deck.card_pool.get_basket_vec();
    assert_eq!(lines.len(), 52);
    assert!(*lines[0].0 == poker_engine::bank::StuffType::CardType(c(2, HeiTao)));
    assert!(*lines[1].0 == poker_engine::bank::StuffType::CardType(c(2, HongTao)));
    assert!(*lines[2].0 == poker_engine::bank::StuffType::CardType(c(2, MeiHua)));
    assert!(*lines[3].0 == poker_engine::bank::StuffType::CardType(c(2, FangKuai)));
    assert!(*lines[51].0 == poker_engine::bank::StuffType::CardType(c(14, FangKuai)));
    for (_, n) in lines.iter() {
        assert_eq!(*n, 1);
    }
    assert_eq!(deck.card_pool.get_values_of_bank(), 0);
    assert_eq!(deck.reset_card_pool().card_pool.kinds(), 52);
}
