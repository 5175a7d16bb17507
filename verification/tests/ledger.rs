use poker_engine::bank::StuffType::{CardType, GeneralType};
use poker_engine::bank::{BankManager, MyBank, StuffType};
use poker_engine::card::{Card, CardColor};
use poker_engine::error::ErrorKind;
use poker_engine::random::{count_between, nth_from, RandomSource};

fn coin(value: i32) -> StuffType {
    GeneralType("coin", value)
}

fn lines(bank: &MyBank) -> Vec<(StuffType, i32)> {
    bank.get_basket_vec().iter().map(|(k, n)| (**k, *n)).collect()
}

#[test]
fn put_merges_into_the_line_of_its_kind() {
    let mut bank = MyBank::new();
    assert_eq!(bank.stuff_in(&coin(5), 3), Ok(()));
    assert_eq!(bank.stuff_in(&coin(10), 1), Ok(()));
    assert_eq!(bank.stuff_in(&coin(5), 4), Ok(()));
    assert_eq!(lines(&bank), vec![(coin(5), 7), (coin(10), 1)]);
    assert_eq!(bank.count(&coin(5)), 7);
    assert_eq!(bank.count(&coin(7)), 0);
    assert_eq!(bank.kinds(), 2);
}

#[test]
fn kinds_differ_by_label_and_by_value() {
    let mut bank = MyBank::new();
    bank.stuff_in(&GeneralType("a", 5), 1).unwrap();
    bank.stuff_in(&GeneralType("b", 5), 1).unwrap();
    bank.stuff_in(&GeneralType("a", 6), 1).unwrap();
    bank.stuff_in(&GeneralType("a", 5), 1).unwrap();
    assert_eq!(
        lines(&bank),
        vec![(GeneralType("a", 5), 2), (GeneralType("b", 5), 1), (GeneralType("a", 6), 1)]
    );
    assert!(GeneralType("a", 5) == GeneralType("a", 5));
    assert!(GeneralType("a", 5) != GeneralType("b", 5));
    assert!(GeneralType("a", 5) != GeneralType("a", 6));
    let ace = Card::new(14, CardColor::HeiTao).unwrap();
    assert!(CardType(ace) == CardType(Card::new(14, CardColor::HeiTao).unwrap()));
    assert!(CardType(ace) != CardType(Card::new(14, CardColor::HongTao).unwrap()));
    assert!(CardType(ace) != GeneralType("a", 0));
}

#[test]
fn nothing_put_taken_or_moved_changes_nothing() {
    let mut bank = MyBank::new();
    let mut other = MyBank::new();
    bank.stuff_in(&coin(5), 3).unwrap();
    let before = lines(&bank);
    assert_eq!(bank.stuff_in(&coin(5), 0), Ok(()));
    assert_eq!(bank.stuff_in(&coin(9), 0), Ok(()));
    assert_eq!(bank.stuff_in(&coin(-9), 0), Ok(()));
    assert_eq!(bank.stuff_out(&coin(5), 0), Ok(()));
    assert_eq!(bank.stuff_out(&coin(9), 0), Ok(()));
    assert_eq!(bank.stuff_transfer(&coin(5), 0, &mut other), Ok(()));
    assert_eq!(bank.stuff_transfer(&coin(9), 0, &mut other), Ok(()));
    assert_eq!(lines(&bank), before);
    assert_eq!(other.kinds(), 0);
}

#[test]
fn negative_quantities_are_invalid() {
    let mut bank = MyBank::new();
    let mut other = MyBank::new();
    bank.stuff_in(&coin(5), 3).unwrap();
    assert_eq!(bank.stuff_in(&coin(5), -1), Err(ErrorKind::InvalidQuantity));
    assert_eq!(bank.stuff_out(&coin(5), -1), Err(ErrorKind::InvalidQuantity));
    assert_eq!(bank.stuff_transfer(&coin(5), -1, &mut other), Err(ErrorKind::InvalidQuantity));
    assert_eq!(lines(&bank), vec![(coin(5), 3)]);
}

#[test]
fn taking_more_than_held_is_insufficient() {
    let mut bank = MyBank::new();
    bank.stuff_in(&coin(5), 3).unwrap();
    assert_eq!(bank.stuff_out(&coin(5), 4), Err(ErrorKind::InsufficientStuff));
    assert_eq!(bank.stuff_out(&coin(6), 1), Err(ErrorKind::InsufficientStuff));
    assert_eq!(lines(&bank), vec![(coin(5), 3)]);
    assert_eq!(bank.stuff_out(&coin(5), 2), Ok(()));
    assert_eq!(lines(&bank), vec![(coin(5), 1)]);
}

#[test]
fn a_line_leaves_when_nothing_is_left_of_it() {
    let mut bank = MyBank::new();
    bank.stuff_in(&coin(5), 3).unwrap();
    bank.stuff_in(&coin(6), 1).unwrap();
    bank.stuff_in(&coin(7), 2).unwrap();
    assert_eq!(bank.stuff_out(&coin(6), 1), Ok(()));
    assert_eq!(lines(&bank), vec![(coin(5), 3), (coin(7), 2)]);
    for (_, n) in lines(&bank) {
        assert!(n > 0);
    }
    assert_eq!(bank.stuff_out(&coin(5), 3), Ok(()));
    assert_eq!(bank.stuff_out(&coin(7), 2), Ok(()));
    assert_eq!(bank.kinds(), 0);
}

#[test]
fn what_a_ledger_cannot_hold_is_refused() {
    let mut bank = MyBank::new();
    assert_eq!(bank.stuff_in(&coin(-1), 1), Err(ErrorKind::InvalidQuantity));
    assert_eq!(bank.stuff_in(&coin(0), i32::MAX), Ok(()));
    assert_eq!(bank.stuff_in(&coin(0), 1), Err(ErrorKind::InvalidQuantity));
    assert_eq!(bank.stuff_in(&coin(1), i32::MAX), Ok(()));
    assert_eq!(bank.stuff_in(&coin(2), 1), Err(ErrorKind::InvalidQuantity));
    assert_eq!(bank.get_values_of_bank(), i32::MAX);
    assert_eq!(lines(&bank), vec![(coin(0), i32::MAX), (coin(1), i32::MAX)]);
    let mut big = MyBank::new();
    assert_eq!(big.stuff_in(&coin(i32::MAX), 1), Ok(()));
    assert_eq!(big.stuff_in(&coin(i32::MAX), 1), Err(ErrorKind::InvalidQuantity));
}

#[test]
fn valuation_adds_face_value_times_quantity() {
    let mut bank = MyBank::new();
    assert_eq!(bank.get_values_of_bank(), 0);
    bank.stuff_in(&coin(50), 3).unwrap();
    bank.stuff_in(&coin(20), 2).unwrap();
    bank.stuff_in(&CardType(Card::new(14, CardColor::MeiHua).unwrap()), 1).unwrap();
    assert_eq!(bank.get_values_of_bank(), 190);
    assert_eq!(coin(50).get_value(), 50);
    assert_eq!(CardType(Card::new(14, CardColor::MeiHua).unwrap()).get_value(), 0);
    bank.stuff_clear();
    assert_eq!(bank.kinds(), 0);
    assert_eq!(bank.get_values_of_bank(), 0);
}

#[test]
fn transfer_moves_or_leaves_everything() {
    let mut a = MyBank::new();
    let mut b = MyBank::new();
    a.stuff_in(&coin(5), 3).unwrap();
    b.stuff_in(&coin(5), 1).unwrap();
    assert_eq!(a.stuff_transfer(&coin(5), 2, &mut b), Ok(()));
    assert_eq!(lines(&a), vec![(coin(5), 1)]);
    assert_eq!(lines(&b), vec![(coin(5), 3)]);
    assert_eq!(a.stuff_transfer(&coin(5), 2, &mut b), Err(ErrorKind::InsufficientStuff));
    assert_eq!(a.get_values_of_bank() + b.get_values_of_bank(), 20);
    let mut full = MyBank::new();
    full.stuff_in(&coin(5), i32::MAX / 5).unwrap();
    assert_eq!(a.stuff_transfer(&coin(5), 1, &mut full), Err(ErrorKind::InvalidQuantity));
    assert_eq!(lines(&a), vec![(coin(5), 1)]);
    assert_eq!(full.count(&coin(5)), i32::MAX / 5);
}

#[test]
fn a_batch_that_is_all_or_nothing_is_undone() {
    let mut bank = MyBank::new();
    bank.stuff_in(&coin(5), 3).unwrap();
    bank.stuff_in(&coin(6), 1).unwrap();
    let (c5, c6, c7) = (coin(5), coin(6), coin(7));
    let batch: Vec<(&StuffType, i32)> = vec![(&c5, 3), (&c6, 1), (&c7, 1), (&c5, 9)];
    assert_eq!(bank.stuff_out(&batch, true), Err(vec![(2, ErrorKind::InsufficientStuff)]));
    assert_eq!(bank.count(&c5), 3);
    assert_eq!(bank.count(&c6), 1);
    assert_eq!(bank.kinds(), 2);
    assert_eq!(bank.get_values_of_bank(), 21);
    let puts: Vec<(&StuffType, i32)> = vec![(&c7, 2), (&c5, 1), (&c6, -1)];
    assert_eq!(bank.stuff_in(&puts, true), Err(vec![(2, ErrorKind::InvalidQuantity)]));
    assert_eq!(bank.count(&c5), 3);
    assert_eq!(bank.count(&c7), 0);
    assert_eq!(bank.get_values_of_bank(), 21);
    let good: Vec<(&StuffType, i32)> = vec![(&c7, 2), (&c5, 1)];
    assert_eq!(bank.stuff_in(&good, true), Ok(()));
    assert_eq!(bank.count(&c5), 4);
    assert_eq!(bank.count(&c7), 2);
}

#[test]
fn a_batch_that_is_not_all_or_nothing_passes_over_refusals() {
    let mut bank = MyBank::new();
    bank.stuff_in(&coin(5), 3).unwrap();
    bank.stuff_in(&coin(6), 1).unwrap();
    let (c5, c6, c7) = (coin(5), coin(6), coin(7));
    let batch: Vec<(&StuffType, i32)> = vec![(&c5, 2), (&c7, 1), (&c6, -1), (&c6, 1)];
    assert_eq!(
        bank.stuff_out(&batch, false),
        Err(vec![(1, ErrorKind::InsufficientStuff), (2, ErrorKind::InvalidQuantity)])
    );
    assert_eq!(lines(&bank), vec![(coin(5), 1)]);
    let puts: Vec<(&StuffType, i32)> = vec![(&c6, -2), (&c7, 2)];
    assert_eq!(bank.stuff_in(&puts, false), Err(vec![(0, ErrorKind::InvalidQuantity)]));
    assert_eq!(lines(&bank), vec![(coin(5), 1), (coin(7), 2)]);
}

#[test]
fn a_batch_transfer_conserves_and_rolls_back() {
    let mut a = MyBank::new();
    let mut b = MyBank::new();
    a.stuff_in(&coin(5), 3).unwrap();
    a.stuff_in(&coin(6), 2).unwrap();
    b.stuff_in(&coin(6), 1).unwrap();
    let (c5, c6) = (coin(5), coin(6));
    let batch: Vec<(&StuffType, i32)> = vec![(&c5, 3), (&c6, 1), (&c6, 2)];
    assert_eq!(a.stuff_transfer(&batch, true, &mut b), Err(vec![(2, ErrorKind::InsufficientStuff)]));
    assert_eq!(a.count(&c5), 3);
    assert_eq!(a.count(&c6), 2);
    assert_eq!(lines(&b), vec![(coin(6), 1)]);
    assert_eq!(a.stuff_transfer(&batch, false, &mut b), Err(vec![(2, ErrorKind::InsufficientStuff)]));
    assert_eq!(lines(&a), vec![(coin(6), 1)]);
    assert_eq!(lines(&b), vec![(coin(6), 2), (coin(5), 3)]);
    assert_eq!(a.get_values_of_bank() + b.get_values_of_bank(), 15 + 12 + 6);
    let rest: Vec<(&StuffType, i32)> = vec![(&c6, 1)];
    assert_eq!(a.stuff_transfer(&rest, true, &mut b), Ok(()));
    assert_eq!(a.kinds(), 0);
}

#[test]
fn handing_over_moves_everything() {
    let mut a = MyBank::new();
    let mut b = MyBank::new();
    a.stuff_in(&coin(5), 3).unwrap();
    a.stuff_in(&coin(6), 2).unwrap();
    b.stuff_in(&coin(6), 1).unwrap();
    assert_eq!(a.hand_over(&mut b), Ok(()));
    assert_eq!(a.kinds(), 0);
    assert_eq!(lines(&b), vec![(coin(6), 3), (coin(5), 3)]);
    let mut full = MyBank::new();
    full.stuff_in(&coin(5), i32::MAX / 5).unwrap();
    assert_eq!(b.hand_over(&mut full), Err(ErrorKind::InvalidQuantity));
    assert_eq!(b.count(&coin(6)), 3);
    assert_eq!(b.count(&coin(5)), 3);
    assert_eq!(full.kinds(), 1);
}

#[test]
fn a_copy_of_a_ledger_holds_the_same() {
    let mut bank = MyBank::new();
    bank.stuff_in(&coin(5), 3).unwrap();
    let copy = bank.clone();
    bank.stuff_out(&coin(5), 1).unwrap();
    assert_eq!(lines(&copy), vec![(coin(5), 3)]);
    assert_eq!(lines(&bank), vec![(coin(5), 2)]);
}

#[test]
fn collect_finds_window_of_mixed_units() {
    let mut bank = MyBank::new();
    assert_eq!(bank.stuff_in(&coin(1), 100), Ok(()));
    assert_eq!(bank.stuff_in(&coin(2), 50), Ok(()));
    let picked = bank.collect_stuff(150).unwrap();
    let mut total = 0;
    for (k, n) in picked.iter() {
        total += k.get_value() * n;
    }
    assert_eq!(total, 150);
    assert_eq!(picked, vec![(coin(2), 50), (coin(1), 50)]);
    assert_eq!(bank.get_values_of_bank(), 200);
}

#[test]
fn collect_finds_one_hundred_and_one_fifty() {
    let mut bank = MyBank::new();
    bank.stuff_in(&coin(50), 2).unwrap();
    bank.stuff_in(&coin(100), 1).unwrap();
    assert_eq!(bank.collect_stuff(150), Ok(vec![(coin(100), 1), (coin(50), 1)]));
    assert_eq!(bank.collect_stuff(100), Ok(vec![(coin(100), 1)]));
    assert_eq!(bank.collect_stuff(200), Ok(vec![(coin(100), 1), (coin(50), 2)]));
    assert_eq!(bank.collect_stuff(50), Ok(vec![(coin(50), 1)]));
    assert_eq!(bank.collect_stuff(0), Ok(vec![]));
    assert_eq!(bank.collect_stuff(-5), Err(ErrorKind::CannotCollect));
    assert_eq!(bank.collect_stuff(250), Err(ErrorKind::CannotCollect));
}

#[test]
fn collect_fails_on_two_hundreds() {
    let mut bank = MyBank::new();
    assert_eq!(bank.stuff_in(&coin(100), 2), Ok(()));
    assert_eq!(bank.collect_stuff(150), Err(ErrorKind::CannotCollect));
}

#[test]
fn collect_tries_neighbours_only() {
    let mut bank = MyBank::new();
    bank.stuff_in(&coin(20), 1).unwrap();
    bank.stuff_in(&coin(50), 1).unwrap();
    bank.stuff_in(&coin(30), 1).unwrap();
    assert_eq!(bank.collect_stuff(80), Ok(vec![(coin(50), 1), (coin(30), 1)]));
    assert_eq!(bank.collect_stuff(50), Ok(vec![(coin(50), 1)]));
    assert_eq!(bank.collect_stuff(70), Err(ErrorKind::CannotCollect));
    assert_eq!(bank.collect_stuff(0), Ok(vec![]));
    let empty = MyBank::new();
    assert_eq!(empty.collect_stuff(0), Ok(vec![]));
    assert_eq!(empty.collect_stuff(1), Err(ErrorKind::CannotCollect));
}

#[test]
fn collect_keeps_the_order_of_equal_face_values() {
    let mut bank = MyBank::new();
    bank.stuff_in(&GeneralType("b", 5), 1).unwrap();
    bank.stuff_in(&GeneralType("a", 5), 1).unwrap();
    bank.stuff_in(&GeneralType("c", 9), 1).unwrap();
    assert_eq!(bank.collect_stuff(14), Ok(vec![(GeneralType("c", 9), 1), (GeneralType("b", 5), 1)]));
    assert_eq!(bank.collect_stuff(10), Ok(vec![(GeneralType("b", 5), 1), (GeneralType("a", 5), 1)]));
}

#[test]
fn a_drawn_kind_is_a_held_kind() {
    let mut rng = RandomSource::from_seed(7);
    let mut bank = MyBank::new();
    assert_eq!(bank.read_random_item(&mut rng), Err(ErrorKind::InsufficientStuff));
    bank.stuff_in(&coin(5), 1000).unwrap();
    bank.stuff_in(&coin(6), 1).unwrap();
    let mut seen5 = 0;
    let mut seen6 = 0;
    for _ in 0..200 {
        let k = *bank.read_random_item(&mut rng).unwrap();
        if k == coin(5) {
            seen5 += 1;
        } else {
            assert!(k == coin(6));
            seen6 += 1;
        }
    }
    assert!(seen5 > 50 && seen6 > 50);
    assert_eq!(*bank.item_at(1), coin(6));
}

#[test]
fn numbers_are_drawn_within_their_range() {
    let mut rng = RandomSource::from_seed(11);
    let mut seen = [false; 5];
    for _ in 0..200 {
        let n = rng.below(5);
        assert!(n < 5);
        seen[n] = true;
        let m = rng.between(2, 5);
        assert!((2..=5).contains(&m));
    }
    assert!(seen.iter().all(|s| *s));
    assert_eq!(rng.below(1), 0);
    assert_eq!(rng.between(9, 9), 9);
    let mut a = RandomSource::from_seed(3);
    let mut b = RandomSource::from_seed(3);
    for _ in 0..50 {
        assert_eq!(a.below(1000), b.below(1000));
    }
}

#[test]
fn dealing_moves_single_units() {
    let mut rng = RandomSource::from_seed(5);
    let mut deck = MyBank::new();
    let mut hand = MyBank::new();
    for r in 2..=5u8 {
        deck.stuff_in(&CardType(Card::new(r, CardColor::HeiTao).unwrap()), 1).unwrap();
    }
    assert_eq!(deck.deal(&mut hand, 5, &mut rng), Err(ErrorKind::InsufficientStuff));
    assert_eq!(deck.kinds(), 4);
    assert_eq!(deck.deal(&mut hand, 3, &mut rng), Ok(()));
    assert_eq!(deck.kinds(), 1);
    assert_eq!(hand.kinds(), 3);
    assert_eq!(deck.deal_one(&mut hand, 1), Err(ErrorKind::InsufficientStuff));
    assert_eq!(deck.deal_one(&mut hand, 0), Ok(()));
    assert_eq!(deck.kinds(), 0);
    for (_, n) in lines(&hand) {
        assert_eq!(n, 1);
    }
}

#[test]
fn a_drawn_place_is_counted_from_the_lowest_number() {
    assert_eq!(count_between(1, 100), 100);
    assert_eq!(count_between(2, 5), 4);
    assert_eq!(count_between(9, 9), 1);
    assert_eq!(count_between(0, 255), 256);
    assert_eq!(nth_from(1, 0), 1);
    assert_eq!(nth_from(1, 99), 100);
    assert_eq!(nth_from(2, 3), 5);
    assert_eq!(nth_from(0, 255), 255);
    let mut rng = RandomSource::from_seed(17);
    let mut seen = [false; 4];
    for _ in 0..200 {
        seen[(rng.between(2, 5) - 2) as usize] = true;
    }
    assert!(seen.iter().all(|s| *s));
}
