use poker_engine::bank::StuffType::{CardType, GeneralType};
use poker_engine::bank::{BankManager, MyBank, StuffType};
use poker_engine::card::CardColor::{FangKuai, HeiTao, HongTao, MeiHua};
use poker_engine::card::{Card, FiveCardsCategory};
use poker_engine::deck::{CardPool, FiveCards};
use poker_engine::error::ErrorKind;
use poker_engine::player::{above_limit, folds_at_once, raise_by, round_up, CashPool, Player, Role};
use poker_engine::random::RandomSource;
use std::cmp::Ordering;

fn coin(value: i32) -> StuffType {
    GeneralType("coin", value)
}

fn lines(bank: &MyBank) -> Vec<(StuffType, i32)> {
    bank.get_basket_vec().iter().map(|(k, n)| (**k, *n)).collect()
}

fn rich() -> Player {
    let mut p = Player::new("Bob");
    p.owned_bank.stuff_in(&coin(10), 5).unwrap();
    p.owned_bank.stuff_in(&coin(5), 2).unwrap();
    p
}

#[test]
fn a_new_seat_holds_nothing() {
    let p = Player::new("Alice");
    assert_eq!(p.name, "Alice");
    assert_eq!(p.role, Role::Normal);
    assert_eq!(p.owned_bank.kinds(), 0);
    assert_eq!(p.bet_bank.kinds(), 0);
    assert_eq!(p.cards_bank.kinds(), 0);
}

#[test]
fn a_bet_moves_from_the_bankroll_or_not_at_all() {
    let mut p = rich();
    let (c10, c5) = (coin(10), coin(5));
    let bet: Vec<(&StuffType, i32)> = vec![(&c10, 2), (&c5, 1)];
    assert_eq!(p.place_a_bet(&bet), Ok(()));
    assert_eq!(lines(&p.bet_bank), vec![(coin(10), 2), (coin(5), 1)]);
    assert_eq!(lines(&p.owned_bank), vec![(coin(10), 3), (coin(5), 1)]);
    let too_much: Vec<(&StuffType, i32)> = vec![(&c10, 3), (&c5, 2)];
    assert_eq!(p.place_a_bet(&too_much), Err(ErrorKind::InsufficientStuff));
    assert_eq!(p.owned_bank.count(&c10), 3);
    assert_eq!(p.bet_bank.get_values_of_bank(), 25);
    assert_eq!(p.get_bets_back(), Ok(()));
    assert_eq!(p.bet_bank.kinds(), 0);
    assert_eq!(p.owned_bank.get_values_of_bank(), 60);
    assert_eq!(p.role, Role::Normal);
}

#[test]
fn betting_an_amount_collects_it_from_the_bankroll() {
    let mut p = rich();
    assert_eq!(p.place_a_bet_with_value(20), Ok(()));
    assert_eq!(p.role, Role::PlaceBet);
    assert_eq!(lines(&p.bet_bank), vec![(coin(10), 2)]);
    assert_eq!(p.place_a_bet_with_value(15), Ok(()));
    assert_eq!(p.bet_bank.get_values_of_bank(), 15);
    assert_eq!(p.owned_bank.get_values_of_bank(), 45);
    assert_eq!(p.place_a_bet_with_value(3), Err(ErrorKind::CannotCollect));
    assert_eq!(p.role, Role::GiveUp);
    assert_eq!(p.bet_bank.kinds(), 0);
    assert_eq!(p.owned_bank.get_values_of_bank(), 60);
    assert_eq!(p.place_a_bet_with_value(61), Err(ErrorKind::CannotCollect));
    assert_eq!(p.place_a_bet_with_value(i64::MAX), Err(ErrorKind::CannotCollect));
    assert_eq!(p.place_a_bet_with_value(60), Ok(()));
    assert_eq!(p.owned_bank.kinds(), 0);
    assert_eq!(p.role, Role::PlaceBet);
}

#[test]
fn a_checked_bet_has_to_stand_to_the_amount_as_asked() {
    let mut p = rich();
    let (c10, c5) = (coin(10), coin(5));
    let fifteen: Vec<(&StuffType, i32)> = vec![(&c10, 1), (&c5, 1)];
    assert_eq!(p.place_a_bet_and_check_value(&fifteen, Ordering::Equal, 20), Err(ErrorKind::BetMismatch));
    assert_eq!(p.role, Role::Normal);
    assert_eq!(p.bet_bank.kinds(), 0);
    assert_eq!(p.owned_bank.get_values_of_bank(), 60);
    assert_eq!(p.place_a_bet_and_check_value(&fifteen, Ordering::Equal, 15), Ok(()));
    assert_eq!(p.role, Role::PlaceBet);
    assert_eq!(p.bet_bank.get_values_of_bank(), 15);
    p.role = Role::Normal;
    assert_eq!(p.place_a_bet_and_check_value(&fifteen, Ordering::Greater, 15), Err(ErrorKind::BetMismatch));
    assert_eq!(p.place_a_bet_and_check_value(&fifteen, Ordering::Greater, 14), Ok(()));
    assert_eq!(p.place_a_bet_and_check_value(&fifteen, Ordering::Less, 14), Err(ErrorKind::BetMismatch));
    assert_eq!(p.place_a_bet_and_check_value(&fifteen, Ordering::Less, 15), Ok(()));
    assert_eq!(p.place_a_bet_and_check_value(&fifteen, Ordering::Less, 16), Ok(()));
    assert_eq!(p.bet_bank.get_values_of_bank(), 15);
    assert_eq!(p.owned_bank.get_values_of_bank(), 45);
    let too_much: Vec<(&StuffType, i32)> = vec![(&c10, 6)];
    assert_eq!(
        p.place_a_bet_and_check_value(&too_much, Ordering::Greater, 0),
        Err(ErrorKind::InsufficientStuff)
    );
    let negative: Vec<(&StuffType, i32)> = vec![(&c10, -1)];
    assert_eq!(
        p.place_a_bet_and_check_value(&negative, Ordering::Greater, 0),
        Err(ErrorKind::InvalidQuantity)
    );
    assert_eq!(p.owned_bank.get_values_of_bank() + p.bet_bank.get_values_of_bank(), 60);
}

#[test]
fn amounts_are_rounded_up_to_the_unit() {
    assert_eq!(round_up(33, 5), 35);
    assert_eq!(round_up(30, 5), 30);
    assert_eq!(round_up(0, 5), 0);
    assert_eq!(round_up(1, 5), 5);
    assert_eq!(round_up(33, 1), 33);
    assert_eq!(round_up(33, 0), 33);
    assert_eq!(round_up(33, -1), 33);
    assert_eq!(round_up(-7, 5), -7);
}

#[test]
fn the_rolls_decide_the_raise() {
    assert_eq!(raise_by(1, 100, 5, 333, 1), 0);
    assert_eq!(raise_by(50, 100, 5, 333, 1), 0);
    assert_eq!(raise_by(51, 1, 5, 333, 1), 33);
    assert_eq!(raise_by(51, 70, 5, 333, 1), 33);
    assert_eq!(raise_by(51, 71, 2, 333, 1), 66);
    assert_eq!(raise_by(100, 100, 5, 333, 1), 165);
    assert_eq!(raise_by(51, 70, 5, 333, 5), 35);
    assert_eq!(raise_by(51, 71, 4, 333, 5), 135);
    assert_eq!(raise_by(51, 71, 4, 9, 5), 0);
    assert_eq!(raise_by(51, 71, 4, 0, 5), 0);
    assert_eq!(raise_by(51, 71, 4, -100, 5), 0);
}

#[test]
fn a_low_roll_gives_up_at_once() {
    assert!(folds_at_once(1));
    assert!(folds_at_once(20));
    assert!(!folds_at_once(21));
    assert!(!folds_at_once(100));
}

#[test]
fn an_amount_above_the_highest_bet_is_told() {
    assert!(!above_limit(100, 33, 133));
    assert!(above_limit(100, 34, 133));
    assert!(!above_limit(0, 0, 0));
    assert!(above_limit(i64::MAX, 1, i64::MAX));
    assert!(!above_limit(i64::MIN, 10, 5));
    assert!(above_limit(1, 0, -1));
}

#[test]
fn one_try_bets_the_amount_with_the_raise() {
    let mut p = Player::new("Bob");
    p.owned_bank.stuff_in(&coin(1), 1000).unwrap();
    p.bet_bank.stuff_in(&coin(1), 7).unwrap();
    assert!(p.try_bet(100, 333, 1, 50, 1, 2));
    assert_eq!(p.role, Role::PlaceBet);
    assert_eq!(lines(&p.bet_bank), vec![(coin(1), 100)]);
    assert_eq!(lines(&p.owned_bank), vec![(coin(1), 907)]);
    p.role = Role::Normal;
    assert!(p.try_bet(100, 333, 1, 51, 70, 2));
    assert_eq!(p.bet_bank.get_values_of_bank(), 133);
    assert!(p.try_bet(100, 333, 1, 51, 71, 5));
    assert_eq!(p.bet_bank.get_values_of_bank(), 265);
    assert_eq!(p.owned_bank.get_values_of_bank(), 742);
    assert!(p.try_bet(168, 333, 1, 100, 100, 5));
    assert_eq!(p.bet_bank.get_values_of_bank(), 333);
    assert_eq!(p.role, Role::PlaceBet);
}

#[test]
fn one_try_above_the_highest_bet_is_passed_over() {
    let mut p = Player::new("Bob");
    p.owned_bank.stuff_in(&coin(1), 1000).unwrap();
    p.bet_bank.stuff_in(&coin(1), 7).unwrap();
    assert!(!p.try_bet(169, 333, 1, 100, 100, 5));
    assert_eq!(p.role, Role::Normal);
    assert_eq!(lines(&p.bet_bank), vec![(coin(1), 7)]);
    assert_eq!(lines(&p.owned_bank), vec![(coin(1), 1000)]);
    assert!(!p.try_bet(334, 333, 1, 1, 1, 2));
    assert!(!p.try_bet(301, 333, 1, 51, 1, 2));
    assert!(p.try_bet(300, 333, 1, 51, 1, 2));
    assert_eq!(p.bet_bank.get_values_of_bank(), 333);
}

#[test]
fn one_try_that_cannot_be_bet_leaves_the_seat_as_it_was() {
    let mut p = Player::new("Bob");
    p.role = Role::XiaoMang(4);
    p.owned_bank.stuff_in(&coin(10), 5).unwrap();
    p.bet_bank.stuff_in(&coin(10), 1).unwrap();
    assert!(!p.try_bet(100, 333, 1, 1, 1, 2));
    assert_eq!(p.role, Role::XiaoMang(4));
    assert_eq!(p.bet_bank.count(&coin(10)), 1);
    assert_eq!(p.owned_bank.count(&coin(10)), 5);
    assert!(!p.try_bet(20, 333, 1, 51, 1, 2));
    assert_eq!(p.role, Role::XiaoMang(4));
    assert_eq!(p.bet_bank.get_values_of_bank(), 10);
    assert_eq!(p.owned_bank.get_values_of_bank(), 50);
    assert!(p.try_bet(20, 333, 10, 51, 1, 2));
    assert_eq!(p.role, Role::PlaceBet);
    assert_eq!(p.bet_bank.get_values_of_bank(), 60);
    assert_eq!(p.owned_bank.kinds(), 0);
}

#[test]
fn a_seat_that_decides_for_itself_bets_within_the_limits_or_gives_up() {
    let mut placed_once = false;
    let mut gave_up_once = false;
    for seed in 0..60u64 {
        let mut rng = RandomSource::from_seed(seed);
        let mut p = Player::new("Bob");
        p.owned_bank.stuff_in(&coin(1), 1000).unwrap();
        p.bet_bank.stuff_in(&coin(1), 7).unwrap();
        let placed = p.place_a_bet_with_last_value(100, 333, 1, &mut rng);
        assert_eq!(p.owned_bank.get_values_of_bank() + p.bet_bank.get_values_of_bank(), 1007);
        if placed {
            placed_once = true;
            assert_eq!(p.role, Role::PlaceBet);
            let bet = p.bet_bank.get_values_of_bank();
            assert!(bet >= 100 && bet <= 333);
            assert!([0, 33, 66, 99, 132, 165].contains(&(bet - 100)));
        } else {
            gave_up_once = true;
            assert_eq!(p.role, Role::GiveUp);
        }
    }
    assert!(placed_once && gave_up_once);
}

#[test]
fn a_seat_that_cannot_meet_the_amount_gives_up() {
    for seed in 0..10u64 {
        let mut rng = RandomSource::from_seed(seed);
        let mut p = Player::new("Bob");
        p.owned_bank.stuff_in(&coin(1), 50).unwrap();
        assert!(!p.place_a_bet_with_last_value(100, 333, 1, &mut rng));
        assert_eq!(p.role, Role::GiveUp);
        assert_eq!(p.owned_bank.get_values_of_bank(), 50);
        let mut q = Player::new("Cara");
        q.owned_bank.stuff_in(&coin(1), 1000).unwrap();
        assert!(!q.place_a_bet_with_last_value(400, 333, 1, &mut rng));
        assert_eq!(q.role, Role::GiveUp);
    }
}

#[test]
fn the_stake_is_put_in_whole_or_not_at_all() {
    let mut p = Player::new("Bob");
    let (c10, c5) = (coin(10), coin(5));
    let stake: Vec<(&StuffType, i32)> = vec![(&c10, 2), (&c5, -1)];
    assert_eq!(p.initial_my_owned_bank(&stake), Err(ErrorKind::InvalidQuantity));
    assert_eq!(p.owned_bank.kinds(), 0);
    let good: Vec<(&StuffType, i32)> = vec![(&c10, 2), (&c5, 1)];
    assert_eq!(p.initial_my_owned_bank(&good), Ok(()));
    assert_eq!(p.owned_bank.get_values_of_bank(), 25);
    p.bet_bank.stuff_in(&c5, 1).unwrap();
    p.clear_my_bet_bank();
    assert_eq!(p.bet_bank.kinds(), 0);
    p.cards_bank.stuff_in(&c5, 1).unwrap();
    p.clear_my_cards();
    assert_eq!(p.cards_bank.kinds(), 0);
}

#[test]
fn chips_go_to_the_pot_and_back() {
    let mut p = rich();
    let mut pot = CashPool::new();
    let c10 = coin(10);
    let bet: Vec<(&StuffType, i32)> = vec![(&c10, 2)];
    p.place_a_bet(&bet).unwrap();
    assert_eq!(p.send_bets_to_pool(&mut pot), Ok(()));
    assert_eq!(p.bet_bank.kinds(), 0);
    assert_eq!(pot.cash_pool.get_values_of_bank(), 20);
    assert_eq!(p.send_owned_to_pool(&mut pot), Ok(()));
    assert_eq!(p.owned_bank.kinds(), 0);
    assert_eq!(pot.cash_pool.get_values_of_bank(), 60);
    assert_eq!(p.get_bets_from_pool(&mut pot), Ok(()));
    assert_eq!(pot.cash_pool.kinds(), 0);
    assert_eq!(p.owned_bank.get_values_of_bank(), 60);
    pot.cash_pool.stuff_in(&c10, 1).unwrap();
    pot.clear_cash_pool();
    assert_eq!(pot.cash_pool.kinds(), 0);
}

#[test]
fn two_cards_are_dealt_and_returned() {
    let mut rng = RandomSource::from_seed(9);
    let mut deck = CardPool::new();
    let mut p = Player::new("Bob");
    assert_eq!(p.get_two_cards(&mut deck, &mut rng), Ok(()));
    assert_eq!(p.cards_bank.kinds(), 2);
    assert_eq!(deck.card_pool.kinds(), 50);
    let mut board = FiveCards::new();
    assert_eq!(board.get_five_cards(&mut deck, &mut rng), Ok(()));
    assert_eq!(board.five_cards.kinds(), 5);
    assert_eq!(deck.card_pool.kinds(), 45);
    let seven = p.seven_cards(&board).unwrap();
    assert_eq!(seven.len(), 7);
    let (rank, _) = p.get_cards_max_value_and_category(&board);
    assert!(rank >= 10 && rank <= 970);
    assert_eq!(p.send_cards_back(&mut deck), Ok(()));
    assert_eq!(board.send_cards_back(&mut deck), Ok(()));
    assert_eq!(deck.card_pool.kinds(), 52);
    assert_eq!(p.cards_bank.kinds(), 0);
    assert!(p.seven_cards(&board).is_none());
    board.five_cards.stuff_in(&coin(1), 1).unwrap();
    board.clear_five_cards();
    assert_eq!(board.five_cards.kinds(), 0);
    let mut small = CardPool::new();
    small.card_pool.stuff_clear();
    small.card_pool.stuff_in(&CardType(Card::new(2, HeiTao).unwrap()), 1).unwrap();
    assert_eq!(p.get_two_cards(&mut small, &mut rng), Err(ErrorKind::InsufficientStuff));
    assert_eq!(small.card_pool.kinds(), 1);
}

#[test]
fn a_seat_shows_the_best_hand_of_its_seven_cards() {
    let mut p = Player::new("Bob");
    let mut board = FiveCards::new();
    for card in [Card::new(13, HeiTao).unwrap(), Card::new(13, HongTao).unwrap()] {
        p.cards_bank.stuff_in(&CardType(card), 1).unwrap();
    }
    for card in [
        Card::new(3, FangKuai).unwrap(),
        Card::new(8, MeiHua).unwrap(),
        Card::new(9, HongTao).unwrap(),
        Card::new(11, HeiTao).unwrap(),
        Card::new(4, MeiHua).unwrap(),
    ] {
        board.five_cards.stuff_in(&CardType(card), 1).unwrap();
    }
    assert_eq!(p.get_cards_max_value_and_category(&board), (154, FiveCardsCategory::Pair));
    let with_chip = {
        let mut q = Player::new("Cara");
        q.cards_bank.stuff_in(&CardType(Card::new(13, HeiTao).unwrap()), 1).unwrap();
        q.cards_bank.stuff_in(&coin(1), 1).unwrap();
        q
    };
    assert!(with_chip.seven_cards(&board).is_none());
}
