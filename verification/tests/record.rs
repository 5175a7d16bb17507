use poker_engine::bank::StuffType::{CardType, GeneralType};
use poker_engine::bank::{BankManager, StuffType};
use poker_engine::card::CardColor::{FangKuai, HeiTao, HongTao, MeiHua};
use poker_engine::card::{Card, CardColor};
use poker_engine::error::ErrorKind;
use poker_engine::game::{Game, GameStatus, MyEvent, Outcome};
use poker_engine::player::{Player, Role};
use poker_engine::random::RandomSource;
use poker_engine::trace::{Deed, Step};

fn chip() -> StuffType {
    GeneralType("chip", 1)
}

fn seated(name: &str, role: Role, owned: i32, bet: i32) -> Player {
    let mut p = Player::new(name);
    p.role = role;
    p.owned_bank.stuff_in(&chip(), owned).unwrap();
    p.bet_bank.stuff_in(&chip(), bet).unwrap();
    p
}

fn set_up(players: Vec<Player>, status: GameStatus, small_seat: i32) -> Game {
    let mut game = Game::new();
    game.players = players;
    game.game_status = status;
    game.last_XiaoMang_ID = small_seat;
    game.min_value_unit = 1;
    assert!(game.is_wf());
    game
}

fn hold(game: &mut Game, seat: usize, cards: [(u8, CardColor); 2]) {
    for (rank, suit) in cards {
        let card = CardType(Card::new(rank, suit).unwrap());
        game.card_pool.card_pool.stuff_out(&card, 1).unwrap();
        game.players[seat].cards_bank.stuff_in(&card, 1).unwrap();
    }
}

fn lay(game: &mut Game, cards: [(u8, CardColor); 5]) {
    for (rank, suit) in cards {
        let card = CardType(Card::new(rank, suit).unwrap());
        game.card_pool.card_pool.stuff_out(&card, 1).unwrap();
        game.five_cards.five_cards.stuff_in(&card, 1).unwrap();
    }
}

fn step(seat: usize, deed: Deed) -> Step {
    Step { seat, deed, refused: None }
}

#[test]
fn seating_is_recorded() {
    let mut rng = RandomSource::from_seed(1);
    let mut game = Game::new();
    let report = game.receive_my_event(MyEvent::AddBot { num: 2 }, &mut rng).unwrap();
    assert_eq!(report.outcome, Outcome::Added(2));
    assert_eq!(report.trace, vec![step(1, Deed::Seated), step(2, Deed::Seated)]);
    let u = chip();
    let stake: Vec<(&StuffType, i32)> = vec![(&u, 100)];
    let report = game.receive_my_event(MyEvent::ResetGame { assets: &stake }, &mut rng).unwrap();
    assert_eq!(report.trace, vec![step(0, Deed::Staked), step(1, Deed::Staked), step(2, Deed::Staked)]);
    let bad: Vec<(&StuffType, i32)> = vec![(&u, -1)];
    let refusal = game.receive_my_event(MyEvent::ResetGame { assets: &bad }, &mut rng).unwrap_err();
    assert_eq!(refusal.kind, ErrorKind::InvalidQuantity);
    assert_eq!(refusal.trace.len(), 3);
    for (i, s) in refusal.trace.iter().enumerate() {
        assert_eq!(*s, Step { seat: i, deed: Deed::Staked, refused: Some(ErrorKind::InvalidQuantity) });
    }
    let report = game.receive_my_event(MyEvent::StartNextGame, &mut rng).unwrap();
    assert!(report.trace.is_empty());
    let refusal = game.receive_my_event(MyEvent::StartNextGame, &mut rng).unwrap_err();
    assert_eq!(refusal.kind, ErrorKind::IllegalTransition);
    assert!(refusal.trace.is_empty());
    game.game_status = GameStatus::Balancing;
    let report = game.receive_my_event(MyEvent::StartNextGame, &mut rng).unwrap();
    assert_eq!(
        report.trace,
        vec![step(0, Deed::Assigned), step(1, Deed::Assigned), step(2, Deed::Assigned)]
    );
}

#[test]
fn dealing_and_posting_are_recorded() {
    let mut rng = RandomSource::from_seed(4);
    let mut game = set_up(
        vec![
            seated("ME", Role::Normal, 1000, 0),
            seated("Alice", Role::XiaoMang(33), 1000, 0),
            seated("Bob", Role::Quit, 0, 0),
            seated("Cara", Role::DaMang(2000), 1000, 0),
        ],
        GameStatus::CardsPicking,
        1,
    );
    let report = game.receive_my_event(MyEvent::PickCards, &mut rng).unwrap();
    assert_eq!(report.outcome, Outcome::Resolved);
    assert_eq!(
        report.trace,
        vec![
            step(0, Deed::Dealt),
            step(1, Deed::Dealt),
            step(3, Deed::Dealt),
            step(0, Deed::Shared),
            step(1, Deed::Posted),
            Step { seat: 3, deed: Deed::Posted, refused: Some(ErrorKind::CannotCollect) },
        ]
    );
    assert_eq!(game.players[1].role, Role::PlaceBet);
    assert_eq!(game.players[3].role, Role::GiveUp);
    assert_eq!(game.players[2].cards_bank.kinds(), 0);
}

#[test]
fn the_bets_of_a_round_are_recorded_in_seat_order() {
    for seed in 0..30u64 {
        let mut rng = RandomSource::from_seed(seed);
        let mut game = set_up(
            vec![
                seated("ME", Role::Normal, 1000, 0),
                seated("Alice", Role::PlaceBet, 950, 50),
                seated("Bob", Role::Normal, 1000, 0),
                seated("Cara", Role::GiveUp, 1000, 0),
                seated("David", Role::Normal, 1000, 0),
            ],
            GameStatus::BetPlacing1,
            3,
        );
        let before: Vec<Role> = game.players.iter().map(|p| p.role).collect();
        let report = game.receive_my_event(MyEvent::PlaceABet_Auto, &mut rng).unwrap();
        let mut last = None;
        for s in report.trace.iter() {
            assert!(s.seat < 5 && s.seat != 3);
            assert!(last < Some(s.seat));
            last = Some(s.seat);
            assert_eq!(s.refused, None);
            match s.deed {
                Deed::Decided | Deed::Won => assert_eq!(game.players[s.seat].role, Role::PlaceBet),
                Deed::Folded => assert_eq!(game.players[s.seat].role, Role::GiveUp),
                other => panic!("a bet was recorded as {:?}", other),
            }
        }
        for (i, p) in game.players.iter().enumerate() {
            if !report.trace.iter().any(|s| s.seat == i) {
                assert_eq!(p.role, before[i]);
            }
        }
    }
}

#[test]
fn the_human_s_bet_is_recorded() {
    let mut rng = RandomSource::from_seed(3);
    let mut game = set_up(
        vec![seated("ME", Role::PlaceBet, 900, 100), seated("Alice", Role::PlaceBet, 850, 150)],
        GameStatus::BetPlacing2,
        0,
    );
    let u = chip();
    let same: Vec<(&StuffType, i32)> = vec![(&u, 150)];
    let refusal = game.receive_my_event(MyEvent::PlaceABet { bet: &same }, &mut rng).unwrap_err();
    assert_eq!(refusal.kind, ErrorKind::BetMismatch);
    assert_eq!(
        refusal.trace,
        vec![
            Step { seat: 0, deed: Deed::Placed, refused: Some(ErrorKind::BetMismatch) },
            step(0, Deed::Restored),
        ]
    );
    assert_eq!(game.players[0].bet_bank.get_values_of_bank(), 100);
    let more: Vec<(&StuffType, i32)> = vec![(&u, 151)];
    let report = game.receive_my_event(MyEvent::PlaceABet { bet: &more }, &mut rng).unwrap();
    assert_eq!(report.trace[0], step(0, Deed::Placed));
    for s in report.trace[1..].iter() {
        assert_eq!(s.seat, 1);
    }
    let mut waiting = set_up(
        vec![seated("ME", Role::DaMang(20), 1000, 0), seated("Alice", Role::XiaoMang(10), 1000, 0)],
        GameStatus::BetPlacing1,
        1,
    );
    let refusal = waiting.receive_my_event(MyEvent::PlaceABet { bet: &more }, &mut rng).unwrap_err();
    assert_eq!(refusal.kind, ErrorKind::NotYourTurn);
    assert!(refusal.trace.is_empty());
}

#[test]
fn giving_up_is_recorded() {
    let mut rng = RandomSource::from_seed(3);
    let mut game = set_up(
        vec![seated("ME", Role::Normal, 1000, 0), seated("Alice", Role::DaMang(20), 1000, 0)],
        GameStatus::BetPlacing1,
        0,
    );
    let report = game.receive_my_event(MyEvent::GiveUp, &mut rng).unwrap();
    assert_eq!(report.outcome, Outcome::Uncontested(1));
    assert_eq!(report.trace, vec![step(0, Deed::Folded), step(1, Deed::Won)]);
}

#[test]
fn the_settling_is_recorded() {
    let mut rng = RandomSource::from_seed(3);
    let mut game = set_up(
        vec![
            seated("ME", Role::PlaceBet, 1000, 100),
            seated("Alice", Role::PlaceBet, 2, 100),
            seated("Bob", Role::GiveUp, 500, 50),
        ],
        GameStatus::Balancing,
        0,
    );
    hold(&mut game, 0, [(13, HeiTao), (13, HongTao)]);
    hold(&mut game, 1, [(2, MeiHua), (7, FangKuai)]);
    hold(&mut game, 2, [(14, HeiTao), (14, HongTao)]);
    lay(&mut game, [(3, FangKuai), (8, MeiHua), (9, HongTao), (11, HeiTao), (4, MeiHua)]);
    let report = game.receive_my_event(MyEvent::ConfirmBalance, &mut rng).unwrap();
    assert_eq!(
        report.trace,
        vec![
            step(0, Deed::Swept),
            step(0, Deed::Returned),
            step(1, Deed::Forfeited),
            step(1, Deed::Swept),
            step(1, Deed::Returned),
            step(2, Deed::Swept),
            step(2, Deed::Returned),
            step(0, Deed::Paid),
            step(0, Deed::Cleared),
        ]
    );
    let mut full = set_up(
        vec![
            seated("ME", Role::PlaceBet, i32::MAX - 50, 50),
            seated("Alice", Role::PlaceBet, 1000, 100),
        ],
        GameStatus::Balancing,
        0,
    );
    hold(&mut full, 0, [(13, HeiTao), (13, HongTao)]);
    hold(&mut full, 1, [(2, MeiHua), (7, FangKuai)]);
    lay(&mut full, [(3, FangKuai), (8, MeiHua), (9, HongTao), (11, HeiTao), (4, MeiHua)]);
    let report = full.receive_my_event(MyEvent::ConfirmBalance, &mut rng).unwrap();
    assert_eq!(report.outcome.clone(), Outcome::Settled {
        winner: 0,
        category: poker_engine::card::FiveCardsCategory::Pair
    });
    assert_eq!(
        report.trace[report.trace.len() - 2],
        Step { seat: 0, deed: Deed::Paid, refused: Some(ErrorKind::InvalidQuantity) }
    );
    assert_eq!(full.cash_pool.cash_pool.get_values_of_bank(), 1150);
    assert_eq!(full.players[0].owned_bank.get_values_of_bank(), i32::MAX - 50);
    assert_eq!(full.players[1].owned_bank.get_values_of_bank(), 0);
    assert_eq!(full.players[1].role, Role::Quit);
}
