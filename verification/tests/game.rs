use poker_engine::bank::{BankManager, StuffType};
use poker_engine::bank::StuffType::GeneralType;
use poker_engine::error::ErrorKind;
use poker_engine::game::{Game, GameStatus, MyEvent, Outcome};
use poker_engine::player::{Player, Role};
use poker_engine::random::RandomSource;

fn send(game: &mut Game, event: MyEvent, rng: &mut RandomSource) -> Result<Outcome, ErrorKind> {
    match game.receive_my_event(event, rng) {
        Ok(report) => Ok(report.outcome),
        Err(refusal) => Err(refusal.kind),
    }
}

fn chips(game: &Game) -> i64 {
    let mut total = 0i64;
    for p in game.players.iter() {
        total += p.owned_bank.get_values_of_bank() as i64 + p.bet_bank.get_values_of_bank() as i64;
    }
    total
}

#[test]
fn test_game() {
    let mut rng = RandomSource::from_seed(2024);
    let mut game = Game::new();

    match game.receive_my_event(MyEvent::AddBot { num: 9 }, &mut rng) {
        Ok(t) => println!("{:?}", t),
        Err(e) => println!("{:?}", e),
    }
    println!("{:?}\n", game);

    let stuff: Vec<(&StuffType, i32)> = vec![
        (&GeneralType("洗发水", 50), 2),
        (&GeneralType("牛肉干", 30), 4),
        (&GeneralType("书本", 20), 6),
        (&GeneralType("水杯", 10), 8),
        (&GeneralType("直尺", 5), 10),
    ];

    match game.receive_my_event(MyEvent::ResetGame { assets: &stuff }, &mut rng) {
        Ok(t) => println!("{:?}", t),
        Err(e) => println!("{:?}", e),
    }
    println!("{:?}\n", game);

    for _k in 0..10 {
        match game.receive_my_event(MyEvent::StartNextGame, &mut rng) {
            Ok(t) => println!("{:?}", t),
            Err(e) => println!("{:?}", e),
        }
        println!("{:?}\n", game);

        match game.receive_my_event(MyEvent::PickCards, &mut rng) {
            Ok(t) => println!("{:?}", t),
            Err(e) => println!("{:?}", e),
        }
        println!("{:?}\n", game);

        for _i in 0..4 {
            match game.receive_my_event(MyEvent::PlaceABet_Auto, &mut rng) {
                Ok(t) => println!("{:?}", t),
                Err(e) => println!("{:?}", e),
            }
            println!("{:?}\n", game);
        }

        match game.receive_my_event(MyEvent::ConfirmBalance, &mut rng) {
            Ok(t) => println!("{:?}", t),
            Err(e) => println!("{:?}", e),
        }
        println!("{:?}\n", game);
    }
}

#[test]
fn two_seats_keep_two_thousand_chips() {
    for seed in 0..20u64 {
        let mut rng = RandomSource::from_seed(seed);
        let mut game = Game::new();
        assert_eq!(
            send(&mut game, MyEvent::AddBot { num: 1 }, &mut rng),
            Ok(Outcome::Added(1))
        );
        let unit = GeneralType("chip", 1);
        let stake: Vec<(&StuffType, i32)> = vec![(&unit, 1000)];
        assert_eq!(
            send(&mut game, MyEvent::ResetGame { assets: &stake }, &mut rng),
            Ok(Outcome::Reset)
        );
        assert_eq!(game.game_status, GameStatus::Setting);
        assert_eq!(chips(&game), 2000);
        assert_eq!(game.min_value_unit, 1);
        assert_eq!(game.get_XiaoMang_value(), 33);
        assert_eq!(game.get_DaMang_value(), 66);
        assert_eq!(game.get_max_bet_value(), 333);
        let mut blinds = 0;
        for p in game.players.iter() {
            match p.role {
                Role::XiaoMang(v) => blinds += v,
                Role::DaMang(v) => blinds += v,
                _ => {}
            }
        }
        assert_eq!(blinds, 33 + 66);
        assert_eq!(
            send(&mut game, MyEvent::StartNextGame, &mut rng),
            Ok(Outcome::Started(2))
        );
        assert_eq!(game.game_status, GameStatus::CardsPicking);
        let picked = send(&mut game, MyEvent::PickCards, &mut rng);
        assert!(picked.is_ok());
        assert_eq!(chips(&game), 2000);
        for p in game.players.iter() {
            assert_eq!(p.cards_bank.kinds(), 2);
        }
        assert_eq!(game.five_cards.five_cards.kinds(), 5);
        assert_eq!(game.card_pool.card_pool.kinds(), 52 - 9);
        for _round in 0..4 {
            let _ = send(&mut game, MyEvent::PlaceABet_Auto, &mut rng);
            assert_eq!(chips(&game), 2000);
        }
        assert_eq!(game.game_status, GameStatus::Balancing);
        let settled = send(&mut game, MyEvent::ConfirmBalance, &mut rng);
        assert!(matches!(settled, Ok(Outcome::Settled { .. })));
        assert_eq!(chips(&game), 2000);
        assert_eq!(game.cash_pool.cash_pool.kinds(), 0);
        assert_eq!(game.card_pool.card_pool.kinds(), 52);
        assert_eq!(
            send(&mut game, MyEvent::ConfirmBalance, &mut rng),
            Err(ErrorKind::IllegalTransition)
        );
    }
}

#[test]
fn events_out_of_state_are_refused() {
    let mut rng = RandomSource::from_seed(1);
    let mut game = Game::new();
    let none: Vec<(&StuffType, i32)> = Vec::new();
    assert_eq!(send(&mut game, MyEvent::PickCards, &mut rng), Err(ErrorKind::IllegalTransition));
    assert_eq!(
        send(&mut game, MyEvent::PlaceABet { bet: &none }, &mut rng),
        Err(ErrorKind::IllegalTransition)
    );
    assert_eq!(send(&mut game, MyEvent::PlaceABet_Auto, &mut rng), Err(ErrorKind::IllegalTransition));
    assert_eq!(send(&mut game, MyEvent::GiveUp, &mut rng), Err(ErrorKind::IllegalTransition));
    assert_eq!(send(&mut game, MyEvent::ConfirmBalance, &mut rng), Err(ErrorKind::IllegalTransition));
    assert_eq!(game.game_status, GameStatus::Setting);
    assert_eq!(send(&mut game, MyEvent::StartNextGame, &mut rng), Ok(Outcome::Started(1)));
    assert_eq!(send(&mut game, MyEvent::AddBot { num: 1 }, &mut rng), Err(ErrorKind::IllegalTransition));
    assert_eq!(send(&mut game, MyEvent::StartNextGame, &mut rng), Err(ErrorKind::IllegalTransition));
    assert_eq!(game.players.len(), 1);
}

#[test]
fn roster_is_full_at_ten() {
    let mut rng = RandomSource::from_seed(1);
    let mut game = Game::new();
    assert_eq!(send(&mut game, MyEvent::AddBot { num: 4 }, &mut rng), Ok(Outcome::Added(4)));
    assert_eq!(game.players[4].name, "David");
    assert_eq!(send(&mut game, MyEvent::AddBot { num: 6 }, &mut rng), Err(ErrorKind::RosterFull));
    assert_eq!(game.players.len(), 10);
    assert_eq!(game.players[9].name, "Ian");
    assert_eq!(game.add_a_player("Zoe"), Err(ErrorKind::RosterFull));
    assert!(game.is_wf());
}

fn seat(name: &str, role: Role, owned: i32, bet: i32) -> Player {
    let mut p = Player::new(name);
    p.role = role;
    let unit = GeneralType("chip", 1);
    p.owned_bank.stuff_in(&unit, owned).unwrap();
    p.bet_bank.stuff_in(&unit, bet).unwrap();
    p
}

#[test]
fn folded_middle_seat_is_passed_over() {
    for seed in 0..20u64 {
        let mut rng = RandomSource::from_seed(seed);
        let mut game = Game::new();
        game.players = vec![
            seat("ME", Role::PlaceBet, 900, 100),
            seat("Alice", Role::GiveUp, 1000, 0),
            seat("Bob", Role::Normal, 1000, 0),
        ];
        game.game_status = GameStatus::BetPlacing1;
        game.last_XiaoMang_ID = 0;
        game.min_value_unit = 1;
        assert!(game.is_wf());
        let outcome = game.resolve(poker_engine::round::Mode::Human, &mut rng, &mut Vec::new());
        assert_eq!(outcome, Outcome::Resolved);
        assert_eq!(game.players[1].role, Role::GiveUp);
        assert_eq!(game.players[1].owned_bank.get_values_of_bank(), 1000);
        assert_eq!(game.players[1].bet_bank.get_values_of_bank(), 0);
        assert_eq!(game.players[0].role, Role::PlaceBet);
        assert_eq!(game.players[0].bet_bank.get_values_of_bank(), 100);
        match game.players[2].role {
            Role::PlaceBet => {
                let bet = game.players[2].bet_bank.get_values_of_bank();
                assert!(bet >= 100 && bet <= 1000);
            }
            Role::GiveUp => {}
            other => panic!("the last seat did not act: {:?}", other),
        }
        assert_eq!(chips(&game), 3000);
    }
}

#[test]
fn after_the_deal_each_blind_has_bet_its_blind_or_nothing() {
    for seed in 0..40u64 {
        let mut rng = RandomSource::from_seed(seed);
        let mut game = Game::new();
        send(&mut game, MyEvent::AddBot { num: 1 }, &mut rng).unwrap();
        let unit = GeneralType("chip", 1);
        let stake: Vec<(&StuffType, i32)> = vec![(&unit, 1000)];
        send(&mut game, MyEvent::ResetGame { assets: &stake }, &mut rng).unwrap();
        send(&mut game, MyEvent::StartNextGame, &mut rng).unwrap();
        let blinds: Vec<i64> = game
            .players
            .iter()
            .map(|p| match p.role {
                Role::XiaoMang(v) => v,
                Role::DaMang(v) => v,
                _ => 0,
            })
            .collect();
        assert!(blinds == vec![33, 66] || blinds == vec![66, 33]);
        assert!(send(&mut game, MyEvent::PickCards, &mut rng).is_ok());
        let small = game.get_XiaoMang_value();
        let big = game.get_DaMang_value();
        assert_eq!((small, big), (33, 66));
        let mut posted = 0;
        for (p, blind) in game.players.iter().zip(blinds.iter()) {
            let bet = p.bet_bank.get_values_of_bank() as i64;
            assert!(bet == 0 || bet == *blind);
            posted += bet;
        }
        assert!(posted <= small + big);
        assert_eq!(chips(&game), 2000);
    }
}
