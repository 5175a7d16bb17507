use poker_engine::bank::StuffType::{CardType, GeneralType};
use poker_engine::bank::{BankManager, StuffType};
use poker_engine::card::CardColor::{FangKuai, HeiTao, HongTao, MeiHua};
use poker_engine::card::{Card, CardColor, FiveCardsCategory};
use poker_engine::error::ErrorKind;
use poker_engine::game::{player_name, Game, GameStatus, MyEvent, Outcome};
use poker_engine::player::{Player, Role};
use poker_engine::random::RandomSource;
use poker_engine::round::{betting, next_status, Mode};
use poker_engine::seat::{count_bettors, count_eligible, eligible_seat, nearest_seat, total_chips, Want};
use poker_engine::turn::{turn, Turn};

fn send(game: &mut Game, event: MyEvent, rng: &mut RandomSource) -> Result<Outcome, ErrorKind> {
    match game.receive_my_event(event, rng) {
        Ok(report) => Ok(report.outcome),
        Err(refusal) => Err(refusal.kind),
    }
}

fn unit() -> StuffType {
    GeneralType("chip", 1)
}

fn seat(name: &str, role: Role, owned: i32, bet: i32) -> Player {
    let mut p = Player::new(name);
    p.role = role;
    p.owned_bank.stuff_in(&unit(), owned).unwrap();
    p.bet_bank.stuff_in(&unit(), bet).unwrap();
    p
}

fn table(players: Vec<Player>, status: GameStatus, small_seat: i32) -> Game {
    let mut game = Game::new();
    game.players = players;
    game.game_status = status;
    game.last_XiaoMang_ID = small_seat;
    game.min_value_unit = 1;
    assert!(game.is_wf());
    game
}

fn give(game: &mut Game, seat: usize, cards: [(u8, CardColor); 2]) {
    for (rank, suit) in cards {
        let card = CardType(Card::new(rank, suit).unwrap());
        game.card_pool.card_pool.stuff_out(&card, 1).unwrap();
        game.players[seat].cards_bank.stuff_in(&card, 1).unwrap();
    }
}

fn show(game: &mut Game, cards: [(u8, CardColor); 5]) {
    for (rank, suit) in cards {
        let card = CardType(Card::new(rank, suit).unwrap());
        game.card_pool.card_pool.stuff_out(&card, 1).unwrap();
        game.five_cards.five_cards.stuff_in(&card, 1).unwrap();
    }
}

#[test]
fn the_roster_names_its_seats() {
    assert_eq!(player_name(0), "ME");
    assert_eq!(player_name(1), "Alice");
    assert_eq!(player_name(9), "Ian");
    let game = Game::new();
    assert_eq!(game.players.len(), 1);
    assert_eq!(game.players[0].name, "ME");
    assert_eq!(game.game_status, GameStatus::Setting);
    assert_eq!(game.card_pool.card_pool.kinds(), 52);
    assert_eq!(game.min_value_unit, 1);
    assert!(game.is_wf());
}

#[test]
fn a_table_without_its_human_is_not_a_table() {
    let mut game = Game::new();
    game.players[0].name = String::from("Me");
    assert!(!game.is_wf());
    game.players[0].name = String::from("ME");
    game.last_XiaoMang_ID = 1;
    assert!(!game.is_wf());
    game.last_XiaoMang_ID = -1;
    assert!(!game.is_wf());
}

#[test]
fn seats_are_found_round_the_table() {
    let players = vec![
        seat("ME", Role::PlaceBet, 10, 5),
        seat("Alice", Role::GiveUp, 10, 0),
        seat("Bob", Role::Quit, 0, 0),
        seat("Cara", Role::Normal, 10, 0),
    ];
    assert_eq!(nearest_seat(&players, 3, true, Want::Eligible), Some(1));
    assert_eq!(nearest_seat(&players, 3, true, Want::Live), Some(0));
    assert_eq!(nearest_seat(&players, 3, true, Want::Bettor), Some(0));
    assert_eq!(nearest_seat(&players, 0, true, Want::Bettor), None);
    assert_eq!(nearest_seat(&players, 0, true, Want::Live), Some(3));
    assert_eq!(nearest_seat(&players, 1, false, Want::Eligible), Some(3));
    assert_eq!(nearest_seat(&players, 3, false, Want::Eligible), Some(0));
    assert_eq!(nearest_seat(&players, 0, false, Want::Live), Some(3));
    assert_eq!(count_eligible(&players), 3);
    assert_eq!(count_bettors(&players), 1);
    assert_eq!(eligible_seat(&players, 0), 0);
    assert_eq!(eligible_seat(&players, 2), 3);
    assert_eq!(total_chips(&players), 35);
}

#[test]
fn the_turn_of_a_seat_depends_on_the_seat_before_it() {
    let players = vec![
        seat("ME", Role::PlaceBet, 900, 100),
        seat("Alice", Role::GiveUp, 1000, 0),
        seat("Bob", Role::Normal, 1000, 0),
        seat("Cara", Role::Normal, 1000, 0),
        seat("David", Role::Quit, 0, 0),
    ];
    assert_eq!(turn(&players, 0, false), Turn::Wait);
    assert_eq!(turn(&players, 0, true), Turn::Idle);
    assert_eq!(turn(&players, 1, false), Turn::Idle);
    assert_eq!(turn(&players, 2, false), Turn::Act(100));
    assert_eq!(turn(&players, 3, false), Turn::Wait);
    assert_eq!(turn(&players, 4, false), Turn::Idle);
    let blinds = vec![
        seat("ME", Role::DaMang(20), 1000, 0),
        seat("Alice", Role::Normal, 1000, 0),
        seat("Bob", Role::XiaoMang(10), 1000, 0),
    ];
    assert_eq!(turn(&blinds, 0, true), Turn::Wait);
    assert_eq!(turn(&blinds, 1, true), Turn::Wait);
    assert_eq!(turn(&blinds, 2, true), Turn::Post(10));
    let posted = vec![
        seat("ME", Role::DaMang(20), 1000, 0),
        seat("Alice", Role::Normal, 1000, 0),
        seat("Bob", Role::PlaceBet, 990, 10),
    ];
    assert_eq!(turn(&posted, 0, false), Turn::Post(20));
    assert_eq!(turn(&posted, 1, false), Turn::Wait);
    let alone = vec![
        seat("ME", Role::GiveUp, 1000, 0),
        seat("Alice", Role::DaMang(20), 1000, 0),
        seat("Bob", Role::Quit, 0, 0),
    ];
    assert_eq!(turn(&alone, 1, false), Turn::Lone);
    let first = vec![seat("ME", Role::Normal, 1000, 0), seat("Alice", Role::GiveUp, 1000, 0)];
    assert_eq!(turn(&first, 0, false), Turn::Lone);
    let open = vec![
        seat("ME", Role::Normal, 1000, 0),
        seat("Alice", Role::GiveUp, 1000, 0),
        seat("Bob", Role::Normal, 1000, 0),
    ];
    assert_eq!(turn(&open, 0, false), Turn::Wait);
    assert_eq!(turn(&open, 2, false), Turn::Act(0));
}

#[test]
fn the_states_of_the_betting_rounds_follow_each_other() {
    assert_eq!(next_status(GameStatus::BetPlacing1), GameStatus::BetPlacing2);
    assert_eq!(next_status(GameStatus::BetPlacing2), GameStatus::BetPlacing3);
    assert_eq!(next_status(GameStatus::BetPlacing3), GameStatus::BetPlacing4);
    assert_eq!(next_status(GameStatus::BetPlacing4), GameStatus::Balancing);
    assert_eq!(next_status(GameStatus::Setting), GameStatus::Setting);
    assert!(betting(GameStatus::BetPlacing3));
    assert!(!betting(GameStatus::Balancing));
    assert!(!betting(GameStatus::CardsPicking));
}

#[test]
fn blinds_and_the_highest_bet_are_shares_of_the_chips() {
    let mut game = table(
        vec![
            seat("ME", Role::Normal, 1000, 0),
            seat("Alice", Role::Normal, 900, 100),
            seat("Bob", Role::Quit, 7, 0),
        ],
        GameStatus::Setting,
        0,
    );
    assert_eq!(game.get_XiaoMang_value(), 33);
    assert_eq!(game.get_DaMang_value(), 66);
    assert_eq!(game.get_max_bet_value(), 334);
    game.min_value_unit = 5;
    assert_eq!(game.get_XiaoMang_value(), 35);
    assert_eq!(game.get_DaMang_value(), 70);
    assert_eq!(game.get_max_bet_value(), 335);
    game.min_value_unit = -1;
    assert_eq!(game.get_XiaoMang_value(), 33);
    game.players[0].role = Role::Quit;
    game.players[1].role = Role::Quit;
    assert_eq!(game.get_XiaoMang_value(), 0);
    assert_eq!(game.get_max_bet_value(), 0);
}

#[test]
fn the_unit_is_the_least_face_value_in_play() {
    let mut game = Game::new();
    game.get_min_value_unit();
    assert_eq!(game.min_value_unit, -1);
    game.players[0].owned_bank.stuff_in(&GeneralType("a", 20), 1).unwrap();
    game.players[0].bet_bank.stuff_in(&GeneralType("b", 5), 1).unwrap();
    game.players[0].cards_bank.stuff_in(&GeneralType("c", 1), 1).unwrap();
    game.get_min_value_unit();
    assert_eq!(game.min_value_unit, 5);
}

#[test]
fn the_blinds_are_dealt_to_eligible_seats() {
    let mut game = table(
        vec![
            seat("ME", Role::PlaceBet, 1000, 0),
            seat("Alice", Role::Quit, 0, 0),
            seat("Bob", Role::GiveUp, 1000, 0),
            seat("Cara", Role::Normal, 1000, 0),
        ],
        GameStatus::Setting,
        0,
    );
    game.assign_blinds(3, 10, 20);
    let roles: Vec<Role> = game.players.iter().map(|p| p.role).collect();
    assert_eq!(roles, vec![Role::DaMang(20), Role::Quit, Role::Normal, Role::XiaoMang(10)]);
    assert_eq!(game.last_XiaoMang_ID, 3);
    game.assign_blinds(0, 11, 22);
    let roles: Vec<Role> = game.players.iter().map(|p| p.role).collect();
    assert_eq!(roles, vec![Role::XiaoMang(11), Role::Quit, Role::DaMang(22), Role::Normal]);
}

#[test]
fn the_small_blind_passes_to_the_next_eligible_seat() {
    let mut rng = RandomSource::from_seed(1);
    let mut game = table(
        vec![
            seat("ME", Role::PlaceBet, 1000, 0),
            seat("Alice", Role::Quit, 0, 0),
            seat("Bob", Role::GiveUp, 1000, 0),
            seat("Cara", Role::PlaceBet, 1000, 0),
        ],
        GameStatus::Balancing,
        0,
    );
    game.min_value_unit = 7;
    assert_eq!(send(&mut game, MyEvent::StartNextGame, &mut rng), Ok(Outcome::Started(3)));
    assert_eq!(game.game_status, GameStatus::CardsPicking);
    assert_eq!(game.last_XiaoMang_ID, 2);
    assert_eq!(game.min_value_unit, 1);
    let roles: Vec<Role> = game.players.iter().map(|p| p.role).collect();
    assert_eq!(roles, vec![Role::Normal, Role::Quit, Role::XiaoMang(33), Role::DaMang(66)]);
    assert_eq!(total_chips(&game.players), 3000);
}

#[test]
fn the_match_is_over_with_one_eligible_seat() {
    let mut rng = RandomSource::from_seed(1);
    let mut game = table(
        vec![
            seat("ME", Role::PlaceBet, 2000, 0),
            seat("Alice", Role::Quit, 0, 0),
        ],
        GameStatus::Balancing,
        0,
    );
    assert_eq!(send(&mut game, MyEvent::StartNextGame, &mut rng), Ok(Outcome::MatchOver(1)));
    assert_eq!(game.game_status, GameStatus::Balancing);
    assert_eq!(game.players[0].role, Role::PlaceBet);
}

#[test]
fn an_invalid_stake_is_refused() {
    let mut rng = RandomSource::from_seed(1);
    let mut game = Game::new();
    send(&mut game, MyEvent::AddBot { num: 2 }, &mut rng).unwrap();
    game.players[1].owned_bank.stuff_in(&unit(), 5).unwrap();
    game.game_status = GameStatus::BetPlacing3;
    let u = unit();
    let bad: Vec<(&StuffType, i32)> = vec![(&u, 100), (&u, -1)];
    assert_eq!(
        send(&mut game, MyEvent::ResetGame { assets: &bad }, &mut rng),
        Err(ErrorKind::InvalidQuantity)
    );
    assert_eq!(game.game_status, GameStatus::Setting);
    assert_eq!(total_chips(&game.players), 0);
    let good: Vec<(&StuffType, i32)> = vec![(&u, 100), (&u, 50)];
    assert_eq!(send(&mut game, MyEvent::ResetGame { assets: &good }, &mut rng), Ok(Outcome::Reset));
    assert_eq!(total_chips(&game.players), 450);
    assert_eq!(send(&mut game, MyEvent::ResetGame { assets: &good }, &mut rng), Ok(Outcome::Reset));
    assert_eq!(total_chips(&game.players), 450);
    let small = game.last_XiaoMang_ID as usize;
    let big = (small + 1) % 3;
    assert_eq!(game.players[small].role, Role::XiaoMang(5));
    assert_eq!(game.players[big].role, Role::DaMang(10));
    assert_eq!(game.players[(small + 2) % 3].role, Role::Normal);
}

#[test]
fn every_seat_is_drawn_for_the_small_blind() {
    let mut seen = [false; 3];
    for seed in 0..40u64 {
        let mut rng = RandomSource::from_seed(seed);
        let mut game = Game::new();
        send(&mut game, MyEvent::AddBot { num: 2 }, &mut rng).unwrap();
        let u = unit();
        let stake: Vec<(&StuffType, i32)> = vec![(&u, 100)];
        send(&mut game, MyEvent::ResetGame { assets: &stake }, &mut rng).unwrap();
        seen[game.last_XiaoMang_ID as usize] = true;
    }
    assert_eq!(seen, [true, true, true]);
}

#[test]
fn the_human_posts_the_small_blind_exactly() {
    let mut rng = RandomSource::from_seed(3);
    let mut game = table(
        vec![seat("ME", Role::XiaoMang(10), 1000, 0), seat("Alice", Role::DaMang(20), 1000, 0)],
        GameStatus::BetPlacing1,
        0,
    );
    let u = unit();
    let nine: Vec<(&StuffType, i32)> = vec![(&u, 9)];
    assert_eq!(
        send(&mut game, MyEvent::PlaceABet { bet: &nine }, &mut rng),
        Err(ErrorKind::BetMismatch)
    );
    assert_eq!(game.game_status, GameStatus::BetPlacing1);
    assert_eq!(game.players[0].role, Role::XiaoMang(10));
    assert_eq!(game.players[0].bet_bank.get_values_of_bank(), 0);
    assert_eq!(game.players[1].role, Role::DaMang(20));
    let many: Vec<(&StuffType, i32)> = vec![(&u, 1001)];
    assert_eq!(
        send(&mut game, MyEvent::PlaceABet { bet: &many }, &mut rng),
        Err(ErrorKind::InsufficientStuff)
    );
    let ten: Vec<(&StuffType, i32)> = vec![(&u, 10)];
    assert_eq!(
        send(&mut game, MyEvent::PlaceABet { bet: &ten }, &mut rng),
        Ok(Outcome::Resolved)
    );
    assert_eq!(game.game_status, GameStatus::BetPlacing2);
    assert_eq!(game.players[0].role, Role::PlaceBet);
    assert_eq!(game.players[0].bet_bank.get_values_of_bank(), 10);
    assert_eq!(game.players[1].role, Role::PlaceBet);
    assert_eq!(game.players[1].bet_bank.get_values_of_bank(), 20);
    assert_eq!(total_chips(&game.players), 2000);
}

#[test]
fn a_refused_bet_leaves_the_former_bet() {
    let mut rng = RandomSource::from_seed(3);
    let mut game = table(
        vec![seat("ME", Role::PlaceBet, 900, 100), seat("Alice", Role::PlaceBet, 850, 150)],
        GameStatus::BetPlacing2,
        0,
    );
    let u = unit();
    let same: Vec<(&StuffType, i32)> = vec![(&u, 150)];
    assert_eq!(
        send(&mut game, MyEvent::PlaceABet { bet: &same }, &mut rng),
        Err(ErrorKind::BetMismatch)
    );
    assert_eq!(game.game_status, GameStatus::BetPlacing2);
    assert_eq!(game.players[0].bet_bank.get_values_of_bank(), 100);
    assert_eq!(game.players[0].owned_bank.get_values_of_bank(), 900);
    assert_eq!(game.players[0].role, Role::PlaceBet);
    let more: Vec<(&StuffType, i32)> = vec![(&u, 151)];
    assert!(send(&mut game, MyEvent::PlaceABet { bet: &more }, &mut rng).is_ok());
    assert_eq!(game.players[0].bet_bank.get_values_of_bank(), 151);
    assert_eq!(game.players[0].role, Role::PlaceBet);
    assert_eq!(total_chips(&game.players), 2000);
}

#[test]
fn the_human_waits_for_the_seat_before_it() {
    let mut rng = RandomSource::from_seed(3);
    let mut game = table(
        vec![seat("ME", Role::DaMang(20), 1000, 0), seat("Alice", Role::XiaoMang(10), 1000, 0)],
        GameStatus::BetPlacing1,
        1,
    );
    let u = unit();
    let twenty: Vec<(&StuffType, i32)> = vec![(&u, 20)];
    assert_eq!(
        send(&mut game, MyEvent::PlaceABet { bet: &twenty }, &mut rng),
        Err(ErrorKind::NotYourTurn)
    );
    assert_eq!(game.game_status, GameStatus::BetPlacing1);
    assert_eq!(game.players[0].role, Role::DaMang(20));
    assert_eq!(game.players[0].bet_bank.kinds(), 0);
    assert_eq!(game.players[1].role, Role::XiaoMang(10));
}

#[test]
fn the_last_seat_in_the_hand_wins_it() {
    let mut rng = RandomSource::from_seed(3);
    let mut game = table(
        vec![
            seat("ME", Role::Normal, 1000, 0),
            seat("Alice", Role::GiveUp, 900, 100),
            seat("Bob", Role::Quit, 0, 0),
        ],
        GameStatus::BetPlacing2,
        1,
    );
    give(&mut game, 0, [(2, HeiTao), (7, HongTao)]);
    give(&mut game, 1, [(14, HeiTao), (14, HongTao)]);
    show(&mut game, [(3, FangKuai), (8, MeiHua), (9, HongTao), (11, HeiTao), (4, MeiHua)]);
    let u = unit();
    let any: Vec<(&StuffType, i32)> = vec![(&u, 1)];
    assert_eq!(
        send(&mut game, MyEvent::PlaceABet { bet: &any }, &mut rng),
        Ok(Outcome::Uncontested(0))
    );
    assert_eq!(game.game_status, GameStatus::Balancing);
    assert_eq!(game.players[0].role, Role::PlaceBet);
    assert_eq!(game.players[0].bet_bank.kinds(), 0);
    assert_eq!(
        send(&mut game, MyEvent::ConfirmBalance, &mut rng),
        Ok(Outcome::Settled { winner: 0, category: FiveCardsCategory::HighCard })
    );
    assert_eq!(game.players[0].owned_bank.get_values_of_bank(), 1100);
    assert_eq!(game.players[1].owned_bank.get_values_of_bank(), 900);
    assert_eq!(game.players[1].role, Role::GiveUp);
    assert_eq!(game.players[2].role, Role::Quit);
    assert_eq!(game.card_pool.card_pool.kinds(), 52);
}

#[test]
fn a_bot_that_is_alone_wins_while_the_seats_are_resolved() {
    let mut rng = RandomSource::from_seed(3);
    let mut game = table(
        vec![seat("ME", Role::Normal, 1000, 0), seat("Alice", Role::DaMang(20), 1000, 0)],
        GameStatus::BetPlacing1,
        0,
    );
    assert_eq!(send(&mut game, MyEvent::GiveUp, &mut rng), Ok(Outcome::Uncontested(1)));
    assert_eq!(game.game_status, GameStatus::Balancing);
    assert_eq!(game.players[0].role, Role::GiveUp);
    assert_eq!(game.players[1].role, Role::PlaceBet);
    assert_eq!(total_chips(&game.players), 2000);
    let mut spectator = table(
        vec![seat("ME", Role::Quit, 0, 0), seat("Alice", Role::PlaceBet, 1000, 0)],
        GameStatus::BetPlacing4,
        1,
    );
    assert_eq!(send(&mut spectator, MyEvent::GiveUp, &mut rng), Ok(Outcome::HandEnded));
    assert_eq!(spectator.players[0].role, Role::Quit);
    assert_eq!(spectator.game_status, GameStatus::Balancing);
}

#[test]
fn the_hand_ends_at_the_seat_of_the_small_blind() {
    let mut rng = RandomSource::from_seed(3);
    let mut game = table(
        vec![
            seat("ME", Role::PlaceBet, 900, 100),
            seat("Alice", Role::PlaceBet, 900, 100),
            seat("Bob", Role::PlaceBet, 900, 100),
        ],
        GameStatus::BetPlacing4,
        1,
    );
    assert_eq!(send(&mut game, MyEvent::PlaceABet_Auto, &mut rng), Ok(Outcome::HandEnded));
    assert_eq!(game.game_status, GameStatus::Balancing);
    assert_eq!(game.players[1].bet_bank.get_values_of_bank(), 100);
    assert_eq!(game.players[2].bet_bank.get_values_of_bank(), 100);
    assert_eq!(total_chips(&game.players), 3000);
    assert_eq!(send(&mut game, MyEvent::PlaceABet_Auto, &mut rng), Err(ErrorKind::IllegalTransition));
}

#[test]
fn the_showdown_pays_the_best_hand() {
    let mut rng = RandomSource::from_seed(3);
    let mut game = table(
        vec![
            seat("ME", Role::PlaceBet, 1000, 100),
            seat("Alice", Role::PlaceBet, 2, 100),
            seat("Bob", Role::GiveUp, 500, 50),
            seat("Cara", Role::PlaceBet, 700, 100),
        ],
        GameStatus::Balancing,
        0,
    );
    give(&mut game, 0, [(13, HeiTao), (13, HongTao)]);
    give(&mut game, 1, [(2, MeiHua), (7, FangKuai)]);
    give(&mut game, 2, [(14, HeiTao), (14, HongTao)]);
    give(&mut game, 3, [(13, MeiHua), (13, FangKuai)]);
    show(&mut game, [(3, FangKuai), (8, MeiHua), (9, HongTao), (11, HeiTao), (4, MeiHua)]);
    assert_eq!(game.find_winner(), (0, 154, FiveCardsCategory::Pair));
    assert_eq!(game.get_XiaoMang_value(), 2552 / 4 / 30);
    assert_eq!(
        send(&mut game, MyEvent::ConfirmBalance, &mut rng),
        Ok(Outcome::Settled { winner: 0, category: FiveCardsCategory::Pair })
    );
    assert_eq!(game.game_status, GameStatus::Balancing);
    assert_eq!(game.players[0].owned_bank.get_values_of_bank(), 1000 + 2 + 350);
    assert_eq!(game.players[1].owned_bank.get_values_of_bank(), 0);
    assert_eq!(game.players[2].owned_bank.get_values_of_bank(), 500);
    assert_eq!(game.players[3].owned_bank.get_values_of_bank(), 700);
    let roles: Vec<Role> = game.players.iter().map(|p| p.role).collect();
    assert_eq!(roles, vec![Role::PlaceBet, Role::Quit, Role::GiveUp, Role::PlaceBet]);
    for p in game.players.iter() {
        assert_eq!(p.bet_bank.kinds(), 0);
        assert_eq!(p.cards_bank.kinds(), 0);
    }
    assert_eq!(game.cash_pool.cash_pool.kinds(), 0);
    assert_eq!(game.five_cards.five_cards.kinds(), 0);
    assert_eq!(game.card_pool.card_pool.kinds(), 52);
    assert_eq!(total_chips(&game.players), 2552);
    assert_eq!(
        send(&mut game, MyEvent::ConfirmBalance, &mut rng),
        Err(ErrorKind::IllegalTransition)
    );
}

#[test]
fn a_hand_is_settled_early_with_one_bettor_only() {
    let mut rng = RandomSource::from_seed(3);
    let mut game = table(
        vec![
            seat("ME", Role::PlaceBet, 1000, 100),
            seat("Alice", Role::PlaceBet, 900, 100),
            seat("Bob", Role::GiveUp, 500, 50),
        ],
        GameStatus::BetPlacing2,
        0,
    );
    give(&mut game, 0, [(13, HeiTao), (13, HongTao)]);
    give(&mut game, 1, [(14, MeiHua), (14, FangKuai)]);
    show(&mut game, [(3, FangKuai), (8, MeiHua), (9, HongTao), (11, HeiTao), (4, MeiHua)]);
    assert_eq!(send(&mut game, MyEvent::ConfirmBalance, &mut rng), Err(ErrorKind::IllegalTransition));
    assert_eq!(game.game_status, GameStatus::BetPlacing2);
    assert_eq!(game.players[0].bet_bank.get_values_of_bank(), 100);
    game.players[0].role = Role::GiveUp;
    assert_eq!(
        send(&mut game, MyEvent::ConfirmBalance, &mut rng),
        Ok(Outcome::Settled { winner: 1, category: FiveCardsCategory::Pair })
    );
    assert_eq!(game.players[1].owned_bank.get_values_of_bank(), 1150);
    game.game_status = GameStatus::BetPlacing1;
    assert_eq!(send(&mut game, MyEvent::ConfirmBalance, &mut rng), Err(ErrorKind::IllegalTransition));
}

#[test]
fn the_seats_act_until_the_human_is_due() {
    for seed in 0..20u64 {
        let mut rng = RandomSource::from_seed(seed);
        let mut game = table(
            vec![
                seat("ME", Role::Normal, 1000, 0),
                seat("Alice", Role::XiaoMang(33), 1000, 0),
                seat("Bob", Role::DaMang(66), 1000, 0),
            ],
            GameStatus::CardsPicking,
            1,
        );
        assert_eq!(send(&mut game, MyEvent::PickCards, &mut rng), Ok(Outcome::Resolved));
        assert_eq!(game.game_status, GameStatus::BetPlacing1);
        assert_eq!(game.players[0].role, Role::Normal);
        assert_eq!(game.players[1].role, Role::PlaceBet);
        assert_eq!(game.players[1].bet_bank.get_values_of_bank(), 33);
        assert_eq!(game.players[2].role, Role::PlaceBet);
        assert_eq!(game.players[2].bet_bank.get_values_of_bank(), 66);
        for p in game.players.iter() {
            assert_eq!(p.cards_bank.kinds(), 2);
        }
        assert_eq!(game.five_cards.five_cards.kinds(), 5);
        assert_eq!(game.card_pool.card_pool.kinds(), 41);
        assert_eq!(turn(&game.players, 0, false), Turn::Act(66));
        let mut first = table(
            vec![seat("ME", Role::XiaoMang(33), 1000, 0), seat("Alice", Role::DaMang(66), 1000, 0)],
            GameStatus::CardsPicking,
            0,
        );
        assert_eq!(send(&mut first, MyEvent::PickCards, &mut rng), Ok(Outcome::YourTurn));
        assert_eq!(first.players[1].role, Role::DaMang(66));
        assert_eq!(first.players[0].bet_bank.kinds(), 0);
    }
}

#[test]
fn spectators_are_dealt_no_cards() {
    let mut rng = RandomSource::from_seed(3);
    let mut game = table(
        vec![
            seat("ME", Role::XiaoMang(33), 1000, 0),
            seat("Alice", Role::Quit, 0, 0),
            seat("Bob", Role::DaMang(66), 1000, 0),
        ],
        GameStatus::CardsPicking,
        0,
    );
    assert_eq!(send(&mut game, MyEvent::PickCards, &mut rng), Ok(Outcome::YourTurn));
    assert_eq!(game.players[1].cards_bank.kinds(), 0);
    assert_eq!(game.players[0].cards_bank.kinds(), 2);
    assert_eq!(game.card_pool.card_pool.kinds(), 52 - 9);
}

#[test]
fn resolving_in_every_mode_keeps_the_chips() {
    for seed in 0..20u64 {
        for mode in [Mode::Deal, Mode::Human, Mode::All] {
            let mut rng = RandomSource::from_seed(seed);
            let mut game = table(
                vec![
                    seat("ME", Role::Normal, 1000, 0),
                    seat("Alice", Role::PlaceBet, 950, 50),
                    seat("Bob", Role::Normal, 1000, 0),
                    seat("Cara", Role::GiveUp, 1000, 0),
                ],
                GameStatus::BetPlacing2,
                3,
            );
            let outcome = game.resolve(mode, &mut rng, &mut Vec::new());
            assert_eq!(total_chips(&game.players), 4000);
            assert_eq!(game.players[3].role, Role::GiveUp);
            assert_eq!(game.players[3].owned_bank.get_values_of_bank(), 1000);
            for p in game.players.iter() {
                assert_eq!(
                    p.owned_bank.get_values_of_bank() + p.bet_bank.get_values_of_bank(),
                    1000
                );
            }
            match outcome {
                Outcome::YourTurn => {
                    assert_eq!(mode, Mode::Deal);
                    assert_eq!(game.game_status, GameStatus::BetPlacing2);
                    assert_eq!(game.players[0].role, Role::Normal);
                    assert_eq!(game.players[2].role, Role::Normal);
                }
                Outcome::Resolved => {
                    assert_eq!(game.game_status, GameStatus::BetPlacing2);
                    assert!(mode != Mode::Deal);
                    if mode == Mode::Human {
                        assert_eq!(game.players[0].role, Role::Normal);
                    }
                    assert!(game.players[2].role != Role::Normal);
                }
                Outcome::Uncontested(winner) => {
                    assert_eq!(game.game_status, GameStatus::Balancing);
                    assert_eq!(game.players[winner].role, Role::PlaceBet);
                    for (i, p) in game.players.iter().enumerate() {
                        assert!(i == winner || p.role == Role::GiveUp);
                    }
                }
                other => panic!("the seats were resolved to {:?}", other),
            }
        }
    }
}

#[test]
fn a_copy_of_a_table_is_a_table_of_its_own() {
    let mut rng = RandomSource::from_seed(3);
    let mut game = table(
        vec![seat("ME", Role::XiaoMang(10), 1000, 0), seat("Alice", Role::DaMang(20), 1000, 0)],
        GameStatus::BetPlacing1,
        0,
    );
    let copy = game.clone();
    let u = unit();
    let ten: Vec<(&StuffType, i32)> = vec![(&u, 10)];
    assert!(send(&mut game, MyEvent::PlaceABet { bet: &ten }, &mut rng).is_ok());
    assert_eq!(copy.game_status, GameStatus::BetPlacing1);
    assert_eq!(copy.players.len(), 2);
    assert_eq!(copy.players[0].name, "ME");
    assert_eq!(copy.players[0].role, Role::XiaoMang(10));
    assert_eq!(copy.players[0].bet_bank.kinds(), 0);
    assert_eq!(copy.players[1].owned_bank.get_values_of_bank(), 1000);
    assert_eq!(copy.card_pool.card_pool.kinds(), 52);
    assert_eq!(game.players[0].bet_bank.get_values_of_bank(), 10);
}
