//! The table and its set-up: seating, stakes, blinds and the start of a hand.
use crate::bank::{Entry, StuffType, batch_of, put_each, put_faults, same_text};
use crate::card::FiveCardsCategory;
use crate::deck::{CardPool, FiveCards, full_deck};
use crate::error::ErrorKind;
use crate::player::{CashPool, Player, Role, round_up, round_up_of};
use crate::random::RandomSource;
use crate::seat::{
    Want, chips_of, count_eligible, eligible_of, is_eligible, is_wanted, nearest, nearest_seat,
    roles_of, total_chips,
};
use crate::settle::{conserved, lemma_empty_seats, lemma_seats_conserved};
use crate::trace::{
    Deed, Step, continues, is_turn, lemma_all_noted, lemma_steps_for_more, note, note_all,
    recorded, refusal, seats_named, steps_for,
};
use vstd::prelude::*;

verus! {

/// The most seats that a table has.
pub const MAX_PLAYER_NUM: usize = 10;

/// Where the game stands.
#[derive(Clone, Copy, Debug, PartialEq, Eq, Structural)]
pub enum GameStatus {
    Setting,
    CardsPicking,
    BetPlacing1,
    BetPlacing2,
    BetPlacing3,
    BetPlacing4,
    Balancing,
}

/// What is sent to the game.
#[allow(non_camel_case_types)]
#[derive(Clone, Copy, Debug)]
pub enum MyEvent<'a> {
    AddBot { num: usize },
    ResetGame { assets: &'a Vec<(&'a StuffType, i32)> },
    StartNextGame,
    PickCards,
    PlaceABet { bet: &'a Vec<(&'a StuffType, i32)> },
    PlaceABet_Auto,
    ConfirmBalance,
    GiveUp,
}

/// What an accepted event led to.
#[derive(Clone, Copy, Debug, PartialEq, Eq, Structural)]
pub enum Outcome {
    /// So many seats were added.
    Added(usize),
    /// The table was set up anew.
    Reset,
    /// A hand starts with so many eligible seats.
    Started(usize),
    /// No hand starts: only so many eligible seats are left.
    MatchOver(usize),
    /// The action has come to the human seat.
    YourTurn,
    /// The seats that could act have acted.
    Resolved,
    /// This seat is the only one left in the hand and wins it.
    Uncontested(usize),
    /// The last round is over.
    HandEnded,
    /// The hand was settled: this seat won it with this category.
    Settled { winner: usize, category: FiveCardsCategory },
}

/// The table: the seats in seat order, the pot, the deck, the community
/// cards, the state of the game, the seat that last held the small blind,
/// and the smallest face value in play.
#[allow(non_snake_case)]
#[derive(Debug)]
pub struct Game {
    pub players: Vec<Player>,
    pub cash_pool: CashPool,
    pub card_pool: CardPool,
    pub five_cards: FiveCards,
    pub game_status: GameStatus,
    pub last_XiaoMang_ID: i32,
    pub min_value_unit: i32,
}

/// The name of the `seat`-th seat of the roster. The first seat is the
/// human's.
pub open spec fn roster_name(seat: int) -> Seq<char> {
    if seat == 0 {
        "ME"@
    } else if seat == 1 {
        "Alice"@
    } else if seat == 2 {
        "Bob"@
    } else if seat == 3 {
        "Cara"@
    } else if seat == 4 {
        "David"@
    } else if seat == 5 {
        "Ederson"@
    } else if seat == 6 {
        "Ford"@
    } else if seat == 7 {
        "Gavin"@
    } else if seat == 8 {
        "Harry"@
    } else {
        "Ian"@
    }
}

/// The name of the `seat`-th seat of the roster.
pub fn player_name(seat: usize) -> (name: &'static str)
    ensures
        name@ == roster_name(seat as int),
{
    if seat == 0 {
        "ME"
    } else if seat == 1 {
        "Alice"
    } else if seat == 2 {
        "Bob"
    } else if seat == 3 {
        "Cara"
    } else if seat == 4 {
        "David"
    } else if seat == 5 {
        "Ederson"
    } else if seat == 6 {
        "Ford"
    } else if seat == 7 {
        "Gavin"
    } else if seat == 8 {
        "Harry"
    } else {
        "Ian"
    }
}

/// Whether the seat is the human's: it bears the first name of the roster.
pub open spec fn is_me(player: Player) -> bool {
    player.name@ == roster_name(0)
}

/// Whether the seat is the human's.
pub fn sits_human(player: &Player) -> (r: bool)
    ensures
        r == is_me(*player),
{
    same_text(player.name.as_str(), player_name(0))
}

/// A share of the chips in play: the `parts`-th part of what an eligible
/// seat has on average, rounded up to the unit; 0 where no seat is eligible.
pub open spec fn share_of(total: int, eligible: int, parts: int, unit: int) -> int {
    if eligible <= 0 {
        0
    } else {
        round_up_of(total / (eligible * parts), unit)
    }
}

/// The least face value among `best` and the lines, where a negative `best`
/// stands for none.
pub open spec fn least_face(e: Seq<Entry>, best: int) -> int
    decreases e.len(),
{
    if e.len() == 0 {
        best
    } else {
        let before = least_face(e.drop_last(), best);
        if before < 0 || e.last().0.value() < before {
            e.last().0.value()
        } else {
            before
        }
    }
}

/// The least face value in the bankrolls and bets of the seats; -1 where
/// they hold nothing.
pub open spec fn unit_over(players: Seq<Player>) -> int
    decreases players.len(),
{
    if players.len() == 0 {
        -1
    } else {
        least_face(
            players.last().bet_bank.entries(),
            least_face(players.last().owned_bank.entries(), unit_over(players.drop_last())),
        )
    }
}

/// Whether two seats differ in their roles at most.
pub open spec fn same_holdings(a: Player, b: Player) -> bool {
    &&& a.name == b.name
    &&& a.owned_bank == b.owned_bank
    &&& a.bet_bank == b.bet_bank
    &&& a.cards_bank == b.cards_bank
}

/// Whether two tables have the same seats but for their roles.
pub open spec fn same_but_roles(a: Seq<Player>, b: Seq<Player>) -> bool {
    &&& a.len() == b.len()
    &&& forall|i: int| 0 <= i < a.len() ==> same_holdings(#[trigger] a[i], b[i])
}

/// The roles at the start of a hand: a spectator stays one, the seat
/// `small_seat` posts the small blind, the next eligible seat behind it the
/// big blind, and every other seat is `Normal`. Where no other seat is
/// eligible, `small_seat` posts the big blind.
pub open spec fn dealt_roles(roles: Seq<Role>, small_seat: int, small: i64, big: i64) -> Seq<Role> {
    let big_seat = match nearest(roles, small_seat, false, Want::Eligible) {
        Some(seat) => seat,
        None => small_seat,
    };
    Seq::new(
        roles.len(),
        |i: int|
            if !is_eligible(roles[i]) {
                roles[i]
            } else if i == big_seat {
                Role::DaMang(big)
            } else if i == small_seat {
                Role::XiaoMang(small)
            } else {
                Role::Normal
            },
    )
}

/// The seats' chips do not depend on their roles.
pub proof fn lemma_chips_same(a: Seq<Player>, b: Seq<Player>)
    requires
        a.len() == b.len(),
        forall|i: int| 0 <= i < a.len() ==> (#[trigger] a[i]).chips() == b[i].chips(),
    ensures
        chips_of(a) == chips_of(b),
    decreases a.len(),
{
    if a.len() > 0 {
        assert forall|i: int| 0 <= i < a.drop_last().len() implies (#[trigger] a.drop_last()[i]).chips()
            == b.drop_last()[i].chips() by {
            assert(a.drop_last()[i] == a[i] && b.drop_last()[i] == b[i]);
        }
        lemma_chips_same(a.drop_last(), b.drop_last());
        assert(a.last() == a[a.len() - 1] && b.last() == b[b.len() - 1]);
    }
}

/// The least face value does not depend on the roles.
pub proof fn lemma_unit_same(a: Seq<Player>, b: Seq<Player>)
    requires
        same_but_roles(a, b),
    ensures
        unit_over(a) == unit_over(b),
    decreases a.len(),
{
    if a.len() > 0 {
        assert forall|i: int| 0 <= i < a.drop_last().len() implies same_holdings(
            #[trigger] a.drop_last()[i],
            b.drop_last()[i],
        ) by {
            assert(a.drop_last()[i] == a[i] && b.drop_last()[i] == b[i]);
        }
        lemma_unit_same(a.drop_last(), b.drop_last());
        assert(same_holdings(a[a.len() - 1], b[b.len() - 1]));
    }
}

/// As many seats are eligible after the roles were dealt as before.
pub proof fn lemma_eligible_same(a: Seq<Role>, b: Seq<Role>)
    requires
        a.len() == b.len(),
        forall|i: int| 0 <= i < a.len() ==> is_eligible(#[trigger] a[i]) == is_eligible(b[i]),
    ensures
        eligible_of(a) == eligible_of(b),
    decreases a.len(),
{
    if a.len() > 0 {
        assert forall|i: int| 0 <= i < a.drop_last().len() implies is_eligible(
            #[trigger] a.drop_last()[i],
        ) == is_eligible(b.drop_last()[i]) by {
            assert(a.drop_last()[i] == a[i] && b.drop_last()[i] == b[i]);
        }
        lemma_eligible_same(a.drop_last(), b.drop_last());
        assert(is_eligible(a[a.len() - 1]) == is_eligible(b[b.len() - 1]));
    }
}

impl Clone for Game {
    /// A table with the same seats, ledgers and state.
    fn clone(&self) -> (r: Game)
        ensures
            r.players@.len() == self.players@.len(),
            forall|i: int|
                0 <= i < self.players@.len() ==> (#[trigger] r.players@[i]).name@
                    == self.players@[i].name@ && r.players@[i].role == self.players@[i].role
                    && r.players@[i].owned_bank.entries() == self.players@[i].owned_bank.entries()
                    && r.players@[i].bet_bank.entries() == self.players@[i].bet_bank.entries()
                    && r.players@[i].cards_bank.entries() == self.players@[i].cards_bank.entries(),
            r.cash_pool.cash_pool.entries() == self.cash_pool.cash_pool.entries(),
            r.card_pool.card_pool.entries() == self.card_pool.card_pool.entries(),
            r.five_cards.five_cards.entries() == self.five_cards.five_cards.entries(),
            r.game_status == self.game_status,
            r.last_XiaoMang_ID == self.last_XiaoMang_ID,
            r.min_value_unit == self.min_value_unit,
    {
        let mut players: Vec<Player> = Vec::new();
        let mut i: usize = 0;
        while i < self.players.len()
            invariant
                0 <= i <= self.players@.len(),
                players@.len() == i,
                forall|j: int|
                    0 <= j < i ==> (#[trigger] players@[j]).name@ == self.players@[j].name@
                        && players@[j].role == self.players@[j].role
                        && players@[j].owned_bank.entries() == self.players@[j].owned_bank.entries()
                        && players@[j].bet_bank.entries() == self.players@[j].bet_bank.entries()
                        && players@[j].cards_bank.entries()
                        == self.players@[j].cards_bank.entries(),
            decreases self.players@.len() - i,
        {
            players.push(self.players[i].clone());
            i = i + 1;
        }
        Game {
            players,
            cash_pool: self.cash_pool.clone(),
            card_pool: self.card_pool.clone(),
            five_cards: self.five_cards.clone(),
            game_status: self.game_status,
            last_XiaoMang_ID: self.last_XiaoMang_ID,
            min_value_unit: self.min_value_unit,
        }
    }
}

impl Game {
    /// What holds of a table: it has from one to ten seats, the first of
    /// which is the human's, and the seat that last held the small blind is
    /// one of them.
    pub open spec fn wf(&self) -> bool {
        &&& 1 <= self.players@.len() <= MAX_PLAYER_NUM
        &&& 0 <= self.last_XiaoMang_ID < self.players@.len()
        &&& is_me(self.players@[0])
    }

    /// Whether the table is as `wf` says.
    pub fn is_wf(&self) -> (r: bool)
        ensures
            r == self.wf(),
    {
        1 <= self.players.len() && self.players.len() <= MAX_PLAYER_NUM && 0
            <= self.last_XiaoMang_ID && (self.last_XiaoMang_ID as usize) < self.players.len()
            && sits_human(&self.players[0])
    }

    /// The small blind: a thirtieth of what an eligible seat has in play on
    /// average, rounded up to the unit.
    pub open spec fn small_blind(&self) -> int {
        share_of(
            chips_of(self.players@),
            eligible_of(roles_of(self.players@)),
            30,
            self.min_value_unit as int,
        )
    }

    /// The big blind: twice the small blind.
    pub open spec fn big_blind(&self) -> int {
        2 * self.small_blind()
    }

    /// The highest bet: a third of what an eligible seat has in play on
    /// average, rounded up to the unit.
    pub open spec fn max_bet(&self) -> int {
        share_of(
            chips_of(self.players@),
            eligible_of(roles_of(self.players@)),
            3,
            self.min_value_unit as int,
        )
    }

    /// What is at the table: the chips that the seats have in play, and the
    /// pot.
    pub open spec fn table_chips(&self) -> int {
        chips_of(self.players@) + self.cash_pool.cash_pool.valuation()
    }

    /// A table at which only the human sits, with a fresh deck.
    pub fn new() -> (game: Game)
        ensures
            game.wf(),
            game.players@.len() == 1,
            game.players@[0].name@ == roster_name(0),
            game.players@[0].role == Role::Normal,
            game.players@[0].owned_bank.entries() == Seq::<Entry>::empty(),
            game.players@[0].bet_bank.entries() == Seq::<Entry>::empty(),
            game.players@[0].cards_bank.entries() == Seq::<Entry>::empty(),
            game.cash_pool.cash_pool.entries() == Seq::<Entry>::empty(),
            game.card_pool.card_pool.entries() == full_deck(),
            game.five_cards.five_cards.entries() == Seq::<Entry>::empty(),
            game.game_status == GameStatus::Setting,
            game.last_XiaoMang_ID == 0,
            game.min_value_unit == 1,
    {
        let mut players: Vec<Player> = Vec::new();
        players.push(Player::new(player_name(0)));
        Game {
            players,
            cash_pool: CashPool::new(),
            card_pool: CardPool::new(),
            five_cards: FiveCards::new(),
            game_status: GameStatus::Setting,
            last_XiaoMang_ID: 0,
            min_value_unit: 1,
        }
    }

    /// A share of the chips in play: see `share_of`.
    fn share(&self, parts: i64) -> (r: i64)
        requires
            self.wf(),
            parts == 3 || parts == 30,
        ensures
            r == share_of(
                chips_of(self.players@),
                eligible_of(roles_of(self.players@)),
                parts as int,
                self.min_value_unit as int,
            ),
            0 <= r <= 0x10_0000_0000,
    {
        let eligible = count_eligible(&self.players);
        if eligible == 0 {
            return 0;
        }
        let total = total_chips(&self.players);
        let parts_all: i64 = eligible as i64 * parts;
        let each = total / parts_all;
        assert(0 <= each <= total) by (nonlinear_arith)
            requires
                each == total / parts_all,
                total >= 0,
                parts_all >= 1,
        ;
        round_up(each, self.min_value_unit)
    }

    /// The small blind: see `small_blind`.
    #[allow(non_snake_case)]
    pub fn get_XiaoMang_value(&self) -> (r: i64)
        requires
            self.wf(),
        ensures
            r == self.small_blind(),
            0 <= r <= 0x10_0000_0000,
    {
        self.share(30)
    }

    /// The big blind: see `big_blind`.
    #[allow(non_snake_case)]
    pub fn get_DaMang_value(&self) -> (r: i64)
        requires
            self.wf(),
        ensures
            r == self.big_blind(),
            0 <= r <= 0x20_0000_0000,
    {
        2 * self.share(30)
    }

    /// The highest bet: see `max_bet`.
    pub fn get_max_bet_value(&self) -> (r: i64)
        requires
            self.wf(),
        ensures
            r == self.max_bet(),
            0 <= r <= 0x10_0000_0000,
    {
        self.share(3)
    }

    /// Sets the unit to the least face value in the bankrolls and bets of
    /// the seats, and to -1 where they hold nothing.
    pub fn get_min_value_unit(&mut self)
        ensures
            final(self).min_value_unit == unit_over(old(self).players@),
            final(self).players == old(self).players,
            final(self).cash_pool == old(self).cash_pool,
            final(self).card_pool == old(self).card_pool,
            final(self).five_cards == old(self).five_cards,
            final(self).game_status == old(self).game_status,
            final(self).last_XiaoMang_ID == old(self).last_XiaoMang_ID,
    {
        let mut value_unit: i32 = -1;
        let mut i: usize = 0;
        assert(self.players@.take(0) =~= Seq::<Player>::empty());
        while i < self.players.len()
            invariant
                0 <= i <= self.players.len(),
                *self == *old(self),
                value_unit == unit_over(self.players@.take(i as int)),
            decreases self.players.len() - i,
        {
            assert(self.players@.take(i + 1).drop_last() =~= self.players@.take(i as int));
            assert(self.players@.take(i + 1).last() == self.players@[i as int]);
            let owned = self.players[i].owned_bank.get_basket_vec();
            value_unit = least_in(&owned, value_unit);
            let bet = self.players[i].bet_bank.get_basket_vec();
            value_unit = least_in(&bet, value_unit);
            i = i + 1;
        }
        assert(self.players@.take(self.players.len() as int) =~= self.players@);
        self.min_value_unit = value_unit;
    }

    /// Seats a new player with the given name. It is refused with
    /// `RosterFull` where the table has ten seats.
    pub fn add_a_player(&mut self, name: &str) -> (r: Result<(), ErrorKind>)
        ensures
            old(self).players@.len() < MAX_PLAYER_NUM ==> r is Ok && final(self).players@.len()
                == old(self).players@.len() + 1 && final(self).players@.drop_last() == old(self).players@
                    && final(self).players@.last().name@ == name@
                        && final(self).players@.last().role == Role::Normal
                    && final(self).players@.last().owned_bank.entries() == Seq::<Entry>::empty()
                        && final(self).players@.last().bet_bank.entries() == Seq::<Entry>::empty()
                        && final(self).players@.last().cards_bank.entries()
                            == Seq::<Entry>::empty(),
            old(self).players@.len() >= MAX_PLAYER_NUM ==> r == Err::<(), ErrorKind>(
                ErrorKind::RosterFull,
            ) && final(self).players == old(self).players,
            final(self).cash_pool == old(self).cash_pool,
            final(self).card_pool == old(self).card_pool,
            final(self).five_cards == old(self).five_cards,
            final(self).game_status == old(self).game_status,
            final(self).last_XiaoMang_ID == old(self).last_XiaoMang_ID,
            final(self).min_value_unit == old(self).min_value_unit,
    {
        if self.players.len() < MAX_PLAYER_NUM {
            let player = Player::new(name);
            self.players.push(player);
            assert(self.players@.drop_last() =~= old(self).players@);
            Ok(())
        } else {
            Err(ErrorKind::RosterFull)
        }
    }

    /// Deals the roles for a hand in which `small_seat` posts the small
    /// blind: see `dealt_roles`.
    pub fn assign_blinds(&mut self, small_seat: usize, small: i64, big: i64)
        requires
            old(self).wf(),
            small_seat < old(self).players@.len(),
        ensures
            final(self).wf(),
            roles_of(final(self).players@) == dealt_roles(
                roles_of(old(self).players@),
                small_seat as int,
                small,
                big,
            ),
            same_but_roles(final(self).players@, old(self).players@),
            final(self).last_XiaoMang_ID == small_seat,
            final(self).cash_pool == old(self).cash_pool,
            final(self).card_pool == old(self).card_pool,
            final(self).five_cards == old(self).five_cards,
            final(self).game_status == old(self).game_status,
            final(self).min_value_unit == old(self).min_value_unit,
    {
        let ghost roles = roles_of(self.players@);
        let big_seat = match nearest_seat(&self.players, small_seat, false, Want::Eligible) {
            Some(seat) => seat,
            None => small_seat,
        };
        let n = self.players.len();
        let mut i: usize = 0;
        while i < n
            invariant
                0 <= i <= n,
                n == self.players@.len(),
                n == old(self).players@.len(),
                n <= MAX_PLAYER_NUM,
                small_seat < n,
                big_seat < n,
                roles == roles_of(old(self).players@),
                same_but_roles(self.players@, old(self).players@),
                forall|j: int| i <= j < n ==> (#[trigger] self.players@[j]).role == roles[j],
                forall|j: int|
                    0 <= j < i ==> (#[trigger] self.players@[j]).role == dealt_roles(
                        roles,
                        small_seat as int,
                        small,
                        big,
                    )[j],
                big_seat as int == match nearest(roles, small_seat as int, false, Want::Eligible) {
                    Some(seat) => seat,
                    None => small_seat as int,
                },
                self.cash_pool == old(self).cash_pool,
                self.card_pool == old(self).card_pool,
                self.five_cards == old(self).five_cards,
                self.game_status == old(self).game_status,
                self.min_value_unit == old(self).min_value_unit,
            decreases n - i,
        {
            if is_wanted(Want::Eligible, &self.players[i].role) {
                if i == big_seat {
                    self.players[i].role = Role::DaMang(big);
                } else if i == small_seat {
                    self.players[i].role = Role::XiaoMang(small);
                } else {
                    self.players[i].role = Role::Normal;
                }
            }
            i = i + 1;
        }
        self.last_XiaoMang_ID = small_seat as i32;
        assert(roles_of(self.players@) =~= dealt_roles(roles, small_seat as int, small, big));
    }
}

/// Whether `after` is the seat `before` set up anew with the stake `stake`,
/// its role aside: it has no bet and no cards, and its bankroll is the
/// stake, or nothing where the stake cannot be put into a ledger.
pub open spec fn reset_seat(before: Player, after: Player, stake: Seq<Entry>) -> bool {
    &&& after.name == before.name
    &&& after.bet_bank.entries() == Seq::<Entry>::empty()
    &&& after.cards_bank.entries() == Seq::<Entry>::empty()
    &&& after.owned_bank.entries() == if put_faults(Seq::empty(), stake).len() == 0 {
        put_each(Seq::empty(), stake)
    } else {
        Seq::empty()
    }
}

/// What setting up the table anew leads to. Every seat is set up with the
/// stake, the pot and the community cards are empty, the deck is fresh, and
/// the unit is the least face value in play. The roles are dealt for a hand
/// whose small blind is posted by one of the seats that were eligible; where
/// none was, the roles stay. The stake is refused with `InvalidQuantity`
/// where it cannot be put into a ledger.
pub open spec fn reset_post(
    pre: Game,
    post: Game,
    stake: Seq<Entry>,
    r: Result<Outcome, ErrorKind>,
) -> bool {
    let roles = roles_of(pre.players@);
    &&& post.wf()
    &&& post.game_status == GameStatus::Setting
    &&& post.players@.len() == pre.players@.len()
    &&& forall|i: int|
        0 <= i < pre.players@.len() ==> reset_seat(
            #[trigger] pre.players@[i],
            post.players@[i],
            stake,
        )
    &&& post.cash_pool.cash_pool.entries() == Seq::<Entry>::empty()
    &&& post.five_cards.five_cards.entries() == Seq::<Entry>::empty()
    &&& post.card_pool.card_pool.entries() == full_deck()
    &&& post.min_value_unit == unit_over(post.players@)
    &&& if eligible_of(roles) == 0 {
        roles_of(post.players@) == roles && post.last_XiaoMang_ID == pre.last_XiaoMang_ID
    } else {
        is_eligible(roles[post.last_XiaoMang_ID as int]) && roles_of(post.players@) == dealt_roles(
            roles,
            post.last_XiaoMang_ID as int,
            post.small_blind() as i64,
            post.big_blind() as i64,
        )
    }
    &&& r == if put_faults(Seq::empty(), stake).len() == 0 {
        Ok::<Outcome, ErrorKind>(Outcome::Reset)
    } else {
        Err::<Outcome, ErrorKind>(ErrorKind::InvalidQuantity)
    }
}

/// Whether two tables differ in nothing but their state.
pub open spec fn same_but_status(pre: Game, post: Game) -> bool {
    &&& post.players == pre.players
    &&& post.cash_pool == pre.cash_pool
    &&& post.card_pool == pre.card_pool
    &&& post.five_cards == pre.five_cards
    &&& post.last_XiaoMang_ID == pre.last_XiaoMang_ID
    &&& post.min_value_unit == pre.min_value_unit
}

/// What starting the next hand leads to. Before the first hand only the
/// state changes. After a hand the match is over, and nothing changes, where
/// at most one seat is eligible; else the small blind passes to the next
/// eligible seat behind the one that held it, the unit is the least face
/// value in play, and the roles are dealt. In any other state the event is
/// refused.
pub open spec fn start_post(pre: Game, post: Game, r: Result<Outcome, ErrorKind>) -> bool {
    let roles = roles_of(pre.players@);
    let count = eligible_of(roles);
    let near = nearest(roles, pre.last_XiaoMang_ID as int, false, Want::Eligible);
    if pre.game_status == GameStatus::Setting {
        &&& same_but_status(pre, post)
        &&& post.game_status == GameStatus::CardsPicking
        &&& r == Ok::<Outcome, ErrorKind>(Outcome::Started(count as usize))
    } else if pre.game_status == GameStatus::Balancing {
        if count <= 1 || near is None {
            &&& post == pre
            &&& r == Ok::<Outcome, ErrorKind>(Outcome::MatchOver(count as usize))
        } else {
            &&& post.wf()
            &&& post.game_status == GameStatus::CardsPicking
            &&& same_but_roles(post.players@, pre.players@)
            &&& post.cash_pool == pre.cash_pool
            &&& post.card_pool == pre.card_pool
            &&& post.five_cards == pre.five_cards
            &&& post.min_value_unit == unit_over(pre.players@)
            &&& post.last_XiaoMang_ID == near->Some_0
            &&& roles_of(post.players@) == dealt_roles(
                roles,
                near->Some_0,
                post.small_blind() as i64,
                post.big_blind() as i64,
            )
            &&& r == Ok::<Outcome, ErrorKind>(Outcome::Started(count as usize))
        }
    } else {
        &&& post == pre
        &&& r == Err::<Outcome, ErrorKind>(ErrorKind::IllegalTransition)
    }
}

/// What adding `num` seats leads to: while the table has fewer than ten
/// seats, a seat with the next name of the roster and with nothing in its
/// ledgers is added. It is refused with `RosterFull` where not all `num`
/// seats could be added, and with `IllegalTransition`, and nothing is added,
/// where the table is not being set up.
pub open spec fn add_post(pre: Game, post: Game, num: usize, r: Result<Outcome, ErrorKind>) -> bool {
    let before = pre.players@.len();
    if pre.game_status == GameStatus::Setting {
        let added = if before + num <= MAX_PLAYER_NUM {
            num as int
        } else if before <= MAX_PLAYER_NUM {
            MAX_PLAYER_NUM - before
        } else {
            0
        };
        &&& post.players@.len() == before + added
        &&& post.players@.take(before as int) == pre.players@
        &&& forall|i: int|
            before <= i < before + added ==> (#[trigger] post.players@[i]).name@ == roster_name(i)
                && post.players@[i].role == Role::Normal && post.players@[i].owned_bank.entries()
                == Seq::<Entry>::empty() && post.players@[i].bet_bank.entries() == Seq::<
                Entry,
            >::empty() && post.players@[i].cards_bank.entries() == Seq::<Entry>::empty()
        &&& post.cash_pool == pre.cash_pool
        &&& post.card_pool == pre.card_pool
        &&& post.five_cards == pre.five_cards
        &&& post.game_status == pre.game_status
        &&& post.last_XiaoMang_ID == pre.last_XiaoMang_ID
        &&& post.min_value_unit == pre.min_value_unit
        &&& r == if added == num {
            Ok::<Outcome, ErrorKind>(Outcome::Added(num))
        } else {
            Err::<Outcome, ErrorKind>(ErrorKind::RosterFull)
        }
    } else {
        &&& post == pre
        &&& r == Err::<Outcome, ErrorKind>(ErrorKind::IllegalTransition)
    }
}

impl Game {
    /// Adds `num` seats: see `add_post`.
    pub fn add_bots(&mut self, num: usize, trace: &mut Vec<Step>) -> (r: Result<Outcome, ErrorKind>)
        ensures
            add_post(*old(self), *final(self), num, r),
            old(self).wf() ==> final(self).wf(),
            final(self).table_chips() == old(self).table_chips(),
            conserved(*old(self), *final(self)),
            recorded(old(trace)@, final(trace)@, old(self).players@, final(self).players@),
            final(trace)@ == old(trace)@ + steps_for(
                old(self).players@.len() as int,
                final(self).players@.len() - old(self).players@.len(),
                Deed::Seated,
                None,
            ),
    {
        proof {
            crate::round::lemma_nothing_noted(trace@, self.players@);
            lemma_steps_for_more(self.players@.len() as int, 0, Deed::Seated, None);
            assert(trace@ + Seq::<Step>::empty() =~= trace@);
        }
        match self.game_status {
            GameStatus::Setting => {},
            _ => {
                proof {
                    lemma_seats_conserved(*old(self), *self);
                }
                return Err(ErrorKind::IllegalTransition);
            },
        }
        let before = self.players.len();
        let mut added: usize = 0;
        assert(self.players@.take(before as int) =~= self.players@);
        while added < num && self.players.len() < MAX_PLAYER_NUM
            invariant
                0 <= added <= num,
                before == old(self).players@.len(),
                self.players@.len() == before + added,
                before + added <= MAX_PLAYER_NUM || added == 0,
                self.players@.take(before as int) == old(self).players@,
                chips_of(self.players@) == chips_of(old(self).players@),
                continues(old(trace)@, trace@),
                seats_named(trace@, old(trace)@.len() as int, self.players@.len() as int),
                forall|j: int|
                    old(trace)@.len() <= j < trace@.len() ==> !is_turn((#[trigger] trace@[j]).deed)
                        && trace@[j].seat >= before,
                trace@ == old(trace)@ + steps_for(before as int, added as int, Deed::Seated, None),
                forall|i: int|
                    before <= i < before + added ==> (#[trigger] self.players@[i]).name@
                        == roster_name(i) && self.players@[i].role == Role::Normal
                        && self.players@[i].owned_bank.entries() == Seq::<Entry>::empty()
                        && self.players@[i].bet_bank.entries() == Seq::<Entry>::empty()
                        && self.players@[i].cards_bank.entries() == Seq::<Entry>::empty(),
                self.cash_pool == old(self).cash_pool,
                self.card_pool == old(self).card_pool,
                self.five_cards == old(self).five_cards,
                self.game_status == old(self).game_status,
                self.last_XiaoMang_ID == old(self).last_XiaoMang_ID,
                self.min_value_unit == old(self).min_value_unit,
            decreases num - added,
        {
            let ghost seats = self.players@;
            let ghost steps = trace@;
            let seated = self.add_a_player(player_name(self.players.len()));
            note(trace, self.players.len() - 1, Deed::Seated, None);
            proof {
                lemma_steps_for_more(before as int, added as int, Deed::Seated, None);
                assert(trace@ =~= old(trace)@ + steps_for(
                    before as int,
                    added + 1,
                    Deed::Seated,
                    None,
                ));
                assert(trace@.take(old(trace)@.len() as int) =~= steps.take(old(trace)@.len() as int));
                assert forall|j: int| old(trace)@.len() <= j < trace@.len() implies !is_turn(
                    (#[trigger] trace@[j]).deed,
                ) && trace@[j].seat >= before && trace@[j].seat < self.players@.len() by {
                    if j < steps.len() {
                        assert(trace@[j] == steps[j]);
                    }
                }
            }
            assert(self.players@.take(before as int) =~= seats.take(before as int));
            assert(self.players@[before + added] == self.players@.last());
            assert(self.players@.last().chips() == 0) by {
                assert(crate::bank::worth_of(Seq::<Entry>::empty()) == 0);
            }
            assert(self.players@.drop_last() == seats);
            assert forall|i: int| before <= i < before + added + 1 implies (
            #[trigger] self.players@[i]).name@ == roster_name(i) && self.players@[i].role
                == Role::Normal && self.players@[i].owned_bank.entries() == Seq::<Entry>::empty()
                && self.players@[i].bet_bank.entries() == Seq::<Entry>::empty()
                && self.players@[i].cards_bank.entries() == Seq::<Entry>::empty() by {
                if i < before + added {
                    assert(self.players@.drop_last()[i] == seats[i]);
                    assert(self.players@[i] == seats[i]);
                }
            }
            added = added + 1;
        }
        proof {
            assert forall|i: int|
                0 <= i < old(self).players@.len() implies #[trigger] self.players@[i] == old(
                self,
            ).players@[i] by {
                assert(self.players@.take(before as int)[i] == self.players@[i]);
            }
            let some = crate::bank::StuffModel::Denomination(Seq::empty(), 0);
            lemma_empty_seats(self.players@, before as int, some);
            assert forall|k: crate::bank::StuffModel| #[trigger]
                self.all_units(k) == old(self).all_units(k) by {
                lemma_empty_seats(self.players@, before as int, k);
            }
        }
        if added == num {
            Ok(Outcome::Added(num))
        } else {
            Err(ErrorKind::RosterFull)
        }
    }

    /// Sets the table up anew with the stake `initial` for every seat: see
    /// `reset_post`.
    pub fn init_game(
        &mut self,
        initial: &Vec<(&StuffType, i32)>,
        rng: &mut RandomSource,
        trace: &mut Vec<Step>,
    ) -> (r: Result<Outcome, ErrorKind>)
        requires
            old(self).wf(),
        ensures
            reset_post(*old(self), *final(self), batch_of(initial@), r),
            recorded(old(trace)@, final(trace)@, old(self).players@, final(self).players@),
            final(trace)@ == old(trace)@ + steps_for(
                0,
                old(self).players@.len() as int,
                Deed::Staked,
                match r {
                    Ok(_) => None,
                    Err(kind) => Some(kind),
                },
            ),
    {
        proof {
            crate::round::lemma_nothing_noted(trace@, self.players@);
        }
        let ghost stake = batch_of(initial@);
        self.game_status = GameStatus::Setting;
        self.five_cards.clear_five_cards();
        self.cash_pool.clear_cash_pool();
        self.card_pool = self.card_pool.reset_card_pool();
        let n = self.players.len();
        let mut refused = false;
        let mut i: usize = 0;
        proof {
            lemma_steps_for_more(0, 0, Deed::Staked, None);
            lemma_steps_for_more(0, 0, Deed::Staked, Some(ErrorKind::InvalidQuantity));
            assert(trace@ + Seq::<Step>::empty() =~= trace@);
        }
        while i < n
            invariant
                0 <= i <= n,
                n == self.players@.len(),
                n == old(self).players@.len(),
                stake == batch_of(initial@),
                i > 0 ==> refused == (put_faults(Seq::empty(), stake).len() > 0),
                i == 0 ==> !refused,
                forall|j: int| i <= j < n ==> #[trigger] self.players@[j] == old(self).players@[j],
                forall|j: int|
                    0 <= j < i
                        ==> reset_seat(#[trigger] old(self).players@[j], self.players@[j], stake)
                        && self.players@[j].role == old(self).players@[j].role,
                self.cash_pool.cash_pool.entries() == Seq::<Entry>::empty(),
                self.five_cards.five_cards.entries() == Seq::<Entry>::empty(),
                self.card_pool.card_pool.entries() == full_deck(),
                self.game_status == GameStatus::Setting,
                self.last_XiaoMang_ID == old(self).last_XiaoMang_ID,
                continues(old(trace)@, trace@),
                trace@.len() == old(trace)@.len() + i,
                forall|j: int|
                    0 <= j < i ==> (#[trigger] trace@[old(trace)@.len() + j]).seat == j
                        && trace@[old(trace)@.len() + j].deed == Deed::Staked,
                trace@ == old(trace)@ + steps_for(
                    0,
                    i as int,
                    Deed::Staked,
                    if put_faults(Seq::empty(), stake).len() > 0 {
                        Some(ErrorKind::InvalidQuantity)
                    } else {
                        None
                    },
                ),
            decreases n - i,
        {
            let ghost steps = trace@;
            self.players[i].clear_my_bet_bank();
            self.players[i].clear_my_cards();
            self.players[i].owned_bank.stuff_clear();
            let seeded = self.players[i].initial_my_owned_bank(initial);
            note(trace, i, Deed::Staked, refusal(&seeded));
            proof {
                let told = if put_faults(Seq::empty(), stake).len() > 0 {
                    Some(ErrorKind::InvalidQuantity)
                } else {
                    None
                };
                lemma_steps_for_more(0, i as int, Deed::Staked, told);
                assert(trace@ =~= old(trace)@ + steps_for(0, i + 1, Deed::Staked, told));
                assert(trace@.take(old(trace)@.len() as int) =~= steps.take(old(trace)@.len() as int));
                assert forall|j: int| 0 <= j < i implies (#[trigger] trace@[old(trace)@.len() + j]).seat
                    == j && trace@[old(trace)@.len() + j].deed == Deed::Staked by {
                    assert(trace@[old(trace)@.len() + j] == steps[old(trace)@.len() + j]);
                }
            }
            if seeded.is_err() {
                self.players[i].owned_bank.stuff_clear();
                refused = true;
            }
            i = i + 1;
        }
        self.get_min_value_unit();
        let ghost mid = *self;
        let ghost roles = roles_of(self.players@);
        assert(roles =~= roles_of(old(self).players@));
        let eligible = count_eligible(&self.players);
        if eligible > 0 {
            let k = rng.below(eligible);
            let seat = crate::seat::eligible_seat(&self.players, k);
            let small = self.get_XiaoMang_value();
            let big = self.get_DaMang_value();
            self.assign_blinds(seat, small, big);
            proof {
                lemma_unit_same(self.players@, mid.players@);
                lemma_chips_same(self.players@, mid.players@);
                lemma_eligible_same(roles_of(self.players@), roles);
            }
        }
        proof {
            lemma_all_noted(
                old(trace)@,
                Deed::Staked,
                if refused {
                    Some(ErrorKind::InvalidQuantity)
                } else {
                    None
                },
                old(self).players@,
                self.players@,
            );
        }
        if refused {
            Err(ErrorKind::InvalidQuantity)
        } else {
            Ok(Outcome::Reset)
        }
    }

    /// Starts the next hand: see `start_post`.
    pub fn start_next_game(&mut self, trace: &mut Vec<Step>) -> (r: Result<Outcome, ErrorKind>)
        requires
            old(self).wf(),
        ensures
            final(self).wf(),
            start_post(*old(self), *final(self), r),
            final(self).table_chips() == old(self).table_chips(),
            conserved(*old(self), *final(self)),
            recorded(old(trace)@, final(trace)@, old(self).players@, final(self).players@),
            final(trace)@ == if old(self).game_status == GameStatus::Balancing && r is Ok && r->Ok_0
                is Started {
                old(trace)@ + steps_for(0, old(self).players@.len() as int, Deed::Assigned, None)
            } else {
                old(trace)@
            },
    {
        proof {
            lemma_seats_conserved(*old(self), *self);
            crate::round::lemma_nothing_noted(trace@, self.players@);
        }
        match self.game_status {
            GameStatus::Setting => {
                self.game_status = GameStatus::CardsPicking;
                proof {
                    lemma_seats_conserved(*old(self), *self);
                }
                Ok(Outcome::Started(count_eligible(&self.players)))
            },
            GameStatus::Balancing => {
                let count = count_eligible(&self.players);
                let near = nearest_seat(
                    &self.players,
                    self.last_XiaoMang_ID as usize,
                    false,
                    Want::Eligible,
                );
                if count <= 1 || near.is_none() {
                    return Ok(Outcome::MatchOver(count));
                }
                let seat = near.unwrap();
                let ghost roles = roles_of(self.players@);
                self.game_status = GameStatus::CardsPicking;
                self.get_min_value_unit();
                let ghost mid = *self;
                let small = self.get_XiaoMang_value();
                let big = self.get_DaMang_value();
                self.assign_blinds(seat, small, big);
                note_all(trace, self.players.len(), Deed::Assigned);
                proof {
                    lemma_chips_same(self.players@, mid.players@);
                    lemma_eligible_same(roles_of(self.players@), roles);
                    lemma_seats_conserved(*old(self), *self);
                    lemma_all_noted(
                        old(trace)@,
                        Deed::Assigned,
                        None,
                        old(self).players@,
                        self.players@,
                    );
                }
                Ok(Outcome::Started(count))
            },
            _ => Err(ErrorKind::IllegalTransition),
        }
    }
}

/// The least face value among `best` and the lines: see `least_face`.
fn least_in(lines: &Vec<(&StuffType, i32)>, best: i32) -> (r: i32)
    ensures
        r == least_face(batch_of(lines@), best as int),
{
    let ghost e = batch_of(lines@);
    let mut value_unit = best;
    let mut i: usize = 0;
    assert(e.take(0) =~= Seq::<Entry>::empty());
    while i < lines.len()
        invariant
            0 <= i <= lines.len(),
            e == batch_of(lines@),
            value_unit == least_face(e.take(i as int), best as int),
        decreases lines.len() - i,
    {
        assert(e.take(i + 1).drop_last() =~= e.take(i as int));
        assert(e.take(i + 1).last() == e[i as int]);
        let v = lines[i].0.get_value();
        if value_unit < 0 || v < value_unit {
            value_unit = v;
        }
        i = i + 1;
    }
    assert(e.take(lines.len() as int) =~= e);
    value_unit
}

} // verus!
