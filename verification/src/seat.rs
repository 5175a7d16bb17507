//! Finding seats round the table and counting what the seats have in play.
use crate::player::{Player, Role};
use vstd::prelude::*;

verus! {

/// What is looked for in a seat: one that still contests the hand, one that
/// is not a spectator, or one that has placed its bet.
#[derive(Clone, Copy, Debug, PartialEq, Eq, Structural)]
pub enum Want {
    Live,
    Eligible,
    Bettor,
}

/// A seat contests the hand while its role is `Normal`, a blind or
/// `PlaceBet`.
pub open spec fn is_live(role: Role) -> bool {
    role is Normal || role is XiaoMang || role is DaMang || role is PlaceBet
}

/// A seat is eligible while it is not a spectator.
pub open spec fn is_eligible(role: Role) -> bool {
    !(role is Quit)
}

/// A seat has acted once it has placed its bet or given up.
pub open spec fn has_acted(role: Role) -> bool {
    role is PlaceBet || role is GiveUp
}

/// Whether a seat with this role is what is looked for.
pub open spec fn wanted(want: Want, role: Role) -> bool {
    match want {
        Want::Live => is_live(role),
        Want::Eligible => is_eligible(role),
        Want::Bettor => role is PlaceBet,
    }
}

/// The roles of the seats, in seat order.
pub open spec fn roles_of(players: Seq<Player>) -> Seq<Role> {
    players.map_values(|p: Player| p.role)
}

/// The seat before `at` round a table of `n` seats.
pub open spec fn prev_seat(at: int, n: int) -> int {
    if at == 0 {
        n - 1
    } else {
        at - 1
    }
}

/// The seat behind `at` round a table of `n` seats.
pub open spec fn next_seat(at: int, n: int) -> int {
    if at == n - 1 {
        0
    } else {
        at + 1
    }
}

/// The neighbour of `at` in the given direction.
pub open spec fn step_seat(at: int, n: int, back: bool) -> int {
    if back {
        prev_seat(at, n)
    } else {
        next_seat(at, n)
    }
}

/// The first wanted seat among the `left` seats that follow `at` in the
/// given direction.
pub open spec fn seek(roles: Seq<Role>, at: int, left: nat, back: bool, want: Want) -> Option<int>
    decreases left,
{
    if left == 0 {
        None
    } else {
        let to = step_seat(at, roles.len() as int, back);
        if wanted(want, roles[to]) {
            Some(to)
        } else {
            seek(roles, to, (left - 1) as nat, back, want)
        }
    }
}

/// The nearest wanted seat among the other seats, going round the table
/// from `seat` in the given direction.
pub open spec fn nearest(roles: Seq<Role>, seat: int, back: bool, want: Want) -> Option<int> {
    seek(roles, seat, (roles.len() - 1) as nat, back, want)
}

/// The seat that stands `k` steps from `at` in the given direction.
pub open spec fn walk(at: int, n: int, back: bool, k: nat) -> int
    decreases k,
{
    if k == 0 {
        at
    } else {
        walk(step_seat(at, n, back), n, back, (k - 1) as nat)
    }
}

/// What `seek` finds is wanted and lies within `left` steps, and no seat
/// before it on the way is wanted; where it finds nothing, none of the
/// `left` seats on the way is wanted.
pub proof fn law_seek(roles: Seq<Role>, at: int, left: nat, back: bool, want: Want)
    requires
        0 <= at < roles.len(),
    ensures
        match seek(roles, at, left, back, want) {
            Some(to) => 0 <= to < roles.len() && wanted(want, roles[to]) && exists|k: nat|
                1 <= k <= left && to == #[trigger] walk(at, roles.len() as int, back, k) && forall|
                    j: nat,
                |
                    1 <= j < k ==> !wanted(
                        want,
                        roles[#[trigger] walk(at, roles.len() as int, back, j)],
                    ),
            None => forall|j: nat|
                1 <= j <= left ==> !wanted(
                    want,
                    roles[#[trigger] walk(at, roles.len() as int, back, j)],
                ),
        },
    decreases left,
{
    let n = roles.len() as int;
    if left > 0 {
        let to = step_seat(at, n, back);
        assert(walk(at, n, back, 1) == to) by {
            assert(walk(to, n, back, 0) == to);
        }
        if wanted(want, roles[to]) {
            assert(1 <= 1nat <= left && to == walk(at, n, back, 1nat));
        } else {
            law_seek(roles, to, (left - 1) as nat, back, want);
            assert forall|j: nat| j >= 1 implies walk(at, n, back, j) == walk(
                to,
                n,
                back,
                (j - 1) as nat,
            ) by {}
            match seek(roles, to, (left - 1) as nat, back, want) {
                Some(found) => {
                    let k0 = choose|k: nat|
                        1 <= k <= left - 1 && found == #[trigger] walk(to, n, back, k) && forall|
                            j: nat,
                        |
                            1 <= j < k ==> !wanted(want, roles[#[trigger] walk(to, n, back, j)]);
                    let k1 = (k0 + 1) as nat;
                    assert(found == walk(at, n, back, k1));
                    assert forall|j: nat| 1 <= j < k1 implies !wanted(
                        want,
                        roles[#[trigger] walk(at, n, back, j)],
                    ) by {
                        if j > 1 {
                            assert(walk(at, n, back, j) == walk(to, n, back, (j - 1) as nat));
                        }
                    }
                },
                None => {
                    assert forall|j: nat| 1 <= j <= left implies !wanted(
                        want,
                        roles[#[trigger] walk(at, n, back, j)],
                    ) by {
                        if j > 1 {
                            assert(walk(at, n, back, j) == walk(to, n, back, (j - 1) as nat));
                        }
                    }
                },
            }
        }
    }
}

/// Whether a seat with this role is what is looked for.
pub fn is_wanted(want: Want, role: &Role) -> (r: bool)
    ensures
        r == wanted(want, *role),
{
    match want {
        Want::Live => match role {
            Role::Normal | Role::XiaoMang(_) | Role::DaMang(_) | Role::PlaceBet => true,
            _ => false,
        },
        Want::Eligible => match role {
            Role::Quit => false,
            _ => true,
        },
        Want::Bettor => match role {
            Role::PlaceBet => true,
            _ => false,
        },
    }
}

/// The nearest wanted seat among the other seats, going round the table
/// from `seat` backwards or forwards.
pub fn nearest_seat(players: &Vec<Player>, seat: usize, back: bool, want: Want) -> (r: Option<usize>)
    requires
        seat < players.len(),
    ensures
        match nearest(roles_of(players@), seat as int, back, want) {
            Some(to) => r == Some(to as usize) && 0 <= to < players.len(),
            None => r is None,
        },
{
    let n = players.len();
    let ghost roles = roles_of(players@);
    let mut at: usize = seat;
    let mut left: usize = n - 1;
    while left > 0
        invariant
            n == players.len(),
            roles == roles_of(players@),
            0 <= at < n,
            0 <= left <= n - 1,
            seek(roles, at as int, left as nat, back, want) == nearest(
                roles,
                seat as int,
                back,
                want,
            ),
        decreases left,
    {
        let to = if back {
            if at == 0 {
                n - 1
            } else {
                at - 1
            }
        } else {
            if at == n - 1 {
                0
            } else {
                at + 1
            }
        };
        assert(roles[to as int] == players@[to as int].role);
        if is_wanted(want, &players[to].role) {
            return Some(to);
        }
        at = to;
        left = left - 1;
    }
    None
}

/// How many of the seats are eligible.
pub open spec fn eligible_of(roles: Seq<Role>) -> int
    decreases roles.len(),
{
    if roles.len() == 0 {
        0
    } else {
        eligible_of(roles.drop_last()) + if is_eligible(roles.last()) {
            1int
        } else {
            0
        }
    }
}

/// How many of the seats have placed their bet.
pub open spec fn bettors_of(roles: Seq<Role>) -> int
    decreases roles.len(),
{
    if roles.len() == 0 {
        0
    } else {
        bettors_of(roles.drop_last()) + if roles.last() is PlaceBet {
            1int
        } else {
            0
        }
    }
}

/// What the seats have in play together: their bankrolls and their bets.
pub open spec fn chips_of(players: Seq<Player>) -> int
    decreases players.len(),
{
    if players.len() == 0 {
        0
    } else {
        chips_of(players.drop_last()) + players.last().chips()
    }
}

/// The number of eligible seats.
pub fn count_eligible(players: &Vec<Player>) -> (r: usize)
    ensures
        r == eligible_of(roles_of(players@)),
        r <= players.len(),
{
    let ghost roles = roles_of(players@);
    let mut count: usize = 0;
    let mut i: usize = 0;
    assert(roles.take(0) =~= Seq::<Role>::empty());
    while i < players.len()
        invariant
            0 <= i <= players.len(),
            roles == roles_of(players@),
            count == eligible_of(roles.take(i as int)),
            count <= i,
        decreases players.len() - i,
    {
        assert(roles.take(i + 1).drop_last() =~= roles.take(i as int));
        assert(roles.take(i + 1).last() == players@[i as int].role);
        if is_wanted(Want::Eligible, &players[i].role) {
            count = count + 1;
        }
        i = i + 1;
    }
    assert(roles.take(players.len() as int) =~= roles);
    count
}

/// The number of seats that have placed their bet.
pub fn count_bettors(players: &Vec<Player>) -> (r: usize)
    ensures
        r == bettors_of(roles_of(players@)),
        r <= players.len(),
{
    let ghost roles = roles_of(players@);
    let mut count: usize = 0;
    let mut i: usize = 0;
    assert(roles.take(0) =~= Seq::<Role>::empty());
    while i < players.len()
        invariant
            0 <= i <= players.len(),
            roles == roles_of(players@),
            count == bettors_of(roles.take(i as int)),
            count <= i,
        decreases players.len() - i,
    {
        assert(roles.take(i + 1).drop_last() =~= roles.take(i as int));
        assert(roles.take(i + 1).last() == players@[i as int].role);
        if is_wanted(Want::Bettor, &players[i].role) {
            count = count + 1;
        }
        i = i + 1;
    }
    assert(roles.take(players.len() as int) =~= roles);
    count
}

/// What the seats have in play together.
pub fn total_chips(players: &Vec<Player>) -> (r: i64)
    requires
        players.len() <= 10,
    ensures
        r == chips_of(players@),
        0 <= r <= 10 * 0x1_0000_0000,
{
    let mut total: i64 = 0;
    let mut i: usize = 0;
    assert(players@.take(0) =~= Seq::<Player>::empty());
    while i < players.len()
        invariant
            0 <= i <= players.len() <= 10,
            total == chips_of(players@.take(i as int)),
            0 <= total <= i * 0x1_0000_0000,
        decreases players.len() - i,
    {
        assert(players@.take(i + 1).drop_last() =~= players@.take(i as int));
        assert(players@.take(i + 1).last() == players@[i as int]);
        let owned = players[i].owned_bank.get_values_of_bank();
        let bet = players[i].bet_bank.get_values_of_bank();
        total = total + owned as i64 + bet as i64;
        i = i + 1;
    }
    assert(players@.take(players.len() as int) =~= players@);
    total
}

/// The seat of the `k`-th eligible seat, counting from 0.
pub fn eligible_seat(players: &Vec<Player>, k: usize) -> (r: usize)
    requires
        k < eligible_of(roles_of(players@)),
    ensures
        r < players.len(),
        is_eligible(roles_of(players@)[r as int]),
        eligible_of(roles_of(players@).take(r as int)) == k,
{
    let ghost roles = roles_of(players@);
    let mut count: usize = 0;
    let mut i: usize = 0;
    assert(roles.take(0) =~= Seq::<Role>::empty());
    while i < players.len()
        invariant
            0 <= i <= players.len(),
            roles == roles_of(players@),
            count == eligible_of(roles.take(i as int)),
            count <= k,
            k < eligible_of(roles),
        decreases players.len() - i,
    {
        assert(roles.take(i + 1).drop_last() =~= roles.take(i as int));
        assert(roles.take(i + 1).last() == players@[i as int].role);
        if is_wanted(Want::Eligible, &players[i].role) {
            if count == k {
                return i;
            }
            count = count + 1;
        }
        i = i + 1;
    }
    assert(roles.take(players.len() as int) =~= roles);
    0
}

} // verus!
