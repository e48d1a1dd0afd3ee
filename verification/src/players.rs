//! Players: creation and turn order, switching turns, orders per turn, and
//! deciding who has lost and whether the game is over.

use vstd::prelude::*;
use crate::pieces::{LogPiece, OrdersPerTurn};

verus! {

#[derive(Debug, Clone, Copy, PartialEq, Eq, Structural)]
pub enum PlayerState {
    HasNoTowerYet,
    Alive,
    Dead,
}

/// One player.
#[derive(Debug, Clone, Copy, PartialEq, Eq, Structural)]
pub struct LogPlayer {
    pub entity: u64,
    pub state: PlayerState,
    /// Orders the player may still give this turn; the ghost player has none.
    pub orders_remaining: Option<u32>,
    /// The player whose turn comes after this one; the ghost player has none.
    pub next_player: Option<u64>,
}

pub open spec fn players_distinct(players: Seq<LogPlayer>) -> bool {
    forall|i: int, j: int|
        0 <= i < players.len() && 0 <= j < players.len() && i != j ==> (#[trigger] players[i]).entity
            != (#[trigger] players[j]).entity
}

pub open spec fn player_present(players: Seq<LogPlayer>, e: u64) -> bool {
    exists|i: int| 0 <= i < players.len() && (#[trigger] players[i]).entity == e
}

/// The player with the given id (meaningful when it is present).
pub open spec fn player_of(players: Seq<LogPlayer>, e: u64) -> LogPlayer {
    players[choose|i: int| 0 <= i < players.len() && (#[trigger] players[i]).entity == e]
}

/// The index of the player with the given id.
pub fn find_player(players: &Vec<LogPlayer>, e: u64) -> (r: Option<usize>)
    ensures
        r matches Some(i) ==> i < players@.len() && players@[i as int].entity == e,
        r is None <==> !player_present(players@, e),
{
    let mut i: usize = 0;
    while i < players.len()
        invariant
            i <= players@.len(),
            forall|k: int| 0 <= k < i ==> (#[trigger] players@[k]).entity != e,
        decreases players@.len() - i,
    {
        if players[i].entity == e {
            return Some(i);
        }
        i = i + 1;
    }
    None
}

/// The players that the creation instructions ask for, in order, each
/// followed in turn by the next and the last by the first. The first player
/// starts.
pub open spec fn created_player(ids: Seq<u64>, i: int) -> LogPlayer {
    LogPlayer {
        entity: ids[i],
        state: PlayerState::HasNoTowerYet,
        orders_remaining: Some(0),
        next_player: Some(
            if i + 1 < ids.len() {
                ids[i + 1]
            } else {
                ids[0]
            },
        ),
    }
}

/// Creates one player for each id, in the order given. Returns the players
/// and the player whose turn is first. Each player learns its index through
/// the creation messages, which are `(ids[i], i)`.
pub fn create_basic_players(ids: &Vec<u64>) -> (r: (Vec<LogPlayer>, u64))
    requires
        ids@.len() > 0,
    ensures
        r.0@.len() == ids@.len(),
        forall|i: int| 0 <= i < ids@.len() ==> #[trigger] r.0@[i] == created_player(ids@, i),
        r.1 == ids@[0],
{
    let mut players: Vec<LogPlayer> = Vec::new();
    let n = ids.len();
    let mut i: usize = 0;
    while i < n
        invariant
            n == ids@.len(),
            n > 0,
            i <= n,
            players@.len() == i,
            forall|k: int| 0 <= k < i ==> #[trigger] players@[k] == created_player(ids@, k),
        decreases n - i,
    {
        let next = if i + 1 < n {
            ids[i + 1]
        } else {
            ids[0]
        };
        players.push(
            LogPlayer {
                entity: ids[i],
                state: PlayerState::HasNoTowerYet,
                orders_remaining: Some(0),
                next_player: Some(next),
            },
        );
        i = i + 1;
    }
    (players, ids[0])
}

/// The ghost player, who takes over the pieces of the dead; it is dead and
/// has no turns.
pub fn create_ghost_player(id: u64) -> (r: LogPlayer)
    ensures
        r == (LogPlayer {
            entity: id,
            state: PlayerState::Dead,
            orders_remaining: None,
            next_player: None,
        }),
{
    LogPlayer { entity: id, state: PlayerState::Dead, orders_remaining: None, next_player: None }
}

/// The player that comes next after `e`, when `e` is a player with a turn.
pub open spec fn next_of(players: Seq<LogPlayer>, e: u64) -> Option<u64> {
    if player_present(players, e) {
        player_of(players, e).next_player
    } else {
        None
    }
}

/// The candidate after `k` steps along the turn order from `start`; `None`
/// once a step reaches someone who is not a player with a turn.
pub open spec fn candidate_after(players: Seq<LogPlayer>, start: u64, k: nat) -> Option<u64>
    decreases k,
{
    if k == 0 {
        Some(start)
    } else {
        match candidate_after(players, start, (k - 1) as nat) {
            Some(c) => next_of(players, c),
            None => None,
        }
    }
}

/// The search for the next player stops at a candidate that is not a player
/// with a turn, or that is not dead.
pub open spec fn search_stops(players: Seq<LogPlayer>, c: Option<u64>) -> bool {
    match c {
        None => true,
        Some(e) => next_of(players, e) is None || player_of(players, e).state != PlayerState::Dead,
    }
}

/// Why a turn could not be handled.
#[derive(Debug, Clone, Copy, PartialEq, Eq, Structural)]
pub enum TurnError {
    /// The id is not a player with a turn order and a state.
    NotAPlayer(u64),
}

/// What switching turns decided.
#[derive(Debug, Clone, Copy, PartialEq, Eq, Structural)]
pub enum SwitchOutcome {
    /// The active player has no tower yet and keeps the turn.
    Kept,
    /// The turn passes to `next`; when that is the active player again, no
    /// one else is left and the game checks for a winner. The pieces of `next`
    /// get their orders back and a new turn starts.
    Switched { next: u64, check_for_winner: bool },
}

/// The search for the player after `active` ends: some candidate along the
/// turn order is not dead, or is not a player with a turn.
pub open spec fn switch_ends(players: Seq<LogPlayer>, active: u64) -> bool {
    match next_of(players, active) {
        None => true,
        Some(first) => player_of(players, active).state == PlayerState::HasNoTowerYet || exists|
            k: nat,
        | search_stops(players, #[trigger] candidate_after(players, first, k)),
    }
}

/// Every candidate before step `k` along the turn order from `first` is a
/// dead player with a turn.
pub open spec fn dead_before(players: Seq<LogPlayer>, first: u64, k: nat) -> bool {
    forall|m: nat|
        m < k ==> (#[trigger] candidate_after(players, first, m)) is Some && player_of(
            players,
            candidate_after(players, first, m)->0,
        ).state == PlayerState::Dead && next_of(players, candidate_after(players, first, m)->0) is Some
}

/// What switching turns from `active` gives.
pub open spec fn switched(players: Seq<LogPlayer>, active: u64, r: Result<SwitchOutcome, TurnError>) -> bool {
    match next_of(players, active) {
        None => r == Err::<SwitchOutcome, TurnError>(TurnError::NotAPlayer(active)),
        Some(first) => if player_of(players, active).state == PlayerState::HasNoTowerYet {
            r == Ok::<SwitchOutcome, TurnError>(SwitchOutcome::Kept)
        } else {
            match r {
                Ok(SwitchOutcome::Switched { next, check_for_winner }) => exists|k: nat|
                    {
                        &&& #[trigger] candidate_after(players, first, k) == Some(next)
                        &&& next_of(players, next) is Some
                        &&& player_of(players, next).state != PlayerState::Dead
                        &&& dead_before(players, first, k)
                        &&& check_for_winner == (next == active)
                    },
                Err(TurnError::NotAPlayer(e)) => exists|k: nat|
                    {
                        &&& #[trigger] candidate_after(players, first, k) == Some(e)
                        &&& next_of(players, e) is None
                        &&& dead_before(players, first, k)
                    },
                Ok(SwitchOutcome::Kept) => false,
            }
        },
    }
}

/// The turn never passes to a dead player, nor to one without a turn, and a
/// winner is looked for exactly when the turn comes back to the player who
/// gave it away.
pub proof fn lemma_turns_skip_the_dead(
    players: Seq<LogPlayer>,
    active: u64,
    next: u64,
    check_for_winner: bool,
)
    requires
        switched(
            players,
            active,
            Ok::<SwitchOutcome, TurnError>(SwitchOutcome::Switched { next, check_for_winner }),
        ),
    ensures
        player_present(players, next),
        player_of(players, next).state != PlayerState::Dead,
        player_of(players, next).next_player is Some,
        check_for_winner == (next == active),
        player_of(players, active).state != PlayerState::HasNoTowerYet,
{
}

/// Passes the turn from `active` to the next player in turn order who is not
/// dead, skipping dead players. A player without a tower yet keeps the turn.
pub fn switch_player(players: &Vec<LogPlayer>, active: u64) -> (r: Result<SwitchOutcome, TurnError>)
    requires
        players_distinct(players@),
        switch_ends(players@, active),
    ensures
        switched(players@, active, r),
{
    let ai = match find_player(players, active) {
        None => {
            return Err(TurnError::NotAPlayer(active));
        },
        Some(i) => i,
    };
    proof {
        lemma_player_of(players@, ai as int);
    }
    let ideal_next_player = match players[ai].next_player {
        None => {
            return Err(TurnError::NotAPlayer(active));
        },
        Some(p) => p,
    };
    if players[ai].state == PlayerState::HasNoTowerYet {
        return Ok(SwitchOutcome::Kept);
    }
    let ghost bound = choose|k: nat| search_stops(players@, #[trigger] candidate_after(players@, ideal_next_player, k));
    let mut current_candidate = ideal_next_player;
    let ghost mut steps: nat = 0;
    loop
        invariant
            players_distinct(players@),
            next_of(players@, active) == Some(ideal_next_player),
            player_of(players@, active).state != PlayerState::HasNoTowerYet,
            candidate_after(players@, ideal_next_player, steps) == Some(current_candidate),
            search_stops(players@, candidate_after(players@, ideal_next_player, bound)),
            steps <= bound,
            dead_before(players@, ideal_next_player, steps),
        decreases bound - steps,
    {
        let ci = match find_player(players, current_candidate) {
            None => {
                proof {
                    assert(next_of(players@, current_candidate) is None);
                    assert(candidate_after(players@, ideal_next_player, steps) == Some(current_candidate));
                }
                return Err(TurnError::NotAPlayer(current_candidate));
            },
            Some(i) => i,
        };
        proof {
            lemma_player_of(players@, ci as int);
        }
        let next_candidate = match players[ci].next_player {
            None => {
                proof {
                    assert(next_of(players@, current_candidate) is None);
                    assert(candidate_after(players@, ideal_next_player, steps) == Some(current_candidate));
                }
                return Err(TurnError::NotAPlayer(current_candidate));
            },
            Some(p) => p,
        };
        if players[ci].state != PlayerState::Dead {
            proof {
                assert(candidate_after(players@, ideal_next_player, steps) == Some(current_candidate));
                assert(next_of(players@, current_candidate) is Some);
            }
            return Ok(
                SwitchOutcome::Switched {
                    next: current_candidate,
                    check_for_winner: current_candidate == active,
                },
            );
        }
        proof {
            if steps == bound {
                assert(false);
            }
            assert(candidate_after(players@, ideal_next_player, steps + 1) == Some(next_candidate));
            assert(next_of(players@, current_candidate) == Some(next_candidate));
            assert(dead_before(players@, ideal_next_player, steps + 1));
        }
        current_candidate = next_candidate;
        proof {
            steps = steps + 1;
        }
    }
}

/// The number of command points among the pieces that `player` owns.
pub open spec fn command_points_of(pieces: Seq<LogPiece>, player: u64) -> nat
    decreases pieces.len(),
{
    if pieces.len() == 0 {
        0
    } else {
        command_points_of(pieces.drop_last(), player) + if pieces.last().command_point
            && pieces.last().owner == player {
            1nat
        } else {
            0nat
        }
    }
}

/// Counts the command points that `player` owns.
pub fn count_command_points(pieces: &Vec<LogPiece>, player: u64) -> (r: usize)
    ensures
        r == command_points_of(pieces@, player),
{
    let mut count: usize = 0;
    let mut i: usize = 0;
    while i < pieces.len()
        invariant
            i <= pieces@.len(),
            count == command_points_of(pieces@.take(i as int), player),
            count <= i,
        decreases pieces@.len() - i,
    {
        proof {
            assert(pieces@.take(i + 1).drop_last() =~= pieces@.take(i as int));
        }
        if pieces[i].command_point && pieces[i].owner == player {
            count = count + 1;
        }
        i = i + 1;
    }
    proof {
        assert(pieces@.take(pieces@.len() as int) =~= pieces@);
    }
    count
}

/// Only command points count toward a player's extra orders: the number is
/// how many of the pieces are command points owned by the player, whatever
/// else those pieces are.
pub proof fn lemma_command_points_counted(pieces: Seq<LogPiece>, player: u64)
    ensures
        command_points_of(pieces, player) == pieces.filter(
            |q: LogPiece| q.command_point && q.owner == player,
        ).len(),
        (forall|i: int| 0 <= i < pieces.len() ==> !(#[trigger] pieces[i]).command_point)
            ==> command_points_of(pieces, player) == 0,
        (forall|i: int| 0 <= i < pieces.len() ==> (#[trigger] pieces[i]).owner != player)
            ==> command_points_of(pieces, player) == 0,
    decreases pieces.len(),
{
    reveal(Seq::filter);
    if pieces.len() > 0 {
        lemma_command_points_counted(pieces.drop_last(), player);
        assert forall|i: int| 0 <= i < pieces.drop_last().len() implies pieces.drop_last()[i]
            == pieces[i] by {}
        if forall|i: int| 0 <= i < pieces.len() ==> !(#[trigger] pieces[i]).command_point {
            assert(!pieces[pieces.len() - 1].command_point);
            assert forall|i: int| 0 <= i < pieces.drop_last().len() implies !(#[trigger] pieces.drop_last()[i]).command_point by {
                assert(!pieces[i].command_point);
            }
        }
        if forall|i: int| 0 <= i < pieces.len() ==> (#[trigger] pieces[i]).owner != player {
            assert(pieces[pieces.len() - 1].owner != player);
            assert forall|i: int| 0 <= i < pieces.drop_last().len() implies (#[trigger] pieces.drop_last()[i]).owner != player by {
                assert(pieces[i].owner != player);
            }
        }
    }
}

/// Two piece lists that agree, piece by piece, on who owns each piece and
/// which pieces are command points give every player the same number of
/// command points, however they differ otherwise (win conditions, health,
/// tiles).
pub proof fn lemma_command_points_ignore_the_rest(a: Seq<LogPiece>, b: Seq<LogPiece>, player: u64)
    requires
        a.len() == b.len(),
        forall|i: int|
            0 <= i < a.len() ==> (#[trigger] a[i]).command_point == b[i].command_point && a[i].owner
                == b[i].owner,
    ensures
        command_points_of(a, player) == command_points_of(b, player),
    decreases a.len(),
{
    if a.len() > 0 {
        assert forall|i: int| 0 <= i < a.drop_last().len() implies (#[trigger] a.drop_last()[i]).command_point
            == b.drop_last()[i].command_point && a.drop_last()[i].owner == b.drop_last()[i].owner by {
            assert(a.drop_last()[i] == a[i]);
            assert(b.drop_last()[i] == b[i]);
        }
        lemma_command_points_ignore_the_rest(a.drop_last(), b.drop_last(), player);
        assert(a[a.len() - 1].command_point == b[a.len() - 1].command_point);
    }
}

/// At the start of a turn, the active player may give two orders, and one
/// more for every command point it owns.
pub fn calculate_player_orders_this_turn(
    players: &mut Vec<LogPlayer>,
    pieces: &Vec<LogPiece>,
    active: u64,
) -> (r: Result<(), TurnError>)
    requires
        players_distinct(old(players)@),
        command_points_of(pieces@, active) + 2 <= u32::MAX,
    ensures
        players_distinct(final(players)@),
        final(players)@.len() == old(players)@.len(),
        r is Err <==> !(player_present(old(players)@, active) && player_of(
            old(players)@,
            active,
        ).orders_remaining is Some),
        r is Err ==> final(players)@ == old(players)@,
        r is Err ==> r == Err::<(), TurnError>(TurnError::NotAPlayer(active)),
        r is Ok ==> forall|k: int|
            0 <= k < old(players)@.len() ==> #[trigger] final(players)@[k] == if old(players)@[k].entity
                == active {
                LogPlayer {
                    orders_remaining: Some((2 + command_points_of(pieces@, active)) as u32),
                    ..old(players)@[k]
                }
            } else {
                old(players)@[k]
            },
{
    let extra_commands = count_command_points(pieces, active);
    match find_player(players, active) {
        None => Err(TurnError::NotAPlayer(active)),
        Some(i) => {
            proof {
                lemma_player_of(players@, i as int);
            }
            if players[i].orders_remaining.is_none() {
                return Err(TurnError::NotAPlayer(active));
            }
            let mut p = players[i];
            p.orders_remaining = Some(2 + extra_commands as u32);
            players.set(i, p);
            proof {
                assert forall|k: int| 0 <= k < old(players)@.len() && k != i implies old(players)@[k].entity != active by {}
                assert forall|x: int, y: int|
                    0 <= x < players@.len() && 0 <= y < players@.len() && x != y implies (#[trigger] players@[x]).entity
                        != (#[trigger] players@[y]).entity by {
                    assert(old(players)@[x].entity != old(players)@[y].entity);
                }
            }
            Ok(())
        },
    }
}

/// The player owns at least one piece.
pub open spec fn owns_pieces(pieces: Seq<LogPiece>, player: u64) -> bool {
    exists|i: int| 0 <= i < pieces.len() && (#[trigger] pieces[i]).owner == player
}

/// The player owns a piece that is a win condition.
pub open spec fn owns_win_condition(pieces: Seq<LogPiece>, player: u64) -> bool {
    exists|i: int| 0 <= i < pieces.len() && (#[trigger] pieces[i]).owner == player && pieces[i].win_condition
}

/// A player that owns pieces is still in the game while it has no tower yet
/// or owns a win condition. Players that own no piece are not considered.
pub open spec fn still_in_game(pieces: Seq<LogPiece>, p: LogPlayer) -> bool {
    owns_pieces(pieces, p.entity) && (p.state == PlayerState::HasNoTowerYet || owns_win_condition(
        pieces,
        p.entity,
    ))
}

/// A player that owns pieces but is no longer in the game, and is not yet
/// marked dead, dies now.
pub open spec fn dies_now(pieces: Seq<LogPiece>, p: LogPlayer) -> bool {
    owns_pieces(pieces, p.entity) && !still_in_game(pieces, p) && p.state != PlayerState::Dead
}

pub open spec fn count_in_game(players: Seq<LogPlayer>, pieces: Seq<LogPiece>) -> nat
    decreases players.len(),
{
    if players.len() == 0 {
        0
    } else {
        count_in_game(players.drop_last(), pieces) + if still_in_game(pieces, players.last()) {
            1nat
        } else {
            0nat
        }
    }
}

/// The players that die now, in order.
pub open spec fn dying(players: Seq<LogPlayer>, pieces: Seq<LogPiece>) -> Seq<u64>
    decreases players.len(),
{
    if players.len() == 0 {
        Seq::empty()
    } else {
        dying(players.drop_last(), pieces) + if dies_now(pieces, players.last()) {
            seq![players.last().entity]
        } else {
            Seq::<u64>::empty()
        }
    }
}

/// The owner of the first win-condition piece.
pub open spec fn first_win_condition_owner(pieces: Seq<LogPiece>) -> Option<u64>
    decreases pieces.len(),
{
    if pieces.len() == 0 {
        None
    } else if pieces[0].win_condition {
        Some(pieces[0].owner)
    } else {
        first_win_condition_owner(pieces.drop_first())
    }
}

/// What checking for dead players and a winner found.
#[derive(Debug, Clone)]
pub struct WinnerCheck {
    /// The players that died, in order.
    pub died: Vec<u64>,
    /// The active player died, so the turn must pass on.
    pub switch_player: bool,
    /// `Some` when at most one player is left: the game is over, and the
    /// winner is the owner of a win condition, or no one.
    pub game_over: Option<Option<u64>>,
}

/// Marks as dead every player that owns pieces but no longer a win
/// condition, once it has had a tower; counts the players still in the game
/// and ends the game when fewer than two are left.
pub fn check_if_player_dead_or_game_over(
    players: &mut Vec<LogPlayer>,
    pieces: &Vec<LogPiece>,
    active: u64,
) -> (r: WinnerCheck)
    requires
        count_in_game(old(players)@, pieces@) <= 255,
        count_in_game(old(players)@, pieces@) == 1 ==> first_win_condition_owner(pieces@) is Some,
    ensures
        final(players)@.len() == old(players)@.len(),
        forall|k: int|
            0 <= k < old(players)@.len() ==> #[trigger] final(players)@[k] == if dies_now(
                pieces@,
                old(players)@[k],
            ) {
                LogPlayer { state: PlayerState::Dead, ..old(players)@[k] }
            } else {
                old(players)@[k]
            },
        r.died@ == dying(old(players)@, pieces@),
        r.switch_player == dying(old(players)@, pieces@).contains(active),
        r.game_over == if count_in_game(old(players)@, pieces@) > 1 {
            None
        } else if count_in_game(old(players)@, pieces@) == 1 {
            Some(first_win_condition_owner(pieces@))
        } else {
            Some(None::<u64>)
        },
{
    let mut living_players: u8 = 0;
    let mut died: Vec<u64> = Vec::new();
    let mut switch_player = false;
    let n = players.len();
    let mut i: usize = 0;
    while i < n
        invariant
            n == old(players)@.len(),
            i <= n,
            players@.len() == n,
            count_in_game(old(players)@, pieces@) <= 255,
            forall|k: int|
                0 <= k < n ==> #[trigger] players@[k] == if k < i && dies_now(
                    pieces@,
                    old(players)@[k],
                ) {
                    LogPlayer { state: PlayerState::Dead, ..old(players)@[k] }
                } else {
                    old(players)@[k]
                },
            living_players == count_in_game(old(players)@.take(i as int), pieces@),
            died@ == dying(old(players)@.take(i as int), pieces@),
            switch_player == died@.contains(active),
        decreases n - i,
    {
        proof {
            assert(old(players)@.take(i + 1).drop_last() =~= old(players)@.take(i as int));
            lemma_count_in_game_prefix(old(players)@, pieces@, i as int + 1);
        }
        let p = players[i];
        let owns = owns_any_piece(pieces, p.entity);
        let alive = owns && (p.state == PlayerState::HasNoTowerYet || owns_win_condition_piece(pieces, p.entity));
        if alive {
            living_players = living_players + 1;
        } else if owns && p.state != PlayerState::Dead {
            let mut q = p;
            q.state = PlayerState::Dead;
            players.set(i, q);
            let ghost before = died@;
            died.push(p.entity);
            proof {
                lemma_push_contains(before, p.entity);
            }
            if p.entity == active {
                switch_player = true;
            }
        }
        i = i + 1;
    }
    proof {
        assert(old(players)@.take(n as int) =~= old(players)@);
    }
    let game_over = if living_players > 1 {
        None
    } else if living_players == 1 {
        Some(first_win_condition_owner_of(pieces))
    } else {
        Some(None)
    };
    WinnerCheck { died, switch_player, game_over }
}

/// After the check, every player that owns pieces but is out of the game is
/// dead, and every player that was already dead stays dead.
pub proof fn lemma_losers_are_dead(old: Seq<LogPlayer>, new: Seq<LogPlayer>, pieces: Seq<LogPiece>)
    requires
        new.len() == old.len(),
        forall|k: int|
            0 <= k < old.len() ==> #[trigger] new[k] == if dies_now(pieces, old[k]) {
                LogPlayer { state: PlayerState::Dead, ..old[k] }
            } else {
                old[k]
            },
    ensures
        forall|k: int|
            0 <= k < new.len() && owns_pieces(pieces, (#[trigger] new[k]).entity) && !still_in_game(
                pieces,
                old[k],
            ) ==> new[k].state == PlayerState::Dead,
        forall|k: int|
            0 <= k < new.len() && (#[trigger] old[k]).state == PlayerState::Dead ==> new[k].state
                == PlayerState::Dead,
{
    assert forall|k: int|
        0 <= k < new.len() && owns_pieces(pieces, (#[trigger] new[k]).entity) && !still_in_game(
            pieces,
            old[k],
        ) implies new[k].state == PlayerState::Dead by {
        assert(new[k].entity == old[k].entity);
    }
}

proof fn lemma_count_in_game_prefix(players: Seq<LogPlayer>, pieces: Seq<LogPiece>, i: int)
    requires
        0 <= i <= players.len(),
    ensures
        count_in_game(players.take(i), pieces) <= count_in_game(players, pieces),
    decreases players.len() - i,
{
    if i < players.len() {
        lemma_count_in_game_prefix(players, pieces, i + 1);
        assert(players.take(i + 1).drop_last() =~= players.take(i));
    } else {
        assert(players.take(i) =~= players);
    }
}

proof fn lemma_push_contains(s: Seq<u64>, v: u64)
    ensures
        forall|u: u64| #[trigger] s.push(v).contains(u) <==> (s.contains(u) || u == v),
{
    assert forall|u: u64| #[trigger] s.push(v).contains(u) <==> (s.contains(u) || u == v) by {
        if s.push(v).contains(u) {
            let b = choose|b: int| 0 <= b < s.push(v).len() && s.push(v)[b] == u;
            if b < s.len() {
                assert(s[b] == u);
            }
        }
        if s.contains(u) {
            let b = choose|b: int| 0 <= b < s.len() && s[b] == u;
            assert(s.push(v)[b] == u);
        }
        if u == v {
            assert(s.push(v)[s.len() as int] == u);
        }
    }
}

/// Whether the player owns at least one piece.
pub fn owns_any_piece(pieces: &Vec<LogPiece>, player: u64) -> (r: bool)
    ensures
        r == owns_pieces(pieces@, player),
{
    let mut i: usize = 0;
    while i < pieces.len()
        invariant
            i <= pieces@.len(),
            forall|k: int| 0 <= k < i ==> (#[trigger] pieces@[k]).owner != player,
        decreases pieces@.len() - i,
    {
        if pieces[i].owner == player {
            return true;
        }
        i = i + 1;
    }
    false
}

/// Whether the player owns a piece that is a win condition.
pub fn owns_win_condition_piece(pieces: &Vec<LogPiece>, player: u64) -> (r: bool)
    ensures
        r == owns_win_condition(pieces@, player),
{
    let mut i: usize = 0;
    while i < pieces.len()
        invariant
            i <= pieces@.len(),
            forall|k: int| 0 <= k < i ==> !((#[trigger] pieces@[k]).owner == player && pieces@[k].win_condition),
        decreases pieces@.len() - i,
    {
        if pieces[i].owner == player && pieces[i].win_condition {
            return true;
        }
        i = i + 1;
    }
    false
}

/// The owner of the first win-condition piece, if there is one.
pub fn first_win_condition_owner_of(pieces: &Vec<LogPiece>) -> (r: Option<u64>)
    ensures
        r == first_win_condition_owner(pieces@),
{
    proof {
        assert(pieces@.skip(0) =~= pieces@);
    }
    let mut i: usize = 0;
    while i < pieces.len()
        invariant
            i <= pieces@.len(),
            first_win_condition_owner(pieces@) == first_win_condition_owner(pieces@.skip(i as int)),
        decreases pieces@.len() - i,
    {
        proof {
            assert(pieces@.skip(i as int).drop_first() =~= pieces@.skip(i + 1));
        }
        if pieces[i].win_condition {
            return Some(pieces[i].owner);
        }
        i = i + 1;
    }
    None
}

/// The piece after its orders were given back for a new turn.
pub open spec fn replenished(p: LogPiece) -> LogPiece {
    LogPiece {
        orders_per_turn: Some(
            OrdersPerTurn { current: p.orders_per_turn->0.max, max: p.orders_per_turn->0.max },
        ),
        ..p
    }
}

/// The index of the first piece of `player`, from index `from` on, that has no
/// orders per turn; the number of pieces when there is none.
pub open spec fn first_without_orders(pieces: Seq<LogPiece>, player: u64, from: int) -> int
    decreases pieces.len() - from,
{
    if from >= pieces.len() || from < 0 {
        pieces.len() as int
    } else if pieces[from].owner == player && pieces[from].orders_per_turn is None {
        from
    } else {
        first_without_orders(pieces, player, from + 1)
    }
}

/// Gives the pieces of `player` back all their orders for the new turn,
/// in order, stopping at the first of its pieces that has no orders per turn;
/// that piece is returned.
pub fn replenish_piece_orders(pieces: &mut Vec<LogPiece>, player: u64) -> (r: Option<u64>)
    ensures
        final(pieces)@.len() == old(pieces)@.len(),
        ({
            let stop = first_without_orders(old(pieces)@, player, 0);
            &&& stop < old(pieces)@.len() ==> r == Some(old(pieces)@[stop].entity)
            &&& stop == old(pieces)@.len() ==> r is None
            &&& forall|k: int|
                0 <= k < old(pieces)@.len() ==> #[trigger] final(pieces)@[k] == if k < stop
                    && old(pieces)@[k].owner == player {
                    replenished(old(pieces)@[k])
                } else {
                    old(pieces)@[k]
                }
        }),
{
    let n = pieces.len();
    let mut i: usize = 0;
    while i < n
        invariant
            n == old(pieces)@.len(),
            i <= n,
            pieces@.len() == n,
            first_without_orders(old(pieces)@, player, 0) == first_without_orders(old(pieces)@, player, i as int),
            forall|k: int|
                0 <= k < n ==> #[trigger] pieces@[k] == if k < i && old(pieces)@[k].owner == player {
                    replenished(old(pieces)@[k])
                } else {
                    old(pieces)@[k]
                },
        decreases n - i,
    {
        if pieces[i].owner == player {
            match pieces[i].orders_per_turn {
                None => {
                    return Some(pieces[i].entity);
                },
                Some(order_stats) => {
                    let mut p = pieces[i];
                    p.orders_per_turn = Some(OrdersPerTurn { current: order_stats.max, max: order_stats.max });
                    pieces.set(i, p);
                },
            }
        }
        i = i + 1;
    }
    None
}

/// Hands a piece over to another player. Returns whether the piece exists.
pub fn transfer_piece_ownership(pieces: &mut Vec<LogPiece>, piece: u64, to_player: u64) -> (r: bool)
    requires
        crate::pieces::pieces_distinct(old(pieces)@),
    ensures
        r == crate::pieces::piece_present(old(pieces)@, piece),
        final(pieces)@.len() == old(pieces)@.len(),
        forall|k: int|
            0 <= k < old(pieces)@.len() ==> #[trigger] final(pieces)@[k] == if old(pieces)@[k].entity
                == piece {
                LogPiece { owner: to_player, ..old(pieces)@[k] }
            } else {
                old(pieces)@[k]
            },
        crate::pieces::pieces_distinct(final(pieces)@),
{
    match crate::pieces::find_piece(pieces, piece) {
        None => false,
        Some(i) => {
            let mut p = pieces[i];
            p.owner = to_player;
            pieces.set(i, p);
            proof {
                assert forall|k: int| 0 <= k < old(pieces)@.len() && k != i implies old(pieces)@[k].entity != piece by {}
                assert forall|x: int, y: int|
                    0 <= x < pieces@.len() && 0 <= y < pieces@.len() && x != y implies (#[trigger] pieces@[x]).entity
                        != (#[trigger] pieces@[y]).entity by {
                    assert(old(pieces)@[x].entity != old(pieces)@[y].entity);
                }
            }
            true
        },
    }
}

/// The piece of a dead player, put up for sale and handed to the ghost player.
pub open spec fn sold(p: LogPiece, ghost: u64) -> LogPiece {
    LogPiece { for_sale: true, owner: ghost, ..p }
}

/// When a player dies, all its pieces go up for sale and pass to the ghost
/// player. Fails, changing nothing, when the player owns no piece.
pub fn sell_pieces(pieces: &mut Vec<LogPiece>, dead_player: u64, ghost: u64) -> (r: Result<(), TurnError>)
    ensures
        final(pieces)@.len() == old(pieces)@.len(),
        r is Err <==> !owns_pieces(old(pieces)@, dead_player),
        r is Err ==> r == Err::<(), TurnError>(TurnError::NotAPlayer(dead_player)),
        forall|k: int|
            0 <= k < old(pieces)@.len() ==> #[trigger] final(pieces)@[k] == if old(pieces)@[k].owner
                == dead_player {
                sold(old(pieces)@[k], ghost)
            } else {
                old(pieces)@[k]
            },
{
    if !owns_any_piece(pieces, dead_player) {
        return Err(TurnError::NotAPlayer(dead_player));
    }
    let n = pieces.len();
    let mut i: usize = 0;
    while i < n
        invariant
            n == old(pieces)@.len(),
            i <= n,
            pieces@.len() == n,
            forall|k: int|
                0 <= k < n ==> #[trigger] pieces@[k] == if k < i && old(pieces)@[k].owner == dead_player {
                    sold(old(pieces)@[k], ghost)
                } else {
                    old(pieces)@[k]
                },
        decreases n - i,
    {
        if pieces[i].owner == dead_player {
            let mut p = pieces[i];
            p.for_sale = true;
            p.owner = ghost;
            pieces.set(i, p);
        }
        i = i + 1;
    }
    Ok(())
}

/// After the sale, a dead player that is not the ghost owns no piece, and
/// every piece it owned belongs to the ghost player and is for sale.
pub proof fn lemma_sale_empties_the_dead(old: Seq<LogPiece>, new: Seq<LogPiece>, dead: u64, ghost: u64)
    requires
        dead != ghost,
        new.len() == old.len(),
        forall|k: int|
            0 <= k < old.len() ==> #[trigger] new[k] == if old[k].owner == dead {
                sold(old[k], ghost)
            } else {
                old[k]
            },
    ensures
        !owns_pieces(new, dead),
        forall|k: int|
            0 <= k < old.len() && (#[trigger] old[k]).owner == dead ==> new[k].owner == ghost
                && new[k].for_sale,
{
    assert forall|k: int| 0 <= k < new.len() implies (#[trigger] new[k]).owner != dead by {
        assert(new[k] == if old[k].owner == dead { sold(old[k], ghost) } else { old[k] });
    }
}

pub(crate) proof fn lemma_player_of(players: Seq<LogPlayer>, i: int)
    requires
        players_distinct(players),
        0 <= i < players.len(),
    ensures
        player_present(players, players[i].entity),
        player_of(players, players[i].entity) == players[i],
{
    let e = players[i].entity;
    assert(player_present(players, e));
    let c = choose|c: int| 0 <= c < players.len() && (#[trigger] players[c]).entity == e;
    assert(c == i);
}

} // verus!
