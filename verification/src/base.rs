//! The plain data of a game: coordinates, directions, snakes, players,
//! and the snapshot that a master hands to its followers.

use vstd::prelude::*;
use vstd::arithmetic::div_mod::lemma_fundamental_div_mod_converse;
use vstd::arithmetic::div_mod::lemma_fundamental_div_mod;

verus! {

/// A cell position: `x` counts columns, `y` counts rows.
#[derive(Clone, Copy, Debug, PartialEq, Eq, Structural)]
pub struct Coord {
    pub x: i32,
    pub y: i32,
}

impl Coord {
    /// The position in column `x` and row `y`.
    pub fn new(x: i32, y: i32) -> (c: Self)
        ensures
            c.x == x,
            c.y == y,
    {
        Coord { x, y }
    }

    /// The position lies on a board of `width` columns and `height` rows.
    pub open spec fn within(self, width: int, height: int) -> bool {
        0 <= self.x < width && 0 <= self.y < height
    }

}

/// The remainder of `v` on a ring of `n` positions; for `n > 0` it lies in `0..n`.
pub open spec fn wrap(v: int, n: int) -> int {
    v % n
}

/// Folds a coordinate onto a ring of `n` positions.
pub fn wrap_i32(v: i32, n: i32) -> (r: i32)
    requires
        n > 0,
    ensures
        r == wrap(v as int, n as int),
        0 <= r < n,
{
    if v >= 0 {
        v % n
    } else {
        let k: i32 = -(v + 1);
        let t: i32 = k % n;
        proof {
            let q: int = (k as int) / (n as int);
            lemma_fundamental_div_mod(k as int, n as int);
            assert(v as int == (-(q + 1)) * (n as int) + ((n as int) - 1 - (t as int)))
                by (nonlinear_arith)
                requires
                    k as int == (n as int) * q + (t as int),
                    k as int == -((v as int) + 1),
            ;
            lemma_fundamental_div_mod_converse(
                v as int,
                n as int,
                -(q + 1),
                (n as int) - 1 - (t as int),
            );
        }
        n - 1 - t
    }
}

/// The four ways a snake can head.
#[derive(Clone, Copy, Debug, PartialEq, Eq, Structural)]
pub enum Direction {
    UP,
    DOWN,
    LEFT,
    RIGHT,
}

impl Direction {
    /// The direction that points the other way along the same axis.
    pub open spec fn reversed(self) -> Direction {
        match self {
            Direction::UP => Direction::DOWN,
            Direction::DOWN => Direction::UP,
            Direction::LEFT => Direction::RIGHT,
            Direction::RIGHT => Direction::LEFT,
        }
    }

    /// The change of `x` for one step.
    pub open spec fn dx(self) -> int {
        match self {
            Direction::LEFT => -1,
            Direction::RIGHT => 1,
            _ => 0,
        }
    }

    /// The change of `y` for one step; rows count downwards.
    pub open spec fn dy(self) -> int {
        match self {
            Direction::UP => -1,
            Direction::DOWN => 1,
            _ => 0,
        }
    }

    /// The direction that points the other way along the same axis.
    pub fn opposite(self) -> (r: Direction)
        ensures
            r == self.reversed(),
    {
        match self {
            Direction::UP => Direction::DOWN,
            Direction::DOWN => Direction::UP,
            Direction::LEFT => Direction::RIGHT,
            Direction::RIGHT => Direction::LEFT,
        }
    }
}

/// What a cell of the board shows.
#[derive(Clone, Copy, Debug, PartialEq, Eq, Structural)]
pub enum WorldCell {
    Snake,
    Empty,
    Food,
}

/// Whether a snake still belongs to a player.
#[derive(Clone, Copy, Debug, PartialEq, Eq, Structural)]
pub enum SnakeState {
    ALIVE,
    ZOMBIE,
}

/// The part a node plays in a game.
#[derive(Clone, Copy, Debug, PartialEq, Eq, Structural)]
pub enum NodeRole {
    NORMAL,
    MASTER,
    DEPUTY,
    VIEWER,
}

/// Who moves a player's snake.
#[derive(Clone, Copy, Debug, PartialEq, Eq, Structural)]
pub enum PlayerType {
    HUMAN,
    ROBOT,
}

/// The parameters of a game.
#[derive(Clone, Copy, Debug, PartialEq, Eq, Structural)]
pub struct Config {
    pub width: i32,
    pub height: i32,
    /// How many food cells the board is kept at.
    pub food_static: i32,
    /// The period of a tick, in milliseconds.
    pub state_delay_ms: i32,
}

impl Config {
    /// A board needs at least one column and one row.
    pub open spec fn valid(self) -> bool {
        self.width >= 1 && self.height >= 1
    }

    /// Whether the parameters describe a board.
    pub fn is_valid(&self) -> (r: bool)
        ensures
            r == self.valid(),
    {
        self.width >= 1 && self.height >= 1
    }
}

/// A snake: `body[0]` is the tail, the last element is the head.
#[derive(Clone, Debug)]
pub struct Snake {
    pub player_id: i32,
    pub body: Vec<Coord>,
    /// Where the head goes at the next tick.
    pub direction: Direction,
    pub state: SnakeState,
}

/// The mathematical value of a [`Snake`].
pub struct SnakeView {
    pub player_id: i32,
    pub body: Seq<Coord>,
    pub direction: Direction,
    pub state: SnakeState,
}

impl View for Snake {
    type V = SnakeView;

    open spec fn view(&self) -> SnakeView {
        SnakeView {
            player_id: self.player_id,
            body: self.body@,
            direction: self.direction,
            state: self.state,
        }
    }
}

impl Snake {
    /// A copy with the same value.
    pub fn duplicate(&self) -> (r: Snake)
        ensures
            r@ == self@,
    {
        Snake {
            player_id: self.player_id,
            body: copy_coords(&self.body),
            direction: self.direction,
            state: self.state,
        }
    }
}

/// A copy of a list of positions.
pub fn copy_coords(v: &Vec<Coord>) -> (r: Vec<Coord>)
    ensures
        r@ == v@,
{
    let mut r: Vec<Coord> = Vec::new();
    let mut i: usize = 0;
    while i < v.len()
        invariant
            i <= v.len(),
            r@ == v@.subrange(0, i as int),
        decreases v.len() - i,
    {
        r.push(v[i]);
        i += 1;
    }
    r
}

/// Marks the types that stand for a participant of a game.
pub trait Player {
}

impl Player for GamePlayer {
}

/// A participant of a game.
#[derive(Clone, Debug)]
pub struct GamePlayer {
    pub name: String,
    pub id: i32,
    /// The `host:port` under which the peer is reached.
    pub ip_address: String,
    pub role: NodeRole,
    pub player_type: PlayerType,
    pub score: i32,
}

/// The mathematical value of a [`GamePlayer`].
pub struct PlayerView {
    pub name: Seq<char>,
    pub id: i32,
    pub ip_address: Seq<char>,
    pub role: NodeRole,
    pub player_type: PlayerType,
    pub score: i32,
}

impl View for GamePlayer {
    type V = PlayerView;

    open spec fn view(&self) -> PlayerView {
        PlayerView {
            name: self.name@,
            id: self.id,
            ip_address: self.ip_address@,
            role: self.role,
            player_type: self.player_type,
            score: self.score,
        }
    }
}

impl GamePlayer {
    /// A copy with the same value.
    pub fn duplicate(&self) -> (r: GamePlayer)
        ensures
            r@ == self@,
    {
        GamePlayer {
            name: self.name.clone(),
            id: self.id,
            ip_address: self.ip_address.clone(),
            role: self.role,
            player_type: self.player_type,
            score: self.score,
        }
    }
}

/// The values of a list of snakes, element by element.
pub open spec fn snake_views(s: Seq<Snake>) -> Seq<SnakeView> {
    Seq::new(s.len(), |i: int| s[i]@)
}

/// The values of a list of players, element by element.
pub open spec fn player_views(s: Seq<GamePlayer>) -> Seq<PlayerView> {
    Seq::new(s.len(), |i: int| s[i]@)
}

/// A copy of a list of snakes.
pub fn copy_snakes(v: &Vec<Snake>) -> (r: Vec<Snake>)
    ensures
        snake_views(r@) == snake_views(v@),
{
    let mut r: Vec<Snake> = Vec::new();
    let mut i: usize = 0;
    while i < v.len()
        invariant
            i <= v.len(),
            r.len() == i,
            forall|k: int| 0 <= k < i ==> r@[k]@ == v@[k]@,
        decreases v.len() - i,
    {
        r.push(v[i].duplicate());
        i += 1;
    }
    assert(snake_views(r@) =~= snake_views(v@));
    r
}

/// A copy of a list of players.
pub fn copy_players(v: &Vec<GamePlayer>) -> (r: Vec<GamePlayer>)
    ensures
        player_views(r@) == player_views(v@),
{
    let mut r: Vec<GamePlayer> = Vec::new();
    let mut i: usize = 0;
    while i < v.len()
        invariant
            i <= v.len(),
            r.len() == i,
            forall|k: int| 0 <= k < i ==> r@[k]@ == v@[k]@,
        decreases v.len() - i,
    {
        r.push(v[i].duplicate());
        i += 1;
    }
    assert(player_views(r@) =~= player_views(v@));
    r
}

/// A complete snapshot of a game, as a master sends it.
#[derive(Clone, Debug)]
pub struct GameState {
    /// Counts the ticks of the master.
    pub state_order: i32,
    pub snakes: Vec<Snake>,
    pub foods: Vec<Coord>,
    pub players: Vec<GamePlayer>,
}

/// The mathematical value of a [`GameState`].
pub struct StateView {
    pub state_order: i32,
    pub snakes: Seq<SnakeView>,
    pub foods: Seq<Coord>,
    pub players: Seq<PlayerView>,
}

impl View for GameState {
    type V = StateView;

    open spec fn view(&self) -> StateView {
        StateView {
            state_order: self.state_order,
            snakes: snake_views(self.snakes@),
            foods: self.foods@,
            players: player_views(self.players@),
        }
    }
}

} // verus!
