//! One step of one snake: it moves onto an empty cell, grows onto food, or
//! dies on a snake cell and leaves food behind where the coins say so.

use vstd::prelude::*;
use crate::base::{wrap, wrap_i32, Coord, Direction, GamePlayer, PlayerView, Snake, SnakeState, SnakeView, WorldCell};
use crate::base::{player_views, snake_views};
use crate::bodies::{
    body_moved,
    lemma_drop_last_distinct,
    lemma_push_distinct,
    lemma_cover_after_growth,
    lemma_cover_after_turn,
    lemma_cover_after_move,
    lemma_cover_after_removal,
    lemma_within_after_update,
};
use crate::count::{lemma_fed_free, lemma_grid_put, lemma_moved_free, put};
use crate::food::free_cells;
use crate::world::{bodies_of, grid_of, lemma_shows_is_render, on_body, render, Game, GameView};

verus! {

/// The cell one step from `head` in direction `d`, on the torus.
pub open spec fn ahead_of(head: Coord, d: Direction, w: int, h: int) -> Coord {
    Coord { x: wrap(head.x + d.dx(), w) as i32, y: wrap(head.y + d.dy(), h) as i32 }
}

/// The cell one step from `head` in direction `d`, on the torus.
pub fn step_from(head: Coord, d: Direction, w: i32, h: i32) -> (c: Coord)
    requires
        w >= 1,
        h >= 1,
        head.within(w as int, h as int),
    ensures
        c == ahead_of(head, d, w as int, h as int),
        c.within(w as int, h as int),
{
    let (dx, dy): (i32, i32) = match d {
        Direction::UP => (0, -1),
        Direction::DOWN => (0, 1),
        Direction::LEFT => (-1, 0),
        Direction::RIGHT => (1, 0),
    };
    Coord { x: wrap_i32(head.x + dx, w), y: wrap_i32(head.y + dy, h) }
}

/// The food list without the position `c`.
pub open spec fn without(food: Seq<Coord>, c: Coord) -> Seq<Coord>
    decreases food.len(),
{
    if food.len() == 0 {
        Seq::empty()
    } else {
        let rest = without(food.drop_last(), c);
        if food.last() == c {
            rest
        } else {
            rest.push(food.last())
        }
    }
}

/// `without` keeps exactly the positions other than `c`.
pub proof fn lemma_without_contains(food: Seq<Coord>, c: Coord, d: Coord)
    ensures
        without(food, c).contains(d) <==> (food.contains(d) && d != c),
    decreases food.len(),
{
    if food.len() > 0 {
        let init = food.drop_last();
        lemma_without_contains(init, c, d);
        let rest = without(init, c);
        if food.contains(d) {
            let k = choose|k: int| 0 <= k < food.len() && food[k] == d;
            if k < food.len() - 1 {
                assert(init[k] == d);
            }
        }
        if init.contains(d) {
            let k = choose|k: int| 0 <= k < init.len() && init[k] == d;
            assert(food[k] == d);
        }
        if food.last() != c {
            let r2 = rest.push(food.last());
            assert(r2[rest.len() as int] == food.last());
            if rest.contains(d) {
                let k = choose|k: int| 0 <= k < rest.len() && rest[k] == d;
                assert(r2[k] == d);
            }
            if r2.contains(d) {
                let k = choose|k: int| 0 <= k < r2.len() && r2[k] == d;
                if k < rest.len() {
                    assert(rest[k] == d);
                }
            }
        }
        assert(food[food.len() - 1] == food.last());
    }
}

/// A food list without duplicates has none after a position has left it.
pub proof fn lemma_without_distinct(food: Seq<Coord>, c: Coord)
    requires
        food.no_duplicates(),
    ensures
        without(food, c).no_duplicates(),
    decreases food.len(),
{
    if food.len() > 0 {
        lemma_drop_last_distinct(food);
        lemma_without_distinct(food.drop_last(), c);
        lemma_without_contains(food.drop_last(), c, food.last());
        if food.last() != c {
            lemma_push_distinct(without(food.drop_last(), c), food.last());
        }
    }
}

/// The cells of a dead snake's body that turn into food: from the tail to
/// the head, those whose coin came up true, as long as the board has room
/// for more food. `room` is how many foods the board lacks to its target.
pub open spec fn corpse_food(body: Seq<Coord>, coins: Seq<bool>, room: int) -> Seq<Coord>
    decreases body.len(),
{
    if body.len() == 0 {
        Seq::empty()
    } else {
        let rest = corpse_food(body.drop_last(), coins, room);
        if coins[body.len() - 1] && rest.len() < room {
            rest.push(body.last())
        } else {
            rest
        }
    }
}

/// Corpse food is made of body cells whose coin came up true, and is no
/// more than the room for it.
pub proof fn lemma_corpse_food_contains(body: Seq<Coord>, coins: Seq<bool>, room: int, d: Coord)
    ensures
        corpse_food(body, coins, room).contains(d) ==> exists|j: int|
            0 <= j < body.len() && #[trigger] body[j] == d && coins[j],
        corpse_food(body, coins, room).len() <= body.len(),
        corpse_food(body, coins, room).len() <= (if room > 0 { room } else { 0 }),
    decreases body.len(),
{
    if body.len() > 0 {
        let init = body.drop_last();
        let n = body.len() - 1;
        lemma_corpse_food_contains(init, coins, room, d);
        let rest = corpse_food(init, coins, room);
        let full = corpse_food(body, coins, room);
        if full.contains(d) {
            let k = choose|k: int| 0 <= k < full.len() && full[k] == d;
            if coins[n] && rest.len() < room && k == rest.len() {
                assert(body[n] == d);
            } else {
                assert(rest[k] == d);
                let j = choose|j: int| 0 <= j < init.len() && #[trigger] init[j] == d && coins[j];
                assert(body[j] == d);
            }
        }
    }
}

/// The corpse food of a body without duplicates has none.
pub proof fn lemma_corpse_food_distinct(body: Seq<Coord>, coins: Seq<bool>, room: int)
    requires
        body.no_duplicates(),
    ensures
        corpse_food(body, coins, room).no_duplicates(),
    decreases body.len(),
{
    if body.len() > 0 {
        lemma_drop_last_distinct(body);
        lemma_corpse_food_distinct(body.drop_last(), coins, room);
        lemma_corpse_food_contains(body.drop_last(), coins, room, body.last());
        let rest = corpse_food(body.drop_last(), coins, room);
        if coins[body.len() - 1] && rest.len() < room {
            if rest.contains(body.last()) {
                let j = choose|j: int|
                    0 <= j < body.drop_last().len() && #[trigger] body.drop_last()[j] == body.last()
                        && coins[j];
                assert(body.drop_last().contains(body.last()));
            }
            lemma_push_distinct(rest, body.last());
        }
    }
}

/// A score after ten more points, held at the largest value.
pub open spec fn bonus(score: i32) -> i32 {
    if score > i32::MAX - 10 {
        i32::MAX
    } else {
        (score + 10) as i32
    }
}

/// The players after the one with the given id has been credited for a food.
pub open spec fn credit(players: Seq<PlayerView>, id: i32) -> Seq<PlayerView> {
    Seq::new(
        players.len(),
        |i: int|
            if players[i].id == id {
                PlayerView { score: bonus(players[i].score), ..players[i] }
            } else {
                players[i]
            },
    )
}

/// How a step of a snake ended.
#[derive(Clone, Copy, Debug, PartialEq, Eq, Structural)]
pub enum StepOutcome {
    /// The snake moved onto an empty cell, or onto its own tail cell.
    Moved,
    /// The snake grew onto a food cell.
    Fed,
    /// The snake ran into a snake cell and left the board.
    Died,
}

impl GameView {
    /// The cell that the snake at `index` steps onto next.
    pub open spec fn ahead(self, index: int) -> Coord {
        ahead_of(
            self.snakes[index].body.last(),
            self.snakes[index].direction,
            self.config.width as int,
            self.config.height as int,
        )
    }

    /// The game with new lists and the grid drawn from them.
    pub open spec fn redrawn(
        self,
        snakes: Seq<SnakeView>,
        food: Seq<Coord>,
        players: Seq<PlayerView>,
    ) -> GameView {
        GameView {
            world: render(
                bodies_of(snakes),
                food,
                self.config.width as int,
                self.config.height as int,
            ),
            food,
            snakes,
            config: self.config,
            players,
            order: self.order,
        }
    }

    /// The game after the snake at `index` has moved onto the empty cell ahead.
    pub open spec fn moved(self, index: int) -> GameView {
        let s = self.snakes[index];
        self.redrawn(
            self.snakes.update(
                index,
                SnakeView { body: body_moved(s.body, self.ahead(index)), ..s },
            ),
            self.food,
            self.players,
        )
    }

    /// The game after the snake at `index` has eaten the food ahead: it grows
    /// by the cell, the food leaves the list, and the owner of a living snake
    /// is credited.
    pub open spec fn fed(self, index: int) -> GameView {
        let s = self.snakes[index];
        let next = self.ahead(index);
        self.redrawn(
            self.snakes.update(index, SnakeView { body: s.body.push(next), ..s }),
            without(self.food, next),
            if s.state == SnakeState::ALIVE {
                credit(self.players, s.player_id)
            } else {
                self.players
            },
        )
    }

    /// How many foods the board lacks to its target.
    pub open spec fn food_room(self) -> int {
        self.config.food_static - self.food.len()
    }

    /// The game after the snake at `index` has died: it leaves the list, and
    /// its cells turn into food where the coins came up true, as long as
    /// the board lacks food to its target.
    pub open spec fn killed(self, index: int, coins: Seq<bool>) -> GameView {
        self.redrawn(
            self.snakes.remove(index),
            self.food + corpse_food(self.snakes[index].body, coins, self.food_room()),
            self.players,
        )
    }

    /// What the snake at `index` meets on the cell ahead. On its own tail
    /// cell it meets nothing: the tail leaves the cell as the head comes.
    pub open spec fn meets(self, index: int) -> WorldCell {
        if self.ahead(index) == self.snakes[index].body[0] {
            WorldCell::Empty
        } else {
            self.cell(self.ahead(index))
        }
    }

    /// The game after one step of the snake at `index`.
    pub open spec fn stepped(self, index: int, coins: Seq<bool>) -> GameView {
        match self.meets(index) {
            WorldCell::Empty => self.moved(index),
            WorldCell::Food => self.fed(index),
            WorldCell::Snake => self.killed(index, coins),
        }
    }

    /// The outcome of one step of the snake at `index`.
    pub open spec fn outcome(self, index: int) -> StepOutcome {
        match self.meets(index) {
            WorldCell::Empty => StepOutcome::Moved,
            WorldCell::Food => StepOutcome::Fed,
            WorldCell::Snake => StepOutcome::Died,
        }
    }
}

/// The lists of a redrawn game are shown by its grid.
pub proof fn lemma_redrawn_consistent(
    v: GameView,
    snakes: Seq<SnakeView>,
    food: Seq<Coord>,
    players: Seq<PlayerView>,
)
    requires
        v.config.valid(),
    ensures
        v.redrawn(snakes, food, players).consistent(),
{
    let r = v.redrawn(snakes, food, players);
    lemma_shows_is_render(
        r.world,
        bodies_of(snakes),
        food,
        v.config.width as int,
        v.config.height as int,
    );
}

/// The cell ahead of a snake lies on the board.
pub proof fn lemma_ahead_within(v: GameView, index: int)
    requires
        v.config.valid(),
        0 <= index < v.snakes.len(),
    ensures
        v.ahead(index).within(v.config.width as int, v.config.height as int),
{
    let w = v.config.width as int;
    let h = v.config.height as int;
    let head = v.snakes[index].body.last();
    let d = v.snakes[index].direction;
    vstd::arithmetic::div_mod::lemma_mod_bound(head.x + d.dx(), w);
    vstd::arithmetic::div_mod::lemma_mod_bound(head.y + d.dy(), h);
}

/// A move keeps the game well formed, and changes two cells at most.
pub proof fn lemma_moved(v: GameView, index: int)
    requires
        v.wf(),
        0 <= index < v.snakes.len(),
        v.meets(index) == WorldCell::Empty,
    ensures
        v.moved(index).wf(),
        forall|c: Coord|
            v.moved(index).cell(c) == (if c == v.ahead(index) {
                WorldCell::Snake
            } else if c == v.snakes[index].body[0] {
                WorldCell::Empty
            } else {
                v.cell(c)
            }),
{
    let w = v.config.width as int;
    let h = v.config.height as int;
    let next = v.ahead(index);
    let s = v.snakes[index];
    let tail = s.body[0];
    let m = v.moved(index);
    let b = v.bodies();
    let nb = body_moved(s.body, next);
    assert(b[index] == s.body);
    assert(m.bodies() =~= b.update(index, nb));
    lemma_ahead_within(v, index);
    if next == tail {
        lemma_cover_after_turn(b, index);
    } else {
        lemma_cover_after_move(b, index, next);
    }
    lemma_redrawn_consistent(v, m.snakes, m.food, m.players);
    assert forall|j: int| 0 <= j < nb.len() implies (#[trigger] nb[j]).within(w, h) by {
        if j < nb.len() - 1 {
            assert(nb[j] == b[index][j + 1]);
        }
    }
    lemma_within_after_update(b, index, nb, w, h);
    assert(b[index][0] == tail);
    assert(on_body(b, tail));
    assert forall|k: int| 0 <= k < m.food.len() implies !on_body(m.bodies(), #[trigger] m.food[k]) by {
        assert(v.food.contains(v.food[k]));
    }
    assert forall|c: Coord|
        m.cell(c) == (if c == next {
            WorldCell::Snake
        } else if c == tail {
            WorldCell::Empty
        } else {
            v.cell(c)
        }) by {
        if v.food.contains(tail) {
            let k = choose|k: int| 0 <= k < v.food.len() && v.food[k] == tail;
            assert(!on_body(b, v.food[k]));
        }
    }
    assert forall|i: int| 0 <= i < m.snakes.len() implies (#[trigger] m.snakes[i]).body.len() >= 1 by {
        if i != index {
            assert(m.snakes[i] == v.snakes[i]);
        }
    }
    assert forall|i1: int, i2: int|
        0 <= i1 < m.snakes.len() && 0 <= i2 < m.snakes.len() && i1 != i2 implies (
    #[trigger] m.snakes[i1]).player_id != (#[trigger] m.snakes[i2]).player_id by {
        assert(m.snakes[i1].player_id == v.snakes[i1].player_id);
        assert(m.snakes[i2].player_id == v.snakes[i2].player_id);
    }
}

/// Eating the food ahead keeps the game well formed, and changes one cell.
pub proof fn lemma_fed(v: GameView, index: int)
    requires
        v.wf(),
        0 <= index < v.snakes.len(),
        v.meets(index) == WorldCell::Food,
    ensures
        v.fed(index).wf(),
        forall|c: Coord|
            v.fed(index).cell(c) == (if c == v.ahead(index) {
                WorldCell::Snake
            } else {
                v.cell(c)
            }),
{
    let w = v.config.width as int;
    let h = v.config.height as int;
    let next = v.ahead(index);
    let s = v.snakes[index];
    let m = v.fed(index);
    let b = v.bodies();
    let nb = s.body.push(next);
    assert(b[index] == s.body);
    assert(m.bodies() =~= b.update(index, nb));
    lemma_ahead_within(v, index);
    assert(v.food.contains(next));
    let kn = choose|k: int| 0 <= k < v.food.len() && v.food[k] == next;
    assert(!on_body(b, v.food[kn]));
    lemma_cover_after_growth(b, index, next);
    lemma_redrawn_consistent(v, m.snakes, m.food, m.players);
    lemma_without_distinct(v.food, next);
    crate::world::lemma_same_ids(v.players, credit(v.players, s.player_id));
    assert forall|j: int| 0 <= j < nb.len() implies (#[trigger] nb[j]).within(w, h) by {
        if j < nb.len() - 1 {
            assert(nb[j] == b[index][j]);
        }
    }
    lemma_within_after_update(b, index, nb, w, h);
    assert forall|k: int| 0 <= k < m.food.len() implies !on_body(m.bodies(), #[trigger] m.food[k])
        && m.food[k].within(w, h) by {
        lemma_without_contains(v.food, next, m.food[k]);
        assert(m.food.contains(m.food[k]));
        let k0 = choose|k0: int| 0 <= k0 < v.food.len() && v.food[k0] == m.food[k];
        assert(!on_body(b, v.food[k0]));
        assert(v.food[k0].within(w, h));
    }
    assert forall|c: Coord|
        m.cell(c) == (if c == next {
            WorldCell::Snake
        } else {
            v.cell(c)
        }) by {
        lemma_without_contains(v.food, next, c);
    }
    assert forall|i: int| 0 <= i < m.snakes.len() implies (#[trigger] m.snakes[i]).body.len() >= 1 by {
        if i != index {
            assert(m.snakes[i] == v.snakes[i]);
        }
    }
    assert forall|i1: int, i2: int|
        0 <= i1 < m.snakes.len() && 0 <= i2 < m.snakes.len() && i1 != i2 implies (
    #[trigger] m.snakes[i1]).player_id != (#[trigger] m.snakes[i2]).player_id by {
        assert(m.snakes[i1].player_id == v.snakes[i1].player_id);
        assert(m.snakes[i2].player_id == v.snakes[i2].player_id);
    }
}

/// The death of a snake keeps the game well formed, and changes the cells of
/// its body alone.
pub proof fn lemma_killed(v: GameView, index: int, coins: Seq<bool>)
    requires
        v.wf(),
        0 <= index < v.snakes.len(),
    ensures
        v.killed(index, coins).wf(),
        v.killed(index, coins).food.len() >= v.food.len(),
        v.food.len() <= v.config.food_static ==> v.killed(index, coins).food.len()
            <= v.config.food_static,
        forall|c: Coord|
            v.killed(index, coins).cell(c) == (if corpse_food(v.snakes[index].body, coins, v.food_room()).contains(
                c,
            ) {
                WorldCell::Food
            } else if v.snakes[index].body.contains(c) {
                WorldCell::Empty
            } else {
                v.cell(c)
            }),
{
    let w = v.config.width as int;
    let h = v.config.height as int;
    let s = v.snakes[index];
    let m = v.killed(index, coins);
    let b = v.bodies();
    let corpse = corpse_food(s.body, coins, v.food_room());
    assert(b[index] == s.body);
    assert(m.bodies() =~= b.remove(index));
    lemma_cover_after_removal(b, index);
    lemma_corpse_food_contains(s.body, coins, v.food_room(), Coord { x: 0, y: 0 });
    lemma_redrawn_consistent(v, m.snakes, m.food, m.players);
    assert(s.body.no_duplicates()) by {
        assert forall|j1: int, j2: int|
            0 <= j1 < s.body.len() && 0 <= j2 < s.body.len() && j1 != j2 implies s.body[j1]
            != s.body[j2] by {
            assert(b[index][j1] == s.body[j1] && b[index][j2] == s.body[j2]);
        }
    }
    lemma_corpse_food_distinct(s.body, coins, v.food_room());
    assert(m.food.no_duplicates()) by {
        assert forall|k1: int, k2: int|
            0 <= k1 < m.food.len() && 0 <= k2 < m.food.len() && k1 != k2 implies m.food[k1]
            != m.food[k2] by {
            let n = v.food.len() as int;
            if k1 < n && k2 < n {
                assert(m.food[k1] == v.food[k1] && m.food[k2] == v.food[k2]);
            } else if k1 >= n && k2 >= n {
                assert(m.food[k1] == corpse[k1 - n] && m.food[k2] == corpse[k2 - n]);
            } else {
                let lo = if k1 < n { k1 } else { k2 };
                let hi = if k1 < n { k2 } else { k1 };
                let d = corpse[hi - n];
                assert(m.food[hi] == d && m.food[lo] == v.food[lo]);
                assert(corpse.contains(d));
                lemma_corpse_food_contains(s.body, coins, v.food_room(), d);
                let j = choose|j: int| 0 <= j < s.body.len() && #[trigger] s.body[j] == d && coins[j];
                assert(b[index][j] == d);
                assert(on_body(b, d));
                assert(!on_body(b, v.food[lo]));
            }
        }
    }
    assert forall|i: int, j: int|
        0 <= i < m.bodies().len() && 0 <= j < m.bodies()[i].len() implies (
    #[trigger] m.bodies()[i][j]).within(w, h) by {
        let p = if i < index { i } else { i + 1 };
        assert(m.bodies()[i][j] == b[p][j]);
    }
    assert forall|k: int| 0 <= k < m.food.len() implies !on_body(m.bodies(), #[trigger] m.food[k])
        && m.food[k].within(w, h) by {
        if k < v.food.len() {
            assert(m.food[k] == v.food[k]);
            assert(!on_body(b, v.food[k]));
        } else {
            let d = m.food[k];
            assert(d == corpse[k - v.food.len()]);
            assert(corpse.contains(d));
            lemma_corpse_food_contains(s.body, coins, v.food_room(), d);
            let j = choose|j: int| 0 <= j < s.body.len() && #[trigger] s.body[j] == d && coins[j];
            assert(b[index][j] == d);
            assert(s.body.contains(d));
        }
    }
    assert forall|c: Coord|
        m.cell(c) == (if corpse.contains(c) {
            WorldCell::Food
        } else if s.body.contains(c) {
            WorldCell::Empty
        } else {
            v.cell(c)
        }) by {
        lemma_corpse_food_contains(s.body, coins, v.food_room(), c);
        if corpse.contains(c) {
            let k = choose|k: int| 0 <= k < corpse.len() && corpse[k] == c;
            assert(m.food[v.food.len() + k] == c);
        }
        if m.food.contains(c) {
            let k = choose|k: int| 0 <= k < m.food.len() && m.food[k] == c;
            if k < v.food.len() {
                assert(v.food[k] == c);
            } else {
                assert(corpse[k - v.food.len()] == c);
            }
        }
        if v.food.contains(c) {
            let k = choose|k: int| 0 <= k < v.food.len() && v.food[k] == c;
            assert(m.food[k] == c);
            assert(!on_body(b, v.food[k]));
        }
        if s.body.contains(c) {
            let j = choose|j: int| 0 <= j < s.body.len() && s.body[j] == c;
            assert(b[index][j] == c);
        }
    }
    assert forall|i: int| 0 <= i < m.snakes.len() implies (#[trigger] m.snakes[i]).body.len() >= 1 by {
        let p = if i < index { i } else { i + 1 };
        assert(m.snakes[i] == v.snakes[p]);
    }
    assert forall|i1: int, i2: int|
        0 <= i1 < m.snakes.len() && 0 <= i2 < m.snakes.len() && i1 != i2 implies (
    #[trigger] m.snakes[i1]).player_id != (#[trigger] m.snakes[i2]).player_id by {
        let at1 = if i1 < index { i1 } else { i1 + 1 };
        let at2 = if i2 < index { i2 } else { i2 + 1 };
        assert(m.snakes[i1] == v.snakes[at1]);
        assert(m.snakes[i2] == v.snakes[at2]);
    }
}

/// The food list without the position `c`.
pub fn remove_food(food: &Vec<Coord>, c: Coord) -> (kept: Vec<Coord>)
    ensures
        kept@ == without(food@, c),
{
    let mut kept: Vec<Coord> = Vec::new();
    let mut k: usize = 0;
    while k < food.len()
        invariant
            k <= food.len(),
            kept@ == without(food@.subrange(0, k as int), c),
        decreases food.len() - k,
    {
        proof {
            assert(food@.subrange(0, k + 1).drop_last() =~= food@.subrange(0, k as int));
        }
        let f: Coord = food[k];
        if f != c {
            kept.push(f);
        }
        k += 1;
    }
    proof {
        assert(food@.subrange(0, k as int) =~= food@);
    }
    kept
}

/// Credits the player with the given id for one food.
pub fn credit_player(players: &mut Vec<GamePlayer>, id: i32)
    ensures
        player_views(final(players)@) == credit(player_views(old(players)@), id),
{
    let mut i: usize = 0;
    while i < players.len()
        invariant
            i <= players.len(),
            players.len() == old(players).len(),
            forall|k: int| 0 <= k < i ==> (#[trigger] players@[k])@ == credit(player_views(old(players)@), id)[k],
            forall|k: int| i <= k < players.len() ==> (#[trigger] players@[k])@ == old(players)@[k]@,
        decreases players.len() - i,
    {
        if players[i].id == id {
            let score: i32 = players[i].score;
            players[i].score = if score > i32::MAX - 10 { i32::MAX } else { score + 10 };
        }
        i += 1;
    }
    proof {
        assert(player_views(players@) =~= credit(player_views(old(players)@), id));
    }
}

impl Game {
    /// What the snake at `index` meets on the cell ahead of it: what the
    /// cell shows, but nothing on the snake's own tail cell.
    pub fn cell_ahead(&self, index: usize) -> (c: WorldCell)
        requires
            self.wf(),
            index < self.snakes.len(),
        ensures
            c == self@.meets(index as int),
    {
        let snake = &self.snakes[index];
        let len: usize = snake.body.len();
        proof {
            assert(self@.snakes[index as int] == snake@);
            assert(self@.bodies()[index as int][len - 1] == snake.body@[len - 1]);
        }
        let head: Coord = snake.body[len - 1];
        let next: Coord = step_from(head, snake.direction, self.config.width, self.config.height);
        proof {
            assert(next == self@.ahead(index as int));
            assert(self@.world[next.y as int][next.x as int] == self@.cell(next));
            assert(self@.snakes[index as int].body[0] == snake.body@[0]);
        }
        if next == snake.body[0] {
            WorldCell::Empty
        } else {
            self.world[next.y as usize][next.x as usize]
        }
    }

    /// Moves the snake at `index` one step. Where it dies, `coins` decides,
    /// cell by cell from the tail, which cells of its body turn into food,
    /// as long as the board lacks food to its target.
    pub fn step_snake(&mut self, index: usize, coins: &Vec<bool>) -> (out: StepOutcome)
        requires
            old(self).wf(),
            index < old(self).snakes.len(),
            old(self)@.outcome(index as int) == StepOutcome::Died ==> coins.len() == old(self).snakes[index as int].body.len(),
        ensures
            final(self)@ == old(self)@.stepped(index as int, coins@),
            final(self).wf(),
            out == old(self)@.outcome(index as int),
            final(self)@.free().len() >= old(self)@.free().len(),
            old(self).food@.len() <= old(self).config.food_static ==> final(self).food@.len()
                <= old(self).config.food_static,
            out != StepOutcome::Died ==> final(self).food@.len() <= old(self).food@.len(),
    {
        let ghost v = self@;
        let w: i32 = self.config.width;
        let h: i32 = self.config.height;
        let len: usize = self.snakes[index].body.len();
        proof {
            assert(v.snakes[index as int] == self.snakes[index as int]@);
            assert(v.bodies()[index as int] == self.snakes[index as int].body@);
            assert(v.bodies()[index as int][len - 1].within(w as int, h as int));
            assert(v.bodies()[index as int][0].within(w as int, h as int));
        }
        let head: Coord = self.snakes[index].body[len - 1];
        let dir: Direction = self.snakes[index].direction;
        let next: Coord = step_from(head, dir, w, h);
        let shown: WorldCell = self.world[next.y as usize][next.x as usize];
        let found: WorldCell = if next == self.snakes[index].body[0] {
            WorldCell::Empty
        } else {
            shown
        };
        proof {
            assert(v.snakes[index as int].body[0] == self.snakes[index as int].body@[0]);
            assert(next == v.ahead(index as int));
            assert(v.world[next.y as int][next.x as int] == v.cell(next));
            assert forall|y: int| 0 <= y < h implies (#[trigger] self.world[y]).len() == w by {
                assert(v.world[y].len() == w);
            }
        }
        match found {
            WorldCell::Empty => {
                let tail: Coord = self.snakes[index].body[0];
                self.snakes[index].body.push(next);
                self.snakes[index].body.remove(0);
                self.world[tail.y as usize][tail.x as usize] = WorldCell::Empty;
                self.world[next.y as usize][next.x as usize] = WorldCell::Snake;
                proof {
                    lemma_moved(v, index as int);
                    lemma_moved_free(v, index as int);
                    let m = v.moved(index as int);
                    assert(self.snakes[index as int].body@ =~= body_moved(
                        v.snakes[index as int].body,
                        next,
                    ));
                    assert(self@.snakes =~= m.snakes);
                    assert forall|y: int| 0 <= y < h implies #[trigger] self@.world[y] == m.world[y] by {
                        assert forall|x: int| 0 <= x < w implies self@.world[y][x] == m.world[y][x] by {
                            let c = Coord { x: x as i32, y: y as i32 };
                            assert(m.world[y][x] == m.cell(c));
                            assert(v.world[y][x] == v.cell(c));
                        }
                        assert(self@.world[y] =~= m.world[y]);
                    }
                    assert(self@.world =~= m.world);
                    assert(self@.players =~= m.players);
                }
                StepOutcome::Moved
            },
            WorldCell::Food => {
                let kept: Vec<Coord> = remove_food(&self.food, next);
                self.food = kept;
                self.snakes[index].body.push(next);
                self.world[next.y as usize][next.x as usize] = WorldCell::Snake;
                let alive: bool = self.snakes[index].state == SnakeState::ALIVE;
                if alive {
                    let id: i32 = self.snakes[index].player_id;
                    credit_player(&mut self.players, id);
                }
                proof {
                    lemma_fed(v, index as int);
                    lemma_fed_free(v, index as int);
                    let m = v.fed(index as int);
                    assert(self@.snakes =~= m.snakes);
                    assert forall|y: int| 0 <= y < h implies #[trigger] self@.world[y] == m.world[y] by {
                        assert forall|x: int| 0 <= x < w implies self@.world[y][x] == m.world[y][x] by {
                            let c = Coord { x: x as i32, y: y as i32 };
                            assert(m.world[y][x] == m.cell(c));
                            assert(v.world[y][x] == v.cell(c));
                        }
                        assert(self@.world[y] =~= m.world[y]);
                    }
                    assert(self@.world =~= m.world);
                    assert(self@.players =~= m.players);
                }
                StepOutcome::Fed
            },
            WorldCell::Snake => {
                let dead: Snake = self.snakes.remove(index);
                let ghost body = dead.body@;
                let ghost base = self.world@;
                let ghost room: int = v.food_room();
                let target: i32 = self.config.food_static;
                let mut j: usize = 0;
                proof {
                    assert(body == v.snakes[index as int].body);
                    assert(corpse_food(body.subrange(0, 0), coins@, room) =~= Seq::<Coord>::empty());
                    assert(self.food@ =~= v.food + corpse_food(body.subrange(0, 0), coins@, room));
                }
                while j < len
                    invariant
                        j <= len,
                        len == body.len(),
                        room == v.food_room(),
                        target == v.config.food_static,
                        free_cells(grid_of(self.world@), h as int).len() >= free_cells(
                            v.world,
                            h as int,
                        ).len(),
                        len == coins.len(),
                        dead.body@ == body,
                        body == v.bodies()[index as int],
                        v.wf(),
                        0 <= index < v.snakes.len(),
                        w == v.config.width,
                        h == v.config.height,
                        self.config == v.config,
                        self.order == v.order,
                        self.players@ == old(self).players@,
                        snake_views(self.snakes@) == v.snakes.remove(index as int),
                        self.food@ == v.food + corpse_food(body.subrange(0, j as int), coins@, room),
                        self.world.len() == h,
                        base.len() == h,
                        grid_of(base) == v.world,
                        forall|y: int| 0 <= y < h ==> (#[trigger] self.world[y]).len() == w,
                        forall|x: int, y: int|
                            0 <= x < w && 0 <= y < h ==> #[trigger] self.world[y][x] == (if corpse_food(
                                body.subrange(0, j as int),
                                coins@,
                                room,
                            ).contains(Coord { x: x as i32, y: y as i32 }) {
                                WorldCell::Food
                            } else if body.subrange(0, j as int).contains(
                                Coord { x: x as i32, y: y as i32 },
                            ) {
                                WorldCell::Empty
                            } else {
                                base[y][x]
                            }),
                    decreases len - j,
                {
                    let c: Coord = dead.body[j];
                    let ghost before = body.subrange(0, j as int);
                    let ghost after = body.subrange(0, j + 1);
                    proof {
                        assert(after.drop_last() =~= before);
                        assert(after.last() == c);
                        assert(v.bodies()[index as int][j as int] == c);
                        assert(c.within(w as int, h as int));
                        // the cell is new among those handled so far
                        if before.contains(c) {
                            let k = choose|k: int| 0 <= k < before.len() && before[k] == c;
                            assert(v.bodies()[index as int][k] == v.bodies()[index as int][j as int]);
                        }
                        lemma_corpse_food_contains(before, coins@, room, c);
                        assert(!corpse_food(before, coins@, room).contains(c)) by {
                            if corpse_food(before, coins@, room).contains(c) {
                                let k = choose|k: int|
                                    0 <= k < before.len() && #[trigger] before[k] == c && coins@[k];
                                assert(before.contains(c));
                            }
                        }
                        assert forall|d: Coord| after.contains(d) <==> (before.contains(d) || d == c) by {
                            if after.contains(d) {
                                let k = choose|k: int| 0 <= k < after.len() && after[k] == d;
                                if k < j {
                                    assert(before[k] == d);
                                }
                            }
                            if before.contains(d) {
                                let k = choose|k: int| 0 <= k < before.len() && before[k] == d;
                                assert(after[k] == d);
                            }
                            assert(after[j as int] == c);
                        }
                    }
                    let ghost grid_before = grid_of(self.world@);
                    proof {
                        // the cell still shows the snake
                        assert(on_body(v.bodies(), c));
                        if v.food.contains(c) {
                            let k = choose|k: int| 0 <= k < v.food.len() && v.food[k] == c;
                            assert(!on_body(v.bodies(), v.food[k]));
                        }
                        assert(v.world[c.y as int][c.x as int] == v.cell(
                            Coord { x: c.x as int as i32, y: c.y as int as i32 },
                        ));
                        assert(self.world[c.y as int][c.x as int] == base[c.y as int][c.x as int]);
                        assert(grid_before[c.y as int][c.x as int] == WorldCell::Snake);
                    }
                    if coins[j] && target > 0 && self.food.len() < target as usize {
                        self.world[c.y as usize][c.x as usize] = WorldCell::Food;
                        self.food.push(c);
                        proof {
                            let g2 = put(grid_before, c, WorldCell::Food);
                            assert forall|r: int| 0 <= r < h implies #[trigger] grid_of(self.world@)[r]
                                == g2[r] by {
                                assert(grid_of(self.world@)[r] =~= g2[r]);
                            }
                            assert(grid_of(self.world@) =~= g2);
                            lemma_grid_put(grid_before, h as int, c, WorldCell::Food);
                            let cf = corpse_food(before, coins@, room);
                            assert(corpse_food(after, coins@, room) == cf.push(c));
                            assert(self.food@ =~= v.food + corpse_food(after, coins@, room));
                            assert forall|d: Coord| cf.push(c).contains(d) <==> (cf.contains(d) || d == c) by {
                                if cf.push(c).contains(d) {
                                    let k = choose|k: int| 0 <= k < cf.push(c).len() && cf.push(c)[k] == d;
                                    if k < cf.len() {
                                        assert(cf[k] == d);
                                    }
                                }
                                if cf.contains(d) {
                                    let k = choose|k: int| 0 <= k < cf.len() && cf[k] == d;
                                    assert(cf.push(c)[k] == d);
                                }
                                assert(cf.push(c)[cf.len() as int] == c);
                            }
                        }
                    } else {
                        self.world[c.y as usize][c.x as usize] = WorldCell::Empty;
                        proof {
                            let g2 = put(grid_before, c, WorldCell::Empty);
                            assert forall|r: int| 0 <= r < h implies #[trigger] grid_of(self.world@)[r]
                                == g2[r] by {
                                assert(grid_of(self.world@)[r] =~= g2[r]);
                            }
                            assert(grid_of(self.world@) =~= g2);
                            lemma_grid_put(grid_before, h as int, c, WorldCell::Empty);
                            assert(corpse_food(after, coins@, room) == corpse_food(before, coins@, room));
                        }
                    }
                    j += 1;
                }
                proof {
                    lemma_killed(v, index as int, coins@);
                    let m = v.killed(index as int, coins@);
                    assert(body.subrange(0, len as int) =~= body);
                    assert forall|y: int| 0 <= y < h implies #[trigger] self@.world[y] == m.world[y] by {
                        assert forall|x: int| 0 <= x < w implies self@.world[y][x] == m.world[y][x] by {
                            let c = Coord { x: x as i32, y: y as i32 };
                            assert(m.world[y][x] == m.cell(c));
                            assert(v.world[y][x] == v.cell(c));
                            assert(base[y][x] == v.world[y][x]);
                        }
                        assert(self@.world[y] =~= m.world[y]);
                    }
                    assert(self@.world =~= m.world);
                }
                StepOutcome::Died
            },
        }
    }
}

} // verus!
