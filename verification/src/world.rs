//! The board of a game and the lists it is drawn from.
//!
//! The snakes' bodies and the food list are the source of truth; the grid of
//! cells is derived from them. [`Game::wf`] states the agreement that the
//! master keeps between the two, [`shows`] the weaker agreement that also
//! holds on a follower that has drawn a snapshot.

use vstd::prelude::*;
use crate::base::{Config, Coord, GamePlayer, PlayerView, Snake, SnakeView, WorldCell};
use crate::base::{player_views, snake_views};

verus! {

/// The rows of a grid as sequences.
pub open spec fn grid_of(world: Seq<Vec<WorldCell>>) -> Seq<Seq<WorldCell>> {
    Seq::new(world.len(), |y: int| world[y]@)
}

/// The bodies of a list of snakes.
pub open spec fn bodies_of(snakes: Seq<SnakeView>) -> Seq<Seq<Coord>> {
    Seq::new(snakes.len(), |i: int| snakes[i].body)
}

/// Some snake covers the position `c`.
pub open spec fn on_body(bodies: Seq<Seq<Coord>>, c: Coord) -> bool {
    exists|i: int, j: int|
        0 <= i < bodies.len() && 0 <= j < bodies[i].len() && #[trigger] bodies[i][j] == c
}

/// What the cell at `c` shows: food lies on top, then snakes, else nothing.
pub open spec fn cell_for(bodies: Seq<Seq<Coord>>, food: Seq<Coord>, c: Coord) -> WorldCell {
    if food.contains(c) {
        WorldCell::Food
    } else if on_body(bodies, c) {
        WorldCell::Snake
    } else {
        WorldCell::Empty
    }
}

/// The grid drawn from the given bodies and food, row by row.
pub open spec fn render(bodies: Seq<Seq<Coord>>, food: Seq<Coord>, w: int, h: int) -> Seq<
    Seq<WorldCell>,
> {
    Seq::new(
        h as nat,
        |y: int|
            Seq::new(w as nat, |x: int| cell_for(bodies, food, Coord { x: x as i32, y: y as i32 })),
    )
}

/// The grid has `h` rows of `w` cells, and each cell shows what the lists say.
pub open spec fn shows(
    grid: Seq<Seq<WorldCell>>,
    bodies: Seq<Seq<Coord>>,
    food: Seq<Coord>,
    w: int,
    h: int,
) -> bool {
    &&& grid.len() == h
    &&& forall|y: int| 0 <= y < h ==> (#[trigger] grid[y]).len() == w
    &&& forall|x: int, y: int|
        0 <= x < w && 0 <= y < h ==> #[trigger] grid[y][x] == cell_for(
            bodies,
            food,
            Coord { x: x as i32, y: y as i32 },
        )
}

/// A grid shows the lists exactly when it is the grid rendered from them.
pub proof fn lemma_shows_is_render(
    grid: Seq<Seq<WorldCell>>,
    bodies: Seq<Seq<Coord>>,
    food: Seq<Coord>,
    w: int,
    h: int,
)
    requires
        0 <= w,
        0 <= h,
    ensures
        shows(grid, bodies, food, w, h) <==> grid == render(bodies, food, w, h),
{
    let r = render(bodies, food, w, h);
    if shows(grid, bodies, food, w, h) {
        assert forall|y: int| 0 <= y < h implies grid[y] == r[y] by {
            assert(grid[y].len() == w);
            assert forall|x: int| 0 <= x < w implies grid[y][x] == r[y][x] by {}
            assert(grid[y] =~= r[y]);
        }
        assert(grid =~= r);
    }
    if grid == r {
        assert forall|y: int| 0 <= y < h implies (#[trigger] grid[y]).len() == w by {}
        assert forall|x: int, y: int| 0 <= x < w && 0 <= y < h implies #[trigger] grid[y][x]
            == cell_for(bodies, food, Coord { x: x as i32, y: y as i32 }) by {
            assert(grid[y] == r[y]);
        }
    }
}

/// A grid of vectors that shows the lists cell by cell is the grid rendered
/// from them.
pub proof fn lemma_shows_grid(
    world: Seq<Vec<WorldCell>>,
    bodies: Seq<Seq<Coord>>,
    food: Seq<Coord>,
    w: int,
    h: int,
)
    requires
        0 <= w,
        0 <= h,
        world.len() == h,
        forall|y: int| 0 <= y < h ==> (#[trigger] world[y]).len() == w,
        forall|x: int, y: int|
            0 <= x < w && 0 <= y < h ==> #[trigger] world[y][x] == cell_for(
                bodies,
                food,
                Coord { x: x as i32, y: y as i32 },
            ),
    ensures
        grid_of(world) == render(bodies, food, w, h),
{
    let grid = grid_of(world);
    assert forall|x: int, y: int| 0 <= x < w && 0 <= y < h implies #[trigger] grid[y][x] == cell_for(
        bodies,
        food,
        Coord { x: x as i32, y: y as i32 },
    ) by {
        assert(world[y][x] == grid[y][x]);
    }
    assert forall|y: int| 0 <= y < h implies (#[trigger] grid[y]).len() == w by {
        assert(world[y].len() == w);
    }
    lemma_shows_is_render(grid, bodies, food, w, h);
}

/// No two players of the list share an id.
pub open spec fn ids_distinct(players: Seq<PlayerView>) -> bool {
    forall|i1: int, i2: int|
        0 <= i1 < players.len() && 0 <= i2 < players.len() && i1 != i2 ==> (
        #[trigger] players[i1]).id != (#[trigger] players[i2]).id
}

/// Players that keep their ids keep them distinct.
pub proof fn lemma_same_ids(before: Seq<PlayerView>, after: Seq<PlayerView>)
    requires
        ids_distinct(before),
        after.len() == before.len(),
        forall|i: int| 0 <= i < before.len() ==> (#[trigger] after[i]).id == before[i].id,
    ensures
        ids_distinct(after),
{
    assert forall|i1: int, i2: int|
        0 <= i1 < after.len() && 0 <= i2 < after.len() && i1 != i2 implies (#[trigger] after[i1]).id
        != (#[trigger] after[i2]).id by {
        assert(after[i1].id == before[i1].id);
        assert(after[i2].id == before[i2].id);
    }
}

/// No position occurs twice among the bodies.
pub open spec fn bodies_distinct(bodies: Seq<Seq<Coord>>) -> bool {
    forall|i1: int, j1: int, i2: int, j2: int|
        0 <= i1 < bodies.len() && 0 <= j1 < bodies[i1].len() && 0 <= i2 < bodies.len() && 0 <= j2
            < bodies[i2].len() && #[trigger] bodies[i1][j1] == #[trigger] bodies[i2][j2] ==> i1
            == i2 && j1 == j2
}

/// Every position of every body lies on the board.
pub open spec fn bodies_within(bodies: Seq<Seq<Coord>>, w: int, h: int) -> bool {
    forall|i: int, j: int|
        0 <= i < bodies.len() && 0 <= j < bodies[i].len() ==> (#[trigger] bodies[i][j]).within(
            w,
            h,
        )
}

/// Every food position lies on the board.
pub open spec fn food_within(food: Seq<Coord>, w: int, h: int) -> bool {
    forall|k: int| 0 <= k < food.len() ==> (#[trigger] food[k]).within(w, h)
}

/// A board of the given dimensions on which every cell is empty.
pub fn blank_grid(w: i32, h: i32) -> (world: Vec<Vec<WorldCell>>)
    requires
        w >= 1,
        h >= 1,
    ensures
        world.len() == h,
        forall|y: int| 0 <= y < h ==> (#[trigger] world[y]).len() == w,
        forall|x: int, y: int| 0 <= x < w && 0 <= y < h ==> #[trigger] world[y][x] == WorldCell::Empty,
{
    let mut world: Vec<Vec<WorldCell>> = Vec::new();
    let mut y: usize = 0;
    while y < h as usize
        invariant
            w >= 1,
            h >= 1,
            y <= h,
            world.len() == y,
            forall|r: int| 0 <= r < y ==> (#[trigger] world[r]).len() == w,
            forall|r: int, c: int| 0 <= r < y && 0 <= c < w ==> #[trigger] world[r][c] == WorldCell::Empty,
        decreases h - y,
    {
        let row: Vec<WorldCell> = vec![WorldCell::Empty; w as usize];
        world.push(row);
        y += 1;
    }
    world
}

/// The state of a game: the board, what is on it, and who plays.
#[derive(Clone, Debug)]
pub struct Game {
    /// `world[y][x]` is the cell in row `y`, column `x`.
    pub world: Vec<Vec<WorldCell>>,
    pub food: Vec<Coord>,
    pub snakes: Vec<Snake>,
    pub config: Config,
    pub players: Vec<GamePlayer>,
    /// Counts the ticks.
    pub order: i32,
}

/// The mathematical value of a [`Game`].
pub struct GameView {
    pub world: Seq<Seq<WorldCell>>,
    pub food: Seq<Coord>,
    pub snakes: Seq<SnakeView>,
    pub config: Config,
    pub players: Seq<PlayerView>,
    pub order: i32,
}

impl View for Game {
    type V = GameView;

    open spec fn view(&self) -> GameView {
        GameView {
            world: grid_of(self.world@),
            food: self.food@,
            snakes: snake_views(self.snakes@),
            config: self.config,
            players: player_views(self.players@),
            order: self.order,
        }
    }
}

impl GameView {
    /// The bodies of the snakes.
    pub open spec fn bodies(self) -> Seq<Seq<Coord>> {
        bodies_of(self.snakes)
    }

    /// The grid shows the lists as they are.
    pub open spec fn consistent(self) -> bool {
        &&& self.config.valid()
        &&& shows(
            self.world,
            self.bodies(),
            self.food,
            self.config.width as int,
            self.config.height as int,
        )
    }

    /// The agreement that a master keeps: the grid shows the lists, every
    /// position lies on the board, no two snake cells coincide, no two foods
    /// coincide, no food lies under a snake, every snake has a head, and no
    /// two snakes share an owner. The players are a map from ids: no two
    /// players share an id.
    pub open spec fn wf(self) -> bool {
        &&& self.consistent()
        &&& self.food.no_duplicates()
        &&& bodies_within(self.bodies(), self.config.width as int, self.config.height as int)
        &&& food_within(self.food, self.config.width as int, self.config.height as int)
        &&& bodies_distinct(self.bodies())
        &&& forall|k: int| 0 <= k < self.food.len() ==> !on_body(self.bodies(), #[trigger] self.food[k])
        &&& forall|i: int| 0 <= i < self.snakes.len() ==> (#[trigger] self.snakes[i]).body.len() >= 1
        &&& forall|i1: int, i2: int|
            0 <= i1 < self.snakes.len() && 0 <= i2 < self.snakes.len() && i1 != i2 ==> (
            #[trigger] self.snakes[i1]).player_id != (#[trigger] self.snakes[i2]).player_id
        &&& ids_distinct(self.players)
    }

    /// The game on an empty board: no snake, no food, no player, no tick.
    pub open spec fn blank(config: Config) -> GameView {
        GameView {
            world: render(Seq::empty(), Seq::empty(), config.width as int, config.height as int),
            food: Seq::empty(),
            snakes: Seq::empty(),
            config,
            players: Seq::empty(),
            order: 0,
        }
    }

    /// The cell that the lists put at `c`.
    pub open spec fn cell(self, c: Coord) -> WorldCell {
        cell_for(self.bodies(), self.food, c)
    }
}

/// On a well-formed board every position of a snake lies on the board and
/// its cell shows `Snake`, every position of a food lies on the board and
/// its cell shows `Food`, and no position holds both.
pub proof fn lemma_board_agrees(v: GameView)
    requires
        v.wf(),
    ensures
        forall|i: int, j: int|
            0 <= i < v.snakes.len() && 0 <= j < v.snakes[i].body.len() ==> (
            #[trigger] v.snakes[i].body[j]).within(v.config.width as int, v.config.height as int)
                && v.world[v.snakes[i].body[j].y as int][v.snakes[i].body[j].x as int]
                == WorldCell::Snake,
        forall|k: int|
            0 <= k < v.food.len() ==> (#[trigger] v.food[k]).within(
                v.config.width as int,
                v.config.height as int,
            ) && v.world[v.food[k].y as int][v.food[k].x as int] == WorldCell::Food,
        forall|i: int, j: int, k: int|
            0 <= i < v.snakes.len() && 0 <= j < v.snakes[i].body.len() && 0 <= k < v.food.len()
                ==> #[trigger] v.snakes[i].body[j] != #[trigger] v.food[k],
{
    let w = v.config.width as int;
    let h = v.config.height as int;
    let b = v.bodies();
    assert forall|i: int, j: int, k: int|
        0 <= i < v.snakes.len() && 0 <= j < v.snakes[i].body.len() && 0 <= k < v.food.len() implies #[trigger] v.snakes[i].body[j]
        != #[trigger] v.food[k] by {
        assert(b[i][j] == v.snakes[i].body[j]);
        assert(!on_body(b, v.food[k]));
    }
    assert forall|i: int, j: int|
        0 <= i < v.snakes.len() && 0 <= j < v.snakes[i].body.len() implies (
    #[trigger] v.snakes[i].body[j]).within(w, h) && v.world[v.snakes[i].body[j].y as int][v.snakes[i].body[j].x as int]
        == WorldCell::Snake by {
        let c = v.snakes[i].body[j];
        assert(b[i][j] == c);
        assert(c.within(w, h));
        assert(on_body(b, c));
        if v.food.contains(c) {
            let k = choose|k: int| 0 <= k < v.food.len() && v.food[k] == c;
            assert(v.snakes[i].body[j] != v.food[k]);
        }
        assert(v.world[c.y as int][c.x as int] == cell_for(
            b,
            v.food,
            Coord { x: c.x as int as i32, y: c.y as int as i32 },
        ));
    }
    assert forall|k: int| 0 <= k < v.food.len() implies (#[trigger] v.food[k]).within(w, h)
        && v.world[v.food[k].y as int][v.food[k].x as int] == WorldCell::Food by {
        let c = v.food[k];
        assert(c.within(w, h));
        assert(v.food.contains(c));
        assert(v.world[c.y as int][c.x as int] == cell_for(
            b,
            v.food,
            Coord { x: c.x as int as i32, y: c.y as int as i32 },
        ));
    }
}

impl Game {
    /// The game is well formed; see [`GameView::wf`].
    pub open spec fn wf(&self) -> bool {
        self@.wf()
    }

    /// An empty board of the configured size.
    pub fn new(config: Config) -> (g: Game)
        requires
            config.valid(),
        ensures
            g.wf(),
            g@ == GameView::blank(config),
    {
        let w: i32 = config.width;
        let h: i32 = config.height;
        let world: Vec<Vec<WorldCell>> = blank_grid(w, h);
        let g = Game {
            world,
            food: Vec::new(),
            snakes: Vec::new(),
            config,
            players: Vec::new(),
            order: 0,
        };
        proof {
            let v = g@;
            assert(v.bodies() =~= Seq::<Seq<Coord>>::empty());
            assert(v.food =~= Seq::<Coord>::empty());
            assert(v.snakes =~= Seq::<SnakeView>::empty());
            assert(v.players =~= Seq::<PlayerView>::empty());
            lemma_shows_grid(g.world@, v.bodies(), v.food, w as int, h as int);
            assert(v.bodies().len() == 0);
            assert forall|x: int, y: int| 0 <= x < w && 0 <= y < h implies #[trigger] v.world[y][x]
                == cell_for(v.bodies(), v.food, Coord { x: x as i32, y: y as i32 }) by {
                assert(g.world[y][x] == WorldCell::Empty);
            }
        }
        g
    }

    /// The cell at column `x`, row `y`, or `None` off the board.
    pub fn cell_at(&self, x: i32, y: i32) -> (r: Option<WorldCell>)
        requires
            self@.consistent(),
        ensures
            r is Some <==> (Coord { x, y }).within(self.config.width as int, self.config.height as int),
            r is Some ==> r->0 == self@.cell(Coord { x, y }),
    {
        if 0 <= x && x < self.config.width && 0 <= y && y < self.config.height {
            let row = &self.world[y as usize];
            proof {
                assert(self@.world[y as int][x as int] == self@.cell(Coord { x, y }));
            }
            Some(row[x as usize])
        } else {
            None
        }
    }
}

} // verus!
