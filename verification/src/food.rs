//! The free cells of a board, and the food that is put on them.

use vstd::prelude::*;
use crate::base::{Coord, WorldCell};
use crate::random::{random_index, shuffle_cells};
use crate::world::{lemma_shows_is_render, on_body, Game, GameView};

verus! {

/// The empty cells among the first `upto` cells of row `y`, left to right.
pub open spec fn free_in_row(row: Seq<WorldCell>, y: int, upto: int) -> Seq<Coord>
    decreases upto,
{
    if upto <= 0 {
        Seq::empty()
    } else {
        let rest = free_in_row(row, y, upto - 1);
        if row[upto - 1] == WorldCell::Empty {
            rest.push(Coord { x: (upto - 1) as i32, y: y as i32 })
        } else {
            rest
        }
    }
}

/// The empty cells of the first `rows` rows, row by row, each left to right.
pub open spec fn free_cells(grid: Seq<Seq<WorldCell>>, rows: int) -> Seq<Coord>
    decreases rows,
{
    if rows <= 0 {
        Seq::empty()
    } else {
        free_cells(grid, rows - 1) + free_in_row(grid[rows - 1], rows - 1, grid[rows - 1].len() as int)
    }
}

/// `free_in_row` lists exactly the empty cells of the row's first `upto` cells.
pub proof fn lemma_free_in_row(row: Seq<WorldCell>, y: int, upto: int, c: Coord)
    requires
        0 <= upto <= row.len() <= i32::MAX,
        0 <= y <= i32::MAX,
    ensures
        free_in_row(row, y, upto).contains(c) <==> (c.y == y && 0 <= c.x < upto && row[c.x as int]
            == WorldCell::Empty),
        free_in_row(row, y, upto).len() <= upto,
    decreases upto,
{
    if upto > 0 {
        lemma_free_in_row(row, y, upto - 1, c);
        let rest = free_in_row(row, y, upto - 1);
        let full = free_in_row(row, y, upto);
        let last = Coord { x: (upto - 1) as i32, y: y as i32 };
        if row[upto - 1] == WorldCell::Empty {
            assert(full == rest.push(last));
            assert(full[rest.len() as int] == last);
            if rest.contains(c) {
                let k = choose|k: int| 0 <= k < rest.len() && rest[k] == c;
                assert(full[k] == c);
            }
            if full.contains(c) {
                let k = choose|k: int| 0 <= k < full.len() && full[k] == c;
                if k < rest.len() {
                    assert(rest[k] == c);
                }
            }
        }
    }
}

/// `free_cells` lists exactly the empty cells of the first `rows` rows.
pub proof fn lemma_free_cells(grid: Seq<Seq<WorldCell>>, rows: int, w: int, c: Coord)
    requires
        0 <= rows <= grid.len(),
        rows <= i32::MAX,
        0 <= w <= i32::MAX,
        forall|y: int| 0 <= y < grid.len() ==> (#[trigger] grid[y]).len() == w,
    ensures
        free_cells(grid, rows).contains(c) <==> (0 <= c.y < rows && 0 <= c.x < w
            && grid[c.y as int][c.x as int] == WorldCell::Empty),
    decreases rows,
{
    if rows > 0 {
        lemma_free_cells(grid, rows - 1, w, c);
        let above = free_cells(grid, rows - 1);
        let row = free_in_row(grid[rows - 1], rows - 1, w);
        assert(grid[rows - 1].len() == w);
        lemma_free_in_row(grid[rows - 1], rows - 1, w, c);
        let full = above + row;
        assert(free_cells(grid, rows) == full);
        if above.contains(c) {
            let k = choose|k: int| 0 <= k < above.len() && above[k] == c;
            assert(full[k] == c);
        }
        if row.contains(c) {
            let k = choose|k: int| 0 <= k < row.len() && row[k] == c;
            assert(full[above.len() + k] == c);
        }
        if full.contains(c) {
            let k = choose|k: int| 0 <= k < full.len() && full[k] == c;
            if k < above.len() {
                assert(above[k] == c);
            } else {
                assert(row[k - above.len()] == c);
            }
        }
    }
}

impl GameView {
    /// The empty cells of the board, row by row, each left to right.
    pub open spec fn free(self) -> Seq<Coord> {
        free_cells(self.world, self.config.height as int)
    }

    /// The game with one more food, at `c`.
    pub open spec fn with_food(self, c: Coord) -> GameView {
        self.redrawn(self.snakes, self.food.push(c), self.players)
    }

    /// `after` is this game with its food brought up to the target: the
    /// old food comes first, every food behind it lies on a cell that was
    /// free, nothing is added to a board that is at its target or over it,
    /// none is added beyond the target, each added food takes one free
    /// cell, and food is missing in the end only where no cell is free.
    pub open spec fn refilled_to(self, after: GameView) -> bool {
        &&& after.snakes == self.snakes
        &&& after.players == self.players
        &&& after.config == self.config
        &&& after.order == self.order
        &&& self.food.len() <= after.food.len()
        &&& after.food.subrange(0, self.food.len() as int) == self.food
        &&& forall|k: int|
            self.food.len() <= k < after.food.len() ==> self.free().contains(#[trigger] after.food[k])
        &&& self.food.len() >= self.config.food_static ==> after.food == self.food
        &&& self.food.len() <= self.config.food_static ==> after.food.len()
            <= self.config.food_static
        &&& after.food.len() + after.free().len() == self.food.len() + self.free().len()
        &&& after.food.len() >= self.config.food_static || after.free().len() == 0
    }
}

/// On a consistent board the free cells are the cells that show `Empty`.
pub proof fn lemma_free_is_empty(v: GameView, c: Coord)
    requires
        v.consistent(),
    ensures
        v.free().contains(c) <==> (c.within(v.config.width as int, v.config.height as int)
            && v.cell(c) == WorldCell::Empty),
{
    lemma_free_cells(v.world, v.config.height as int, v.config.width as int, c);
    if c.within(v.config.width as int, v.config.height as int) {
        assert(v.world[c.y as int][c.x as int] == v.cell(Coord { x: c.x as int as i32, y: c.y as int as i32 }));
    }
}

/// Food on an empty cell keeps the board consistent, and well formed if it was.
pub proof fn lemma_with_food(v: GameView, c: Coord)
    requires
        v.consistent(),
        c.within(v.config.width as int, v.config.height as int),
        v.cell(c) == WorldCell::Empty,
    ensures
        v.with_food(c).consistent(),
        v.wf() ==> v.with_food(c).wf(),
        forall|d: Coord| v.with_food(c).cell(d) == (if d == c { WorldCell::Food } else { v.cell(d) }),
{
    let m = v.with_food(c);
    let w = v.config.width as int;
    let h = v.config.height as int;
    lemma_shows_is_render(m.world, m.bodies(), m.food, w, h);
    assert forall|d: Coord| m.food.contains(d) <==> (v.food.contains(d) || d == c) by {
        if m.food.contains(d) {
            let k = choose|k: int| 0 <= k < m.food.len() && m.food[k] == d;
            if k < v.food.len() {
                assert(v.food[k] == d);
            }
        }
        if v.food.contains(d) {
            let k = choose|k: int| 0 <= k < v.food.len() && v.food[k] == d;
            assert(m.food[k] == d);
        }
        assert(m.food[v.food.len() as int] == c);
    }
    if v.wf() {
        crate::bodies::lemma_push_distinct(v.food, c);
        assert forall|k: int| 0 <= k < m.food.len() implies !on_body(m.bodies(), #[trigger] m.food[k])
            && m.food[k].within(w, h) by {
            if k < v.food.len() {
                assert(m.food[k] == v.food[k]);
            }
        }
    }
}

impl Game {
    /// The empty cells of the board, row by row, each left to right.
    pub fn free_coords(&self) -> (free: Vec<Coord>)
        requires
            self@.consistent(),
        ensures
            free@ == self@.free(),
    {
        proof {
            assert forall|y: int| 0 <= y < self@.world.len() implies (#[trigger] self@.world[y]).len()
                <= i32::MAX by {}
        }
        crate::grid::free_of(&self.world)
    }

    /// A free cell drawn at random, each with the same chance, or `None`
    /// where the board has none.
    pub fn get_free_random_coord(&self) -> (r: Option<Coord>)
        requires
            self@.consistent(),
        ensures
            r is None <==> self@.free().len() == 0,
            r is Some ==> self@.free().contains(r->0),
    {
        let free: Vec<Coord> = self.free_coords();
        if free.len() == 0 {
            None
        } else {
            let pick: usize = random_index(free.len());
            Some(free[pick])
        }
    }

    /// The free cells as `(x, y)` pairs, in an order drawn at random.
    pub fn get_free_coords_shuffled(&self) -> (cells: Vec<(usize, usize)>)
        requires
            self@.consistent(),
        ensures
            cells@.to_multiset() == self@.free().map_values(
                |c: Coord| (c.x as usize, c.y as usize),
            ).to_multiset(),
    {
        let free: Vec<Coord> = self.free_coords();
        let mut cells: Vec<(usize, usize)> = Vec::new();
        let mut k: usize = 0;
        proof {
            lemma_free_nonnegative(self@);
        }
        while k < free.len()
            invariant
                k <= free.len(),
                forall|i: int| 0 <= i < free.len() ==> (#[trigger] free@[i]).x >= 0 && free@[i].y >= 0,
                cells@ == free@.subrange(0, k as int).map_values(
                    |c: Coord| (c.x as usize, c.y as usize),
                ),
            decreases free.len() - k,
        {
            let c: Coord = free[k];
            cells.push((c.x as usize, c.y as usize));
            proof {
                assert(cells@ =~= free@.subrange(0, k + 1).map_values(
                    |c: Coord| (c.x as usize, c.y as usize),
                ));
            }
            k += 1;
        }
        proof {
            assert(free@.subrange(0, k as int) =~= free@);
        }
        shuffle_cells(&mut cells);
        cells
    }

    /// Puts food on the cell `c` if it lies on the board and is empty, and
    /// says whether it did.
    pub fn add_food_to(&mut self, c: Coord) -> (placed: bool)
        requires
            old(self)@.consistent(),
        ensures
            placed == (c.within(old(self).config.width as int, old(self).config.height as int)
                && old(self)@.cell(c) == WorldCell::Empty),
            placed ==> final(self)@ == old(self)@.with_food(c),
            !placed ==> final(self)@ == old(self)@,
            final(self)@.consistent(),
            old(self).wf() ==> final(self).wf(),
    {
        let ghost v = self@;
        let w: i32 = self.config.width;
        let h: i32 = self.config.height;
        if !(0 <= c.x && c.x < w && 0 <= c.y && c.y < h) {
            return false;
        }
        proof {
            assert(v.world[c.y as int][c.x as int] == v.cell(c));
            assert forall|y: int| 0 <= y < h implies (#[trigger] self.world[y]).len() == w by {
                assert(v.world[y].len() == w);
            }
        }
        if self.world[c.y as usize][c.x as usize] != WorldCell::Empty {
            return false;
        }
        self.world[c.y as usize][c.x as usize] = WorldCell::Food;
        self.food.push(c);
        proof {
            lemma_with_food(v, c);
            let m = v.with_food(c);
            assert forall|y: int| 0 <= y < h implies #[trigger] self@.world[y] == m.world[y] by {
                assert forall|x: int| 0 <= x < w implies self@.world[y][x] == m.world[y][x] by {
                    let d = Coord { x: x as i32, y: y as i32 };
                    assert(m.world[y][x] == m.cell(d));
                    assert(v.world[y][x] == v.cell(d));
                }
                assert(self@.world[y] =~= m.world[y]);
            }
            assert(self@.world =~= m.world);
        }
        true
    }

    /// Brings the food up to the configured count: while food is missing, a
    /// free cell drawn at random receives one; it stops early where no cell is free.
    pub fn refill_food(&mut self)
        requires
            old(self).wf(),
        ensures
            final(self).wf(),
            old(self)@.refilled_to(final(self)@),
    {
        let target: i32 = self.config.food_static;
        let mut more: bool = true;
        let ghost start = self@;
        proof {
            assert(self.food@.subrange(0, old(self).food@.len() as int) =~= old(self).food@);
        }
        while more && target > 0 && self.food.len() < target as usize
            invariant
                self.wf(),
                self@.snakes == old(self)@.snakes,
                self@.players == old(self)@.players,
                self.config == old(self).config,
                self.order == old(self).order,
                target == self.config.food_static,
                old(self).food@.len() <= self.food@.len(),
                self.food@.subrange(0, old(self).food@.len() as int) == old(self).food@,
                old(self).food@.len() >= target ==> self.food@ == old(self).food@,
                old(self).food@.len() <= target ==> self.food@.len() <= target,
                self.food@.len() + self@.free().len() == old(self).food@.len() + old(
                    self,
                )@.free().len(),
                !more ==> self@.free().len() == 0,
                start == old(self)@,
                forall|d: Coord| self@.free().contains(d) ==> start.free().contains(d),
                forall|k: int|
                    start.food.len() <= k < self.food@.len() ==> start.free().contains(
                        #[trigger] self.food@[k],
                    ),
            decreases (if more { 1int } else { 0int }) + target - self.food@.len(),
        {
            match self.get_free_random_coord() {
                None => {
                    more = false;
                },
                Some(c) => {
                    proof {
                        lemma_free_is_empty(self@, c);
                        crate::count::lemma_with_food_free(self@, c);
                    }
                    let ghost before = self.food@;
                    let ghost prev = self@;
                    self.add_food_to(c);
                    proof {
                        assert(self.food@.subrange(0, old(self).food@.len() as int)
                            =~= before.subrange(0, old(self).food@.len() as int));
                        lemma_with_food(prev, c);
                        assert forall|d: Coord| self@.free().contains(d) implies start.free().contains(
                            d,
                        ) by {
                            lemma_free_is_empty(self@, d);
                            lemma_free_is_empty(prev, d);
                        }
                        assert forall|k: int| start.food.len() <= k < self.food@.len() implies start.free().contains(
                            #[trigger] self.food@[k],
                        ) by {
                            if k < before.len() {
                                assert(self.food@[k] == before[k]);
                            } else {
                                assert(self.food@[k] == c);
                            }
                        }
                    }
                },
            }
        }
    }
}

/// The free cells have coordinates that are not negative.
pub proof fn lemma_free_nonnegative(v: GameView)
    requires
        v.consistent(),
    ensures
        forall|i: int| 0 <= i < v.free().len() ==> (#[trigger] v.free()[i]).x >= 0 && v.free()[i].y >= 0,
{
    assert forall|i: int| 0 <= i < v.free().len() implies (#[trigger] v.free()[i]).x >= 0
        && v.free()[i].y >= 0 by {
        assert(v.free().contains(v.free()[i]));
        lemma_free_is_empty(v, v.free()[i]);
    }
}

} // verus!
