//! How many cells of a board are free, and how a step of the game changes
//! that number.

use vstd::prelude::*;
use crate::base::{Coord, WorldCell};
use crate::food::{free_cells, free_in_row, lemma_with_food};
use crate::tick::{lemma_fed, lemma_moved};
use crate::world::GameView;

verus! {

/// 1 for an empty cell, 0 for another.
pub open spec fn emptiness(c: WorldCell) -> int {
    if c == WorldCell::Empty {
        1
    } else {
        0
    }
}

/// The grid with the given cell at the position `at`.
pub open spec fn put(grid: Seq<Seq<WorldCell>>, at: Coord, cell: WorldCell) -> Seq<Seq<WorldCell>> {
    grid.update(at.y as int, grid[at.y as int].update(at.x as int, cell))
}

/// One other cell in a row changes the number of its empty cells by what
/// the cell gains or loses in emptiness.
pub proof fn lemma_row_put(row: Seq<WorldCell>, y: int, upto: int, x0: int, cell: WorldCell)
    requires
        0 <= upto <= row.len(),
        0 <= x0 < row.len(),
    ensures
        free_in_row(row.update(x0, cell), y, upto).len() == free_in_row(row, y, upto).len() + (
        if x0 < upto {
            emptiness(cell) - emptiness(row[x0])
        } else {
            0
        }),
    decreases upto,
{
    if upto > 0 {
        lemma_row_put(row, y, upto - 1, x0, cell);
    }
}

/// Grids that agree in their first rows have the same free cells there.
pub proof fn lemma_free_cells_agree(g1: Seq<Seq<WorldCell>>, g2: Seq<Seq<WorldCell>>, rows: int)
    requires
        0 <= rows <= g1.len(),
        rows <= g2.len(),
        forall|y: int| 0 <= y < rows ==> g1[y] == g2[y],
    ensures
        free_cells(g1, rows) == free_cells(g2, rows),
    decreases rows,
{
    if rows > 0 {
        lemma_free_cells_agree(g1, g2, rows - 1);
    }
}

/// One other cell on a grid changes the number of its free cells by what
/// the cell gains or loses in emptiness.
pub proof fn lemma_grid_put(grid: Seq<Seq<WorldCell>>, rows: int, at: Coord, cell: WorldCell)
    requires
        0 <= rows <= grid.len(),
        0 <= at.y < grid.len(),
        0 <= at.x < grid[at.y as int].len(),
    ensures
        free_cells(put(grid, at, cell), rows).len() == free_cells(grid, rows).len() + (if at.y
            < rows {
            emptiness(cell) - emptiness(grid[at.y as int][at.x as int])
        } else {
            0
        }),
    decreases rows,
{
    let g2 = put(grid, at, cell);
    if rows > 0 {
        if at.y >= rows {
            lemma_free_cells_agree(grid, g2, rows);
        } else if at.y == rows - 1 {
            lemma_free_cells_agree(grid, g2, rows - 1);
            lemma_row_put(
                grid[rows - 1],
                rows - 1,
                grid[rows - 1].len() as int,
                at.x as int,
                cell,
            );
        } else {
            lemma_grid_put(grid, rows - 1, at, cell);
            assert(g2[rows - 1] == grid[rows - 1]);
        }
    }
}

/// Food on an empty cell takes one free cell.
pub proof fn lemma_with_food_free(v: GameView, c: Coord)
    requires
        v.consistent(),
        c.within(v.config.width as int, v.config.height as int),
        v.cell(c) == WorldCell::Empty,
    ensures
        v.with_food(c).free().len() == v.free().len() - 1,
{
    let w = v.config.width as int;
    let h = v.config.height as int;
    let m = v.with_food(c);
    lemma_with_food(v, c);
    let g = put(v.world, c, WorldCell::Food);
    assert(v.world[c.y as int][c.x as int] == v.cell(Coord { x: c.x as int as i32, y: c.y as int as i32 }));
    assert forall|y: int| 0 <= y < h implies #[trigger] m.world[y] == g[y] by {
        assert(v.world[y].len() == w);
        assert forall|x: int| 0 <= x < w implies m.world[y][x] == g[y][x] by {
            let d = Coord { x: x as i32, y: y as i32 };
            assert(m.world[y][x] == m.cell(d));
            assert(v.world[y][x] == v.cell(d));
        }
        assert(m.world[y] =~= g[y]);
    }
    assert(m.world =~= g);
    lemma_grid_put(v.world, h, c, WorldCell::Food);
}

/// A snake that moves frees its tail cell and takes the cell ahead, which
/// may be the same cell: the number of free cells stays.
pub proof fn lemma_moved_free(v: GameView, index: int)
    requires
        v.wf(),
        0 <= index < v.snakes.len(),
        v.meets(index) == WorldCell::Empty,
    ensures
        v.moved(index).free().len() == v.free().len(),
{
    let w = v.config.width as int;
    let h = v.config.height as int;
    let m = v.moved(index);
    let next = v.ahead(index);
    let tail = v.snakes[index].body[0];
    lemma_moved(v, index);
    crate::tick::lemma_ahead_within(v, index);
    assert(v.bodies()[index][0] == tail);
    assert(tail.within(w, h));
    assert(v.world[tail.y as int][tail.x as int] == v.cell(
        Coord { x: tail.x as int as i32, y: tail.y as int as i32 },
    ));
    assert(v.world[next.y as int][next.x as int] == v.cell(
        Coord { x: next.x as int as i32, y: next.y as int as i32 },
    ));
    assert(v.cell(tail) == WorldCell::Snake) by {
        assert(crate::world::on_body(v.bodies(), tail));
        if v.food.contains(tail) {
            let k = choose|k: int| 0 <= k < v.food.len() && v.food[k] == tail;
            assert(!crate::world::on_body(v.bodies(), v.food[k]));
        }
    }
    let g1 = put(v.world, tail, WorldCell::Empty);
    let g2 = put(g1, next, WorldCell::Snake);
    assert forall|y: int| 0 <= y < h implies #[trigger] m.world[y] == g2[y] by {
        assert(v.world[y].len() == w);
        assert forall|x: int| 0 <= x < w implies m.world[y][x] == g2[y][x] by {
            let d = Coord { x: x as i32, y: y as i32 };
            assert(m.world[y][x] == m.cell(d));
            assert(v.world[y][x] == v.cell(d));
        }
        assert(m.world[y] =~= g2[y]);
    }
    assert(m.world =~= g2);
    lemma_grid_put(v.world, h, tail, WorldCell::Empty);
    lemma_grid_put(g1, h, next, WorldCell::Snake);
    assert(g1[next.y as int][next.x as int] == WorldCell::Empty);
}

/// A snake that eats takes the cell of the food: the number of free cells stays.
pub proof fn lemma_fed_free(v: GameView, index: int)
    requires
        v.wf(),
        0 <= index < v.snakes.len(),
        v.meets(index) == WorldCell::Food,
    ensures
        v.fed(index).free().len() == v.free().len(),
        v.fed(index).food.len() <= v.food.len(),
{
    let w = v.config.width as int;
    let h = v.config.height as int;
    let m = v.fed(index);
    let next = v.ahead(index);
    lemma_fed(v, index);
    crate::tick::lemma_ahead_within(v, index);
    crate::update::lemma_without_len(v.food, next);
    assert(v.world[next.y as int][next.x as int] == v.cell(
        Coord { x: next.x as int as i32, y: next.y as int as i32 },
    ));
    let g = put(v.world, next, WorldCell::Snake);
    assert forall|y: int| 0 <= y < h implies #[trigger] m.world[y] == g[y] by {
        assert(v.world[y].len() == w);
        assert forall|x: int| 0 <= x < w implies m.world[y][x] == g[y][x] by {
            let d = Coord { x: x as i32, y: y as i32 };
            assert(m.world[y][x] == m.cell(d));
            assert(v.world[y][x] == v.cell(d));
        }
        assert(m.world[y] =~= g[y]);
    }
    assert(m.world =~= g);
    lemma_grid_put(v.world, h, next, WorldCell::Snake);
}

} // verus!
