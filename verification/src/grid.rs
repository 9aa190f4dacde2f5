//! What a bare grid of cells offers, without the lists that it is drawn from.

use vstd::prelude::*;
use crate::base::{Coord, WorldCell};
use crate::food::{free_cells, free_in_row};
use crate::random::random_index;
use crate::world::grid_of;

verus! {

/// Every cell of `src` has a cell of `dst` at the same place.
pub open spec fn covers(dst: Seq<Seq<WorldCell>>, src: Seq<Seq<WorldCell>>) -> bool {
    &&& src.len() <= dst.len()
    &&& forall|y: int| 0 <= y < src.len() ==> (#[trigger] src[y]).len() <= dst[y].len()
}

/// The grid `dst` with the cells of `src` laid over the cells at the same places.
pub open spec fn overlaid(dst: Seq<Seq<WorldCell>>, src: Seq<Seq<WorldCell>>) -> Seq<Seq<WorldCell>> {
    Seq::new(
        dst.len(),
        |y: int|
            Seq::new(
                dst[y].len(),
                |x: int|
                    if y < src.len() && x < src[y].len() {
                        src[y][x]
                    } else {
                        dst[y][x]
                    },
            ),
    )
}

/// The rows and the columns of the grid can be counted in an `i32`.
pub open spec fn countable(grid: Seq<Seq<WorldCell>>) -> bool {
    &&& grid.len() <= i32::MAX
    &&& forall|y: int| 0 <= y < grid.len() ==> (#[trigger] grid[y]).len() <= i32::MAX
}

/// The empty cells of a grid, row by row, each left to right.
pub fn free_of(grid: &Vec<Vec<WorldCell>>) -> (free: Vec<Coord>)
    requires
        countable(grid_of(grid@)),
    ensures
        free@ == free_cells(grid_of(grid@), grid.len() as int),
{
    let ghost cells = grid_of(grid@);
    let mut free: Vec<Coord> = Vec::new();
    let mut y: usize = 0;
    while y < grid.len()
        invariant
            y <= grid.len(),
            cells == grid_of(grid@),
            countable(cells),
            free@ == free_cells(cells, y as int),
        decreases grid.len() - y,
    {
        let row = &grid[y];
        let ghost above = free@;
        proof {
            assert(cells[y as int] == row@);
            assert(cells[y as int].len() <= i32::MAX);
        }
        let mut x: usize = 0;
        while x < row.len()
            invariant
                x <= row.len(),
                y < grid.len(),
                row@.len() <= i32::MAX,
                grid.len() <= i32::MAX,
                free@ == above + free_in_row(row@, y as int, x as int),
            decreases row.len() - x,
        {
            if row[x] == WorldCell::Empty {
                free.push(Coord { x: x as i32, y: y as i32 });
            }
            proof {
                assert(free@ =~= above + free_in_row(row@, y as int, x + 1));
            }
            x += 1;
        }
        y += 1;
    }
    free
}

/// A grid of cells.
pub trait World: Sized {
    /// The cells of the grid, row by row.
    spec fn cells(&self) -> Seq<Seq<WorldCell>>;

    /// Lays the cells of `world` over the cells at the same places.
    fn copy(&mut self, world: &Self)
        requires
            covers(old(self).cells(), world.cells()),
        ensures
            final(self).cells() == overlaid(old(self).cells(), world.cells()),
    ;

    /// An empty cell drawn at random, each with the same chance, or
    /// `None` where the grid has none.
    fn get_free_random_coord(&self) -> (r: Option<Coord>)
        requires
            countable(self.cells()),
        ensures
            r is None <==> free_cells(self.cells(), self.cells().len() as int).len() == 0,
            r is Some ==> free_cells(self.cells(), self.cells().len() as int).contains(r->0),
    ;
}

impl World for Vec<Vec<WorldCell>> {
    open spec fn cells(&self) -> Seq<Seq<WorldCell>> {
        grid_of(self@)
    }

    fn copy(&mut self, world: &Self) {
        let ghost dst = grid_of(self@);
        let ghost src = grid_of(world@);
        let mut y: usize = 0;
        while y < world.len()
            invariant
                y <= world.len(),
                dst == grid_of(old(self)@),
                src == grid_of(world@),
                covers(dst, src),
                self.len() == dst.len(),
                forall|r: int| 0 <= r < self.len() ==> (#[trigger] self[r]).len() == dst[r].len(),
                forall|r: int, c: int|
                    0 <= r < self.len() && 0 <= c < self[r].len() ==> #[trigger] self[r][c] == (if r
                        < y && c < src[r].len() {
                        src[r][c]
                    } else {
                        dst[r][c]
                    }),
            decreases world.len() - y,
        {
            let row = &world[y];
            proof {
                assert(src[y as int] == row@);
                assert(src[y as int].len() <= dst[y as int].len());
            }
            let mut x: usize = 0;
            while x < row.len()
                invariant
                    x <= row.len(),
                    y < world.len(),
                    y < self.len(),
                    row@ == src[y as int],
                    row.len() <= dst[y as int].len(),
                    self.len() == dst.len(),
                    forall|r: int| 0 <= r < self.len() ==> (#[trigger] self[r]).len() == dst[r].len(),
                    forall|r: int, c: int|
                        0 <= r < self.len() && 0 <= c < self[r].len() ==> #[trigger] self[r][c] == (
                        if (r < y && c < src[r].len()) || (r == y && c < x) {
                            src[r][c]
                        } else {
                            dst[r][c]
                        }),
                decreases row.len() - x,
            {
                self[y][x] = row[x];
                x += 1;
            }
            y += 1;
        }
        proof {
            let out = grid_of(self@);
            let want = overlaid(dst, src);
            assert forall|r: int| 0 <= r < out.len() implies out[r] == want[r] by {
                assert(self[r].len() == dst[r].len());
                assert forall|c: int| 0 <= c < out[r].len() implies out[r][c] == want[r][c] by {
                    assert(self[r][c] == out[r][c]);
                }
                assert(out[r] =~= want[r]);
            }
            assert(out =~= want);
        }
    }

    fn get_free_random_coord(&self) -> (r: Option<Coord>) {
        let free: Vec<Coord> = free_of(self);
        if free.len() == 0 {
            None
        } else {
            let pick: usize = random_index(free.len());
            Some(free[pick])
        }
    }
}

} // verus!
