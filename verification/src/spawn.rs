//! Where a new snake may enter the board, and how it is put there.

use vstd::prelude::*;
use crate::base::{Coord, Direction, Snake, SnakeView, WorldCell};
use crate::bodies::lemma_cover_after_join;
use crate::random::choose_index;
use crate::update::has_snake;
use crate::world::{lemma_shows_is_render, on_body, Game, GameView};

verus! {

/// The food list without the positions that lie under `body`.
pub open spec fn clear_of(food: Seq<Coord>, body: Seq<Coord>) -> Seq<Coord>
    decreases food.len(),
{
    if food.len() == 0 {
        Seq::empty()
    } else {
        let rest = clear_of(food.drop_last(), body);
        if body.contains(food.last()) {
            rest
        } else {
            rest.push(food.last())
        }
    }
}

/// `clear_of` keeps exactly the positions that do not lie under the body.
pub proof fn lemma_clear_of_contains(food: Seq<Coord>, body: Seq<Coord>, d: Coord)
    ensures
        clear_of(food, body).contains(d) <==> (food.contains(d) && !body.contains(d)),
    decreases food.len(),
{
    if food.len() > 0 {
        let init = food.drop_last();
        lemma_clear_of_contains(init, body, d);
        let rest = clear_of(init, body);
        if food.contains(d) {
            let k = choose|k: int| 0 <= k < food.len() && food[k] == d;
            if k < food.len() - 1 {
                assert(init[k] == d);
            }
        }
        if init.contains(d) {
            let k = choose|k: int| 0 <= k < init.len() && init[k] == d;
            assert(food[k] == d);
        }
        if !body.contains(food.last()) {
            let r2 = rest.push(food.last());
            assert(r2[rest.len() as int] == food.last());
            if rest.contains(d) {
                let k = choose|k: int| 0 <= k < rest.len() && rest[k] == d;
                assert(r2[k] == d);
            }
            if r2.contains(d) {
                let k = choose|k: int| 0 <= k < r2.len() && r2[k] == d;
                if k < rest.len() {
                    assert(rest[k] == d);
                }
            }
        }
        assert(food[food.len() - 1] == food.last());
    }
}

/// A food list without duplicates has none after the food under a body has left it.
pub proof fn lemma_clear_of_distinct(food: Seq<Coord>, body: Seq<Coord>)
    requires
        food.no_duplicates(),
    ensures
        clear_of(food, body).no_duplicates(),
    decreases food.len(),
{
    if food.len() > 0 {
        crate::bodies::lemma_drop_last_distinct(food);
        lemma_clear_of_distinct(food.drop_last(), body);
        lemma_clear_of_contains(food.drop_last(), body, food.last());
        if !body.contains(food.last()) {
            crate::bodies::lemma_push_distinct(clear_of(food.drop_last(), body), food.last());
        }
    }
}

/// One element if the condition holds, none else.
pub open spec fn only_if<T>(cond: bool, item: T) -> Seq<T> {
    if cond {
        seq![item]
    } else {
        Seq::empty()
    }
}

impl GameView {
    /// The 5×5 square centred at `(x, y)` shows no snake cell.
    pub open spec fn clear_around(self, x: int, y: int) -> bool {
        forall|dx: int, dy: int|
            -2 <= dx <= 2 && -2 <= dy <= 2 ==> #[trigger] self.world[y + dy][x + dx]
                != WorldCell::Snake
    }

    /// The cells beside `head` that may hold the tail of a new snake, each
    /// with the direction from it to the head: left, right, above, below,
    /// without those that show food.
    pub open spec fn tail_choices(self, head: Coord) -> Seq<(Coord, Direction)> {
        let x = head.x as int;
        let y = head.y as int;
        only_if(
            self.world[y][x - 1] != WorldCell::Food,
            (Coord { x: (x - 1) as i32, y: y as i32 }, Direction::RIGHT),
        ) + only_if(
            self.world[y][x + 1] != WorldCell::Food,
            (Coord { x: (x + 1) as i32, y: y as i32 }, Direction::LEFT),
        ) + only_if(
            self.world[y - 1][x] != WorldCell::Food,
            (Coord { x: x as i32, y: (y - 1) as i32 }, Direction::DOWN),
        ) + only_if(
            self.world[y + 1][x] != WorldCell::Food,
            (Coord { x: x as i32, y: (y + 1) as i32 }, Direction::UP),
        )
    }

    /// A new snake may put its head at `(x, y)`: the cell keeps two cells
    /// from every edge, no snake is near, and some cell beside it can hold the tail.
    pub open spec fn is_site(self, x: int, y: int) -> bool {
        &&& 2 <= x <= self.config.width - 3
        &&& 2 <= y <= self.config.height - 3
        &&& self.clear_around(x, y)
        &&& self.tail_choices(Coord { x: x as i32, y: y as i32 }).len() > 0
    }

    /// `(x, y)` is the first site, going through the rows from the top and
    /// through each row from the left.
    pub open spec fn first_site(self, x: int, y: int) -> bool {
        &&& self.is_site(x, y)
        &&& forall|x2: int, y2: int|
            (y2 < y || (y2 == y && x2 < x)) ==> !self.is_site(x2, y2)
    }

    /// `room` is what the board offers a new snake: the first site as the
    /// head with one of the tails that it allows, or nothing where the
    /// board has no site.
    pub open spec fn offers(self, room: Option<(Coord, Coord, Direction)>) -> bool {
        match room {
            None => forall|x: int, y: int| !self.is_site(x, y),
            Some((head, tail, dir)) => self.first_site(head.x as int, head.y as int)
                && self.tail_choices(head).contains((tail, dir)),
        }
    }

    /// The game after the snake `s` has been put on the board: food under it leaves the list.
    pub open spec fn with_snake(self, s: SnakeView) -> GameView {
        self.redrawn(self.snakes.push(s), clear_of(self.food, s.body), self.players)
    }

    /// The snake `s` can be put on the board: it has a head, lies on the
    /// board, crosses neither itself nor another snake, and its owner has no snake yet.
    pub open spec fn admits(self, s: SnakeView) -> bool {
        &&& s.body.len() >= 1
        &&& forall|j: int|
            0 <= j < s.body.len() ==> (#[trigger] s.body[j]).within(
                self.config.width as int,
                self.config.height as int,
            ) && self.cell(s.body[j]) != WorldCell::Snake
        &&& s.body.no_duplicates()
        &&& !has_snake(self.snakes, s.player_id)
    }
}

/// A snake that the game admits keeps it well formed.
pub proof fn lemma_with_snake(v: GameView, s: SnakeView)
    requires
        v.wf(),
        v.admits(s),
    ensures
        v.with_snake(s).wf(),
        forall|c: Coord|
            v.with_snake(s).cell(c) == (if s.body.contains(c) {
                WorldCell::Snake
            } else {
                v.cell(c)
            }),
{
    let w = v.config.width as int;
    let h = v.config.height as int;
    let m = v.with_snake(s);
    let b = v.bodies();
    assert(m.bodies() =~= b.push(s.body));
    assert forall|j: int| 0 <= j < s.body.len() implies !on_body(b, #[trigger] s.body[j]) by {
        let c = s.body[j];
        if on_body(b, c) {
            if v.food.contains(c) {
                let k = choose|k: int| 0 <= k < v.food.len() && v.food[k] == c;
                assert(!on_body(b, v.food[k]));
            }
            assert(v.cell(c) == WorldCell::Snake);
        }
    }
    lemma_cover_after_join(b, s.body);
    lemma_shows_is_render(m.world, m.bodies(), m.food, w, h);
    lemma_clear_of_distinct(v.food, s.body);
    assert forall|i: int, j: int|
        0 <= i < m.bodies().len() && 0 <= j < m.bodies()[i].len() implies (
    #[trigger] m.bodies()[i][j]).within(w, h) by {
        if i < b.len() {
            assert(m.bodies()[i][j] == b[i][j]);
        } else {
            assert(m.bodies()[i][j] == s.body[j]);
        }
    }
    assert forall|k: int| 0 <= k < m.food.len() implies !on_body(m.bodies(), #[trigger] m.food[k])
        && m.food[k].within(w, h) by {
        lemma_clear_of_contains(v.food, s.body, m.food[k]);
        assert(m.food.contains(m.food[k]));
        let k0 = choose|k0: int| 0 <= k0 < v.food.len() && v.food[k0] == m.food[k];
        assert(!on_body(b, v.food[k0]));
        assert(v.food[k0].within(w, h));
    }
    assert forall|c: Coord|
        m.cell(c) == (if s.body.contains(c) {
            WorldCell::Snake
        } else {
            v.cell(c)
        }) by {
        lemma_clear_of_contains(v.food, s.body, c);
    }
    assert forall|i: int| 0 <= i < m.snakes.len() implies (#[trigger] m.snakes[i]).body.len() >= 1 by {
        if i < v.snakes.len() {
            assert(m.snakes[i] == v.snakes[i]);
        }
    }
    assert forall|i1: int, i2: int|
        0 <= i1 < m.snakes.len() && 0 <= i2 < m.snakes.len() && i1 != i2 implies (
    #[trigger] m.snakes[i1]).player_id != (#[trigger] m.snakes[i2]).player_id by {
        if i1 < v.snakes.len() {
            assert(m.snakes[i1] == v.snakes[i1]);
        }
        if i2 < v.snakes.len() {
            assert(m.snakes[i2] == v.snakes[i2]);
        }
    }
}

/// The food list without the positions that lie under `body`.
pub fn remove_food_under(food: &Vec<Coord>, body: &Vec<Coord>) -> (kept: Vec<Coord>)
    ensures
        kept@ == clear_of(food@, body@),
{
    let mut kept: Vec<Coord> = Vec::new();
    let mut k: usize = 0;
    while k < food.len()
        invariant
            k <= food.len(),
            kept@ == clear_of(food@.subrange(0, k as int), body@),
        decreases food.len() - k,
    {
        proof {
            assert(food@.subrange(0, k + 1).drop_last() =~= food@.subrange(0, k as int));
        }
        let f: Coord = food[k];
        if !holds(body, f) {
            kept.push(f);
        }
        k += 1;
    }
    proof {
        assert(food@.subrange(0, k as int) =~= food@);
    }
    kept
}

/// Whether the list holds the position.
pub fn holds(list: &Vec<Coord>, c: Coord) -> (r: bool)
    ensures
        r == list@.contains(c),
{
    let mut j: usize = 0;
    while j < list.len()
        invariant
            j <= list.len(),
            forall|k: int| 0 <= k < j ==> list@[k] != c,
        decreases list.len() - j,
    {
        if list[j] == c {
            return true;
        }
        j += 1;
    }
    false
}

impl Game {
    /// Whether some snake on the board belongs to the player `id`.
    pub fn has_snake_of(&self, id: i32) -> (r: bool)
        ensures
            r == has_snake(self@.snakes, id),
    {
        let mut i: usize = 0;
        while i < self.snakes.len()
            invariant
                i <= self.snakes.len(),
                forall|k: int| 0 <= k < i ==> (#[trigger] self@.snakes[k]).player_id != id,
            decreases self.snakes.len() - i,
        {
            if self.snakes[i].player_id == id {
                proof {
                    assert(self@.snakes[i as int].player_id == id);
                }
                return true;
            }
            i += 1;
        }
        false
    }

    /// Whether the game admits the snake.
    pub fn can_add_snake(&self, snake: &Snake) -> (r: bool)
        requires
            self.wf(),
        ensures
            r == self@.admits(snake@),
    {
        let w: i32 = self.config.width;
        let h: i32 = self.config.height;
        if snake.body.len() == 0 || self.has_snake_of(snake.player_id) {
            return false;
        }
        let mut j: usize = 0;
        while j < snake.body.len()
            invariant
                j <= snake.body.len(),
                self.wf(),
                w == self.config.width,
                h == self.config.height,
                forall|k: int|
                    0 <= k < j ==> (#[trigger] snake.body@[k]).within(w as int, h as int)
                        && self@.cell(snake.body@[k]) != WorldCell::Snake,
                forall|k1: int, k2: int|
                    0 <= k1 < k2 < j ==> snake.body@[k1] != snake.body@[k2],
            decreases snake.body.len() - j,
        {
            let c: Coord = snake.body[j];
            if !(0 <= c.x && c.x < w && 0 <= c.y && c.y < h) {
                return false;
            }
            proof {
                assert(self@.world[c.y as int][c.x as int] == self@.cell(c));
                assert(self@.world[c.y as int].len() == w);
            }
            if self.world[c.y as usize][c.x as usize] == WorldCell::Snake {
                return false;
            }
            let mut k: usize = 0;
            while k < j
                invariant
                    k <= j < snake.body.len(),
                    c == snake.body@[j as int],
                    forall|k1: int| 0 <= k1 < k ==> snake.body@[k1] != c,
                decreases j - k,
            {
                if snake.body[k] == c {
                    return false;
                }
                k += 1;
            }
            j += 1;
        }
        true
    }

    /// Puts the snake on the board if the game admits it, and says whether
    /// it did. Food under the snake leaves the food list.
    pub fn add_snake(&mut self, snake: Snake) -> (added: bool)
        requires
            old(self).wf(),
        ensures
            added == old(self)@.admits(snake@),
            added ==> final(self)@ == old(self)@.with_snake(snake@),
            !added ==> final(self)@ == old(self)@,
            final(self).wf(),
    {
        let ghost v = self@;
        let w: i32 = self.config.width;
        let h: i32 = self.config.height;
        if !self.can_add_snake(&snake) {
            return false;
        }
        let kept: Vec<Coord> = remove_food_under(&self.food, &snake.body);
        self.food = kept;
        let ghost base = self.world@;
        let len: usize = snake.body.len();
        let mut j: usize = 0;
        proof {
            assert forall|y: int| 0 <= y < h implies (#[trigger] self.world[y]).len() == w by {
                assert(v.world[y].len() == w);
            }
        }
        while j < len
            invariant
                j <= len,
                len == snake.body.len(),
                v.admits(snake@),
                self.snakes@ == old(self).snakes@,
                self.players@ == old(self).players@,
                self.food@ == clear_of(v.food, snake.body@),
                self.config == v.config,
                self.order == v.order,
                w == v.config.width,
                h == v.config.height,
                self.world.len() == h,
                base.len() == h,
                forall|y: int| 0 <= y < h ==> (#[trigger] self.world[y]).len() == w,
                forall|x: int, y: int|
                    0 <= x < w && 0 <= y < h ==> #[trigger] self.world[y][x] == (
                    if snake.body@.subrange(0, j as int).contains(Coord { x: x as i32, y: y as i32 }) {
                        WorldCell::Snake
                    } else {
                        base[y][x]
                    }),
            decreases len - j,
        {
            let c: Coord = snake.body[j];
            let ghost before = snake.body@.subrange(0, j as int);
            let ghost after = snake.body@.subrange(0, j + 1);
            proof {
                assert(c.within(w as int, h as int));
                assert forall|d: Coord| after.contains(d) <==> (before.contains(d) || d == c) by {
                    if after.contains(d) {
                        let k = choose|k: int| 0 <= k < after.len() && after[k] == d;
                        if k < j {
                            assert(before[k] == d);
                        }
                    }
                    if before.contains(d) {
                        let k = choose|k: int| 0 <= k < before.len() && before[k] == d;
                        assert(after[k] == d);
                    }
                    assert(after[j as int] == c);
                }
            }
            self.world[c.y as usize][c.x as usize] = WorldCell::Snake;
            j += 1;
        }
        proof {
            assert(snake.body@.subrange(0, len as int) =~= snake.body@);
        }
        let ghost sv = snake@;
        self.snakes.push(snake);
        proof {
            lemma_with_snake(v, sv);
            let m = v.with_snake(sv);
            assert(self@.snakes =~= m.snakes);
            assert forall|y: int| 0 <= y < h implies #[trigger] self@.world[y] == m.world[y] by {
                assert forall|x: int| 0 <= x < w implies self@.world[y][x] == m.world[y][x] by {
                    let c = Coord { x: x as i32, y: y as i32 };
                    assert(m.world[y][x] == m.cell(c));
                    assert(v.world[y][x] == v.cell(c));
                    assert(base[y][x] == v.world[y][x]);
                }
                assert(self@.world[y] =~= m.world[y]);
            }
            assert(self@.world =~= m.world);
        }
        true
    }

    /// Whether the 5×5 square centred at `(x, y)` shows no snake cell.
    pub fn is_clear_around(&self, x: i32, y: i32) -> (r: bool)
        requires
            self@.consistent(),
            2 <= x <= self.config.width - 3,
            2 <= y <= self.config.height - 3,
        ensures
            r == self@.clear_around(x as int, y as int),
    {
        let mut dy: i32 = -2;
        while dy <= 2
            invariant
                -2 <= dy <= 3,
                self@.consistent(),
                2 <= x <= self.config.width - 3,
                2 <= y <= self.config.height - 3,
                forall|ex: int, ey: int|
                    -2 <= ex <= 2 && -2 <= ey < dy ==> #[trigger] self@.world[y + ey][x + ex]
                        != WorldCell::Snake,
            decreases 3 - dy,
        {
            let mut dx: i32 = -2;
            while dx <= 2
                invariant
                    -2 <= dx <= 3,
                    -2 <= dy <= 2,
                    self@.consistent(),
                    2 <= x <= self.config.width - 3,
                    2 <= y <= self.config.height - 3,
                    forall|ex: int, ey: int|
                        -2 <= ex <= 2 && -2 <= ey < dy ==> #[trigger] self@.world[y + ey][x + ex]
                            != WorldCell::Snake,
                    forall|ex: int|
                        -2 <= ex < dx ==> #[trigger] self@.world[y + dy][x + ex] != WorldCell::Snake,
                decreases 3 - dx,
            {
                proof {
                    assert(self@.world[y + dy].len() == self.config.width);
                    assert(self@.world[y + dy] == self.world@[y + dy]@);
                }
                if self.world[(y + dy) as usize][(x + dx) as usize] == WorldCell::Snake {
                    proof {
                        assert(self@.world[y + dy][x + dx] == WorldCell::Snake);
                    }
                    return false;
                }
                dx += 1;
            }
            dy += 1;
        }
        true
    }

    /// The cells beside `head` that may hold the tail of a new snake.
    pub fn tail_options(&self, head: Coord) -> (r: Vec<(Coord, Direction)>)
        requires
            self@.consistent(),
            1 <= head.x <= self.config.width - 2,
            1 <= head.y <= self.config.height - 2,
        ensures
            r@ == self@.tail_choices(head),
    {
        let x: i32 = head.x;
        let y: i32 = head.y;
        let mut r: Vec<(Coord, Direction)> = Vec::new();
        proof {
            assert(self@.world[y - 1].len() == self.config.width);
            assert(self@.world[y as int].len() == self.config.width);
            assert(self@.world[y + 1].len() == self.config.width);
            assert(self@.world[y - 1] == self.world@[y - 1]@);
            assert(self@.world[y as int] == self.world@[y as int]@);
            assert(self@.world[y + 1] == self.world@[y + 1]@);
        }
        if self.world[y as usize][(x - 1) as usize] != WorldCell::Food {
            r.push((Coord { x: x - 1, y }, Direction::RIGHT));
        }
        if self.world[y as usize][(x + 1) as usize] != WorldCell::Food {
            r.push((Coord { x: x + 1, y }, Direction::LEFT));
        }
        if self.world[(y - 1) as usize][x as usize] != WorldCell::Food {
            r.push((Coord { x, y: y - 1 }, Direction::DOWN));
        }
        if self.world[(y + 1) as usize][x as usize] != WorldCell::Food {
            r.push((Coord { x, y: y + 1 }, Direction::UP));
        }
        proof {
            assert(r@ =~= self@.tail_choices(head));
        }
        r
    }

    /// The first cell where a new snake may put its head, or `None` where
    /// the board has no such cell.
    pub fn find_spawn_site(&self) -> (r: Option<Coord>)
        requires
            self@.consistent(),
        ensures
            r is Some ==> self@.first_site(r->0.x as int, r->0.y as int),
            r is None ==> forall|x: int, y: int| !self@.is_site(x, y),
    {
        let w: i32 = self.config.width;
        let h: i32 = self.config.height;
        if w < 5 || h < 5 {
            return None;
        }
        let mut y: i32 = 2;
        while y <= h - 3
            invariant
                2 <= y <= h - 2,
                w >= 5,
                h >= 5,
                w == self.config.width,
                h == self.config.height,
                self@.consistent(),
                forall|x2: int, y2: int| y2 < y ==> !self@.is_site(x2, y2),
            decreases h - y,
        {
            let mut x: i32 = 2;
            while x <= w - 3
                invariant
                    2 <= x <= w - 2,
                    2 <= y <= h - 3,
                    w == self.config.width,
                    h == self.config.height,
                    self@.consistent(),
                    forall|x2: int, y2: int| y2 < y ==> !self@.is_site(x2, y2),
                    forall|x2: int| x2 < x ==> !self@.is_site(x2, y as int),
                decreases w - x,
            {
                if self.is_clear_around(x, y) {
                    let options = self.tail_options(Coord { x, y });
                    if options.len() > 0 {
                        return Some(Coord { x, y });
                    }
                }
                x += 1;
            }
            y += 1;
        }
        None
    }

    /// Finds room for a new snake: the head, the tail, and the direction
    /// from the tail to the head. The head is the first site of the board;
    /// the tail is drawn at random, each choice with the same chance.
    pub fn get_free_coord5x5(&self) -> (r: Option<(Coord, Coord, Direction)>)
        requires
            self@.consistent(),
        ensures
            self@.offers(r),
    {
        match self.find_spawn_site() {
            None => None,
            Some(head) => {
                let options = self.tail_options(head);
                match choose_index(options.len()) {
                    None => None,
                    Some(pick) => {
                        let (tail, dir) = options[pick];
                        Some((head, tail, dir))
                    },
                }
            },
        }
    }
}

} // verus!
