//! Snapshots of a game: the master takes one, a follower draws it.

use vstd::prelude::*;
use crate::base::{copy_coords, copy_players, copy_snakes, wrap, wrap_i32};
use crate::base::{snake_views, Coord, GameState, Snake, SnakeView, StateView, WorldCell};
use crate::world::{
    bodies_distinct,
    bodies_of,
    bodies_within,
    cell_for,
    food_within,
    blank_grid,
    lemma_shows_is_render,
    on_body,
    render,
    Game,
    GameView,
};

verus! {

/// The position folded onto the torus of the given dimensions.
pub open spec fn fold(c: Coord, w: int, h: int) -> Coord {
    Coord { x: wrap(c.x as int, w) as i32, y: wrap(c.y as int, h) as i32 }
}

/// The positions of a list, each folded onto the torus.
pub open spec fn folded(list: Seq<Coord>, w: int, h: int) -> Seq<Coord> {
    Seq::new(list.len(), |k: int| fold(list[k], w, h))
}

/// The bodies of a list, each folded onto the torus.
pub open spec fn folded_bodies(bodies: Seq<Seq<Coord>>, w: int, h: int) -> Seq<Seq<Coord>> {
    Seq::new(bodies.len(), |i: int| folded(bodies[i], w, h))
}

/// The snakes of a list, each with its body folded onto the torus.
pub open spec fn folded_snakes(snakes: Seq<SnakeView>, w: int, h: int) -> Seq<SnakeView> {
    Seq::new(snakes.len(), |i: int| SnakeView { body: folded(snakes[i].body, w, h), ..snakes[i] })
}

/// Folds a position onto the torus of the given dimensions.
pub fn fold_coord(c: Coord, w: i32, h: i32) -> (r: Coord)
    requires
        w >= 1,
        h >= 1,
    ensures
        r == fold(c, w as int, h as int),
        r.within(w as int, h as int),
{
    Coord { x: wrap_i32(c.x, w), y: wrap_i32(c.y, h) }
}

/// A position on the board folds onto itself.
pub proof fn lemma_fold_within(c: Coord, w: int, h: int)
    requires
        c.within(w, h),
    ensures
        fold(c, w, h) == c,
{
    vstd::arithmetic::div_mod::lemma_small_mod(c.x as nat, w as nat);
    vstd::arithmetic::div_mod::lemma_small_mod(c.y as nat, h as nat);
}

/// Folds the positions of a list onto the torus of the given dimensions.
pub fn fold_coords(list: &Vec<Coord>, w: i32, h: i32) -> (r: Vec<Coord>)
    requires
        w >= 1,
        h >= 1,
    ensures
        r@ == folded(list@, w as int, h as int),
{
    let mut r: Vec<Coord> = Vec::new();
    let mut k: usize = 0;
    while k < list.len()
        invariant
            k <= list.len(),
            w >= 1,
            h >= 1,
            r@ == folded(list@, w as int, h as int).subrange(0, k as int),
        decreases list.len() - k,
    {
        r.push(fold_coord(list[k], w, h));
        proof {
            assert(r@ =~= folded(list@, w as int, h as int).subrange(0, k + 1));
        }
        k += 1;
    }
    proof {
        assert(r@ =~= folded(list@, w as int, h as int));
    }
    r
}

/// Folds the bodies of the snakes onto the torus of the given dimensions.
pub fn fold_snakes(snakes: &Vec<Snake>, w: i32, h: i32) -> (r: Vec<Snake>)
    requires
        w >= 1,
        h >= 1,
    ensures
        snake_views(r@) == folded_snakes(snake_views(snakes@), w as int, h as int),
{
    let ghost want = folded_snakes(snake_views(snakes@), w as int, h as int);
    let mut r: Vec<Snake> = Vec::new();
    let mut i: usize = 0;
    while i < snakes.len()
        invariant
            i <= snakes.len(),
            w >= 1,
            h >= 1,
            want == folded_snakes(snake_views(snakes@), w as int, h as int),
            r.len() == i,
            forall|k: int| 0 <= k < i ==> (#[trigger] r@[k])@ == want[k],
        decreases snakes.len() - i,
    {
        let s = &snakes[i];
        r.push(
            Snake {
                player_id: s.player_id,
                body: fold_coords(&s.body, w, h),
                direction: s.direction,
                state: s.state,
            },
        );
        i += 1;
    }
    proof {
        assert(snake_views(r@) =~= want);
    }
    r
}

/// The positions of a folded list lie on the board.
pub proof fn lemma_folded_within(list: Seq<Coord>, w: int, h: int)
    requires
        1 <= w <= i32::MAX,
        1 <= h <= i32::MAX,
    ensures
        food_within(folded(list, w, h), w, h),
{
    assert forall|k: int| 0 <= k < list.len() implies (#[trigger] folded(list, w, h)[k]).within(w, h) by {
        vstd::arithmetic::div_mod::lemma_mod_bound(list[k].x as int, w);
        vstd::arithmetic::div_mod::lemma_mod_bound(list[k].y as int, h);
    }
}

/// A prefix that is one longer holds one more item.
pub proof fn lemma_prefix_contains<T>(s: Seq<T>, j: int)
    requires
        0 <= j < s.len(),
    ensures
        forall|d: T|
            s.subrange(0, j + 1).contains(d) <==> (s.subrange(0, j).contains(d) || d == s[j]),
{
    let before = s.subrange(0, j);
    let after = s.subrange(0, j + 1);
    assert forall|d: T| after.contains(d) <==> (before.contains(d) || d == s[j]) by {
        if after.contains(d) {
            let k = choose|k: int| 0 <= k < after.len() && after[k] == d;
            if k < j {
                assert(before[k] == d);
            }
        }
        if before.contains(d) {
            let k = choose|k: int| 0 <= k < before.len() && before[k] == d;
            assert(after[k] == d);
        }
        assert(after[j] == s[j]);
    }
}

/// The cover of one more body is the cover so far and that body.
pub proof fn lemma_cover_prefix(bodies: Seq<Seq<Coord>>, i: int)
    requires
        0 <= i < bodies.len(),
    ensures
        forall|c: Coord|
            on_body(bodies.subrange(0, i + 1), c) <==> (on_body(bodies.subrange(0, i), c)
                || bodies[i].contains(c)),
{
    let before = bodies.subrange(0, i);
    let after = bodies.subrange(0, i + 1);
    assert forall|c: Coord| on_body(after, c) <==> (on_body(before, c) || bodies[i].contains(c)) by {
        if on_body(after, c) {
            let (p, j) = choose|p: int, j: int|
                0 <= p < after.len() && 0 <= j < after[p].len() && #[trigger] after[p][j] == c;
            if p < i {
                assert(before[p][j] == c);
            } else {
                assert(bodies[i][j] == c);
            }
        }
        if on_body(before, c) {
            let (p, j) = choose|p: int, j: int|
                0 <= p < before.len() && 0 <= j < before[p].len() && #[trigger] before[p][j] == c;
            assert(after[p][j] == c);
        }
        if bodies[i].contains(c) {
            let j = choose|j: int| 0 <= j < bodies[i].len() && bodies[i][j] == c;
            assert(after[i][j] == c);
        }
    }
}

impl StateView {
    /// Every position of the snapshot lies on a board of the given dimensions.
    pub open spec fn within(self, w: int, h: int) -> bool {
        &&& bodies_within(bodies_of(self.snakes), w, h)
        &&& food_within(self.foods, w, h)
    }

    /// The snapshot is one that a master may have taken: every position lies
    /// on the board, no two snake cells coincide, no two foods coincide, no
    /// food lies under a snake, every snake has a head, no two snakes share
    /// an owner, and no two players share an id.
    pub open spec fn proper(self, w: int, h: int) -> bool {
        &&& self.within(w, h)
        &&& self.foods.no_duplicates()
        &&& bodies_distinct(bodies_of(self.snakes))
        &&& forall|k: int|
            0 <= k < self.foods.len() ==> !on_body(bodies_of(self.snakes), #[trigger] self.foods[k])
        &&& forall|i: int| 0 <= i < self.snakes.len() ==> (#[trigger] self.snakes[i]).body.len() >= 1
        &&& forall|i1: int, i2: int|
            0 <= i1 < self.snakes.len() && 0 <= i2 < self.snakes.len() && i1 != i2 ==> (
            #[trigger] self.snakes[i1]).player_id != (#[trigger] self.snakes[i2]).player_id
        &&& crate::world::ids_distinct(self.players)
    }
}

impl GameView {
    /// The snapshot of the game.
    pub open spec fn snapshot(self) -> StateView {
        StateView {
            state_order: self.order,
            snakes: self.snakes,
            foods: self.food,
            players: self.players,
        }
    }

    /// The game after a snapshot has been drawn: the snakes and the food are
    /// those of the snapshot, each position folded onto the board, the
    /// players are those of the snapshot, and the grid shows the lists.
    pub open spec fn applied(self, s: StateView) -> GameView {
        GameView {
            world: render(
                folded_bodies(bodies_of(s.snakes), self.config.width as int, self.config.height as int),
                folded(s.foods, self.config.width as int, self.config.height as int),
                self.config.width as int,
                self.config.height as int,
            ),
            food: folded(s.foods, self.config.width as int, self.config.height as int),
            snakes: folded_snakes(s.snakes, self.config.width as int, self.config.height as int),
            config: self.config,
            players: s.players,
            order: self.order,
        }
    }
}

/// Drawing a snapshot twice leaves the game as drawing it once does.
pub proof fn lemma_apply_state_idempotent(g: GameView, s: StateView)
    ensures
        g.applied(s).applied(s) == g.applied(s),
{
}

/// A game that has drawn a snapshot shows its lists, and every position
/// that it keeps lies on the board. A snapshot whose positions lie on the
/// board is kept as it is, and a proper one makes the game well formed.
pub proof fn lemma_applied_consistent(g: GameView, s: StateView)
    requires
        g.config.valid(),
    ensures
        g.applied(s).consistent(),
        bodies_within(g.applied(s).bodies(), g.config.width as int, g.config.height as int),
        food_within(g.applied(s).food, g.config.width as int, g.config.height as int),
        s.within(g.config.width as int, g.config.height as int) ==> g.applied(s).snakes
            == s.snakes && g.applied(s).food == s.foods,
        s.proper(g.config.width as int, g.config.height as int) ==> g.applied(s).wf(),
{
    let w = g.config.width as int;
    let h = g.config.height as int;
    let b = bodies_of(s.snakes);
    let fb = folded_bodies(b, w, h);
    let m = g.applied(s);
    assert(m.bodies() =~= fb) by {
        assert forall|i: int| 0 <= i < fb.len() implies m.bodies()[i] == fb[i] by {
            assert(m.snakes[i].body == folded(s.snakes[i].body, w, h));
        }
    }
    lemma_shows_is_render(m.world, m.bodies(), m.food, w, h);
    lemma_folded_within(s.foods, w, h);
    assert forall|i: int, j: int| 0 <= i < fb.len() && 0 <= j < fb[i].len() implies (
    #[trigger] fb[i][j]).within(w, h) by {
        lemma_folded_within(b[i], w, h);
        assert(folded(b[i], w, h)[j].within(w, h));
    }
    if s.within(w, h) {
        assert forall|i: int| 0 <= i < b.len() implies #[trigger] fb[i] == b[i] by {
            assert forall|j: int| 0 <= j < b[i].len() implies fb[i][j] == b[i][j] by {
                lemma_fold_within(b[i][j], w, h);
            }
            assert(fb[i] =~= b[i]);
        }
        assert(fb =~= b);
        assert forall|k: int| 0 <= k < s.foods.len() implies folded(s.foods, w, h)[k] == s.foods[k] by {
            lemma_fold_within(s.foods[k], w, h);
        }
        assert(folded(s.foods, w, h) =~= s.foods);
        assert(m.snakes =~= s.snakes) by {
            assert forall|i: int| 0 <= i < s.snakes.len() implies m.snakes[i] == s.snakes[i] by {
                assert(fb[i] == b[i]);
            }
        }
    }
}

/// A follower that draws the snapshot of a well-formed game of the same
/// dimensions has the same board, and is well formed too.
pub proof fn lemma_snapshot_applied(master: GameView, follower: GameView)
    requires
        master.wf(),
        follower.config == master.config,
    ensures
        follower.applied(master.snapshot()).wf(),
        follower.applied(master.snapshot()).world == master.world,
        follower.applied(master.snapshot()).snakes == master.snakes,
        follower.applied(master.snapshot()).food == master.food,
        follower.applied(master.snapshot()).players == master.players,
{
    let s = master.snapshot();
    let w = master.config.width as int;
    let h = master.config.height as int;
    lemma_applied_consistent(follower, s);
    let m = follower.applied(s);
    lemma_shows_is_render(m.world, m.bodies(), m.food, w, h);
    lemma_shows_is_render(master.world, master.bodies(), master.food, w, h);
}

impl Game {
    /// The snapshot of the game: its tick count and copies of its lists.
    pub fn get_state(&self) -> (state: GameState)
        ensures
            state@ == self@.snapshot(),
    {
        GameState {
            state_order: self.order,
            snakes: copy_snakes(&self.snakes),
            foods: copy_coords(&self.food),
            players: copy_players(&self.players),
        }
    }

    /// Draws a snapshot: the snakes, the food and the players become those
    /// of the snapshot, each position folded onto the board, and the grid
    /// is drawn anew from them. `_seq` is the sequence number under which the
    /// snapshot came; it plays no part in the drawing.
    pub fn apply_state(&mut self, state: GameState, _seq: i64)
        requires
            old(self).config.valid(),
        ensures
            final(self)@ == old(self)@.applied(state@),
            final(self)@.consistent(),
            bodies_within(
                final(self)@.bodies(),
                old(self).config.width as int,
                old(self).config.height as int,
            ),
            food_within(
                final(self)@.food,
                old(self).config.width as int,
                old(self).config.height as int,
            ),
            state@.proper(old(self).config.width as int, old(self).config.height as int)
                ==> final(self).wf(),
    {
        let w: i32 = self.config.width;
        let h: i32 = self.config.height;
        let ghost v = self@;
        let ghost fb = folded_bodies(bodies_of(state@.snakes), w as int, h as int);
        let ghost ff = folded(state.foods@, w as int, h as int);
        let mut world: Vec<Vec<WorldCell>> = blank_grid(w, h);
        let mut i: usize = 0;
        proof {
            assert(fb.subrange(0, 0).len() == 0);
        }
        while i < state.snakes.len()
            invariant
                i <= state.snakes.len(),
                w >= 1,
                h >= 1,
                fb == folded_bodies(bodies_of(state@.snakes), w as int, h as int),
                world.len() == h,
                forall|y: int| 0 <= y < h ==> (#[trigger] world[y]).len() == w,
                forall|x: int, y: int|
                    0 <= x < w && 0 <= y < h ==> #[trigger] world[y][x] == (if on_body(
                        fb.subrange(0, i as int),
                        Coord { x: x as i32, y: y as i32 },
                    ) {
                        WorldCell::Snake
                    } else {
                        WorldCell::Empty
                    }),
            decreases state.snakes.len() - i,
        {
            let body = &state.snakes[i].body;
            let mut j: usize = 0;
            proof {
                assert(state@.snakes[i as int].body == body@);
                assert(fb[i as int] == folded(body@, w as int, h as int));
                assert(fb[i as int].subrange(0, 0).len() == 0);
            }
            while j < body.len()
                invariant
                    j <= body.len(),
                    i < state.snakes.len(),
                    w >= 1,
                    h >= 1,
                    fb[i as int] == folded(body@, w as int, h as int),
                    world.len() == h,
                    forall|y: int| 0 <= y < h ==> (#[trigger] world[y]).len() == w,
                    forall|x: int, y: int|
                        0 <= x < w && 0 <= y < h ==> #[trigger] world[y][x] == (if on_body(
                            fb.subrange(0, i as int),
                            Coord { x: x as i32, y: y as i32 },
                        ) || fb[i as int].subrange(0, j as int).contains(
                            Coord { x: x as i32, y: y as i32 },
                        ) {
                            WorldCell::Snake
                        } else {
                            WorldCell::Empty
                        }),
                decreases body.len() - j,
            {
                let c: Coord = fold_coord(body[j], w, h);
                proof {
                    assert(fb[i as int][j as int] == c);
                    lemma_prefix_contains(fb[i as int], j as int);
                }
                world[c.y as usize][c.x as usize] = WorldCell::Snake;
                j += 1;
            }
            proof {
                assert(fb[i as int].subrange(0, j as int) =~= fb[i as int]);
                lemma_cover_prefix(fb, i as int);
            }
            i += 1;
        }
        proof {
            assert(fb.subrange(0, i as int) =~= fb);
            assert(ff.subrange(0, 0).len() == 0);
        }
        let mut k: usize = 0;
        while k < state.foods.len()
            invariant
                k <= state.foods.len(),
                w >= 1,
                h >= 1,
                ff == folded(state.foods@, w as int, h as int),
                world.len() == h,
                forall|y: int| 0 <= y < h ==> (#[trigger] world[y]).len() == w,
                forall|x: int, y: int|
                    0 <= x < w && 0 <= y < h ==> #[trigger] world[y][x] == cell_for(
                        fb,
                        ff.subrange(0, k as int),
                        Coord { x: x as i32, y: y as i32 },
                    ),
            decreases state.foods.len() - k,
        {
            let c: Coord = fold_coord(state.foods[k], w, h);
            proof {
                assert(ff[k as int] == c);
                lemma_prefix_contains(ff, k as int);
            }
            world[c.y as usize][c.x as usize] = WorldCell::Food;
            k += 1;
        }
        proof {
            assert(ff.subrange(0, k as int) =~= ff);
            crate::world::lemma_shows_grid(world@, fb, ff, w as int, h as int);
        }
        self.world = world;
        self.snakes = fold_snakes(&state.snakes, w, h);
        self.food = fold_coords(&state.foods, w, h);
        self.players = state.players;
        proof {
            lemma_applied_consistent(v, state@);
        }
    }
}

} // verus!
