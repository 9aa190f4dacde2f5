//! The tick of the master: every snake takes one step, then the food is
//! brought back up to the configured count.

use vstd::prelude::*;
use crate::base::{PlayerView, SnakeState, SnakeView};
use crate::random::coin_flip;
use crate::bodies::body_moved;
use crate::tick::{ahead_of, without, StepOutcome};
use crate::base::WorldCell;
use crate::world::{Game, GameView};
use crate::base::Coord;

verus! {

/// Some snake of the list belongs to the player `id`.
pub open spec fn has_snake(snakes: Seq<SnakeView>, id: i32) -> bool {
    exists|i: int| 0 <= i < snakes.len() && (#[trigger] snakes[i]).player_id == id
}

/// Some living snake of the list belongs to the player `id`.
pub open spec fn owns_living(snakes: Seq<SnakeView>, id: i32) -> bool {
    exists|i: int|
        0 <= i < snakes.len() && (#[trigger] snakes[i]).player_id == id && snakes[i].state
            == SnakeState::ALIVE
}

/// The snake `s` is the snake `before` one step later: same owner, state
/// and direction, and the body has moved or grown onto the cell ahead.
pub open spec fn one_step_on(s: SnakeView, before: SnakeView, w: int, h: int) -> bool {
    let ahead = ahead_of(before.body.last(), before.direction, w, h);
    &&& before.player_id == s.player_id
    &&& before.state == s.state
    &&& before.direction == s.direction
    &&& (s.body == body_moved(before.body, ahead) || s.body == before.body.push(ahead))
}

/// The snake `s` stems from a snake of the list by one step on a board of
/// the given dimensions.
pub open spec fn stems_from(s: SnakeView, snakes: Seq<SnakeView>, w: int, h: int) -> bool {
    exists|q: int| 0 <= q < snakes.len() && one_step_on(s, #[trigger] snakes[q], w, h)
}

/// The players are those of `before`, with scores that have not fallen.
pub open spec fn scores_grown(before: Seq<PlayerView>, after: Seq<PlayerView>) -> bool {
    &&& after.len() == before.len()
    &&& forall|p: int|
        0 <= p < before.len() ==> (#[trigger] after[p]) == (PlayerView {
            score: after[p].score,
            ..before[p]
        }) && after[p].score >= before[p].score
}

/// The tick counter after one more tick, held at the largest value.
pub open spec fn next_order(order: i32) -> i32 {
    if order == i32::MAX {
        i32::MAX
    } else {
        (order + 1) as i32
    }
}

/// How far a sweep over the snakes has come: the game so far, the index
/// of the snake that steps next, and the owners of the living snakes that
/// have died.
pub struct Sweep {
    pub game: GameView,
    pub at: int,
    pub dead: Seq<i32>,
}

/// The sweep after the snake that is next has taken its step. A snake that
/// dies leaves the list, so the index stays; the owner of a living snake
/// that dies is noted.
pub open spec fn sweep_step(s: Sweep, coins: Seq<bool>) -> Sweep {
    if 0 <= s.at < s.game.snakes.len() {
        let snake = s.game.snakes[s.at];
        if s.game.outcome(s.at) == StepOutcome::Died {
            Sweep {
                game: s.game.stepped(s.at, coins),
                at: s.at,
                dead: if snake.state == SnakeState::ALIVE {
                    s.dead.push(snake.player_id)
                } else {
                    s.dead
                },
            }
        } else {
            Sweep { game: s.game.stepped(s.at, coins), at: s.at + 1, dead: s.dead }
        }
    } else {
        s
    }
}

/// The sweep over a game after `n` snakes have taken their steps in the
/// order of the list. `coins[k]` are the coins of the `k`-th of them.
pub open spec fn swept(game: GameView, coins: Seq<Seq<bool>>, n: nat) -> Sweep
    decreases n,
{
    if n == 0 {
        Sweep { game, at: 0, dead: Seq::empty() }
    } else {
        sweep_step(swept(game, coins, (n - 1) as nat), coins[n - 1])
    }
}

/// A sweep of `n` steps depends on the coins of those steps alone.
pub proof fn lemma_swept_prefix(game: GameView, c1: Seq<Seq<bool>>, c2: Seq<Seq<bool>>, n: nat)
    requires
        forall|k: int| 0 <= k < n ==> c1[k] == c2[k],
    ensures
        swept(game, c1, n) == swept(game, c2, n),
    decreases n,
{
    if n > 0 {
        lemma_swept_prefix(game, c1, c2, (n - 1) as nat);
    }
}

impl GameView {
    /// `after` is this game one tick later, with the given coins for the
    /// snakes that died, and `dead` the owners of the living ones among
    /// them: every snake has taken its step in the order of the list, then
    /// the food has been brought up to the target, and the tick is counted.
    pub open spec fn ticked_with(self, coins: Seq<Seq<bool>>, after: GameView, dead: Seq<i32>) -> bool {
        let mid = swept(self, coins, self.snakes.len());
        &&& dead == mid.dead
        &&& mid.game.refilled_to(GameView { order: self.order, ..after })
        &&& after.order == next_order(self.order)
    }

    /// `after` is this game one tick later, and `dead` the owners of the
    /// living snakes that died in the tick.
    ///
    /// The snakes and the players are fixed by [`GameView::ticked_with`] for
    /// some coins; so is the food but for the cells that the refill drew.
    /// Whatever was drawn: the game stays well formed; food that was not over
    /// the target is not over it afterwards, and is at the target if that
    /// many cells were free; `dead` names exactly the owners of living
    /// snakes that are gone, each once; every snake that is left is an old
    /// one a step on; and no score has fallen.
    pub open spec fn ticked(self, after: GameView, dead: Seq<i32>) -> bool {
        &&& after.wf()
        &&& exists|coins: Seq<Seq<bool>>| #[trigger] self.ticked_with(coins, after, dead)
        &&& after.config == self.config
        &&& after.order == next_order(self.order)
        &&& self.food.len() <= self.config.food_static ==> after.food.len()
            <= self.config.food_static
        &&& self.food.len() <= self.config.food_static && self.free().len()
            >= self.config.food_static ==> after.food.len() == self.config.food_static
        &&& forall|i: int|
            0 <= i < after.snakes.len() ==> stems_from(
                #[trigger] after.snakes[i],
                self.snakes,
                self.config.width as int,
                self.config.height as int,
            )
        &&& forall|id: i32|
            dead.contains(id) <==> (owns_living(self.snakes, id) && !has_snake(after.snakes, id))
        &&& dead.no_duplicates()
        &&& scores_grown(self.players, after.players)
    }
}

/// Removing a position from a food list does not lengthen it.
pub proof fn lemma_without_len(food: Seq<Coord>, c: Coord)
    ensures
        without(food, c).len() <= food.len(),
    decreases food.len(),
{
    if food.len() > 0 {
        lemma_without_len(food.drop_last(), c);
    }
}

/// One fair coin for each of `n` cells.
pub fn flip_coins(n: usize) -> (coins: Vec<bool>)
    ensures
        coins.len() == n,
{
    let mut coins: Vec<bool> = Vec::new();
    let mut j: usize = 0;
    while j < n
        invariant
            j <= n,
            coins.len() == j,
        decreases n - j,
    {
        coins.push(coin_flip(1, 2));
        j += 1;
    }
    coins
}

impl Game {
    /// Advances the game by one tick and returns the owners of the living
    /// snakes that died in it.
    ///
    /// Every snake takes one step, in the order of the list; where a snake
    /// dies, a fair coin decides for each cell of its body whether it turns
    /// into food, as long as the board lacks food to its target. Then the
    /// food is refilled on free cells drawn at random. See
    /// [`GameView::ticked`] for what the contract states.
    pub fn update(&mut self) -> (dead: Vec<i32>)
        requires
            old(self).wf(),
        ensures
            final(self).wf(),
            old(self)@.ticked(final(self)@, dead@),
    {
        let ghost start = self@;
        let mut dead: Vec<i32> = Vec::new();
        let mut i: usize = 0;
        let ghost mut done: int = 0;
        let ghost mut drawn: Seq<Seq<bool>> = Seq::empty();
        proof {
            assert(dead@ =~= Seq::<i32>::empty());
        }
        while i < self.snakes.len()
            invariant
                self.wf(),
                start.wf(),
                start == old(self)@,
                self.config == start.config,
                self.order == start.order,
                0 <= i <= self.snakes.len(),
                i <= done <= start.snakes.len(),
                done - i == start.snakes.len() - self.snakes.len(),
                forall|t: int|
                    0 <= t < self.snakes.len() - i ==> #[trigger] self@.snakes[i + t]
                        == start.snakes[done + t],
                forall|p: int|
                    0 <= p < i ==> stems_from(
                        #[trigger] self@.snakes[p],
                        start.snakes,
                        start.config.width as int,
                        start.config.height as int,
                    ),
                forall|k: int|
                    0 <= k < dead.len() ==> owns_living(start.snakes, #[trigger] dead@[k])
                        && !has_snake(self@.snakes, dead@[k]),
                forall|q: int|
                    0 <= q < done ==> has_snake(self@.snakes, (#[trigger] start.snakes[q]).player_id)
                        || start.snakes[q].state == SnakeState::ZOMBIE || dead@.contains(
                        start.snakes[q].player_id,
                    ),
                dead@.no_duplicates(),
                scores_grown(start.players, self@.players),
                drawn.len() == done,
                swept(start, drawn, done as nat) == (Sweep {
                    game: self@,
                    at: i as int,
                    dead: dead@,
                }),
                start.food.len() <= start.config.food_static ==> self.food@.len()
                    <= start.config.food_static,
                self@.free().len() >= start.free().len(),
            decreases self.snakes.len() - i,
        {
            let ghost prev = self@;
            let ghost at_before = i as int;
            let ghost dead_then = dead@;
            proof {
                assert(prev.snakes[i as int] == self.snakes[i as int]@);
                assert(prev.snakes[i + 0] == start.snakes[done + 0]);
            }
            let id: i32 = self.snakes[i].player_id;
            let alive: bool = self.snakes[i].state == SnakeState::ALIVE;
            let dies: bool = self.cell_ahead(i) == WorldCell::Snake;
            let coins: Vec<bool> = if dies {
                flip_coins(self.snakes[i].body.len())
            } else {
                Vec::new()
            };
            let out: StepOutcome = self.step_snake(i, &coins);
            let ghost s = prev.snakes[i as int];
            proof {
                assert(self@ == prev.stepped(i as int, coins@));
                assert(start.snakes[done].player_id == id);
            }
            match out {
                StepOutcome::Died => {
                    proof {
                        assert(self@.snakes == prev.snakes.remove(i as int));
                        // no snake that is left belongs to the owner of the dead one
                        assert(!has_snake(self@.snakes, id)) by {
                            if has_snake(self@.snakes, id) {
                                let p = choose|p: int|
                                    0 <= p < self@.snakes.len() && (#[trigger] self@.snakes[p]).player_id
                                        == id;
                                let at0 = if p < i { p } else { p + 1 };
                                assert(self@.snakes[p] == prev.snakes[at0]);
                                assert(prev.snakes[at0].player_id == prev.snakes[i as int].player_id);
                            }
                        }
                        assert(has_snake(prev.snakes, id));
                        assert forall|idx: i32|
                            has_snake(self@.snakes, idx) implies has_snake(prev.snakes, idx) by {
                            let p = choose|p: int|
                                0 <= p < self@.snakes.len() && (#[trigger] self@.snakes[p]).player_id
                                    == idx;
                            let at0 = if p < i { p } else { p + 1 };
                            assert(self@.snakes[p] == prev.snakes[at0]);
                        }
                        assert forall|idx: i32|
                            has_snake(prev.snakes, idx) && idx != id implies has_snake(
                            self@.snakes,
                            idx,
                        ) by {
                            let at0 = choose|at0: int|
                                0 <= at0 < prev.snakes.len() && (#[trigger] prev.snakes[at0]).player_id
                                    == idx;
                            let p = if at0 < i { at0 } else { at0 - 1 };
                            assert(self@.snakes[p] == prev.snakes[at0]);
                        }
                        assert forall|t: int| 0 <= t < self.snakes.len() - i implies #[trigger] self@.snakes[i
                            + t] == start.snakes[done + 1 + t] by {
                            assert(self@.snakes[i + t] == prev.snakes[i + (t + 1)]);
                        }
                        assert forall|p: int| 0 <= p < i implies stems_from(
                            #[trigger] self@.snakes[p],
                            start.snakes,
                            start.config.width as int,
                            start.config.height as int,
                        ) by {
                            assert(self@.snakes[p] == prev.snakes[p]);
                        }
                        assert forall|q: int| 0 <= q < done implies start.snakes[q].player_id != id by {
                            assert(start.snakes[q].player_id != start.snakes[done].player_id);
                        }
                    }
                    let ghost dead_before = dead@;
                    if alive {
                        dead.push(id);
                        proof {
                            assert(!dead_before.contains(id));
                            assert(owns_living(start.snakes, id)) by {
                                assert(start.snakes[done].player_id == id && start.snakes[done].state
                                    == SnakeState::ALIVE);
                            }
                            assert forall|k: int| 0 <= k < dead.len() implies owns_living(
                                start.snakes,
                                #[trigger] dead@[k],
                            ) && !has_snake(self@.snakes, dead@[k]) by {
                                if k < dead_before.len() {
                                    assert(dead@[k] == dead_before[k]);
                                }
                            }
                            assert(dead@[dead_before.len() as int] == id);
                            assert forall|x: i32| dead_before.contains(x) implies dead@.contains(x) by {
                                let k = choose|k: int| 0 <= k < dead_before.len() && dead_before[k] == x;
                                assert(dead@[k] == x);
                            }
                        }
                    }
                    proof {
                        done = done + 1;
                        assert forall|q: int| 0 <= q < done implies has_snake(
                            self@.snakes,
                            (#[trigger] start.snakes[q]).player_id,
                        ) || start.snakes[q].state == SnakeState::ZOMBIE || dead@.contains(
                            start.snakes[q].player_id,
                        ) by {
                            if q < done - 1 {
                                if dead_before.contains(start.snakes[q].player_id) {
                                    if alive {
                                        assert(dead@.contains(start.snakes[q].player_id));
                                    }
                                }
                            } else {
                                if alive {
                                    assert(dead@.contains(id));
                                }
                            }
                        }
                    }
                },
                _ => {
                    proof {
                        let ns = self@.snakes[i as int];
                        assert(ns.player_id == s.player_id && ns.state == s.state && ns.direction
                            == s.direction);
                        assert forall|p: int| 0 <= p < self@.snakes.len() implies (
                        #[trigger] self@.snakes[p]).player_id == prev.snakes[p].player_id by {}
                        assert forall|idx: i32|
                            has_snake(self@.snakes, idx) <==> has_snake(prev.snakes, idx) by {
                            if has_snake(self@.snakes, idx) {
                                let p = choose|p: int|
                                    0 <= p < self@.snakes.len() && (#[trigger] self@.snakes[p]).player_id
                                        == idx;
                                assert(prev.snakes[p].player_id == idx);
                            }
                            if has_snake(prev.snakes, idx) {
                                let p = choose|p: int|
                                    0 <= p < prev.snakes.len() && (#[trigger] prev.snakes[p]).player_id
                                        == idx;
                                assert(self@.snakes[p].player_id == idx);
                            }
                        }
                        assert(stems_from(
                            self@.snakes[i as int],
                            start.snakes,
                            start.config.width as int,
                            start.config.height as int,
                        )) by {
                            assert(one_step_on(
                                ns,
                                start.snakes[done],
                                start.config.width as int,
                                start.config.height as int,
                            ));
                        }
                        assert forall|p: int| 0 <= p < i + 1 implies stems_from(
                            #[trigger] self@.snakes[p],
                            start.snakes,
                            start.config.width as int,
                            start.config.height as int,
                        ) by {
                            if p < i {
                                assert(self@.snakes[p] == prev.snakes[p]);
                            }
                        }
                        assert forall|t: int| 0 <= t < self.snakes.len() - (i + 1) implies #[trigger] self@.snakes[i
                            + 1 + t] == start.snakes[done + 1 + t] by {
                            assert(self@.snakes[i + 1 + t] == prev.snakes[i + (t + 1)]);
                        }
                        assert(has_snake(self@.snakes, id)) by {
                            assert(self@.snakes[i as int].player_id == id);
                        }
                        assert(scores_grown(prev.players, self@.players));
                        done = done + 1;
                    }
                    i += 1;
                },
            }
            proof {
                let more = drawn.push(coins@);
                lemma_swept_prefix(start, drawn, more, (done - 1) as nat);
                let before = swept(start, more, (done - 1) as nat);
                assert(before == (Sweep { game: prev, at: at_before, dead: dead_then }));
                assert(more[done - 1] == coins@);
                assert(swept(start, more, done as nat) == sweep_step(before, coins@));
                drawn = more;
            }
        }
        let ghost mid = self@;
        self.refill_food();
        self.order = if self.order == i32::MAX { i32::MAX } else { self.order + 1 };
        proof {
            assert(done == start.snakes.len());
            assert(swept(start, drawn, start.snakes.len()).game == mid);
            assert((GameView { order: start.order, ..self@ }).free() == self@.free());
            assert(start.ticked_with(drawn, self@, dead@));
            assert forall|id: i32|
                dead@.contains(id) <==> (owns_living(start.snakes, id) && !has_snake(
                    self@.snakes,
                    id,
                )) by {
                if dead@.contains(id) {
                    let k = choose|k: int| 0 <= k < dead@.len() && dead@[k] == id;
                    assert(owns_living(start.snakes, dead@[k]));
                }
                if owns_living(start.snakes, id) && !has_snake(self@.snakes, id) {
                    let q = choose|q: int|
                        0 <= q < start.snakes.len() && (#[trigger] start.snakes[q]).player_id == id
                            && start.snakes[q].state == SnakeState::ALIVE;
                    assert(has_snake(self@.snakes, start.snakes[q].player_id) || start.snakes[q].state
                        == SnakeState::ZOMBIE || dead@.contains(start.snakes[q].player_id));
                }
            }
        }
        dead
    }

    /// Advances the game by one tick, as [`Game::update`] does, for a
    /// caller that has no use for the list of the dead.
    pub fn tick(&mut self)
        requires
            old(self).wf(),
        ensures
            final(self).wf(),
            exists|dead: Seq<i32>| #[trigger] old(self)@.ticked(final(self)@, dead),
    {
        let _dead = self.update();
    }
}

} // verus!
