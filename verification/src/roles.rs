//! What the master changes on the command of a player: where a snake
//! heads, whether it still has an owner, and the list of players.

use vstd::prelude::*;
use crate::base::player_views;
use crate::base::{Direction, GamePlayer, NodeRole, PlayerView, SnakeState, SnakeView};
use crate::world::{bodies_of, Game, GameView};

verus! {

/// The index of the first snake that belongs to the player `id`.
pub open spec fn snake_index(snakes: Seq<SnakeView>, id: i32) -> Option<int>
    decreases snakes.len(),
{
    if snakes.len() == 0 {
        None
    } else {
        match snake_index(snakes.drop_last(), id) {
            Some(i) => Some(i),
            None => if snakes.last().player_id == id {
                Some(snakes.len() - 1)
            } else {
                None
            },
        }
    }
}

/// The index of the first player with the id `id`.
pub open spec fn player_index(players: Seq<PlayerView>, id: i32) -> Option<int>
    decreases players.len(),
{
    if players.len() == 0 {
        None
    } else {
        match player_index(players.drop_last(), id) {
            Some(i) => Some(i),
            None => if players.last().id == id {
                Some(players.len() - 1)
            } else {
                None
            },
        }
    }
}

/// `snake_index` finds a snake of the player if there is one, and the first.
pub proof fn lemma_snake_index(snakes: Seq<SnakeView>, id: i32)
    ensures
        match snake_index(snakes, id) {
            Some(i) => 0 <= i < snakes.len() && snakes[i].player_id == id && forall|k: int|
                0 <= k < i ==> (#[trigger] snakes[k]).player_id != id,
            None => forall|k: int| 0 <= k < snakes.len() ==> (#[trigger] snakes[k]).player_id != id,
        },
    decreases snakes.len(),
{
    if snakes.len() > 0 {
        let init = snakes.drop_last();
        lemma_snake_index(init, id);
        match snake_index(init, id) {
            Some(i) => {
                assert(init[i] == snakes[i]);
                assert forall|k: int| 0 <= k < i implies (#[trigger] snakes[k]).player_id != id by {
                    assert(init[k] == snakes[k]);
                }
            },
            None => {
                assert forall|k: int| 0 <= k < snakes.len() - 1 implies (
                #[trigger] snakes[k]).player_id != id by {
                    assert(init[k] == snakes[k]);
                }
            },
        }
    }
}

/// `player_index` finds a player with the id if there is one, and the first.
pub proof fn lemma_player_index(players: Seq<PlayerView>, id: i32)
    ensures
        match player_index(players, id) {
            Some(i) => 0 <= i < players.len() && players[i].id == id && forall|k: int|
                0 <= k < i ==> (#[trigger] players[k]).id != id,
            None => forall|k: int| 0 <= k < players.len() ==> (#[trigger] players[k]).id != id,
        },
    decreases players.len(),
{
    if players.len() > 0 {
        let init = players.drop_last();
        lemma_player_index(init, id);
        match player_index(init, id) {
            Some(i) => {
                assert(init[i] == players[i]);
                assert forall|k: int| 0 <= k < i implies (#[trigger] players[k]).id != id by {
                    assert(init[k] == players[k]);
                }
            },
            None => {
                assert forall|k: int| 0 <= k < players.len() - 1 implies (#[trigger] players[k]).id
                    != id by {
                    assert(init[k] == players[k]);
                }
            },
        }
    }
}

impl GameView {
    /// The game with other snakes in place of its own.
    pub open spec fn with_snakes(self, snakes: Seq<SnakeView>) -> GameView {
        GameView { snakes, ..self }
    }

    /// The game with other players in place of its own.
    pub open spec fn with_players(self, players: Seq<PlayerView>) -> GameView {
        GameView { players, ..self }
    }

    /// A steering command of the player `id` takes effect: the player is not
    /// a viewer, has a snake, and does not ask it to turn right round.
    pub open spec fn may_steer(self, id: i32, d: Direction) -> bool {
        match (player_index(self.players, id), snake_index(self.snakes, id)) {
            (Some(p), Some(s)) => self.players[p].role != NodeRole::VIEWER && d
                != self.snakes[s].direction.reversed(),
            _ => false,
        }
    }

    /// The game after a steering command of the player `id`.
    pub open spec fn steered(self, id: i32, d: Direction) -> GameView {
        if self.may_steer(id, d) {
            let s = snake_index(self.snakes, id)->0;
            self.with_snakes(self.snakes.update(s, SnakeView { direction: d, ..self.snakes[s] }))
        } else {
            self
        }
    }

    /// The game with the snake of the player `id`, if it has one, in the given state.
    pub open spec fn with_snake_state(self, id: i32, state: SnakeState) -> GameView {
        match snake_index(self.snakes, id) {
            Some(s) => self.with_snakes(self.snakes.update(s, SnakeView { state, ..self.snakes[s] })),
            None => self,
        }
    }

    /// The game with the player `id`, if there is one, in the given role.
    pub open spec fn with_role(self, id: i32, role: NodeRole) -> GameView {
        match player_index(self.players, id) {
            Some(p) => self.with_players(
                self.players.update(p, PlayerView { role, ..self.players[p] }),
            ),
            None => self,
        }
    }

    /// The game without the players that have the id `id`.
    pub open spec fn without_player(self, id: i32) -> GameView {
        self.with_players(players_without(self.players, id))
    }

    /// The game with the player `p` entered under its id: it comes last in
    /// the list, and a player that had the id before is gone.
    pub open spec fn with_player(self, p: PlayerView) -> GameView {
        self.with_players(players_without(self.players, p.id).push(p))
    }
}

/// What `players_without` keeps: no player with the id, distinct ids if
/// they were distinct, and everything if no player had the id.
pub proof fn lemma_players_without(players: Seq<PlayerView>, id: i32)
    ensures
        forall|k: int|
            0 <= k < players_without(players, id).len() ==> (#[trigger] players_without(
                players,
                id,
            )[k]).id != id && players.contains(players_without(players, id)[k]),
        crate::world::ids_distinct(players) ==> crate::world::ids_distinct(
            players_without(players, id),
        ),
        player_index(players, id) is None ==> players_without(players, id) == players,
        players_without(players, id).len() <= players.len(),
    decreases players.len(),
{
    let out = players_without(players, id);
    if players.len() > 0 {
        let init = players.drop_last();
        let last = players.last();
        let rest = players_without(init, id);
        lemma_players_without(init, id);
        lemma_player_index(players, id);
        lemma_player_index(init, id);
        assert(players[players.len() - 1] == last);
        assert forall|k: int| 0 <= k < out.len() implies (#[trigger] out[k]).id != id
            && players.contains(out[k]) by {
            if k < rest.len() {
                assert(out[k] == rest[k]);
                let j = choose|j: int| 0 <= j < init.len() && init[j] == rest[k];
                assert(players[j] == out[k]);
            }
        }
        if crate::world::ids_distinct(players) {
            assert(crate::world::ids_distinct(init)) by {
                assert forall|i1: int, i2: int|
                    0 <= i1 < init.len() && 0 <= i2 < init.len() && i1 != i2 implies (
                #[trigger] init[i1]).id != (#[trigger] init[i2]).id by {
                    assert(init[i1] == players[i1] && init[i2] == players[i2]);
                }
            }
            assert forall|i1: int, i2: int|
                0 <= i1 < out.len() && 0 <= i2 < out.len() && i1 != i2 implies (#[trigger] out[i1]).id
                != (#[trigger] out[i2]).id by {
                if i1 < rest.len() && i2 < rest.len() {
                    assert(out[i1] == rest[i1] && out[i2] == rest[i2]);
                } else {
                    let low = if i1 < rest.len() { i1 } else { i2 };
                    assert(out[low] == rest[low]);
                    let j = choose|j: int| 0 <= j < init.len() && init[j] == rest[low];
                    assert(players[j] == rest[low]);
                    assert(players[j].id != players[players.len() - 1].id);
                }
            }
        }
        if player_index(players, id) is None {
            assert(rest == init);
            assert(out =~= players);
        }
    }
}

/// A player entered under its id keeps the ids distinct.
pub proof fn lemma_with_player(v: GameView, p: PlayerView)
    ensures
        v.wf() ==> v.with_player(p).wf(),
        v.consistent() ==> v.with_player(p).consistent(),
        crate::world::ids_distinct(v.players) ==> crate::world::ids_distinct(
            v.with_player(p).players,
        ),
        player_index(v.players, p.id) is None ==> v.with_player(p).players == v.players.push(p),
{
    lemma_players_without(v.players, p.id);
    let rest = players_without(v.players, p.id);
    let out = rest.push(p);
    assert(v.with_player(p).bodies() == v.bodies());
    if crate::world::ids_distinct(v.players) {
        assert forall|i1: int, i2: int|
            0 <= i1 < out.len() && 0 <= i2 < out.len() && i1 != i2 implies (#[trigger] out[i1]).id
            != (#[trigger] out[i2]).id by {
            if i1 < rest.len() {
                assert(out[i1] == rest[i1]);
            }
            if i2 < rest.len() {
                assert(out[i2] == rest[i2]);
            }
        }
    }
}

/// The players without those that have the id `id`.
pub open spec fn players_without(players: Seq<PlayerView>, id: i32) -> Seq<PlayerView>
    decreases players.len(),
{
    if players.len() == 0 {
        Seq::empty()
    } else {
        let rest = players_without(players.drop_last(), id);
        if players.last().id == id {
            rest
        } else {
            rest.push(players.last())
        }
    }
}

/// Snakes that keep their bodies and owners keep the game well formed.
pub proof fn lemma_restyled(v: GameView, snakes: Seq<SnakeView>)
    requires
        snakes.len() == v.snakes.len(),
        forall|i: int|
            0 <= i < snakes.len() ==> (#[trigger] snakes[i]).body == v.snakes[i].body
                && snakes[i].player_id == v.snakes[i].player_id,
    ensures
        v.consistent() ==> v.with_snakes(snakes).consistent(),
        v.wf() ==> v.with_snakes(snakes).wf(),
{
    let m = v.with_snakes(snakes);
    assert(m.bodies() =~= v.bodies()) by {
        assert forall|i: int| 0 <= i < snakes.len() implies bodies_of(snakes)[i] == bodies_of(
            v.snakes,
        )[i] by {
            assert(snakes[i].body == v.snakes[i].body);
        }
    }
    if v.wf() {
        assert forall|i: int| 0 <= i < m.snakes.len() implies (#[trigger] m.snakes[i]).body.len()
            >= 1 by {
            assert(m.snakes[i].body == v.snakes[i].body);
        }
        assert forall|i1: int, i2: int|
            0 <= i1 < m.snakes.len() && 0 <= i2 < m.snakes.len() && i1 != i2 implies (
        #[trigger] m.snakes[i1]).player_id != (#[trigger] m.snakes[i2]).player_id by {
            assert(m.snakes[i1].player_id == v.snakes[i1].player_id);
            assert(m.snakes[i2].player_id == v.snakes[i2].player_id);
        }
    }
}

/// A change of a player's role keeps the game well formed.
pub proof fn lemma_with_role(v: GameView, id: i32, role: NodeRole)
    ensures
        v.wf() ==> v.with_role(id, role).wf(),
        v.consistent() ==> v.with_role(id, role).consistent(),
        v.with_role(id, role).players.len() == v.players.len(),
        crate::world::ids_distinct(v.players) ==> crate::world::ids_distinct(
            v.with_role(id, role).players,
        ),
{
    lemma_player_index(v.players, id);
    let m = v.with_role(id, role);
    assert(m.bodies() == v.bodies());
    if crate::world::ids_distinct(v.players) {
        crate::world::lemma_same_ids(v.players, m.players);
    }
}

/// A steering command never turns a snake right round, and moves no cell.
pub proof fn lemma_steered(v: GameView, id: i32, d: Direction)
    ensures
        v.steered(id, d).snakes.len() == v.snakes.len(),
        forall|i: int|
            0 <= i < v.snakes.len() ==> (#[trigger] v.steered(id, d).snakes[i]).direction
                != v.snakes[i].direction.reversed() && v.steered(id, d).snakes[i].body
                == v.snakes[i].body && v.steered(id, d).snakes[i].player_id
                == v.snakes[i].player_id,
        v.consistent() ==> v.steered(id, d).consistent(),
        v.wf() ==> v.steered(id, d).wf(),
{
    lemma_snake_index(v.snakes, id);
    let m = v.steered(id, d);
    assert forall|i: int| 0 <= i < v.snakes.len() implies (#[trigger] m.snakes[i]).direction
        != v.snakes[i].direction.reversed() && m.snakes[i].body == v.snakes[i].body
        && m.snakes[i].player_id == v.snakes[i].player_id by {}
    lemma_restyled(v, m.snakes);
}

/// A change of a snake's state moves no cell.
pub proof fn lemma_with_snake_state(v: GameView, id: i32, state: SnakeState)
    ensures
        v.consistent() ==> v.with_snake_state(id, state).consistent(),
        v.wf() ==> v.with_snake_state(id, state).wf(),
{
    lemma_snake_index(v.snakes, id);
    let m = v.with_snake_state(id, state);
    assert forall|i: int| 0 <= i < v.snakes.len() implies (#[trigger] m.snakes[i]).body
        == v.snakes[i].body && m.snakes[i].player_id == v.snakes[i].player_id by {}
    lemma_restyled(v, m.snakes);
}

impl Game {
    /// The index of the first snake that belongs to the player `id`.
    pub fn find_snake(&self, id: i32) -> (r: Option<usize>)
        ensures
            r is Some <==> snake_index(self@.snakes, id) is Some,
            r is Some ==> r->0 as int == snake_index(self@.snakes, id)->0 && r->0
                < self.snakes.len(),
    {
        let mut i: usize = 0;
        while i < self.snakes.len()
            invariant
                i <= self.snakes.len(),
                snake_index(self@.snakes.subrange(0, i as int), id) is None,
            decreases self.snakes.len() - i,
        {
            proof {
                assert(self@.snakes.subrange(0, i + 1).drop_last() =~= self@.snakes.subrange(
                    0,
                    i as int,
                ));
                assert(self@.snakes.subrange(0, i + 1).last() == self.snakes[i as int]@);
            }
            if self.snakes[i].player_id == id {
                proof {
                    assert(snake_index(self@.snakes.subrange(0, i + 1), id) == Some(i as int));
                    lemma_index_prefix_snake(self@.snakes, i + 1, id);
                }
                return Some(i);
            }
            i += 1;
        }
        proof {
            assert(self@.snakes.subrange(0, i as int) =~= self@.snakes);
        }
        None
    }

    /// The index of the first player with the id `id`.
    pub fn find_player(&self, id: i32) -> (r: Option<usize>)
        ensures
            r is Some <==> player_index(self@.players, id) is Some,
            r is Some ==> r->0 as int == player_index(self@.players, id)->0 && r->0
                < self.players.len(),
    {
        let mut i: usize = 0;
        while i < self.players.len()
            invariant
                i <= self.players.len(),
                player_index(self@.players.subrange(0, i as int), id) is None,
            decreases self.players.len() - i,
        {
            proof {
                assert(self@.players.subrange(0, i + 1).drop_last() =~= self@.players.subrange(
                    0,
                    i as int,
                ));
                assert(self@.players.subrange(0, i + 1).last() == self.players[i as int]@);
            }
            if self.players[i].id == id {
                proof {
                    assert(player_index(self@.players.subrange(0, i + 1), id) == Some(i as int));
                    lemma_index_prefix_player(self@.players, i + 1, id);
                }
                return Some(i);
            }
            i += 1;
        }
        proof {
            assert(self@.players.subrange(0, i as int) =~= self@.players);
        }
        None
    }

    /// Heads the snake of the player `id` in the direction `d`, unless the
    /// player is a viewer or has no snake, or the snake would turn right
    /// round. Says whether the snake was steered.
    pub fn steer(&mut self, id: i32, d: Direction) -> (steered: bool)
        ensures
            steered == old(self)@.may_steer(id, d),
            final(self)@ == old(self)@.steered(id, d),
            old(self).wf() ==> final(self).wf(),
    {
        proof {
            lemma_steered(self@, id, d);
        }
        match (self.find_player(id), self.find_snake(id)) {
            (Some(p), Some(s)) => {
                if self.players[p].role != NodeRole::VIEWER && d != self.snakes[s].direction.opposite() {
                    self.snakes[s].direction = d;
                    proof {
                        assert(self@.snakes =~= old(self)@.steered(id, d).snakes);
                    }
                    true
                } else {
                    false
                }
            },
            _ => false,
        }
    }

    /// Puts the snake of the player `id`, if it has one, into the given state.
    pub fn set_snake_state(&mut self, id: i32, state: SnakeState)
        ensures
            final(self)@ == old(self)@.with_snake_state(id, state),
            old(self).wf() ==> final(self).wf(),
    {
        proof {
            lemma_with_snake_state(self@, id, state);
        }
        match self.find_snake(id) {
            Some(s) => {
                self.snakes[s].state = state;
                proof {
                    assert(self@.snakes =~= old(self)@.with_snake_state(id, state).snakes);
                }
            },
            None => {},
        }
    }

    /// Gives the player `id`, if there is one, the given role.
    pub fn set_role(&mut self, id: i32, role: NodeRole)
        ensures
            final(self)@ == old(self)@.with_role(id, role),
            old(self).wf() ==> final(self).wf(),
    {
        proof {
            lemma_with_role(self@, id, role);
        }
        match self.find_player(id) {
            Some(p) => {
                self.players[p].role = role;
                proof {
                    assert(self@.players =~= old(self)@.with_role(id, role).players);
                }
            },
            None => {},
        }
    }

    /// Enters a player under its id: it comes last in the list of players,
    /// and a player that had the id before is gone.
    pub fn add_player(&mut self, player: GamePlayer)
        ensures
            final(self)@ == old(self)@.with_player(player@),
            old(self).wf() ==> final(self).wf(),
    {
        proof {
            lemma_with_player(self@, player@);
        }
        self.remove_player(player.id);
        let ghost rest = self@.players;
        self.players.push(player);
        proof {
            assert(self@.players =~= rest.push(player@));
        }
    }

    /// Takes the players with the id `id` off the list of players.
    pub fn remove_player(&mut self, id: i32)
        ensures
            final(self)@ == old(self)@.without_player(id),
            old(self).wf() ==> final(self).wf(),
    {
        proof {
            lemma_players_without(self@.players, id);
            assert(self@.without_player(id).bodies() == self@.bodies());
        }
        let mut kept: Vec<GamePlayer> = Vec::new();
        let mut i: usize = 0;
        proof {
            assert(player_views(kept@) =~= players_without(self@.players.subrange(0, 0), id));
        }
        while i < self.players.len()
            invariant
                i <= self.players.len(),
                self@ == old(self)@,
                player_views(kept@) == players_without(self@.players.subrange(0, i as int), id),
            decreases self.players.len() - i,
        {
            let ghost before = player_views(kept@);
            proof {
                assert(self@.players.subrange(0, i + 1).drop_last() =~= self@.players.subrange(
                    0,
                    i as int,
                ));
                assert(self@.players.subrange(0, i + 1).last() == self.players[i as int]@);
            }
            if self.players[i].id != id {
                let p = self.players[i].duplicate();
                kept.push(p);
                proof {
                    assert(player_views(kept@) =~= before.push(self.players[i as int]@));
                }
            }
            i += 1;
        }
        proof {
            assert(self@.players.subrange(0, i as int) =~= self@.players);
        }
        self.players = kept;
    }
}

/// An index found in a prefix is the index in the whole list.
pub proof fn lemma_index_prefix_snake(snakes: Seq<SnakeView>, n: int, id: i32)
    requires
        0 <= n <= snakes.len(),
        snake_index(snakes.subrange(0, n), id) is Some,
    ensures
        snake_index(snakes, id) == snake_index(snakes.subrange(0, n), id),
    decreases snakes.len() - n,
{
    if n < snakes.len() {
        assert(snakes.subrange(0, n + 1).drop_last() =~= snakes.subrange(0, n));
        lemma_index_prefix_snake(snakes, n + 1, id);
    } else {
        assert(snakes.subrange(0, n) =~= snakes);
    }
}

/// An index found in a prefix is the index in the whole list.
pub proof fn lemma_index_prefix_player(players: Seq<PlayerView>, n: int, id: i32)
    requires
        0 <= n <= players.len(),
        player_index(players.subrange(0, n), id) is Some,
    ensures
        player_index(players, id) == player_index(players.subrange(0, n), id),
    decreases players.len() - n,
{
    if n < players.len() {
        assert(players.subrange(0, n + 1).drop_last() =~= players.subrange(0, n));
        lemma_index_prefix_player(players, n + 1, id);
    } else {
        assert(players.subrange(0, n) =~= players);
    }
}

} // verus!
