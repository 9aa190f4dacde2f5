//! How a game goes on without its master: the deputy takes over with the
//! state that it last drew, and the other players become its peers.

use vstd::prelude::*;
use crate::base::player_views;
use crate::base::{Coord, GamePlayer, NodeRole, PlayerType, PlayerView, Snake, SnakeState, SnakeView};
use crate::channel::ReliableChannel;
use crate::client::Client;
use crate::peers::{channels_wf, peer_views, Peer, PeerView};
use crate::server::{fresh_channel, id_after, new_snake, Server, ServerView};
use crate::text::copy_text;
use crate::world::{Game, GameView};
use crate::base::Direction;

verus! {

/// The players entered one after the other, each under its id: of players
/// that share an id the last one stays.
pub open spec fn merged(players: Seq<PlayerView>) -> Seq<PlayerView>
    decreases players.len(),
{
    if players.len() == 0 {
        Seq::empty()
    } else {
        crate::roles::players_without(merged(players.drop_last()), players.last().id).push(
            players.last(),
        )
    }
}

/// Merged players have distinct ids, and players with distinct ids are
/// merged as they are.
pub proof fn lemma_merged(players: Seq<PlayerView>)
    ensures
        crate::world::ids_distinct(merged(players)),
        crate::world::ids_distinct(players) ==> merged(players) == players,
        forall|k: int|
            0 <= k < merged(players).len() ==> players.contains(#[trigger] merged(players)[k]),
    decreases players.len(),
{
    if players.len() > 0 {
        let init = players.drop_last();
        let last = players.last();
        lemma_merged(init);
        let before = merged(init);
        crate::roles::lemma_players_without(before, last.id);
        let rest = crate::roles::players_without(before, last.id);
        let out = rest.push(last);
        assert(players[players.len() - 1] == last);
        assert forall|i1: int, i2: int|
            0 <= i1 < out.len() && 0 <= i2 < out.len() && i1 != i2 implies (#[trigger] out[i1]).id
            != (#[trigger] out[i2]).id by {
            if i1 < rest.len() {
                assert(out[i1] == rest[i1]);
            }
            if i2 < rest.len() {
                assert(out[i2] == rest[i2]);
            }
        }
        assert forall|k: int| 0 <= k < out.len() implies players.contains(#[trigger] out[k]) by {
            if k < rest.len() {
                assert(out[k] == rest[k]);
                assert(before.contains(rest[k]));
                let j = choose|j: int| 0 <= j < before.len() && before[j] == rest[k];
                assert(init.contains(before[j]));
                let j2 = choose|j2: int| 0 <= j2 < init.len() && init[j2] == before[j];
                assert(players[j2] == out[k]);
            }
        }
        if crate::world::ids_distinct(players) {
            assert(crate::world::ids_distinct(init)) by {
                assert forall|i1: int, i2: int|
                    0 <= i1 < init.len() && 0 <= i2 < init.len() && i1 != i2 implies (
                #[trigger] init[i1]).id != (#[trigger] init[i2]).id by {
                    assert(init[i1] == players[i1] && init[i2] == players[i2]);
                }
            }
            assert(before == init);
            crate::roles::lemma_player_index(init, last.id);
            if crate::roles::player_index(init, last.id) is Some {
                let j = crate::roles::player_index(init, last.id)->0;
                assert(players[j].id == players[players.len() - 1].id);
            }
            assert(rest == init);
            assert(out =~= players);
        }
    }
}

/// The board of the given parameters with the snakes of the list put on
/// it in their order; a snake that the board does not admit is left out.
pub open spec fn settled(snakes: Seq<SnakeView>, config: crate::base::Config) -> GameView
    decreases snakes.len(),
{
    if snakes.len() == 0 {
        GameView::blank(config)
    } else {
        let before = settled(snakes.drop_last(), config);
        if before.admits(snakes.last()) {
            before.with_snake(snakes.last())
        } else {
            before
        }
    }
}

/// The game with the food of the list put on it in its order; a food that
/// is off the board or on a cell that is not empty is left out.
pub open spec fn laid(game: GameView, food: Seq<Coord>) -> GameView
    decreases food.len(),
{
    if food.len() == 0 {
        game
    } else {
        let before = laid(game, food.drop_last());
        if food.last().within(before.config.width as int, before.config.height as int)
            && before.cell(food.last()) == crate::base::WorldCell::Empty {
            before.with_food(food.last())
        } else {
            before
        }
    }
}

impl GameView {
    /// The game made well formed: its snakes and then its food are put on
    /// an empty board in their order, what the board does not admit is
    /// left out, and of players that share an id the last one stays.
    pub open spec fn repaired(self) -> GameView {
        GameView {
            players: merged(self.players),
            order: self.order,
            ..laid(settled(self.snakes, self.config), self.food)
        }
    }
}

/// The snake is one of the list.
pub open spec fn is_among(s: SnakeView, snakes: Seq<SnakeView>) -> bool {
    exists|i: int| 0 <= i < snakes.len() && #[trigger] snakes[i] == s
}

/// The players of a game whose deputy has taken over: the player `own`
/// is the master, and whoever was the master before is a viewer.
pub open spec fn crowned(players: Seq<PlayerView>, own: i32) -> Seq<PlayerView> {
    Seq::new(
        players.len(),
        |i: int|
            if players[i].id == own {
                PlayerView { role: NodeRole::MASTER, ..players[i] }
            } else if players[i].role == NodeRole::MASTER {
                PlayerView { role: NodeRole::VIEWER, ..players[i] }
            } else {
                players[i]
            },
    )
}

/// The peers of a new master: one for every player but its own, each
/// at the address of the player, with a channel that starts anew. Of
/// players that share an address the last one is the peer there.
pub open spec fn heirs(players: Seq<PlayerView>, own: i32, now: u64) -> Seq<PeerView>
    decreases players.len(),
{
    if players.len() == 0 {
        Seq::empty()
    } else {
        let rest = heirs(players.drop_last(), own, now);
        if players.last().id == own {
            rest
        } else {
            crate::peers::peers_without(rest, players.last().ip_address).push(
                PeerView {
                    addr: players.last().ip_address,
                    player_id: players.last().id,
                    channel: fresh_channel(now),
                },
            )
        }
    }
}

/// The id that the next player gets: one more than the largest id of a
/// player, and 1 at least.
pub open spec fn next_id(players: Seq<PlayerView>) -> i32
    decreases players.len(),
{
    if players.len() == 0 {
        1
    } else {
        let rest = next_id(players.drop_last());
        if id_after(players.last().id) > rest {
            id_after(players.last().id)
        } else {
            rest
        }
    }
}

/// The channels of the heirs are well formed, and no two heirs share an address.
pub proof fn lemma_heirs(players: Seq<PlayerView>, own: i32, now: u64)
    ensures
        channels_wf(heirs(players, own, now)),
        crate::peers::addrs_distinct(heirs(players, own, now)),
    decreases players.len(),
{
    if players.len() > 0 {
        lemma_heirs(players.drop_last(), own, now);
        let before = heirs(players.drop_last(), own, now);
        let last = players.last();
        if last.id != own {
            crate::peers::lemma_peers_without(before, last.ip_address);
            let rest = crate::peers::peers_without(before, last.ip_address);
            let peer = PeerView {
                addr: last.ip_address,
                player_id: last.id,
                channel: fresh_channel(now),
            };
            crate::peers::lemma_push_peer(rest, peer);
            let out = rest.push(peer);
            assert forall|i: int| 0 <= i < out.len() implies (#[trigger] out[i]).channel.wf() by {
                if i < rest.len() {
                    assert(out[i] == rest[i]);
                }
            }
        }
    }
}

/// On the way to a copy of a well-formed game, the board that holds its
/// first snakes and no food admits the next of them.
pub proof fn lemma_next_snake_admitted(v: GameView, part: GameView, i: int)
    requires
        v.wf(),
        part.wf(),
        part.config == v.config,
        0 <= i < v.snakes.len(),
        part.snakes == v.snakes.subrange(0, i),
        part.food.len() == 0,
    ensures
        part.admits(v.snakes[i]),
{
    let s = v.snakes[i];
    let b = v.bodies();
    let pb = part.bodies();
    assert(b[i] == s.body);
    assert forall|j: int| 0 <= j < s.body.len() implies (#[trigger] s.body[j]).within(
        part.config.width as int,
        part.config.height as int,
    ) && part.cell(s.body[j]) != crate::base::WorldCell::Snake by {
        assert(b[i][j] == s.body[j]);
        if crate::world::on_body(pb, s.body[j]) {
            let (q, r) = choose|q: int, r: int|
                0 <= q < pb.len() && 0 <= r < pb[q].len() && #[trigger] pb[q][r] == s.body[j];
            assert(part.snakes[q] == v.snakes[q]);
            assert(b[q][r] == b[i][j]);
        }
    }
    assert forall|j1: int, j2: int|
        0 <= j1 < s.body.len() && 0 <= j2 < s.body.len() && j1 != j2 implies s.body[j1]
        != s.body[j2] by {
        assert(b[i][j1] == s.body[j1] && b[i][j2] == s.body[j2]);
    }
    if crate::update::has_snake(part.snakes, s.player_id) {
        let q = choose|q: int|
            0 <= q < part.snakes.len() && (#[trigger] part.snakes[q]).player_id == s.player_id;
        assert(part.snakes[q] == v.snakes[q]);
        assert(v.snakes[q].player_id == v.snakes[i].player_id);
    }
}

impl Game {
    /// A well-formed game with the parameters, the players and the tick
    /// count of this one, and with as much of its snakes and food as go
    /// together on the board: the snakes are put on it in their order, then
    /// the food; what the board does not admit is left out. Of players that
    /// share an id the last one stays. Of a game that is well formed nothing
    /// is left out.
    pub fn rebuilt(&self) -> (g: Game)
        requires
            self.config.valid(),
        ensures
            g.wf(),
            g@ == self@.repaired(),
            g.config == self.config,
            g.order == self.order,
            g@.players == merged(self@.players),
            forall|i: int| 0 <= i < g@.snakes.len() ==> is_among(#[trigger] g@.snakes[i], self@.snakes),
            forall|k: int| 0 <= k < g@.food.len() ==> self@.food.contains(#[trigger] g@.food[k]),
            self.wf() ==> g@ == self@,
    {
        let ghost v = self@;
        let mut g = Game::new(self.config);
        let mut i: usize = 0;
        proof {
            assert(g@.snakes =~= v.snakes.subrange(0, 0));
        }
        while i < self.snakes.len()
            invariant
                i <= self.snakes.len(),
                v == self@,
                g@ == settled(v.snakes.subrange(0, i as int), v.config),
                g.wf(),
                g.config == self.config,
                g@.food.len() == 0,
                g@.players == Seq::<PlayerView>::empty(),
                g.order == 0,
                forall|k: int| 0 <= k < g@.snakes.len() ==> is_among(#[trigger] g@.snakes[k], self@.snakes),
                v.wf() ==> g@.snakes == v.snakes.subrange(0, i as int),
            decreases self.snakes.len() - i,
        {
            let ghost before = g@;
            let s = self.snakes[i].duplicate();
            proof {
                assert(v.snakes.subrange(0, i + 1).drop_last() =~= v.snakes.subrange(0, i as int));
                assert(v.snakes.subrange(0, i + 1).last() == s@);
                assert(self@.snakes[i as int] == s@);
                crate::spawn::lemma_clear_of_contains(before.food, s@.body, Coord { x: 0, y: 0 });
                if v.wf() {
                    lemma_next_snake_admitted(v, before, i as int);
                }
            }
            let added = g.add_snake(s);
            proof {
                if added {
                    assert(crate::spawn::clear_of(before.food, s@.body) =~= Seq::<Coord>::empty());
                    assert forall|k: int| 0 <= k < g@.snakes.len() implies is_among(
                        #[trigger] g@.snakes[k],
                        self@.snakes,
                    ) by {
                        if k < before.snakes.len() {
                            assert(g@.snakes[k] == before.snakes[k]);
                        } else {
                            assert(g@.snakes[k] == self@.snakes[i as int]);
                        }
                    }
                }
                if v.wf() {
                    assert(g@.snakes =~= v.snakes.subrange(0, i + 1));
                }
            }
            i += 1;
        }
        proof {
            assert(v.snakes.subrange(0, i as int) =~= v.snakes);
            assert(g@.food =~= v.food.subrange(0, 0));
        }
        let mut k: usize = 0;
        let ghost board = g@;
        while k < self.food.len()
            invariant
                k <= self.food.len(),
                v == self@,
                board == settled(v.snakes, v.config),
                g@ == laid(board, v.food.subrange(0, k as int)),
                g.wf(),
                g.config == self.config,
                g@.players == Seq::<PlayerView>::empty(),
                g.order == 0,
                forall|i: int| 0 <= i < g@.snakes.len() ==> is_among(#[trigger] g@.snakes[i], self@.snakes),
                forall|j: int| 0 <= j < g@.food.len() ==> self@.food.contains(#[trigger] g@.food[j]),
                v.wf() ==> g@.snakes == v.snakes && g@.food == v.food.subrange(0, k as int),
            decreases self.food.len() - k,
        {
            let ghost before = g@;
            proof {
                assert(v.food.subrange(0, k + 1).drop_last() =~= v.food.subrange(0, k as int));
                assert(v.food.subrange(0, k + 1).last() == self.food[k as int]);
                if v.wf() {
                    let c = v.food[k as int];
                    assert(c.within(v.config.width as int, v.config.height as int));
                    assert(!crate::world::on_body(v.bodies(), v.food[k as int]));
                    assert(before.bodies() == v.bodies());
                    if before.food.contains(c) {
                        let j = choose|j: int| 0 <= j < before.food.len() && before.food[j] == c;
                        assert(v.food[j] == v.food[k as int]);
                    }
                    assert(before.cell(c) == crate::base::WorldCell::Empty);
                }
            }
            let added = g.add_food_to(self.food[k]);
            proof {
                if added {
                    assert forall|j: int| 0 <= j < g@.food.len() implies self@.food.contains(
                        #[trigger] g@.food[j],
                    ) by {
                        if j < before.food.len() {
                            assert(g@.food[j] == before.food[j]);
                        } else {
                            assert(g@.food[j] == self@.food[k as int]);
                        }
                    }
                }
                if v.wf() {
                    assert(g@.food =~= v.food.subrange(0, k + 1));
                }
            }
            k += 1;
        }
        proof {
            assert(v.food.subrange(0, k as int) =~= v.food);
        }
        let mut n: usize = 0;
        let ghost fed = g@;
        proof {
            assert(g@.players =~= merged(v.players.subrange(0, 0)));
        }
        while n < self.players.len()
            invariant
                n <= self.players.len(),
                v == self@,
                fed == laid(settled(v.snakes, v.config), v.food),
                g@ == fed.with_players(g@.players),
                g.wf(),
                g.config == self.config,
                g.order == 0,
                forall|i: int| 0 <= i < g@.snakes.len() ==> is_among(#[trigger] g@.snakes[i], self@.snakes),
                forall|j: int| 0 <= j < g@.food.len() ==> self@.food.contains(#[trigger] g@.food[j]),
                v.wf() ==> g@.snakes == v.snakes && g@.food == v.food,
                g@.players == merged(v.players.subrange(0, n as int)),
            decreases self.players.len() - n,
        {
            proof {
                assert(v.players.subrange(0, n + 1).drop_last() =~= v.players.subrange(0, n as int));
                assert(v.players.subrange(0, n + 1).last() == self.players[n as int]@);
            }
            g.add_player(self.players[n].duplicate());
            n += 1;
        }
        g.order = self.order;
        proof {
            assert(v.players.subrange(0, n as int) =~= v.players);
            lemma_merged(v.players);
            assert(GameView { order: 0, ..g@ }.bodies() == g@.bodies());
            if v.wf() {
                let w = v.config.width as int;
                let h = v.config.height as int;
                crate::world::lemma_shows_is_render(g@.world, g@.bodies(), g@.food, w, h);
                crate::world::lemma_shows_is_render(v.world, v.bodies(), v.food, w, h);
            }
        }
        g
    }

    /// Makes the player `own` the master among the players, and whoever
    /// was the master before a viewer.
    pub fn crown(&mut self, own: i32)
        ensures
            final(self)@ == old(self)@.with_players(crowned(old(self)@.players, own)),
            old(self).wf() ==> final(self).wf(),
    {
        let mut i: usize = 0;
        while i < self.players.len()
            invariant
                i <= self.players.len(),
                self.players.len() == old(self).players.len(),
                self@.with_players(old(self)@.players) == old(self)@,
                forall|k: int|
                    0 <= k < i ==> (#[trigger] self@.players[k]) == crowned(old(self)@.players, own)[k],
                forall|k: int|
                    i <= k < self.players.len() ==> (#[trigger] self@.players[k]) == old(
                        self,
                    )@.players[k],
            decreases self.players.len() - i,
        {
            let ghost before = self@.players;
            proof {
                assert(self@.players[i as int] == self.players[i as int]@);
            }
            if self.players[i].id == own {
                self.players[i].role = NodeRole::MASTER;
            } else if self.players[i].role == NodeRole::MASTER {
                self.players[i].role = NodeRole::VIEWER;
            }
            proof {
                assert(self@.players[i as int] == self.players[i as int]@);
                assert forall|k: int| 0 <= k < self.players.len() && k != i implies (
                #[trigger] self@.players[k]) == before[k] by {
                    assert(self@.players[k] == self.players[k]@);
                }
            }
            i += 1;
        }
        proof {
            assert(self@.players =~= crowned(old(self)@.players, own));
            if old(self).wf() {
                crate::world::lemma_same_ids(old(self)@.players, self@.players);
                crate::server::lemma_with_players(old(self)@, self@.players);
            }
        }
    }
}

/// The peers of a new master and the id that its next player gets.
pub fn inherit(players: &Vec<GamePlayer>, own: i32, now: u64) -> (r: (Vec<Peer>, i32))
    ensures
        peer_views(r.0@) == heirs(player_views(players@), own, now),
        r.1 == next_id(player_views(players@)),
{
    let ghost all = player_views(players@);
    let mut peers: Vec<Peer> = Vec::new();
    let mut next: i32 = 1;
    let mut i: usize = 0;
    proof {
        assert(peer_views(peers@) =~= heirs(all.subrange(0, 0), own, now));
    }
    while i < players.len()
        invariant
            i <= players.len(),
            all == player_views(players@),
            peer_views(peers@) == heirs(all.subrange(0, i as int), own, now),
            next == next_id(all.subrange(0, i as int)),
        decreases players.len() - i,
    {
        let ghost before = peer_views(peers@);
        proof {
            assert(all.subrange(0, i + 1).drop_last() =~= all.subrange(0, i as int));
            assert(all.subrange(0, i + 1).last() == players[i as int]@);
        }
        let id: i32 = players[i].id;
        let after: i32 = if id == i32::MAX { i32::MAX } else { id + 1 };
        if after > next {
            next = after;
        }
        if id != own {
            let p = Peer {
                addr: copy_text(&players[i].ip_address),
                player_id: id,
                channel: ReliableChannel::new(now),
            };
            let ghost pv = p@;
            crate::peers::remove_peers(&mut peers, &players[i].ip_address);
            let ghost rest = peer_views(peers@);
            peers.push(p);
            proof {
                assert(peer_views(peers@) =~= rest.push(pv));
            }
        }
        i += 1;
    }
    proof {
        assert(all.subrange(0, i as int) =~= all);
    }
    (peers, next)
}

impl Client {
    /// Takes over as master of the game `name` at the time `now`, with the
    /// state that the follower last drew, made well formed where it is not
    /// (see [`GameView::repaired`]). Every other player becomes a
    /// peer at the address that the state gives for it; whoever was the
    /// master before is a viewer from now on, and is given up like any
    /// peer once it has been silent for too long.
    pub fn become_master(self, name: String, now: u64) -> (s: Server)
        requires
            self.wf(),
        ensures
            s.wf(),
            s@.name == name@,
            s@.id == self@.id,
            s@.seq == 0,
            s@.game.config == self@.game.config,
            s@.game.order == self@.game.order,
            s@.game.players == crowned(merged(self@.game.players), self@.id),
            s@.peers == heirs(crowned(merged(self@.game.players), self@.id), self@.id, now),
            s@.player_id == next_id(crowned(merged(self@.game.players), self@.id)),
            s@.multicast_time == now,
            s@.game_time == now,
            forall|i: int|
                0 <= i < s@.game.snakes.len() ==> is_among(#[trigger] s@.game.snakes[i], self@.game.snakes),
            forall|k: int|
                0 <= k < s@.game.food.len() ==> self@.game.food.contains(#[trigger] s@.game.food[k]),
            s@.game == self@.game.repaired().with_players(
                crowned(merged(self@.game.players), self@.id),
            ),
            self.game.wf() ==> s@.game == self@.game.with_players(
                crowned(self@.game.players, self@.id),
            ),
    {
        let mut game = self.game.rebuilt();
        game.crown(self.id);
        let (peers, next) = inherit(&game.players, self.id, now);
        proof {
            lemma_heirs(game@.players, self.id, now);
        }
        Server {
            game,
            name,
            seq: 0,
            id: self.id,
            player_id: next,
            peers,
            multicast_time: now,
            game_time: now,
        }
    }
}

impl ServerView {
    /// The master after its own player has entered the game: a snake at
    /// `room` if the board has room there, and a player that is the master.
    pub open spec fn with_local_player(
        self,
        name: Seq<char>,
        addr: Seq<char>,
        room: Option<(Coord, Coord, Direction)>,
    ) -> ServerView {
        let board = if self.has_room(self.id, room) {
            self.game.with_snake(new_snake(self.id, room->0))
        } else {
            self.game
        };
        self.with_game(
            board.with_player(
                PlayerView {
                    name,
                    id: self.id,
                    ip_address: addr,
                    role: NodeRole::MASTER,
                    player_type: PlayerType::HUMAN,
                    score: 0,
                },
            ),
        )
    }
}

impl Server {
    /// Enters the master's own player into the game, with a snake at
    /// `room` if the board has room there.
    pub fn add_local_player_at(
        &mut self,
        name: &String,
        addr: &String,
        room: Option<(Coord, Coord, Direction)>,
    )
        requires
            old(self).wf(),
        ensures
            final(self).wf(),
            final(self)@ == old(self)@.with_local_player(name@, addr@, room),
    {
        match room {
            Some((head, tail, dir)) => {
                let mut body: Vec<Coord> = Vec::new();
                body.push(tail);
                body.push(head);
                let snake = Snake { player_id: self.id, body, direction: dir, state: SnakeState::ALIVE };
                proof {
                    assert(snake@.body =~= new_snake(self.id, room->0).body);
                }
                self.game.add_snake(snake);
            },
            None => {},
        }
        self.game.add_player(
            GamePlayer {
                name: copy_text(name),
                id: self.id,
                ip_address: copy_text(addr),
                role: NodeRole::MASTER,
                player_type: PlayerType::HUMAN,
                score: 0,
            },
        );
    }

    /// Enters the master's own player into the game. Its snake gets the
    /// place that the board offers: the first site, with a tail that
    /// [`Game::get_free_coord5x5`] draws at random.
    pub fn add_local_player(&mut self, name: &String, addr: &String)
        requires
            old(self).wf(),
        ensures
            final(self).wf(),
            exists|room: Option<(Coord, Coord, Direction)>|
                #![trigger old(self)@.with_local_player(name@, addr@, room)]
                old(self)@.game.offers(room) && final(self)@ == old(self)@.with_local_player(
                    name@,
                    addr@,
                    room,
                ),
    {
        let room = self.game.get_free_coord5x5();
        self.add_local_player_at(name, addr, room);
    }

    /// Heads the snake of the master's own player in the direction `d`;
    /// see [`Game::steer`].
    pub fn steer_own(&mut self, d: Direction) -> (steered: bool)
        requires
            old(self).wf(),
        ensures
            final(self).wf(),
            steered == old(self)@.game.may_steer(old(self)@.id, d),
            final(self)@ == old(self)@.with_game(old(self)@.game.steered(old(self)@.id, d)),
    {
        self.game.steer(self.id, d)
    }
}

} // verus!
