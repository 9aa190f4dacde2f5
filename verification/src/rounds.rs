//! What the master does from time to time: it ticks the game and tells
//! every peer the state, retransmits what waits for an acknowledgement,
//! and gives up the peers that have been silent for too long.

use vstd::prelude::*;
use crate::base::{NodeRole, StateView};
use crate::channel::{datagram_views, elapsed, elapsed_ms, emitted, retained, retransmit_delay};
use crate::channel::{silent_too_long, ChannelView, Datagram, DatagramView};
use crate::codec::encode;
use crate::format::fits;
use crate::message::{GameMessage, MessageView, Payload, PayloadView};
use crate::peers::{channels_wf, peer_of_player, peer_views, Peer, PeerView};
use crate::server::{append_datagrams, datagram_for, Server, ServerView};
use crate::text::copy_text;
use crate::world::GameView;

verus! {

/// The message with a state that fits into a datagram: as long as it does
/// not fit, the oldest player is left out, then the latest food, then the
/// latest snake.
pub open spec fn capped(m: MessageView) -> MessageView
    decreases
        match m.payload {
            PayloadView::State { state } => state.players.len() + state.foods.len()
                + state.snakes.len(),
            _ => 0,
        },
{
    match m.payload {
        PayloadView::State { state } => if fits(m) {
            m
        } else if state.players.len() > 0 {
            capped(
                MessageView {
                    payload: PayloadView::State {
                        state: StateView { players: state.players.skip(1), ..state },
                    },
                    ..m
                },
            )
        } else if state.foods.len() > 0 {
            capped(
                MessageView {
                    payload: PayloadView::State {
                        state: StateView { foods: state.foods.drop_last(), ..state },
                    },
                    ..m
                },
            )
        } else if state.snakes.len() > 0 {
            capped(
                MessageView {
                    payload: PayloadView::State {
                        state: StateView { snakes: state.snakes.drop_last(), ..state },
                    },
                    ..m
                },
            )
        } else {
            m
        },
        _ => m,
    }
}

/// Caps the state of a message so that the message fits into a datagram.
pub fn cap_state(m: GameMessage) -> (r: GameMessage)
    ensures
        r@ == capped(m@),
{
    let ghost given = m@;
    let mut m = m;
    loop
        invariant
            capped(m@) == capped(given),
        ensures
            m@ == capped(given),
        decreases
            match m@.payload {
                PayloadView::State { state } => state.players.len() + state.foods.len()
                    + state.snakes.len(),
                _ => 0,
            },
    {
        let fitting: bool = encode(&m).is_some();
        let ghost before = m@;
        match &mut m.payload {
            Payload::State { state } => {
                if fitting {
                    break ;
                } else if state.players.len() > 0 {
                    let ghost players = crate::base::player_views(state.players@);
                    state.players.remove(0);
                    proof {
                        assert(crate::base::player_views(state.players@) =~= players.skip(1));
                    }
                } else if state.foods.len() > 0 {
                    state.foods.pop();
                } else if state.snakes.len() > 0 {
                    let ghost snakes = crate::base::snake_views(state.snakes@);
                    state.snakes.pop();
                    proof {
                        assert(crate::base::snake_views(state.snakes@) =~= snakes.drop_last());
                    }
                } else {
                    break ;
                }
            },
            _ => {
                break ;
            },
        }
    }
    m
}

impl PeerView {
    /// The message `m` as the channel to the peer sends it.
    pub open spec fn outgoing(self, m: MessageView) -> MessageView {
        self.channel.stamped(m)
    }

    /// The peer after the message `m` has been sent to it, if it fits into a datagram.
    pub open spec fn told(self, m: MessageView, now: u64) -> PeerView {
        if fits(self.outgoing(m)) {
            PeerView { channel: self.channel.after_send(m, self.addr, now), ..self }
        } else {
            self
        }
    }

    /// The datagram that carries the message `m` to the peer, if it fits into one.
    pub open spec fn telling(self, m: MessageView) -> Seq<DatagramView> {
        datagram_for(self.addr, self.outgoing(m))
    }

    /// The peer after a tick of its channel: what was due has been retransmitted.
    pub open spec fn ticked(self, now: u64, state_delay_ms: i32) -> PeerView {
        PeerView {
            channel: ChannelView {
                pending: retained(self.channel.pending, now, retransmit_delay(state_delay_ms)),
                ..self.channel
            },
            ..self
        }
    }

    /// The peer has been silent for so long that it is given up.
    pub open spec fn lost(self, now: u64, state_delay_ms: i32) -> bool {
        silent_too_long(now, self.channel.last_seen_time, state_delay_ms)
    }
}

impl Peer {
    /// Sends a message to the peer through its channel; see
    /// [`crate::channel::ReliableChannel::send`].
    pub fn tell(&mut self, m: GameMessage, now: u64) -> (out: Vec<Datagram>)
        requires
            old(self).channel.wf(),
        ensures
            final(self)@ == old(self)@.told(m@, now),
            final(self).channel.wf(),
            datagram_views(out@) == old(self)@.telling(m@),
    {
        let mut out: Vec<Datagram> = Vec::new();
        match self.channel.send(m, &self.addr, now) {
            Some(d) => {
                out.push(d);
            },
            None => {},
        }
        proof {
            assert(datagram_views(out@) =~= old(self)@.telling(m@));
        }
        out
    }
}

/// The message that takes a dead player's snake from it.
pub open spec fn to_viewer(sender: i32, receiver: i32) -> MessageView {
    MessageView {
        msg_seq: 0,
        sender_id: Some(sender),
        receiver_id: Some(receiver),
        payload: PayloadView::RoleChange {
            sender_role: Some(NodeRole::MASTER),
            receiver_role: Some(NodeRole::VIEWER),
        },
    }
}

/// The message that tells the peer the state of the game, capped so that
/// it fits into a datagram.
pub open spec fn state_for(sender: i32, peer: PeerView, state: StateView) -> MessageView {
    capped(
        MessageView {
            msg_seq: peer.channel.next_seq,
            sender_id: Some(sender),
            receiver_id: Some(peer.player_id),
            payload: PayloadView::State { state },
        },
    )
}

/// The peers after each has been told the state.
pub open spec fn all_told(peers: Seq<PeerView>, sender: i32, state: StateView, now: u64) -> Seq<
    PeerView,
> {
    Seq::new(peers.len(), |i: int| peers[i].told(state_for(sender, peers[i], state), now))
}

/// The datagrams that tell each peer the state, in the order of the peers.
pub open spec fn all_telling(peers: Seq<PeerView>, sender: i32, state: StateView) -> Seq<
    DatagramView,
>
    decreases peers.len(),
{
    if peers.len() == 0 {
        Seq::empty()
    } else {
        all_telling(peers.drop_last(), sender, state) + peers.last().telling(
            state_for(sender, peers.last(), state),
        )
    }
}

/// The peers after a tick of every channel.
pub open spec fn all_ticked(peers: Seq<PeerView>, now: u64, state_delay_ms: i32) -> Seq<PeerView> {
    Seq::new(peers.len(), |i: int| peers[i].ticked(now, state_delay_ms))
}

/// The datagrams that a tick of every channel retransmits, in the order of the peers.
pub open spec fn all_emitted(peers: Seq<PeerView>, now: u64, state_delay_ms: i32) -> Seq<
    DatagramView,
>
    decreases peers.len(),
{
    if peers.len() == 0 {
        Seq::empty()
    } else {
        all_emitted(peers.drop_last(), now, state_delay_ms) + emitted(
            peers.last().channel.pending,
            now,
            retransmit_delay(state_delay_ms),
        )
    }
}

/// The peers that are not lost.
pub open spec fn survivors(peers: Seq<PeerView>, now: u64, state_delay_ms: i32) -> Seq<PeerView>
    decreases peers.len(),
{
    if peers.len() == 0 {
        Seq::empty()
    } else {
        let rest = survivors(peers.drop_last(), now, state_delay_ms);
        if peers.last().lost(now, state_delay_ms) {
            rest
        } else {
            rest.push(peers.last())
        }
    }
}

/// The game after the players of the lost peers have left the list of
/// players. Their snakes stay as they are.
pub open spec fn bereft(game: GameView, peers: Seq<PeerView>, now: u64, state_delay_ms: i32) -> GameView
    decreases peers.len(),
{
    if peers.len() == 0 {
        game
    } else {
        let before = bereft(game, peers.drop_last(), now, state_delay_ms);
        if peers.last().lost(now, state_delay_ms) {
            before.without_player(peers.last().player_id)
        } else {
            before
        }
    }
}

impl ServerView {
    /// The tick period of the game in milliseconds.
    pub open spec fn period(self) -> nat {
        if self.game.config.state_delay_ms <= 0 {
            0
        } else {
            self.game.config.state_delay_ms as nat
        }
    }

    /// The game is due for a tick at the time `now`.
    pub open spec fn tick_due(self, now: u64) -> bool {
        elapsed(now, self.game_time) >= self.period()
    }

    /// The master after the player `id` has lost its snake: the player is
    /// a viewer now, and its peer, if it has one, is told so.
    pub open spec fn retired(self, id: i32, now: u64) -> ServerView {
        let game = self.game.with_role(id, NodeRole::VIEWER);
        match peer_of_player(self.peers, id) {
            Some(i) => ServerView {
                game,
                peers: self.peers.update(i, self.peers[i].told(to_viewer(self.id, id), now)),
                ..self
            },
            None => ServerView { game, ..self },
        }
    }

    /// The datagram that tells the peer of the player `id` that it has lost its snake.
    pub open spec fn retiring(self, id: i32) -> Seq<DatagramView> {
        match peer_of_player(self.peers, id) {
            Some(i) => self.peers[i].telling(to_viewer(self.id, id)),
            None => Seq::empty(),
        }
    }

    /// The master after the players of the list have lost their snakes, one after the other.
    pub open spec fn all_retired(self, dead: Seq<i32>, now: u64) -> ServerView
        decreases dead.len(),
    {
        if dead.len() == 0 {
            self
        } else {
            self.all_retired(dead.drop_last(), now).retired(dead.last(), now)
        }
    }

    /// The datagrams that tell the players of the list that they have lost their snakes.
    pub open spec fn all_retiring(self, dead: Seq<i32>, now: u64) -> Seq<DatagramView>
        decreases dead.len(),
    {
        if dead.len() == 0 {
            Seq::empty()
        } else {
            self.all_retiring(dead.drop_last(), now) + self.all_retired(
                dead.drop_last(),
                now,
            ).retiring(dead.last())
        }
    }

    /// The master after every peer has been told the state of the game.
    pub open spec fn state_told(self, now: u64) -> ServerView {
        ServerView { peers: all_told(self.peers, self.id, self.game.snapshot(), now), ..self }
    }

    /// The master after a tick of the game in which the players of the
    /// list lost their snakes: they are viewers now and are told so, every
    /// peer is told the state, and the time of the tick is noted.
    pub open spec fn after_tick(self, dead: Seq<i32>, now: u64) -> ServerView {
        ServerView { game_time: now, ..self.all_retired(dead, now).state_told(now) }
    }

    /// The datagrams that the master sends after a tick of the game.
    pub open spec fn telling_after_tick(self, dead: Seq<i32>, now: u64) -> Seq<DatagramView> {
        self.all_retiring(dead, now) + all_telling(
            self.all_retired(dead, now).peers,
            self.id,
            self.all_retired(dead, now).game.snapshot(),
        )
    }

    /// The master after it has given up the peers that are lost.
    pub open spec fn expired(self, now: u64) -> ServerView {
        ServerView {
            game: bereft(self.game, self.peers, now, self.game.config.state_delay_ms),
            peers: survivors(self.peers, now, self.game.config.state_delay_ms),
            ..self
        }
    }
}

/// The peers that are not lost are peers of the list, with well-formed
/// channels and distinct addresses if the list had them.
pub proof fn lemma_survivors(peers: Seq<PeerView>, now: u64, state_delay_ms: i32)
    ensures
        channels_wf(peers) ==> channels_wf(survivors(peers, now, state_delay_ms)),
        crate::peers::addrs_distinct(peers) ==> crate::peers::addrs_distinct(
            survivors(peers, now, state_delay_ms),
        ),
        forall|k: int|
            0 <= k < survivors(peers, now, state_delay_ms).len() ==> peers.contains(
                #[trigger] survivors(peers, now, state_delay_ms)[k],
            ),
    decreases peers.len(),
{
    if peers.len() > 0 {
        let init = peers.drop_last();
        let last = peers.last();
        lemma_survivors(init, now, state_delay_ms);
        let rest = survivors(init, now, state_delay_ms);
        let out = survivors(peers, now, state_delay_ms);
        assert(peers[peers.len() - 1] == last);
        assert forall|k: int| 0 <= k < out.len() implies peers.contains(#[trigger] out[k]) by {
            if k < rest.len() {
                assert(out[k] == rest[k]);
                let j = choose|j: int| 0 <= j < init.len() && init[j] == rest[k];
                assert(peers[j] == out[k]);
            }
        }
        if channels_wf(peers) {
            assert forall|i: int| 0 <= i < init.len() implies (#[trigger] init[i]).channel.wf() by {
                assert(init[i] == peers[i]);
            }
            assert forall|i: int| 0 <= i < out.len() implies (#[trigger] out[i]).channel.wf() by {
                if i < rest.len() {
                    assert(out[i] == rest[i]);
                }
            }
        }
        if crate::peers::addrs_distinct(peers) {
            assert(crate::peers::addrs_distinct(init)) by {
                assert forall|i1: int, i2: int|
                    0 <= i1 < init.len() && 0 <= i2 < init.len() && i1 != i2 implies (
                #[trigger] init[i1]).addr != (#[trigger] init[i2]).addr by {
                    assert(init[i1] == peers[i1] && init[i2] == peers[i2]);
                }
            }
            assert forall|i1: int, i2: int|
                0 <= i1 < out.len() && 0 <= i2 < out.len() && i1 != i2 implies (
            #[trigger] out[i1]).addr != (#[trigger] out[i2]).addr by {
                if i1 < rest.len() && i2 < rest.len() {
                    assert(out[i1] == rest[i1] && out[i2] == rest[i2]);
                } else {
                    let low = if i1 < rest.len() { i1 } else { i2 };
                    assert(out[low] == rest[low]);
                    let j = choose|j: int| 0 <= j < init.len() && init[j] == rest[low];
                    assert(peers[j] == rest[low]);
                    assert(peers[j].addr != peers[peers.len() - 1].addr);
                }
            }
        }
    }
}

/// A master that has retired a player is well formed.
pub proof fn lemma_retired(s: ServerView, id: i32, now: u64)
    requires
        s.wf(),
    ensures
        s.retired(id, now).wf(),
        s.retired(id, now).peers.len() == s.peers.len(),
        s.retired(id, now).id == s.id,
{
    crate::roles::lemma_with_role(s.game, id, NodeRole::VIEWER);
    crate::peers::lemma_peer_of_player(s.peers, id);
    let g = s.game.with_role(id, NodeRole::VIEWER);
    match peer_of_player(s.peers, id) {
        Some(i) => {
            let p = s.peers[i];
            let m = to_viewer(s.id, id);
            lemma_told(p, m, now);
            let out = s.retired(id, now);
            assert forall|k: int| 0 <= k < out.peers.len() implies (
            #[trigger] out.peers[k]).channel.wf() by {
                if k != i {
                    assert(out.peers[k] == s.peers[k]);
                }
            }
        },
        None => {},
    }
}

/// A peer that has been told a message has a well-formed channel.
pub proof fn lemma_told(p: PeerView, m: MessageView, now: u64)
    requires
        p.channel.wf(),
    ensures
        p.told(m, now).channel.wf(),
        p.told(m, now).addr == p.addr,
        p.told(m, now).player_id == p.player_id,
{
    if fits(p.outgoing(m)) && p.outgoing(m).payload.needs_ack() {
        let seq = p.channel.next_seq;
        crate::channel::lemma_acked(p.channel.pending, seq);
        crate::channel::lemma_acked_bounded(p.channel.pending, seq);
        let before = crate::channel::acked(p.channel.pending, seq);
        let after = p.told(m, now).channel.pending;
        assert forall|i: int, j: int|
            0 <= i < after.len() && 0 <= j < after.len() && i != j implies (#[trigger] after[i]).seq
            != (#[trigger] after[j]).seq by {
            if i < before.len() {
                assert(after[i] == before[i]);
                assert(crate::channel::waits(before, before[i].seq));
            }
            if j < before.len() {
                assert(after[j] == before[j]);
                assert(crate::channel::waits(before, before[j].seq));
            }
        }
        assert forall|i: int| 0 <= i < after.len() implies (#[trigger] after[i]).send_count
            <= crate::channel::MAX_RETRANSMISSIONS by {
            if i < before.len() {
                assert(after[i] == before[i]);
            }
        }
    }
}

impl Server {
    /// Takes the snake from the player `id`, whose snake has died: the
    /// player is a viewer from now on, and its peer, if it has one, is told so.
    pub fn retire(&mut self, id: i32, now: u64) -> (out: Vec<Datagram>)
        requires
            old(self).wf(),
        ensures
            final(self).wf(),
            final(self)@ == old(self)@.retired(id, now),
            datagram_views(out@) == old(self)@.retiring(id),
    {
        proof {
            lemma_retired(self@, id, now);
        }
        self.game.set_role(id, NodeRole::VIEWER);
        match crate::peers::find_peer_of_player(&self.peers, id) {
            Some(i) => {
                let m = GameMessage {
                    msg_seq: 0,
                    sender_id: Some(self.id),
                    receiver_id: Some(id),
                    payload: Payload::RoleChange {
                        sender_role: Some(NodeRole::MASTER),
                        receiver_role: Some(NodeRole::VIEWER),
                    },
                };
                proof {
                    assert(self@.peers[i as int] == self.peers[i as int]@);
                    assert(self@.peers[i as int].channel.wf());
                }
                let out = self.peers[i].tell(m, now);
                proof {
                    assert(self@.peers =~= old(self)@.retired(id, now).peers);
                }
                out
            },
            None => {
                let out: Vec<Datagram> = Vec::new();
                proof {
                    assert(datagram_views(out@) =~= Seq::empty());
                }
                out
            },
        }
    }

    /// Tells every peer the state of the game.
    pub fn get_state(&mut self, now: u64) -> (out: Vec<Datagram>)
        requires
            old(self).wf(),
        ensures
            final(self).wf(),
            final(self)@ == old(self)@.state_told(now),
            datagram_views(out@) == all_telling(
                old(self)@.peers,
                old(self)@.id,
                old(self)@.game.snapshot(),
            ),
    {
        let ghost v = self@;
        let ghost snapshot = v.game.snapshot();
        let mut out: Vec<Datagram> = Vec::new();
        let mut i: usize = 0;
        proof {
            assert(datagram_views(out@) =~= all_telling(v.peers.subrange(0, 0), v.id, snapshot));
        }
        while i < self.peers.len()
            invariant
                i <= self.peers.len(),
                self.peers.len() == v.peers.len(),
                v == old(self)@,
                v.wf(),
                snapshot == v.game.snapshot(),
                self@ == (ServerView { peers: self@.peers, ..v }),
                forall|k: int|
                    0 <= k < i ==> (#[trigger] self@.peers[k]) == v.peers[k].told(
                        state_for(v.id, v.peers[k], snapshot),
                        now,
                    ),
                forall|k: int| i <= k < self.peers.len() ==> (#[trigger] self@.peers[k]) == v.peers[k],
                datagram_views(out@) == all_telling(v.peers.subrange(0, i as int), v.id, snapshot),
            decreases self.peers.len() - i,
        {
            let ghost peers_before = self@.peers;
            proof {
                assert(self@.peers[i as int] == v.peers[i as int]);
                assert(self@.peers[i as int] == self.peers[i as int]@);
                assert(v.peers[i as int].channel.wf());
                assert(v.peers.subrange(0, i + 1).drop_last() =~= v.peers.subrange(0, i as int));
                assert(v.peers.subrange(0, i + 1).last() == v.peers[i as int]);
                lemma_told(v.peers[i as int], state_for(v.id, v.peers[i as int], snapshot), now);
            }
            let m = GameMessage {
                msg_seq: self.peers[i].channel.next_seq,
                sender_id: Some(self.id),
                receiver_id: Some(self.peers[i].player_id),
                payload: Payload::State { state: self.game.get_state() },
            };
            let m = cap_state(m);
            let more = self.peers[i].tell(m, now);
            append_datagrams(&mut out, more);
            proof {
                assert forall|k: int| 0 <= k < self.peers.len() && k != i implies (
                #[trigger] self@.peers[k]) == peers_before[k] by {}
            }
            i += 1;
        }
        proof {
            assert(v.peers.subrange(0, i as int) =~= v.peers);
            assert(self@.peers =~= all_told(v.peers, v.id, snapshot, now));
            assert forall|k: int| 0 <= k < self@.peers.len() implies (
            #[trigger] self@.peers[k]).channel.wf() by {
                lemma_told(v.peers[k], state_for(v.id, v.peers[k], snapshot), now);
            }
        }
        out
    }

    /// What follows a tick of the game in which the players of the list
    /// lost their snakes: they are made viewers and told so, every peer is
    /// told the state, and the time of the tick is noted.
    pub fn after_tick(&mut self, dead: &Vec<i32>, now: u64) -> (out: Vec<Datagram>)
        requires
            old(self).wf(),
        ensures
            final(self).wf(),
            final(self)@ == old(self)@.after_tick(dead@, now),
            datagram_views(out@) == old(self)@.telling_after_tick(dead@, now),
    {
        let ghost v = self@;
        let mut out: Vec<Datagram> = Vec::new();
        let mut k: usize = 0;
        proof {
            assert(datagram_views(out@) =~= v.all_retiring(dead@.subrange(0, 0), now));
        }
        while k < dead.len()
            invariant
                k <= dead.len(),
                self.wf(),
                v == old(self)@,
                self@ == v.all_retired(dead@.subrange(0, k as int), now),
                datagram_views(out@) == v.all_retiring(dead@.subrange(0, k as int), now),
            decreases dead.len() - k,
        {
            proof {
                assert(dead@.subrange(0, k + 1).drop_last() =~= dead@.subrange(0, k as int));
                assert(dead@.subrange(0, k + 1).last() == dead@[k as int]);
            }
            let more = self.retire(dead[k], now);
            append_datagrams(&mut out, more);
            k += 1;
        }
        proof {
            assert(dead@.subrange(0, k as int) =~= dead@);
            lemma_all_retired(v, dead@, now);
        }
        let more = self.get_state(now);
        append_datagrams(&mut out, more);
        self.game_time = now;
        out
    }

    /// Ticks the game if a tick period has passed since the last tick, and
    /// returns the datagrams that tell the peers what came of it.
    ///
    /// The tick itself is [`crate::world::Game::update`], which draws at
    /// random: the game after it is one that [`GameView::ticked`] allows.
    /// What follows it is [`Server::after_tick`].
    pub fn do_state(&mut self, now: u64) -> (out: Vec<Datagram>)
        requires
            old(self).wf(),
        ensures
            final(self).wf(),
            !old(self)@.tick_due(now) ==> final(self)@ == old(self)@ && out@.len() == 0,
            old(self)@.tick_due(now) ==> final(self)@.game_time == now && final(self)@.peers.len()
                == old(self)@.peers.len() && final(self)@.game.config == old(self)@.game.config
                && final(self)@.game.order == crate::update::next_order(old(self)@.game.order),
            old(self)@.tick_due(now) ==> exists|game: GameView, dead: Seq<i32>|
                #![trigger old(self)@.with_game(game).after_tick(dead, now)]
                old(self)@.game.ticked(game, dead) && final(self)@ == old(self)@.with_game(
                    game,
                ).after_tick(dead, now)
                    && datagram_views(out@) == old(self)@.with_game(game).telling_after_tick(
                    dead,
                    now,
                ),
    {
        let period: u64 = if self.game.config.state_delay_ms <= 0 {
            0
        } else {
            self.game.config.state_delay_ms as u64
        };
        if elapsed_ms(now, self.game_time) >= period {
            let dead = self.game.update();
            let ghost mid = self@;
            proof {
                lemma_all_retired(mid, dead@, now);
                assert(mid == old(self)@.with_game(mid.game));
            }
            self.after_tick(&dead, now)
        } else {
            Vec::new()
        }
    }

    /// Retransmits, for every peer, what waits for an acknowledgement and
    /// is due; see [`crate::channel::ReliableChannel::tick`].
    pub fn check_pending(&mut self, now: u64) -> (out: Vec<Datagram>)
        requires
            old(self).wf(),
        ensures
            final(self).wf(),
            final(self)@ == (ServerView {
                peers: all_ticked(old(self)@.peers, now, old(self)@.game.config.state_delay_ms),
                ..old(self)@
            }),
            datagram_views(out@) == all_emitted(
                old(self)@.peers,
                now,
                old(self)@.game.config.state_delay_ms,
            ),
    {
        let ghost v = self@;
        let delay: i32 = self.game.config.state_delay_ms;
        let mut out: Vec<Datagram> = Vec::new();
        let mut i: usize = 0;
        proof {
            assert(datagram_views(out@) =~= all_emitted(v.peers.subrange(0, 0), now, delay));
        }
        while i < self.peers.len()
            invariant
                i <= self.peers.len(),
                self.peers.len() == v.peers.len(),
                v == old(self)@,
                v.wf(),
                delay == v.game.config.state_delay_ms,
                self@ == (ServerView { peers: self@.peers, ..v }),
                forall|k: int| 0 <= k < i ==> (#[trigger] self@.peers[k]) == v.peers[k].ticked(now, delay),
                forall|k: int| 0 <= k < i ==> (#[trigger] self@.peers[k]).channel.wf(),
                forall|k: int| i <= k < self.peers.len() ==> (#[trigger] self@.peers[k]) == v.peers[k],
                datagram_views(out@) == all_emitted(v.peers.subrange(0, i as int), now, delay),
            decreases self.peers.len() - i,
        {
            let ghost peers_before = self@.peers;
            proof {
                assert(self@.peers[i as int] == v.peers[i as int]);
                assert(self@.peers[i as int] == self.peers[i as int]@);
                assert(v.peers[i as int].channel.wf());
                assert(v.peers.subrange(0, i + 1).drop_last() =~= v.peers.subrange(0, i as int));
                assert(v.peers.subrange(0, i + 1).last() == v.peers[i as int]);
            }
            let more = self.peers[i].channel.tick(now, delay);
            append_datagrams(&mut out, more);
            proof {
                assert forall|k: int| 0 <= k < self.peers.len() && k != i implies (
                #[trigger] self@.peers[k]) == peers_before[k] by {}
            }
            i += 1;
        }
        proof {
            assert(v.peers.subrange(0, i as int) =~= v.peers);
            assert(self@.peers =~= all_ticked(v.peers, now, delay));
        }
        out
    }

    /// Gives up the peers that have been silent for too long: each leaves
    /// the list of peers, and its player leaves the list of players. The
    /// snakes, the food and the board stay as they are.
    pub fn check_timeout(&mut self, now: u64)
        requires
            old(self).wf(),
        ensures
            final(self).wf(),
            final(self)@ == old(self)@.expired(now),
    {
        let ghost v = self@;
        let delay: i32 = self.game.config.state_delay_ms;
        let mut kept: Vec<Peer> = Vec::new();
        let mut rest: Vec<Peer> = Vec::new();
        core::mem::swap(&mut rest, &mut self.peers);
        let mut i: usize = 0;
        proof {
            assert(peer_views(kept@) =~= survivors(v.peers.subrange(0, 0), now, delay));
        }
        while i < rest.len()
            invariant
                i <= rest.len(),
                v == old(self)@,
                v.wf(),
                peer_views(rest@) == v.peers,
                delay == v.game.config.state_delay_ms,
                self.game.config == v.game.config,
                self.game.wf(),
                self@ == (ServerView { game: self@.game, peers: self@.peers, ..v }),
                self.game@ == bereft(v.game, v.peers.subrange(0, i as int), now, delay),
                peer_views(kept@) == survivors(v.peers.subrange(0, i as int), now, delay),
                channels_wf(peer_views(kept@)),
            decreases rest.len() - i,
        {
            let ghost kept_before = peer_views(kept@);
            proof {
                assert(v.peers.subrange(0, i + 1).drop_last() =~= v.peers.subrange(0, i as int));
                assert(v.peers.subrange(0, i + 1).last() == v.peers[i as int]);
                assert(v.peers[i as int] == rest[i as int]@);
                assert(v.peers[i as int].channel.wf());
            }
            if rest[i].channel.expired(now, delay) {
                let id: i32 = rest[i].player_id;
                self.game.remove_player(id);
            } else {
                let p = Peer {
                    addr: copy_text(&rest[i].addr),
                    player_id: rest[i].player_id,
                    channel: copy_channel(&rest[i].channel),
                };
                let ghost pv = p@;
                kept.push(p);
                proof {
                    assert(peer_views(kept@) =~= kept_before.push(pv));
                    assert forall|k: int| 0 <= k < kept@.len() implies (
                    #[trigger] peer_views(kept@)[k]).channel.wf() by {
                        if k < kept_before.len() {
                            assert(peer_views(kept@)[k] == kept_before[k]);
                        }
                    }
                }
            }
            i += 1;
        }
        proof {
            assert(v.peers.subrange(0, i as int) =~= v.peers);
            lemma_survivors(v.peers, now, delay);
        }
        self.peers = kept;
    }
}

/// A copy of a channel.
pub fn copy_channel(c: &crate::channel::ReliableChannel) -> (r: crate::channel::ReliableChannel)
    ensures
        r@ == c@,
{
    let mut pending: Vec<crate::channel::PendingMsg> = Vec::new();
    let mut i: usize = 0;
    while i < c.pending.len()
        invariant
            i <= c.pending.len(),
            pending.len() == i,
            forall|k: int| 0 <= k < i ==> (#[trigger] pending@[k])@ == c.pending@[k]@,
        decreases c.pending.len() - i,
    {
        let p = &c.pending[i];
        proof {
            assert(p.msg@.subrange(0, p.msg.len() as int) =~= p.msg@);
        }
        pending.push(
            crate::channel::PendingMsg {
                seq: p.seq,
                msg: crate::wire::copy_bytes(&p.msg, 0, p.msg.len()),
                send_time: p.send_time,
                send_count: p.send_count,
                addr: copy_text(&p.addr),
            },
        );
        i += 1;
    }
    let r = crate::channel::ReliableChannel {
        next_seq: c.next_seq,
        last_applied_seq: c.last_applied_seq,
        pending,
        last_seen_time: c.last_seen_time,
        ping_seq: c.ping_seq,
    };
    proof {
        assert(r@.pending =~= c@.pending);
    }
    r
}

/// Retiring players changes neither the number of the peers nor the board.
pub proof fn lemma_all_retired(s: ServerView, dead: Seq<i32>, now: u64)
    requires
        s.wf(),
    ensures
        s.all_retired(dead, now).wf(),
        s.all_retired(dead, now).peers.len() == s.peers.len(),
        s.all_retired(dead, now).game.config == s.game.config,
        s.all_retired(dead, now).game.order == s.game.order,
        s.all_retired(dead, now).id == s.id,
    decreases dead.len(),
{
    if dead.len() > 0 {
        lemma_all_retired(s, dead.drop_last(), now);
        let before = s.all_retired(dead.drop_last(), now);
        lemma_retired(before, dead.last(), now);
        crate::roles::lemma_with_role(before.game, dead.last(), NodeRole::VIEWER);
    }
}

} // verus!
