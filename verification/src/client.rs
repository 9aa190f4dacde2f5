//! A follower of a game: it draws the states that the master sends, sends
//! the master the commands of its user, and keeps an eye on whether the
//! master is still there.
//!
//! The follower does no I/O. Whoever drives it hands it the messages that
//! came in and the time in milliseconds, and sends the datagrams that it
//! hands back.

use vstd::prelude::*;
use crate::base::{Config, Direction, NodeRole, PlayerView};
use crate::channel::{acked, datagram_views, ChannelView, Datagram, DatagramView, ReliableChannel};
use crate::channel::{emitted, retained, retransmit_delay, silent_too_long};
use crate::format::fits;
use crate::message::{GameMessage, MessageView, Payload, PayloadView};
use crate::server::{datagram_for, datagram_to};
use crate::text::copy_text;
use crate::world::{Game, GameView};

verus! {

/// What the user of a follower may ask for.
#[derive(Clone, Copy, Debug, PartialEq, Eq, Structural)]
pub enum InputEvent {
    /// Head the snake in a direction.
    Arrow(Direction),
    /// Turn from a viewer into a player.
    BecomePlayer,
    /// Turn from a player into a viewer.
    BecomeViewer,
    /// Leave the game.
    Quit,
    /// Nothing.
    Idle,
}

/// What a follower does once its master is lost.
#[derive(Clone, Debug)]
pub enum Succession {
    /// The follower is the deputy: it takes over as master.
    BecomeMaster,
    /// The follower turns to the deputy at the given address.
    Reconnect(String),
    /// No deputy is known: the follower gives up.
    Terminate,
}

/// The mathematical value of a [`Succession`].
pub enum SuccessionView {
    BecomeMaster,
    Reconnect(Seq<char>),
    Terminate,
}

impl View for Succession {
    type V = SuccessionView;

    open spec fn view(&self) -> SuccessionView {
        match self {
            Succession::BecomeMaster => SuccessionView::BecomeMaster,
            Succession::Reconnect(addr) => SuccessionView::Reconnect(addr@),
            Succession::Terminate => SuccessionView::Terminate,
        }
    }
}

/// The state of a follower.
#[derive(Clone, Debug)]
pub struct Client {
    pub game: Game,
    pub player_name: String,
    /// The id that the master gave to the follower's player.
    pub id: i32,
    pub role: NodeRole,
    /// The `host:port` of the master.
    pub master: String,
    /// The channel to the master.
    pub channel: ReliableChannel,
}

/// The mathematical value of a [`Client`].
pub struct ClientView {
    pub game: GameView,
    pub player_name: Seq<char>,
    pub id: i32,
    pub role: NodeRole,
    pub master: Seq<char>,
    pub channel: ChannelView,
}

impl View for Client {
    type V = ClientView;

    open spec fn view(&self) -> ClientView {
        ClientView {
            game: self.game@,
            player_name: self.player_name@,
            id: self.id,
            role: self.role,
            master: self.master@,
            channel: self.channel@,
        }
    }
}

/// The index of the first player with the role `role`.
pub open spec fn role_index(players: Seq<PlayerView>, role: NodeRole) -> Option<int>
    decreases players.len(),
{
    if players.len() == 0 {
        None
    } else {
        match role_index(players.drop_last(), role) {
            Some(i) => Some(i),
            None => if players.last().role == role {
                Some(players.len() - 1)
            } else {
                None
            },
        }
    }
}

/// The index of the deputy among the players: the first player that has
/// the role of the deputy; where none has it, the first that was admitted
/// as a normal player serves as the deputy.
pub open spec fn deputy_index(players: Seq<PlayerView>) -> Option<int> {
    match role_index(players, NodeRole::DEPUTY) {
        Some(i) => Some(i),
        None => role_index(players, NodeRole::NORMAL),
    }
}

/// An index found in a prefix is the index in the whole list.
pub proof fn lemma_role_index_prefix(players: Seq<PlayerView>, n: int, role: NodeRole)
    requires
        0 <= n <= players.len(),
        role_index(players.subrange(0, n), role) is Some,
    ensures
        role_index(players, role) == role_index(players.subrange(0, n), role),
    decreases players.len() - n,
{
    if n < players.len() {
        assert(players.subrange(0, n + 1).drop_last() =~= players.subrange(0, n));
        lemma_role_index_prefix(players, n + 1, role);
    } else {
        assert(players.subrange(0, n) =~= players);
    }
}

impl ClientView {
    /// The game has a board, and the channel to the master is well formed.
    pub open spec fn wf(self) -> bool {
        &&& self.game.config.valid()
        &&& self.channel.wf()
    }

    /// The acknowledgement of a message with the sequence number `seq`.
    pub open spec fn ack(self, seq: i64) -> MessageView {
        MessageView {
            msg_seq: seq,
            sender_id: Some(self.id),
            receiver_id: None,
            payload: PayloadView::Ack,
        }
    }

    /// The follower after the message `m` has come in at the time `now`.
    ///
    /// A state or a role change is taken only if no later one has been
    /// taken before. A state replaces the board and the lists; a role
    /// change gives the follower the role that the master names, if it
    /// names one. An acknowledgement takes the message that it answers
    /// off the list of those that wait, and is a sign of life of the
    /// master. Everything else leaves the follower as it is.
    pub open spec fn received(self, m: MessageView, now: u64) -> ClientView {
        match m.payload {
            PayloadView::State { state } => if self.channel.accepts(m.msg_seq) {
                ClientView {
                    game: self.game.applied(state),
                    channel: self.channel.received(m.msg_seq),
                    ..self
                }
            } else {
                self
            },
            PayloadView::RoleChange { sender_role, receiver_role } => if self.channel.accepts(
                m.msg_seq,
            ) {
                ClientView {
                    role: match receiver_role {
                        Some(r) => r,
                        None => self.role,
                    },
                    channel: self.channel.received(m.msg_seq),
                    ..self
                }
            } else {
                self
            },
            PayloadView::Ack => ClientView {
                channel: ChannelView {
                    pending: acked(self.channel.pending, m.msg_seq),
                    last_seen_time: now,
                    ..self.channel
                },
                ..self
            },
            _ => self,
        }
    }

    /// The datagrams with which the follower answers the message `m`: a
    /// state and a role change are acknowledged, whether they are taken or not.
    pub open spec fn replies(self, m: MessageView) -> Seq<DatagramView> {
        match m.payload {
            PayloadView::State { .. } => datagram_for(self.master, self.ack(m.msg_seq)),
            PayloadView::RoleChange { .. } => datagram_for(self.master, self.ack(m.msg_seq)),
            _ => Seq::empty(),
        }
    }

    /// The message that the follower sends to the master with the given payload.
    pub open spec fn request(self, payload: PayloadView) -> MessageView {
        MessageView { msg_seq: 0, sender_id: Some(self.id), receiver_id: None, payload }
    }

    /// The follower after it has sent the master a message with the given
    /// payload, if the message fits into a datagram.
    pub open spec fn asked(self, payload: PayloadView, now: u64) -> ClientView {
        if fits(self.channel.stamped(self.request(payload))) {
            ClientView {
                channel: self.channel.after_send(self.request(payload), self.master, now),
                ..self
            }
        } else {
            self
        }
    }

    /// The datagram that carries a message with the given payload to the master.
    pub open spec fn asking(self, payload: PayloadView) -> Seq<DatagramView> {
        datagram_for(self.master, self.channel.stamped(self.request(payload)))
    }

    /// What the user's input asks of the master, if anything.
    pub open spec fn wish(event: InputEvent) -> Option<PayloadView> {
        match event {
            InputEvent::Arrow(direction) => Some(PayloadView::Steer { direction }),
            InputEvent::BecomePlayer => Some(
                PayloadView::RoleChange { sender_role: Some(NodeRole::NORMAL), receiver_role: None },
            ),
            InputEvent::BecomeViewer => Some(
                PayloadView::RoleChange { sender_role: Some(NodeRole::VIEWER), receiver_role: None },
            ),
            InputEvent::Quit => None,
            InputEvent::Idle => None,
        }
    }

    /// What the follower does once the master is lost: if it has been given
    /// the role of the deputy, or its own player is the deputy among the
    /// players, it takes over; else it turns to the deputy; if there is
    /// none, it gives up.
    pub open spec fn succession(self) -> SuccessionView {
        if self.role == NodeRole::DEPUTY {
            SuccessionView::BecomeMaster
        } else {
            match deputy_index(self.game.players) {
                None => SuccessionView::Terminate,
                Some(i) => if self.game.players[i].id == self.id {
                    SuccessionView::BecomeMaster
                } else {
                    SuccessionView::Reconnect(self.game.players[i].ip_address)
                },
            }
        }
    }
}

impl Client {
    /// The follower is well formed; see [`ClientView::wf`].
    pub open spec fn wf(&self) -> bool {
        self@.wf()
    }

    /// A follower of the master at `addr` that has just joined, at the time `now`.
    pub fn new(
        config: Config,
        player_name: String,
        player_id: i32,
        role: NodeRole,
        addr: String,
        now: u64,
    ) -> (c: Client)
        requires
            config.valid(),
        ensures
            c.wf(),
            c.game.wf(),
            c@ == (ClientView {
                game: GameView::blank(config),
                player_name: player_name@,
                id: player_id,
                role,
                master: addr@,
                channel: crate::server::fresh_channel(now),
            }),
    {
        Client {
            game: Game::new(config),
            player_name,
            id: player_id,
            role,
            master: addr,
            channel: ReliableChannel::new(now),
        }
    }

    /// The acknowledgement of a message with the sequence number `seq`, as
    /// a datagram to the master.
    pub fn send_ack(&self, seq: i64) -> (out: Vec<Datagram>)
        ensures
            datagram_views(out@) == datagram_for(self@.master, self@.ack(seq)),
    {
        let m = GameMessage {
            msg_seq: seq,
            sender_id: Some(self.id),
            receiver_id: None,
            payload: Payload::Ack,
        };
        datagram_to(&self.master, &m)
    }

    /// Takes a message that came in from the master at the time `now`, and
    /// returns the datagrams that answer it.
    pub fn receive(&mut self, msg: GameMessage, now: u64) -> (out: Vec<Datagram>)
        requires
            old(self).wf(),
        ensures
            final(self).wf(),
            final(self)@ == old(self)@.received(msg@, now),
            datagram_views(out@) == old(self)@.replies(msg@),
    {
        let seq: i64 = msg.msg_seq;
        match msg.payload {
            Payload::State { state } => {
                let out = self.send_ack(seq);
                if self.channel.accept(seq) {
                    self.game.apply_state(state, seq);
                }
                out
            },
            Payload::RoleChange { sender_role, receiver_role } => {
                let out = self.send_ack(seq);
                if self.channel.accept(seq) {
                    match receiver_role {
                        Some(r) => {
                            self.role = r;
                        },
                        None => {},
                    }
                }
                out
            },
            Payload::Ack => {
                self.channel.on_ack(seq, now);
                let out: Vec<Datagram> = Vec::new();
                proof {
                    assert(datagram_views(out@) =~= Seq::empty());
                }
                out
            },
            _ => {
                let out: Vec<Datagram> = Vec::new();
                proof {
                    assert(datagram_views(out@) =~= Seq::empty());
                }
                out
            },
        }
    }

    /// Sends the master a message with the given payload through the channel.
    fn ask(&mut self, payload: Payload, now: u64) -> (out: Vec<Datagram>)
        requires
            old(self).wf(),
        ensures
            final(self).wf(),
            final(self)@ == old(self)@.asked(payload@, now),
            datagram_views(out@) == old(self)@.asking(payload@),
    {
        let m = GameMessage { msg_seq: 0, sender_id: Some(self.id), receiver_id: None, payload };
        let mut out: Vec<Datagram> = Vec::new();
        match self.channel.send(m, &self.master, now) {
            Some(d) => {
                out.push(d);
            },
            None => {},
        }
        proof {
            assert(datagram_views(out@) =~= old(self)@.asking(payload@));
        }
        out
    }

    /// Asks the master to head the follower's snake in the direction `dir`.
    pub fn send_steer(&mut self, dir: Direction, now: u64) -> (out: Vec<Datagram>)
        requires
            old(self).wf(),
        ensures
            final(self).wf(),
            final(self)@ == old(self)@.asked(PayloadView::Steer { direction: dir }, now),
            datagram_views(out@) == old(self)@.asking(PayloadView::Steer { direction: dir }),
    {
        self.ask(Payload::Steer { direction: dir }, now)
    }

    /// Asks the master to make the follower a player.
    pub fn send_change_player(&mut self, now: u64) -> (out: Vec<Datagram>)
        requires
            old(self).wf(),
        ensures
            final(self).wf(),
            final(self)@ == old(self)@.asked(ClientView::wish(InputEvent::BecomePlayer)->0, now),
            datagram_views(out@) == old(self)@.asking(ClientView::wish(InputEvent::BecomePlayer)->0),
    {
        self.ask(Payload::RoleChange { sender_role: Some(NodeRole::NORMAL), receiver_role: None }, now)
    }

    /// Asks the master to make the follower a viewer.
    pub fn send_change_viewer(&mut self, now: u64) -> (out: Vec<Datagram>)
        requires
            old(self).wf(),
        ensures
            final(self).wf(),
            final(self)@ == old(self)@.asked(ClientView::wish(InputEvent::BecomeViewer)->0, now),
            datagram_views(out@) == old(self)@.asking(ClientView::wish(InputEvent::BecomeViewer)->0),
    {
        self.ask(Payload::RoleChange { sender_role: Some(NodeRole::VIEWER), receiver_role: None }, now)
    }

    /// Takes an input of the user: an arrow asks the master to steer, the
    /// two role keys ask it for a role; nothing else is sent.
    pub fn on_input(&mut self, event: InputEvent, now: u64) -> (out: Vec<Datagram>)
        requires
            old(self).wf(),
        ensures
            final(self).wf(),
            match ClientView::wish(event) {
                Some(payload) => final(self)@ == old(self)@.asked(payload, now) && datagram_views(
                    out@,
                ) == old(self)@.asking(payload),
                None => final(self)@ == old(self)@ && out@.len() == 0,
            },
    {
        match event {
            InputEvent::Arrow(direction) => self.send_steer(direction, now),
            InputEvent::BecomePlayer => self.send_change_player(now),
            InputEvent::BecomeViewer => self.send_change_viewer(now),
            InputEvent::Quit => Vec::new(),
            InputEvent::Idle => Vec::new(),
        }
    }

    /// Sends the master a ping if it is due for one: the master has been
    /// silent for longer than the retransmission delay, and no ping waits
    /// for its acknowledgement.
    pub fn check_ping(&mut self, now: u64) -> (out: Vec<Datagram>)
        requires
            old(self).wf(),
        ensures
            final(self).wf(),
            old(self)@.channel.ping_due(now, old(self)@.game.config.state_delay_ms) ==> final(self)@
                == old(self)@.asked(PayloadView::Ping, now) && datagram_views(out@) == old(self)@.asking(PayloadView::Ping),
            !old(self)@.channel.ping_due(now, old(self)@.game.config.state_delay_ms) ==> final(self)@ == old(self)@ && out@.len() == 0,
    {
        if self.channel.should_ping(now, self.game.config.state_delay_ms) {
            self.ask(Payload::Ping, now)
        } else {
            Vec::new()
        }
    }

    /// Retransmits what waits for an acknowledgement and is due; see
    /// [`crate::channel::ReliableChannel::tick`].
    pub fn check_pending(&mut self, now: u64) -> (out: Vec<Datagram>)
        requires
            old(self).wf(),
        ensures
            final(self).wf(),
            final(self)@ == (ClientView {
                channel: ChannelView {
                    pending: retained(
                        old(self)@.channel.pending,
                        now,
                        retransmit_delay(old(self)@.game.config.state_delay_ms),
                    ),
                    ..old(self)@.channel
                },
                ..old(self)@
            }),
            datagram_views(out@) == emitted(
                old(self)@.channel.pending,
                now,
                retransmit_delay(old(self)@.game.config.state_delay_ms),
            ),
    {
        self.channel.tick(now, self.game.config.state_delay_ms)
    }

    /// Whether the master has been silent for so long that it is given up.
    pub fn master_lost(&self, now: u64) -> (r: bool)
        ensures
            r == silent_too_long(
                now,
                self@.channel.last_seen_time,
                self@.game.config.state_delay_ms,
            ),
    {
        self.channel.expired(now, self.game.config.state_delay_ms)
    }

    /// The index of the first player with the role `role`.
    pub fn find_role(&self, role: NodeRole) -> (r: Option<usize>)
        ensures
            r is Some <==> role_index(self@.game.players, role) is Some,
            r is Some ==> r->0 as int == role_index(self@.game.players, role)->0 && r->0
                < self.game.players.len(),
    {
        let ghost all = self@.game.players;
        let mut i: usize = 0;
        while i < self.game.players.len()
            invariant
                i <= self.game.players.len(),
                all == self@.game.players,
                role_index(all.subrange(0, i as int), role) is None,
            decreases self.game.players.len() - i,
        {
            proof {
                assert(all.subrange(0, i + 1).drop_last() =~= all.subrange(0, i as int));
                assert(all.subrange(0, i + 1).last() == self.game.players[i as int]@);
            }
            if self.game.players[i].role == role {
                proof {
                    assert(role_index(all.subrange(0, i + 1), role) == Some(i as int));
                    lemma_role_index_prefix(all, i + 1, role);
                }
                return Some(i);
            }
            i += 1;
        }
        proof {
            assert(all.subrange(0, i as int) =~= all);
        }
        None
    }

    /// The index of the deputy among the players.
    pub fn find_deputy(&self) -> (r: Option<usize>)
        ensures
            r is Some <==> deputy_index(self@.game.players) is Some,
            r is Some ==> r->0 as int == deputy_index(self@.game.players)->0 && r->0
                < self.game.players.len(),
    {
        match self.find_role(NodeRole::DEPUTY) {
            Some(i) => Some(i),
            None => self.find_role(NodeRole::NORMAL),
        }
    }

    /// What the follower does once the master is lost.
    pub fn play(&self) -> (r: Succession)
        ensures
            r@ == self@.succession(),
    {
        if self.role == NodeRole::DEPUTY {
            return Succession::BecomeMaster;
        }
        match self.find_deputy() {
            None => Succession::Terminate,
            Some(i) => {
                proof {
                    assert(self@.game.players[i as int] == self.game.players[i as int]@);
                }
                if self.game.players[i].id == self.id {
                    Succession::BecomeMaster
                } else {
                    Succession::Reconnect(copy_text(&self.game.players[i].ip_address))
                }
            },
        }
    }

    /// Turns to another master, at `addr`: the channel starts anew at the time `now`.
    pub fn reconnect(&mut self, addr: String, now: u64)
        requires
            old(self).wf(),
        ensures
            final(self).wf(),
            final(self)@ == (ClientView {
                master: addr@,
                channel: crate::server::fresh_channel(now),
                ..old(self)@
            }),
    {
        self.master = addr;
        self.channel = ReliableChannel::new(now);
    }

    /// Takes a datagram that came in from the master at the time `now`, and
    /// returns the datagrams that answer it. Bytes that are no message are
    /// passed over: nothing changes and nothing is sent, no acknowledgement
    /// either. A message is taken as [`Client::receive`] takes it.
    pub fn receive_datagram(&mut self, bytes: &Vec<u8>, now: u64) -> (out: Vec<Datagram>)
        requires
            old(self).wf(),
        ensures
            final(self).wf(),
            match crate::format::parse(bytes@) {
                None => final(self)@ == old(self)@ && out@.len() == 0,
                Some(m) => final(self)@ == old(self)@.received(m, now) && datagram_views(out@) == old(
                    self,
                )@.replies(m),
            },
    {
        match crate::codec::decode(bytes) {
            None => Vec::new(),
            Some(msg) => self.receive(msg, now),
        }
    }
}

} // verus!
