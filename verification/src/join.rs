//! The handshake by which a node joins a game: it asks the master what it
//! offers, picks the game by its name, asks to join, and is given an id.
//!
//! The handshake does no I/O. [`discover`] gives the first datagram to
//! send; every message that comes back goes to [`Joining::on_message`],
//! which says what to do next.

use vstd::prelude::*;
use crate::base::{Config, NodeRole, PlayerType};
use crate::channel::{datagram_views, Datagram, DatagramView};
use crate::client::{Client, ClientView};
use crate::message::{announcement_views, AnnouncementView, GameAnnouncement, GameMessage};
use crate::message::{MessageView, Payload, PayloadView};
use crate::text::same_text;
use crate::server::{datagram_for, datagram_to, fresh_channel};
use crate::text::copy_text;

verus! {

/// Why a handshake failed.
#[derive(Clone, Copy, Debug, PartialEq, Eq, Structural)]
pub enum JoinError {
    /// The master offers no game of the name that was asked for.
    NoSuchGame,
    /// The master sent something else than the handshake expects.
    Unexpected,
    /// The game that the master offers has no board.
    InvalidConfig,
    /// The names are so long that the request to join fits into no datagram.
    TooLong,
}

impl JoinError {
    /// What the error says to the user.
    pub fn message(&self) -> (r: &'static str)
        ensures
            r@ == (match *self {
                JoinError::NoSuchGame => "No game with this name was found"@,
                JoinError::Unexpected => "Unexpected message from server"@,
                JoinError::InvalidConfig => "The game has no board"@,
                JoinError::TooLong => "The names are too long for a datagram"@,
            }),
    {
        match self {
            JoinError::NoSuchGame => "No game with this name was found",
            JoinError::Unexpected => "Unexpected message from server",
            JoinError::InvalidConfig => "The game has no board",
            JoinError::TooLong => "The names are too long for a datagram",
        }
    }
}

/// A handshake that is under way.
#[derive(Clone, Debug)]
pub struct Joining {
    /// The `host:port` of the master.
    pub addr: String,
    pub game_name: String,
    pub player_name: String,
    /// The role that the node asks for.
    pub role: NodeRole,
    /// The parameters of the game, once the master has announced it.
    pub config: Option<Config>,
}

/// The mathematical value of a [`Joining`].
pub struct JoiningView {
    pub addr: Seq<char>,
    pub game_name: Seq<char>,
    pub player_name: Seq<char>,
    pub role: NodeRole,
    pub config: Option<Config>,
}

impl View for Joining {
    type V = JoiningView;

    open spec fn view(&self) -> JoiningView {
        JoiningView {
            addr: self.addr@,
            game_name: self.game_name@,
            player_name: self.player_name@,
            role: self.role,
            config: self.config,
        }
    }
}

/// What a message means for a handshake.
#[derive(Clone, Debug)]
pub enum JoinStep {
    /// The datagrams are to be sent, and the handshake goes on.
    Send(Vec<Datagram>),
    /// The node has joined.
    Done(Client),
    /// The handshake has failed.
    Failed(JoinError),
}

/// The mathematical value of a [`JoinStep`].
pub enum JoinStepView {
    Send(Seq<DatagramView>),
    Done(ClientView),
    Failed(JoinError),
}

impl View for JoinStep {
    type V = JoinStepView;

    open spec fn view(&self) -> JoinStepView {
        match self {
            JoinStep::Send(out) => JoinStepView::Send(datagram_views(out@)),
            JoinStep::Done(client) => JoinStepView::Done(client@),
            JoinStep::Failed(e) => JoinStepView::Failed(*e),
        }
    }
}

/// The message that asks a master what it offers.
pub open spec fn discover_message() -> MessageView {
    MessageView { msg_seq: 0, sender_id: None, receiver_id: None, payload: PayloadView::Discover }
}

/// The index of the first game with the given name.
pub open spec fn game_index(games: Seq<AnnouncementView>, name: Seq<char>) -> Option<int>
    decreases games.len(),
{
    if games.len() == 0 {
        None
    } else {
        match game_index(games.drop_last(), name) {
            Some(i) => Some(i),
            None => if games.last().game_name == name {
                Some(games.len() - 1)
            } else {
                None
            },
        }
    }
}

/// An index found in a prefix is the index in the whole list.
pub proof fn lemma_game_index_prefix(games: Seq<AnnouncementView>, n: int, name: Seq<char>)
    requires
        0 <= n <= games.len(),
        game_index(games.subrange(0, n), name) is Some,
    ensures
        game_index(games, name) == game_index(games.subrange(0, n), name),
    decreases games.len() - n,
{
    if n < games.len() {
        assert(games.subrange(0, n + 1).drop_last() =~= games.subrange(0, n));
        lemma_game_index_prefix(games, n + 1, name);
    } else {
        assert(games.subrange(0, n) =~= games);
    }
}

impl JoiningView {
    /// The message that asks to join the game.
    pub open spec fn join_message(self) -> MessageView {
        MessageView {
            msg_seq: 0,
            sender_id: None,
            receiver_id: None,
            payload: PayloadView::Join {
                player_type: PlayerType::HUMAN,
                player_name: self.player_name,
                game_name: self.game_name,
                requested_role: self.role,
            },
        }
    }

    /// The handshake after the message `m` has come in.
    pub open spec fn received(self, m: MessageView) -> JoiningView {
        match (self.config, m.payload) {
            (None, PayloadView::Announcement { games }) => match game_index(games, self.game_name) {
                Some(i) => if crate::format::fits(self.join_message()) {
                    JoiningView { config: Some(games[i].config), ..self }
                } else {
                    self
                },
                None => self,
            },
            _ => self,
        }
    }

    /// What the message `m` means for the handshake, at the time `now`.
    ///
    /// Before the game has been announced, only an announcement is
    /// expected: if it offers the game, the node asks to join, unless its
    /// request fits into no datagram. After that
    /// only an acknowledgement is expected: it carries the id of the
    /// node's player, and the node has joined.
    pub open spec fn step(self, m: MessageView, now: u64) -> JoinStepView {
        match self.config {
            None => match m.payload {
                PayloadView::Announcement { games } => match game_index(games, self.game_name) {
                    Some(i) => if crate::format::fits(self.join_message()) {
                        JoinStepView::Send(datagram_for(self.addr, self.join_message()))
                    } else {
                        JoinStepView::Failed(JoinError::TooLong)
                    },
                    None => JoinStepView::Failed(JoinError::NoSuchGame),
                },
                _ => JoinStepView::Failed(JoinError::Unexpected),
            },
            Some(config) => match m.payload {
                PayloadView::Ack => if config.valid() {
                    JoinStepView::Done(
                        ClientView {
                            game: crate::world::GameView::blank(config),
                            player_name: self.player_name,
                            id: match m.receiver_id {
                                Some(id) => id,
                                None => 0,
                            },
                            role: self.role,
                            master: self.addr,
                            channel: fresh_channel(now),
                        },
                    )
                } else {
                    JoinStepView::Failed(JoinError::InvalidConfig)
                },
                _ => JoinStepView::Failed(JoinError::Unexpected),
            },
        }
    }
}

/// The datagram that opens a handshake with the master at `addr`.
pub fn discover(addr: &String) -> (out: Vec<Datagram>)
    ensures
        datagram_views(out@) == datagram_for(addr@, discover_message()),
{
    let m = GameMessage { msg_seq: 0, sender_id: None, receiver_id: None, payload: Payload::Discover };
    datagram_to(addr, &m)
}

/// The index of the first game with the given name.
pub fn find_game(games: &Vec<GameAnnouncement>, name: &String) -> (r: Option<usize>)
    ensures
        r is Some <==> game_index(announcement_views(games@), name@) is Some,
        r is Some ==> r->0 as int == game_index(announcement_views(games@), name@)->0 && r->0
            < games.len(),
{
    let ghost all = announcement_views(games@);
    let mut i: usize = 0;
    while i < games.len()
        invariant
            i <= games.len(),
            all == announcement_views(games@),
            game_index(all.subrange(0, i as int), name@) is None,
        decreases games.len() - i,
    {
        proof {
            assert(all.subrange(0, i + 1).drop_last() =~= all.subrange(0, i as int));
            assert(all.subrange(0, i + 1).last() == games[i as int]@);
        }
        if same_text(&games[i].game_name, name) {
            proof {
                assert(game_index(all.subrange(0, i + 1), name@) == Some(i as int));
                lemma_game_index_prefix(all, i + 1, name@);
            }
            return Some(i);
        }
        i += 1;
    }
    proof {
        assert(all.subrange(0, i as int) =~= all);
    }
    None
}

impl Joining {
    /// A handshake with the master at `addr`, before anything has come back.
    pub fn new(addr: String, game_name: String, player_name: String, role: NodeRole) -> (j: Joining)
        ensures
            j@ == (JoiningView {
                addr: addr@,
                game_name: game_name@,
                player_name: player_name@,
                role,
                config: None,
            }),
    {
        Joining { addr, game_name, player_name, role, config: None }
    }

    /// Takes a message that came back from the master at the time `now`,
    /// and says what to do next.
    pub fn on_message(&mut self, msg: &GameMessage, now: u64) -> (step: JoinStep)
        ensures
            step@ == old(self)@.step(msg@, now),
            final(self)@ == old(self)@.received(msg@),
    {
        match self.config {
            None => match &msg.payload {
                Payload::Announcement { games } => match find_game(games, &self.game_name) {
                    Some(i) => {
                        proof {
                            assert(announcement_views(games@)[i as int] == games[i as int]@);
                        }
                        let m = GameMessage {
                            msg_seq: 0,
                            sender_id: None,
                            receiver_id: None,
                            payload: Payload::Join {
                                player_type: PlayerType::HUMAN,
                                player_name: copy_text(&self.player_name),
                                game_name: copy_text(&self.game_name),
                                requested_role: self.role,
                            },
                        };
                        let out = datagram_to(&self.addr, &m);
                        proof {
                            assert(m@ == self@.join_message());
                            assert(datagram_views(out@).len() == out@.len());
                        }
                        if out.len() == 0 {
                            JoinStep::Failed(JoinError::TooLong)
                        } else {
                            self.config = Some(games[i].config);
                            JoinStep::Send(out)
                        }
                    },
                    None => JoinStep::Failed(JoinError::NoSuchGame),
                },
                _ => JoinStep::Failed(JoinError::Unexpected),
            },
            Some(config) => match &msg.payload {
                Payload::Ack => {
                    if config.is_valid() {
                        let id: i32 = match msg.receiver_id {
                            Some(id) => id,
                            None => 0,
                        };
                        let client = Client::new(
                            config,
                            copy_text(&self.player_name),
                            id,
                            self.role,
                            copy_text(&self.addr),
                            now,
                        );
                        JoinStep::Done(client)
                    } else {
                        JoinStep::Failed(JoinError::InvalidConfig)
                    }
                },
                _ => JoinStep::Failed(JoinError::Unexpected),
            },
        }
    }
}

} // verus!
