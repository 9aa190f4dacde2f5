//! The messages that the nodes of a game exchange.

use vstd::prelude::*;
use crate::base::{player_views, Config, Direction, GamePlayer, GameState, NodeRole, PlayerType};
use crate::base::{PlayerView, StateView};

verus! {

/// The advertisement of a game that can be joined.
#[derive(Clone, Debug)]
pub struct GameAnnouncement {
    pub players: Vec<GamePlayer>,
    pub config: Config,
    pub can_join: bool,
    pub game_name: String,
}

/// The mathematical value of a [`GameAnnouncement`].
pub struct AnnouncementView {
    pub players: Seq<PlayerView>,
    pub config: Config,
    pub can_join: bool,
    pub game_name: Seq<char>,
}

impl View for GameAnnouncement {
    type V = AnnouncementView;

    open spec fn view(&self) -> AnnouncementView {
        AnnouncementView {
            players: player_views(self.players@),
            config: self.config,
            can_join: self.can_join,
            game_name: self.game_name@,
        }
    }
}

/// The values of a list of announcements, element by element.
pub open spec fn announcement_views(s: Seq<GameAnnouncement>) -> Seq<AnnouncementView> {
    Seq::new(s.len(), |i: int| s[i]@)
}

/// What a message carries: exactly one of nine kinds.
#[derive(Clone, Debug)]
pub enum Payload {
    Ping,
    Steer { direction: Direction },
    Ack,
    State { state: GameState },
    Announcement { games: Vec<GameAnnouncement> },
    Join { player_type: PlayerType, player_name: String, game_name: String, requested_role: NodeRole },
    Error { error_message: String },
    RoleChange { sender_role: Option<NodeRole>, receiver_role: Option<NodeRole> },
    Discover,
}

/// The mathematical value of a [`Payload`].
pub enum PayloadView {
    Ping,
    Steer { direction: Direction },
    Ack,
    State { state: StateView },
    Announcement { games: Seq<AnnouncementView> },
    Join {
        player_type: PlayerType,
        player_name: Seq<char>,
        game_name: Seq<char>,
        requested_role: NodeRole,
    },
    Error { error_message: Seq<char> },
    RoleChange { sender_role: Option<NodeRole>, receiver_role: Option<NodeRole> },
    Discover,
}

impl View for Payload {
    type V = PayloadView;

    open spec fn view(&self) -> PayloadView {
        match self {
            Payload::Ping => PayloadView::Ping,
            Payload::Steer { direction } => PayloadView::Steer { direction: *direction },
            Payload::Ack => PayloadView::Ack,
            Payload::State { state } => PayloadView::State { state: state@ },
            Payload::Announcement { games } => PayloadView::Announcement {
                games: announcement_views(games@),
            },
            Payload::Join { player_type, player_name, game_name, requested_role } => PayloadView::Join {
                player_type: *player_type,
                player_name: player_name@,
                game_name: game_name@,
                requested_role: *requested_role,
            },
            Payload::Error { error_message } => PayloadView::Error { error_message: error_message@ },
            Payload::RoleChange { sender_role, receiver_role } => PayloadView::RoleChange {
                sender_role: *sender_role,
                receiver_role: *receiver_role,
            },
            Payload::Discover => PayloadView::Discover,
        }
    }
}

impl PayloadView {
    /// The receiver of such a message answers it with an `Ack`.
    pub open spec fn needs_ack(self) -> bool {
        self is Ping || self is Join || self is Steer || self is RoleChange || self is State
    }
}

impl Payload {
    /// Whether the receiver of such a message answers it with an `Ack`:
    /// `Ping`, `Join`, `Steer`, `RoleChange` and `State` are acknowledged,
    /// `Ack`, `Discover`, `Announcement` and `Error` are not.
    pub fn needs_ack(&self) -> (r: bool)
        ensures
            r == self@.needs_ack(),
    {
        match self {
            Payload::Ping => true,
            Payload::Join { .. } => true,
            Payload::Steer { .. } => true,
            Payload::RoleChange { .. } => true,
            Payload::State { .. } => true,
            _ => false,
        }
    }
}

/// The envelope of every message.
#[derive(Clone, Debug)]
pub struct GameMessage {
    /// The sender's sequence number of the message.
    pub msg_seq: i64,
    pub sender_id: Option<i32>,
    pub receiver_id: Option<i32>,
    pub payload: Payload,
}

/// The mathematical value of a [`GameMessage`].
pub struct MessageView {
    pub msg_seq: i64,
    pub sender_id: Option<i32>,
    pub receiver_id: Option<i32>,
    pub payload: PayloadView,
}

impl View for GameMessage {
    type V = MessageView;

    open spec fn view(&self) -> MessageView {
        MessageView {
            msg_seq: self.msg_seq,
            sender_id: self.sender_id,
            receiver_id: self.receiver_id,
            payload: self.payload@,
        }
    }
}

} // verus!
