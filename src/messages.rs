use vstd::prelude::*;
use crate::protocol::{IdType, LoginData, OutEvent, OutGameEvent, PlayerCosmetics, PlayerObject, RoomConnectionType};

verus! {

/// A lobby notification for one connection.
pub struct Event(pub OutEvent);

/// An in-match notification for one connection.
pub struct GameEvent(pub OutGameEvent);

/// A relayed gameplay payload, already stamped with its sender.
pub struct SendRelayMexRaw {
    pub data: Vec<u8>,
}

/// What the coordinator asks to have pushed to a connection.
pub enum Outbound {
    Event(Event),
    Game(GameEvent),
    Relay(SendRelayMexRaw),
}

/// One outbound message and the player whose connection receives it.
pub struct Delivery {
    pub to: IdType,
    pub message: Outbound,
}

/// A connection introduces itself, with the id it had before if it reconnects.
pub struct RegisterSession {
    pub id: Option<IdType>,
    pub obj: LoginData,
}

pub struct Disconnect {
    pub id: IdType,
}

pub struct EditCosmetics {
    pub id: IdType,
    pub obj: PlayerCosmetics,
}

impl EditCosmetics {
    pub open spec fn cosmetics_view(&self) -> Seq<char> {
        self.obj.descriptor@
    }
}

pub struct FindRoom {
    pub id: IdType,
}

pub enum FindRoomResult {
    Success { room_id: IdType, players: Vec<PlayerObject>, just_created: bool },
    GameIsFull,
}

pub struct CreateRoom {
    pub id: IdType,
}

pub struct CreateRoomResult {
    pub room_id: IdType,
    pub player: PlayerObject,
}

pub struct JoinRoom {
    pub id: IdType,
    pub room_id: IdType,
}

pub enum JoinRoomResult {
    Success(Vec<PlayerObject>),
    RoomNotFound,
    AlreadyPlaying,
}

pub struct LeaveRoom {
    pub id: IdType,
}

pub struct StartRoom {
    pub id: IdType,
    pub conn_type: RoomConnectionType,
}

/// A gameplay payload from a player in a match; its leading field names the sender.
pub struct SendRelayMex {
    pub sender_id: IdType,
    pub data: Vec<u8>,
}

pub struct GameEndRequest {
    pub id: IdType,
}

/// The room's member profiles, handed back when a player leaves a match.
pub struct GameEndAck(pub Vec<PlayerObject>);

} // verus!
