use vstd::prelude::*;

verus! {

/// Identifier of a player or of a room.
pub type IdType = u64;

/// What a player looks like, as the client described it; compared by value.
pub struct PlayerCosmetics {
    pub descriptor: String,
}

impl PlayerCosmetics {
    pub fn same_as(&self, other: &PlayerCosmetics) -> (r: bool)
        ensures
            r == (self.descriptor@ == other.descriptor@),
    {
        self.descriptor == other.descriptor
    }

    pub fn snapshot(&self) -> (r: PlayerCosmetics)
        ensures
            r == *self,
    {
        PlayerCosmetics { descriptor: self.descriptor.clone() }
    }
}

/// The profile a client logs in with.
pub struct LoginData {
    pub username: String,
    pub cosmetics: PlayerCosmetics,
}

/// A player's public profile, as room peers see it.
pub struct PlayerObject {
    pub id: IdType,
    pub username: String,
    pub cosmetics: PlayerCosmetics,
    pub is_host: bool,
}

impl PlayerObject {
    pub fn snapshot(&self) -> (r: PlayerObject)
        ensures
            r == *self,
    {
        PlayerObject {
            id: self.id,
            username: self.username.clone(),
            cosmetics: self.cosmetics.snapshot(),
            is_host: self.is_host,
        }
    }
}

/// How the members of a started room reach each other during the match.
#[derive(Clone, Copy, PartialEq, Eq, Structural, Debug)]
pub enum RoomConnectionType {
    /// Gameplay traffic goes through this server's relay.
    Relay,
    /// Members connect to each other directly.
    Direct,
}

/// Notifications for members that are in the lobby view of a room.
pub enum OutEvent {
    EventPlayerJoined { player: PlayerObject },
    EventPlayerLeft { player: IdType, new_host: Option<IdType> },
    EventPlayerAvatarChange { player: IdType, cosmetics: PlayerCosmetics },
    /// `broadcast_id` is the room's identifier; it labels the match's session.
    EventRoomStart { connection_type: RoomConnectionType, broadcast_id: IdType },
}

impl OutEvent {
    pub fn snapshot(&self) -> (r: OutEvent)
        ensures
            r == *self,
    {
        match self {
            OutEvent::EventPlayerJoined { player } => OutEvent::EventPlayerJoined { player: player.snapshot() },
            OutEvent::EventPlayerLeft { player, new_host } => OutEvent::EventPlayerLeft { player: *player, new_host: *new_host },
            OutEvent::EventPlayerAvatarChange { player, cosmetics } => OutEvent::EventPlayerAvatarChange {
                player: *player,
                cosmetics: cosmetics.snapshot(),
            },
            OutEvent::EventRoomStart { connection_type, broadcast_id } => OutEvent::EventRoomStart {
                connection_type: *connection_type,
                broadcast_id: *broadcast_id,
            },
        }
    }
}

/// Notifications for members that are inside a running match.
pub enum OutGameEvent {
    PlayerLeft { player: IdType, new_host: Option<IdType> },
}

} // verus!
