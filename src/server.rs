use vstd::prelude::*;
use std::collections::HashMap;
use crate::relay::{copy_bytes, is_record, stamp_sender, stamped};
use crate::protocol::{IdType, OutEvent, OutGameEvent, PlayerObject};
use crate::messages::{
    CreateRoom, CreateRoomResult, Delivery, Disconnect, EditCosmetics, Event, FindRoom,
    FindRoomResult, GameEndAck, GameEndRequest, GameEvent, JoinRoom, JoinRoomResult, LeaveRoom,
    Outbound, RegisterSession, SendRelayMex, SendRelayMexRaw, StartRoom,
};
use crate::model::{
    Lobby, RoomView, added, count_flag, created, ended, evict_notices, evicted, in_game_members,
    in_match, leave, leave_notices, left_notice, lemma_add_ok, lemma_create_ok, lemma_ended_ok,
    lemma_leave_ok, lemma_left, lemma_others, lemma_record_ok, lemma_remove_ok,
    lemma_start_requested_ok, lemma_started_ok, lobby_broadcast, lobby_ok, others, player_ok,
    profiles, room_of, room_ok, start_notices, start_requested, started,
};

verus! {

broadcast use vstd::std_specs::hash::group_hash_axioms;

/// Relies on rand::random: a value drawn from the whole range of the type,
/// from the thread-local generator. Nothing is known of the value.
pub assume_specification<T>[ rand::random::<T> ]() -> (r: T)
    where
        rand::distributions::Standard: rand::distributions::Distribution<T>,
;

#[derive(Clone, Copy, PartialEq, Eq, Structural, Debug)]
pub enum RoomState {
    Matchmaking,
    Playing,
}

/// A registered player.
pub struct UserData {
    pub obj: PlayerObject,
    pub room: Option<IdType>,
    pub in_game: bool,
}

/// A live room. `players` lists its members in the order they joined.
pub struct RoomData {
    pub state: RoomState,
    pub players: Vec<IdType>,
    pub in_game_count: usize,
}

/// The coordinator's whole state: both registries and the matchmaking pool.
pub struct ServerActor {
    pub players: HashMap<IdType, UserData>,
    pub rooms: HashMap<IdType, RoomData>,
    /// The rooms open to public matchmaking, oldest first.
    pub available_rooms: Vec<IdType>,
}

/// `v` without `x`, keeping the order of the rest.
fn without(v: &Vec<IdType>, x: IdType) -> (r: Vec<IdType>)
    ensures
        r@ == others(v@, x),
{
    let mut r: Vec<IdType> = Vec::new();
    let mut i: usize = 0;
    while i < v.len()
        invariant
            i <= v.len(),
            r@ == others(v@.take(i as int), x),
        decreases v.len() - i,
    {
        proof {
            reveal(Seq::filter);
            assert(v@.take(i as int + 1).drop_last() =~= v@.take(i as int));
            assert(v@.take(i as int + 1).last() == v@[i as int]);
        }
        if v[i] != x {
            r.push(v[i]);
        }
        i += 1;
    }
    proof {
        assert(v@.take(v.len() as int) =~= v@);
    }
    r
}

/// How many random identifiers are tried before falling back to a scan.
const RANDOM_DRAWS: u32 = 16;

/// An identifier that is not a key of `m`: a random one, retried on
/// collision, and after `RANDOM_DRAWS` collisions the smallest free one.
fn fresh_key<V>(m: &HashMap<IdType, V>) -> (r: IdType)
    ensures
        !m@.contains_key(r),
{
    let mut draws: u32 = 0;
    while draws < RANDOM_DRAWS
        decreases RANDOM_DRAWS - draws,
    {
        let id: IdType = rand::random::<IdType>();
        if !m.contains_key(&id) {
            return id;
        }
        draws += 1;
    }
    let n = m.len();
    let mut i: usize = 0;
    let ghost mut taken: Set<IdType> = Set::empty();
    loop
        invariant
            n == m@.dom().len(),
            m@.dom().finite(),
            taken.finite(),
            taken.len() == i,
            taken.subset_of(m@.dom()),
            forall|x: IdType| #[trigger] taken.contains(x) <==> (x as int) < i,
        decreases n - i,
    {
        proof {
            vstd::set_lib::lemma_len_subset(taken, m@.dom());
        }
        let id = i as IdType;
        if !m.contains_key(&id) {
            return id;
        }
        proof {
            assert(!taken.contains(id));
            vstd::set_lib::lemma_len_subset(taken.insert(id), m@.dom());
            taken = taken.insert(id);
        }
        i += 1;
    }
}

impl RoomData {
    pub open spec fn view(&self) -> RoomView {
        RoomView { state: self.state, players: self.players@, in_game_count: self.in_game_count }
    }
}

impl View for ServerActor {
    type V = Lobby;

    open spec fn view(&self) -> Lobby {
        Lobby {
            players: self.players@,
            rooms: self.rooms@.map_values(|r: RoomData| r.view()),
            pool: self.available_rooms@.to_set(),
        }
    }
}

impl ServerActor {
    /// The coordinator's invariant: the model's, and each pooled room listed once.
    pub open spec fn wf(&self) -> bool {
        &&& lobby_ok(self@)
        &&& self.available_rooms@.no_duplicates()
    }

    /// An empty coordinator: no players, no rooms, nothing to match.
    pub fn new() -> (r: ServerActor)
        ensures
            r@.players.is_empty(),
            r@.rooms.is_empty(),
            r@.pool.is_empty(),
            r.wf(),
    {
        let r = ServerActor { players: HashMap::new(), rooms: HashMap::new(), available_rooms: Vec::new() };
        proof {
            assert(r@.rooms =~= Map::empty());
            assert(r@.pool =~= Set::empty());
        }
        r
    }

    /// The notices for the members in `rest` that `player` has left.
    fn left_notices(&self, rest: &Vec<IdType>, player: IdType, new_host: Option<IdType>) -> (out: Vec<Delivery>)
        requires
            forall|i: int| 0 <= i < rest@.len() ==> self.players@.contains_key(#[trigger] rest@[i]),
        ensures
            out@.len() == rest@.len(),
            forall|i: int| 0 <= i < rest@.len() ==> #[trigger] out@[i] == left_notice(
                rest@[i],
                self.players@[rest@[i]].in_game,
                player,
                new_host,
            ),
    {
        let mut out: Vec<Delivery> = Vec::new();
        let mut i: usize = 0;
        while i < rest.len()
            invariant
                i <= rest@.len(),
                out@.len() == i,
                forall|k: int| 0 <= k < rest@.len() ==> self.players@.contains_key(#[trigger] rest@[k]),
                forall|k: int| 0 <= k < i ==> #[trigger] out@[k] == left_notice(
                    rest@[k],
                    self.players@[rest@[k]].in_game,
                    player,
                    new_host,
                ),
            decreases rest.len() - i,
        {
            let m = rest[i];
            let in_game = self.players.get(&m).unwrap().in_game;
            if in_game {
                out.push(Delivery { to: m, message: Outbound::Game(GameEvent(OutGameEvent::PlayerLeft { player, new_host })) });
            } else {
                out.push(Delivery { to: m, message: Outbound::Event(Event(OutEvent::EventPlayerLeft { player, new_host })) });
            }
            i += 1;
        }
        out
    }

    /// Takes `player_id` out of its room, if it is in one: the room loses the
    /// member (and a member in a match), the player loses its room, its match
    /// and its host flag, the earliest-joined remaining member becomes host if
    /// the player was host, and an emptied room is destroyed.
    fn leave_room_if_any(&mut self, player_id: IdType) -> (out: Vec<Delivery>)
        requires
            old(self).wf(),
        ensures
            final(self)@ == leave(old(self)@, player_id),
            out@ == leave_notices(old(self)@, player_id),
            final(self).wf(),
    {
        let ghost l = self@;
        proof {
            lemma_leave_ok(l, player_id);
        }
        let room_id = match self.players.get(&player_id) {
            Some(u) => match u.room {
                Some(r) => r,
                None => return Vec::new(),
            },
            None => return Vec::new(),
        };
        proof {
            assert(player_ok(l, player_id));
            assert(room_ok(l, room_id));
            lemma_others(l.rooms[room_id].players, player_id);
        }
        let mut user = self.players.remove(&player_id).unwrap();
        let mut room = self.rooms.remove(&room_id).unwrap();
        let was_host = user.obj.is_host;
        let was_in_game = user.in_game;
        user.room = None;
        user.obj.is_host = false;
        user.in_game = false;
        self.players.insert(player_id, user);
        let rest = without(&room.players, player_id);
        if rest.len() == 0 {
            let ghost pool = self.available_rooms@;
            self.available_rooms = without(&self.available_rooms, room_id);
            proof {
                lemma_others(pool, room_id);
                assert(self@.pool =~= l.pool.remove(room_id));
                assert(self@.rooms =~= leave(l, player_id).rooms);
                assert(self@.players =~= leave(l, player_id).players);
                assert(leave_notices(l, player_id) =~= Seq::empty());
            }
            return Vec::new();
        }
        let mut new_host: Option<IdType> = None;
        if was_host {
            let h = rest[0];
            proof {
                assert(rest@.contains(h));
            }
            let mut hu = self.players.remove(&h).unwrap();
            hu.obj.is_host = true;
            self.players.insert(h, hu);
            new_host = Some(h);
        }
        proof {
            assert forall|i: int| 0 <= i < rest@.len() implies self.players@.contains_key(#[trigger] rest@[i]) by {
                assert(rest@.contains(rest@[i]));
                crate::model::lemma_member(l, room_id, rest@[i]);
            }
        }
        let out = self.left_notices(&rest, player_id, new_host);
        room.players = rest;
        if was_in_game {
            proof {
                let mem = l.rooms[room_id].players;
                assert(mem.contains(player_id));
                assert(count_flag(others(mem, player_id), l.players, false) + crate::model::flag_at(l.players, player_id, false)
                    == count_flag(mem, l.players, false));
            }
            room.in_game_count = room.in_game_count - 1;
        }
        self.rooms.insert(room_id, room);
        proof {
            assert(self@.rooms =~= leave(l, player_id).rooms);
            assert(self@.players =~= leave(l, player_id).players);
            assert(out@ =~= leave_notices(l, player_id));
        }
        out
    }
}

impl ServerActor {
    /// Whether `id` is a registered player.
    pub fn is_registered(&self, id: IdType) -> (r: bool)
        ensures
            r == self@.players.contains_key(id),
    {
        self.players.contains_key(&id)
    }

    /// Opens a new room, with a fresh identifier, whose only member and host
    /// is `host_id`; a public room enters the pool.
    fn create_room(&mut self, host_id: IdType, public: bool) -> (id: IdType)
        requires
            old(self).wf(),
            old(self)@.players.contains_key(host_id),
            old(self)@.players[host_id].room is None,
        ensures
            !old(self)@.rooms.contains_key(id),
            final(self)@ == created(old(self)@, host_id, id, public),
            final(self).wf(),
    {
        let ghost l = self@;
        let id = fresh_key(&self.rooms);
        proof {
            lemma_create_ok(l, host_id, id, public);
        }
        let mut players: Vec<IdType> = Vec::new();
        players.push(host_id);
        self.rooms.insert(id, RoomData { state: RoomState::Matchmaking, players, in_game_count: 0 });
        let mut host = self.players.remove(&host_id).unwrap();
        host.obj.is_host = true;
        host.room = Some(id);
        self.players.insert(host_id, host);
        if public {
            let ghost pool = self.available_rooms@;
            proof {
                assert(!pool.contains(id)) by {
                    if pool.contains(id) {
                        assert(l.pool.contains(id));
                    }
                }
            }
            self.available_rooms.push(id);
            proof {
                assert forall|y: IdType| #[trigger] pool.push(id).contains(y) == (pool.contains(y) || y == id) by {
                    if pool.push(id).contains(y) && y != id {
                        let k = choose|k: int| 0 <= k < pool.push(id).len() && pool.push(id)[k] == y;
                        assert(pool[k] == y);
                    }
                    if pool.contains(y) {
                        let k = choose|k: int| 0 <= k < pool.len() && pool[k] == y;
                        assert(pool.push(id)[k] == y);
                    }
                    if y == id {
                        assert(pool.push(id)[pool.len() as int] == id);
                    }
                }
                assert(self.available_rooms@.no_duplicates()) by {
                    assert forall|i: int, j: int| 0 <= i < pool.push(id).len() && 0 <= j < pool.push(id).len() && i != j
                        implies pool.push(id)[i] != pool.push(id)[j] by {
                        if i < pool.len() {
                            assert(pool.contains(pool[i]));
                        }
                        if j < pool.len() {
                            assert(pool.contains(pool[j]));
                        }
                    }
                }
            }
        }
        proof {
            assert(self@.rooms =~= created(l, host_id, id, public).rooms);
            assert(self@.players =~= created(l, host_id, id, public).players);
            assert(self@.pool =~= created(l, host_id, id, public).pool);
        }
        id
    }

    /// The lobby event `e` for each player of `s` that is registered and not in a match.
    fn lobby_broadcast(&self, s: &Vec<IdType>, e: &OutEvent) -> (out: Vec<Delivery>)
        ensures
            out@ == lobby_broadcast(self.players@, s@, *e),
    {
        let mut out: Vec<Delivery> = Vec::new();
        let mut i: usize = 0;
        while i < s.len()
            invariant
                i <= s@.len(),
                out@ == lobby_broadcast(self.players@, s@.take(i as int), *e),
            decreases s.len() - i,
        {
            proof {
                assert(s@.take(i as int + 1).drop_last() =~= s@.take(i as int));
            }
            match self.players.get(&s[i]) {
                Some(u) => {
                    if !u.in_game {
                        out.push(Delivery { to: s[i], message: Outbound::Event(Event(e.snapshot())) });
                    }
                },
                None => {},
            }
            i += 1;
        }
        proof {
            assert(s@.take(s@.len() as int) =~= s@);
        }
        out
    }

    /// The public profiles of the players of `s`, in order.
    fn profiles_of(&self, s: &Vec<IdType>) -> (r: Vec<PlayerObject>)
        requires
            forall|i: int| 0 <= i < s@.len() ==> self.players@.contains_key(#[trigger] s@[i]),
        ensures
            r@ == profiles(self.players@, s@),
    {
        let mut r: Vec<PlayerObject> = Vec::new();
        let mut i: usize = 0;
        while i < s.len()
            invariant
                i <= s@.len(),
                forall|k: int| 0 <= k < s@.len() ==> self.players@.contains_key(#[trigger] s@[k]),
                r@ =~= profiles(self.players@, s@.take(i as int)),
            decreases s.len() - i,
        {
            r.push(self.players.get(&s[i]).unwrap().obj.snapshot());
            i += 1;
            proof {
                assert(r@ =~= profiles(self.players@, s@.take(i as int)));
            }
        }
        proof {
            assert(s@.take(s@.len() as int) =~= s@);
        }
        r
    }

    /// The profiles of the members of live room `room_id`.
    fn member_profiles(&self, room_id: IdType) -> (r: Vec<PlayerObject>)
        requires
            lobby_ok(self@),
            self@.rooms.contains_key(room_id),
        ensures
            r@ == profiles(self@.players, self@.rooms[room_id].players),
    {
        proof {
            assert(room_ok(self@, room_id));
        }
        let members = &self.rooms.get(&room_id).unwrap().players;
        self.profiles_of(members)
    }

    /// Appends `player_id`, who is in no room, to the members of `room_id`
    /// and tells the members already there.
    fn join_room(&mut self, player_id: IdType, room_id: IdType) -> (out: Vec<Delivery>)
        requires
            old(self).wf(),
            old(self)@.players.contains_key(player_id),
            old(self)@.players[player_id].room is None,
            old(self)@.rooms.contains_key(room_id),
        ensures
            final(self)@ == added(old(self)@, player_id, room_id),
            out@ == lobby_broadcast(
                old(self)@.players,
                old(self)@.rooms[room_id].players,
                OutEvent::EventPlayerJoined { player: old(self)@.players[player_id].obj },
            ),
            final(self).wf(),
    {
        let ghost l = self@;
        proof {
            lemma_add_ok(l, player_id, room_id);
        }
        let event = OutEvent::EventPlayerJoined { player: self.players.get(&player_id).unwrap().obj.snapshot() };
        let out = self.lobby_broadcast(&self.rooms.get(&room_id).unwrap().players, &event);
        let mut room = self.rooms.remove(&room_id).unwrap();
        room.players.push(player_id);
        self.rooms.insert(room_id, room);
        let mut user = self.players.remove(&player_id).unwrap();
        user.room = Some(room_id);
        self.players.insert(player_id, user);
        proof {
            assert(self@.rooms =~= added(l, player_id, room_id).rooms);
            assert(self@.players =~= added(l, player_id, room_id).players);
        }
        out
    }
}

impl ServerActor {
    /// Registers a connection. A known `id` keeps its player, whose profile
    /// takes the login's name and cosmetics unless the player is in a room.
    /// Without an id, or with an unknown one, a new player is registered
    /// under a fresh id, in no room, in no match and not host.
    pub fn handle_register_session(&mut self, msg: RegisterSession) -> (id: IdType)
        requires
            old(self).wf(),
        ensures
            final(self).wf(),
            final(self)@.rooms == old(self)@.rooms,
            final(self)@.pool == old(self)@.pool,
            ({
                let l = old(self)@;
                match msg.id {
                    Some(k) if l.players.contains_key(k) => {
                        &&& id == k
                        &&& l.players[k].room is Some ==> final(self)@ == l
                        &&& l.players[k].room is None ==> final(self)@.players == l.players.insert(
                            k,
                            UserData {
                                obj: PlayerObject {
                                    username: msg.obj.username,
                                    cosmetics: msg.obj.cosmetics,
                                    ..l.players[k].obj
                                },
                                ..l.players[k]
                            },
                        )
                    },
                    _ => {
                        &&& !l.players.contains_key(id)
                        &&& final(self)@.players == l.players.insert(
                            id,
                            UserData {
                                obj: PlayerObject {
                                    id,
                                    username: msg.obj.username,
                                    cosmetics: msg.obj.cosmetics,
                                    is_host: false,
                                },
                                room: None,
                                in_game: false,
                            },
                        )
                    },
                }
            }),
    {
        let ghost l = self@;
        if let Some(k) = msg.id {
            if self.players.contains_key(&k) {
                let in_room = self.players.get(&k).unwrap().room.is_some();
                if in_room {
                    return k;
                }
                let mut user = self.players.remove(&k).unwrap();
                user.obj.username = msg.obj.username;
                user.obj.cosmetics = msg.obj.cosmetics;
                proof {
                    assert(player_ok(l, k));
                    lemma_record_ok(l, k, user);
                }
                self.players.insert(k, user);
                proof {
                    assert(self@ =~= Lobby { players: l.players.insert(k, user), ..l });
                }
                return k;
            }
        }
        let id = fresh_key(&self.players);
        let user = UserData {
            obj: PlayerObject { id, username: msg.obj.username, cosmetics: msg.obj.cosmetics, is_host: false },
            room: None,
            in_game: false,
        };
        proof {
            lemma_record_ok(l, id, user);
        }
        self.players.insert(id, user);
        proof {
            assert(self@ =~= Lobby { players: l.players.insert(id, user), ..l });
        }
        id
    }

    /// A player's connection is gone: it leaves its room, then is forgotten.
    pub fn handle_disconnect(&mut self, msg: Disconnect) -> (out: Vec<Delivery>)
        requires
            old(self).wf(),
        ensures
            final(self).wf(),
            final(self)@ == (Lobby { players: leave(old(self)@, msg.id).players.remove(msg.id), ..leave(old(self)@, msg.id) }),
            out@ == leave_notices(old(self)@, msg.id),
    {
        let out = self.leave_room_if_any(msg.id);
        let ghost m = self@;
        proof {
            if m.players.contains_key(msg.id) {
                assert(player_ok(m, msg.id));
            }
            assert(room_of(m, msg.id) is None) by {
                if old(self)@.players.contains_key(msg.id) {
                    assert(m.players.contains_key(msg.id));
                }
            }
            lemma_remove_ok(m, msg.id);
        }
        self.players.remove(&msg.id);
        proof {
            assert(self@ =~= Lobby { players: m.players.remove(msg.id), ..m });
        }
        out
    }

    /// A player leaves whatever room it is in.
    pub fn handle_leave_room(&mut self, msg: LeaveRoom) -> (out: Vec<Delivery>)
        requires
            old(self).wf(),
        ensures
            final(self).wf(),
            final(self)@ == leave(old(self)@, msg.id),
            out@ == leave_notices(old(self)@, msg.id),
    {
        self.leave_room_if_any(msg.id)
    }

    /// A player changes its cosmetics. An unchanged value does nothing. A new
    /// one is stored and, where the player is in a room, announced to every
    /// other member that is not in a match.
    pub fn handle_edit_cosmetics(&mut self, msg: EditCosmetics) -> (out: Vec<Delivery>)
        requires
            old(self).wf(),
            old(self)@.players.contains_key(msg.id),
        ensures
            final(self).wf(),
            ({
                let l = old(self)@;
                let u = l.players[msg.id];
                if u.obj.cosmetics.descriptor@ == msg.cosmetics_view() {
                    final(self)@ == l && out@.len() == 0
                } else {
                    let ps = l.players.insert(
                        msg.id,
                        UserData { obj: PlayerObject { cosmetics: msg.obj, ..u.obj }, ..u },
                    );
                    &&& final(self)@ == (Lobby { players: ps, ..l })
                    &&& out@ == match u.room {
                        None => Seq::empty(),
                        Some(r) => lobby_broadcast(
                            ps,
                            others(l.rooms[r].players, msg.id),
                            OutEvent::EventPlayerAvatarChange { player: msg.id, cosmetics: msg.obj },
                        ),
                    }
                }
            }),
    {
        let ghost l = self@;
        if self.players.get(&msg.id).unwrap().obj.cosmetics.same_as(&msg.obj) {
            return Vec::new();
        }
        let mut user = self.players.remove(&msg.id).unwrap();
        user.obj.cosmetics = msg.obj.snapshot();
        let room = user.room;
        proof {
            assert(player_ok(l, msg.id));
            lemma_record_ok(l, msg.id, user);
        }
        self.players.insert(msg.id, user);
        proof {
            assert(self@ =~= Lobby { players: l.players.insert(msg.id, user), ..l });
        }
        match room {
            None => Vec::new(),
            Some(r) => {
                proof {
                    assert(player_ok(l, msg.id));
                }
                let rest = without(&self.rooms.get(&r).unwrap().players, msg.id);
                self.lobby_broadcast(&rest, &OutEvent::EventPlayerAvatarChange { player: msg.id, cosmetics: msg.obj })
            },
        }
    }
}

impl ServerActor {
    /// Public matchmaking. The player leaves its room, then joins a room of
    /// the pool if there is one, and otherwise opens a new public room.
    /// Returns the room, its members' profiles, and whether it was opened.
    pub fn handle_find_room(&mut self, msg: FindRoom) -> (r: (FindRoomResult, Vec<Delivery>))
        requires
            old(self).wf(),
            old(self)@.players.contains_key(msg.id),
        ensures
            final(self).wf(),
            ({
                let l = old(self)@;
                let m = leave(l, msg.id);
                match r.0 {
                    FindRoomResult::Success { room_id, players, just_created } => {
                        &&& players@ == profiles(final(self)@.players, final(self)@.rooms[room_id].players)
                        &&& just_created == m.pool.is_empty()
                        &&& just_created ==> {
                            &&& !m.rooms.contains_key(room_id)
                            &&& final(self)@ == created(m, msg.id, room_id, true)
                            &&& r.1@ == leave_notices(l, msg.id)
                        }
                        &&& !just_created ==> {
                            &&& m.pool.contains(room_id)
                            &&& final(self)@ == added(m, msg.id, room_id)
                            &&& r.1@ == leave_notices(l, msg.id) + lobby_broadcast(
                                m.players,
                                m.rooms[room_id].players,
                                OutEvent::EventPlayerJoined { player: m.players[msg.id].obj },
                            )
                        }
                    },
                    FindRoomResult::GameIsFull => false,
                }
            }),
    {
        let ghost l = self@;
        proof {
            lemma_left(l, msg.id);
            lemma_leave_ok(l, msg.id);
        }
        let mut out = self.leave_room_if_any(msg.id);
        let found: Option<IdType> = if self.available_rooms.len() > 0 {
            Some(self.available_rooms[0])
        } else {
            None
        };
        match found {
            Some(room_id) => {
                proof {
                    assert(self.available_rooms@.contains(room_id));
                    assert(self@.pool.contains(room_id));
                }
                let mut joined = self.join_room(msg.id, room_id);
                out.append(&mut joined);
                let players = self.member_profiles(room_id);
                (FindRoomResult::Success { room_id, players, just_created: false }, out)
            },
            None => {
                proof {
                    assert(self@.pool =~= Set::empty());
                }
                let room_id = self.create_room(msg.id, true);
                proof {
                    assert(self@.rooms.contains_key(room_id));
                }
                let players = self.member_profiles(room_id);
                (FindRoomResult::Success { room_id, players, just_created: true }, out)
            },
        }
    }

    /// The player leaves its room and opens a new private room, of which it
    /// is the only member and host. Returns the room and the player's profile.
    pub fn handle_create_room(&mut self, msg: CreateRoom) -> (r: (CreateRoomResult, Vec<Delivery>))
        requires
            old(self).wf(),
            old(self)@.players.contains_key(msg.id),
        ensures
            final(self).wf(),
            ({
                let m = leave(old(self)@, msg.id);
                &&& !m.rooms.contains_key(r.0.room_id)
                &&& final(self)@ == created(m, msg.id, r.0.room_id, false)
                &&& r.0.player == final(self)@.players[msg.id].obj
                &&& r.1@ == leave_notices(old(self)@, msg.id)
            }),
    {
        let ghost l = self@;
        proof {
            lemma_left(l, msg.id);
        }
        let out = self.leave_room_if_any(msg.id);
        let room_id = self.create_room(msg.id, false);
        let player = self.players.get(&msg.id).unwrap().obj.snapshot();
        (CreateRoomResult { room_id, player }, out)
    }

    /// The player joins room `msg.room_id`. An unknown room gives
    /// `RoomNotFound` and a room in a match gives `AlreadyPlaying`, both with
    /// nothing changed. Otherwise the player leaves its room, is appended to
    /// the target's members (which are told), and gets their profiles; should
    /// the target have closed when the player left it, `RoomNotFound`.
    pub fn handle_join_room(&mut self, msg: JoinRoom) -> (r: (JoinRoomResult, Vec<Delivery>))
        requires
            old(self).wf(),
            old(self)@.players.contains_key(msg.id),
        ensures
            final(self).wf(),
            ({
                let l = old(self)@;
                let m = leave(l, msg.id);
                if !l.rooms.contains_key(msg.room_id) {
                    &&& r.0 is RoomNotFound
                    &&& final(self)@ == l
                    &&& r.1@.len() == 0
                } else if l.rooms[msg.room_id].state == RoomState::Playing {
                    &&& r.0 is AlreadyPlaying
                    &&& final(self)@ == l
                    &&& r.1@.len() == 0
                } else if !m.rooms.contains_key(msg.room_id) {
                    &&& r.0 is RoomNotFound
                    &&& final(self)@ == m
                    &&& r.1@ == leave_notices(l, msg.id)
                } else {
                    &&& final(self)@ == added(m, msg.id, msg.room_id)
                    &&& r.1@ == leave_notices(l, msg.id) + lobby_broadcast(
                        m.players,
                        m.rooms[msg.room_id].players,
                        OutEvent::EventPlayerJoined { player: m.players[msg.id].obj },
                    )
                    &&& match r.0 {
                        JoinRoomResult::Success(players) => players@ == profiles(
                            final(self)@.players,
                            final(self)@.rooms[msg.room_id].players,
                        ),
                        _ => false,
                    }
                }
            }),
    {
        let ghost l = self@;
        let state = match self.rooms.get(&msg.room_id) {
            Some(room) => room.state,
            None => return (JoinRoomResult::RoomNotFound, Vec::new()),
        };
        if state != RoomState::Matchmaking {
            return (JoinRoomResult::AlreadyPlaying, Vec::new());
        }
        proof {
            lemma_left(l, msg.id);
        }
        let mut out = self.leave_room_if_any(msg.id);
        if !self.rooms.contains_key(&msg.room_id) {
            return (JoinRoomResult::RoomNotFound, out);
        }
        let mut joined = self.join_room(msg.id, msg.room_id);
        out.append(&mut joined);
        let players = self.member_profiles(msg.room_id);
        (JoinRoomResult::Success(players), out)
    }
}

impl ServerActor {
    /// The players of `s` that are registered and in a match, in order.
    fn in_game_members(&self, s: &Vec<IdType>) -> (r: Vec<IdType>)
        ensures
            r@ == in_game_members(self.players@, s@),
    {
        let mut r: Vec<IdType> = Vec::new();
        let mut i: usize = 0;
        while i < s.len()
            invariant
                i <= s@.len(),
                r@ == in_game_members(self.players@, s@.take(i as int)),
            decreases s.len() - i,
        {
            proof {
                assert(s@.take(i as int + 1).drop_last() =~= s@.take(i as int));
            }
            match self.players.get(&s[i]) {
                Some(u) => {
                    if u.in_game {
                        r.push(s[i]);
                    }
                },
                None => {},
            }
            i += 1;
        }
        proof {
            assert(s@.take(s@.len() as int) =~= s@);
        }
        r
    }

    /// Starts the match of the caller's room. The room always leaves the
    /// pool. Unless it is in matchmaking with at least two members, nothing
    /// else happens. Otherwise it is put in the match state, the members
    /// still in a match from an earlier one are made to leave, and, if the
    /// room is still there, every member is put in the match and told how to
    /// connect, with the room's identifier as the session label.
    pub fn handle_start_room(&mut self, msg: StartRoom) -> (out: Vec<Delivery>)
        requires
            old(self).wf(),
        ensures
            final(self).wf(),
            ({
                let l = old(self)@;
                match room_of(l, msg.id) {
                    None => final(self)@ == l && out@.len() == 0,
                    Some(r) => {
                        let room = l.rooms[r];
                        let l1 = start_requested(l, msg.id);
                        if room.state != RoomState::Matchmaking || room.players.len() < 2 {
                            final(self)@ == l1 && out@.len() == 0
                        } else {
                            let stragglers = in_game_members(l1.players, l1.rooms[r].players);
                            let l2 = evicted(l1, stragglers);
                            if !l2.rooms.contains_key(r) {
                                final(self)@ == l2 && out@ == evict_notices(l1, stragglers)
                            } else {
                                &&& final(self)@ == started(l2, r)
                                &&& out@ == evict_notices(l1, stragglers) + start_notices(
                                    l2.rooms[r].players,
                                    r,
                                    msg.conn_type,
                                )
                            }
                        }
                    },
                }
            }),
    {
        let ghost l = self@;
        let room_id = match self.players.get(&msg.id) {
            Some(u) => match u.room {
                Some(r) => r,
                None => return Vec::new(),
            },
            None => return Vec::new(),
        };
        proof {
            assert(player_ok(l, msg.id));
            lemma_start_requested_ok(l, msg.id);
            lemma_others(self.available_rooms@, room_id);
        }
        self.available_rooms = without(&self.available_rooms, room_id);
        let mut room = self.rooms.remove(&room_id).unwrap();
        if room.state != RoomState::Matchmaking || room.players.len() < 2 {
            self.rooms.insert(room_id, room);
            proof {
                assert(self@ =~= start_requested(l, msg.id));
            }
            return Vec::new();
        }
        room.state = RoomState::Playing;
        let stragglers = self.in_game_members(&room.players);
        self.rooms.insert(room_id, room);
        let ghost l1 = self@;
        proof {
            assert(l1 =~= start_requested(l, msg.id));
        }
        let mut out: Vec<Delivery> = Vec::new();
        let mut i: usize = 0;
        while i < stragglers.len()
            invariant
                i <= stragglers@.len(),
                self.wf(),
                lobby_ok(l1),
                self@ == evicted(l1, stragglers@.take(i as int)),
                out@ == evict_notices(l1, stragglers@.take(i as int)),
            decreases stragglers.len() - i,
        {
            proof {
                assert(stragglers@.take(i as int + 1).drop_last() =~= stragglers@.take(i as int));
            }
            let mut notes = self.leave_room_if_any(stragglers[i]);
            out.append(&mut notes);
            i += 1;
        }
        proof {
            assert(stragglers@.take(stragglers@.len() as int) =~= stragglers@);
        }
        if !self.rooms.contains_key(&room_id) {
            return out;
        }
        let ghost l2 = self@;
        proof {
            assert(l2.rooms.contains_key(room_id));
            assert(room_ok(l2, room_id));
            crate::model::lemma_evicted_pool(l1, stragglers@);
            assert(!l1.pool.contains(room_id));
            assert(!l2.pool.contains(room_id));
        }
        let mut room = self.rooms.remove(&room_id).unwrap();
        let n = room.players.len();
        proof {
            assert(room.view() == l2.rooms[room_id]);
            lemma_started_ok(l2, room_id);
        }
        let ghost mem = room.players@;
        let mut j: usize = 0;
        while j < room.players.len()
            invariant
                j <= mem.len(),
                room.players@ == mem,
                l2.rooms.contains_key(room_id),
                room.state == l2.rooms[room_id].state,
                mem == l2.rooms[room_id].players,
                forall|k: int| 0 <= k < mem.len() ==> l2.players.contains_key(#[trigger] mem[k]),
                self.players@ == in_match(l2.players, mem.take(j as int)),
                self@.rooms == l2.rooms.remove(room_id),
                self@.pool == l2.pool,
                self.available_rooms@.no_duplicates(),
                out@ == evict_notices(l1, stragglers@) + start_notices(mem.take(j as int), room_id, msg.conn_type),
            decreases mem.len() - j,
        {
            let m = room.players[j];
            proof {
                assert(mem.contains(m));
                assert(self.players@.contains_key(m));
            }
            let mut u = self.players.remove(&m).unwrap();
            u.in_game = true;
            self.players.insert(m, u);
            out.push(Delivery {
                to: m,
                message: Outbound::Event(Event(OutEvent::EventRoomStart { connection_type: msg.conn_type, broadcast_id: room_id })),
            });
            j += 1;
            proof {
                let prev: int = j as int - 1;
                assert forall|k: IdType| #[trigger] mem.take(j as int).contains(k) == (mem.take(prev).contains(k) || k == m) by {
                    if mem.take(j as int).contains(k) && k != m {
                        let x = choose|x: int| 0 <= x < j && mem.take(j as int)[x] == k;
                        assert(mem.take(prev)[x] == k);
                    }
                    if mem.take(prev).contains(k) {
                        let x = choose|x: int| 0 <= x < prev && mem.take(prev)[x] == k;
                        assert(mem.take(j as int)[x] == k);
                    }
                    if k == m {
                        assert(mem.take(j as int)[prev] == k);
                    }
                }
                assert(self.players@ =~= in_match(l2.players, mem.take(j as int)));
                assert(out@ =~= evict_notices(l1, stragglers@) + start_notices(mem.take(j as int), room_id, msg.conn_type));
            }
        }
        room.in_game_count = room.players.len();
        proof {
            assert(room.view() == RoomView { in_game_count: mem.len() as usize, ..l2.rooms[room_id] });
        }
        let ghost before = self@.rooms;
        let ghost room_view = room.view();
        self.rooms.insert(room_id, room);
        proof {
            assert(self@.rooms =~= before.insert(room_id, room_view));
            assert(before.insert(room_id, room_view) =~= l2.rooms.insert(room_id, room_view));
            assert(mem.take(mem.len() as int) =~= mem);
            assert(self@.players =~= started(l2, room_id).players);
            assert(self@.rooms =~= started(l2, room_id).rooms);
            assert(self@ =~= started(l2, room_id));
        }
        out
    }

    /// The caller's match is over. A caller in no room or in no match gets
    /// `None` and nothing changes. Otherwise the room is back in matchmaking
    /// (it does not return to the pool), the caller leaves the match, and it
    /// gets the room's member profiles.
    pub fn handle_game_end(&mut self, msg: GameEndRequest) -> (r: Option<GameEndAck>)
        requires
            old(self).wf(),
            old(self)@.players.contains_key(msg.id),
        ensures
            final(self).wf(),
            ({
                let l = old(self)@;
                if room_of(l, msg.id) is None || !l.players[msg.id].in_game {
                    r is None && final(self)@ == l
                } else {
                    &&& final(self)@ == ended(l, msg.id)
                    &&& match r {
                        Some(ack) => ack.0@ == profiles(
                            final(self)@.players,
                            final(self)@.rooms[room_of(l, msg.id)->0].players,
                        ),
                        None => false,
                    }
                }
            }),
    {
        let ghost l = self@;
        let user = self.players.get(&msg.id).unwrap();
        let room_id = match user.room {
            Some(r) => r,
            None => return None,
        };
        if !user.in_game {
            return None;
        }
        proof {
            lemma_ended_ok(l, msg.id);
            assert(player_ok(l, msg.id));
        }
        let mut room = self.rooms.remove(&room_id).unwrap();
        room.state = RoomState::Matchmaking;
        room.in_game_count = room.in_game_count - 1;
        self.rooms.insert(room_id, room);
        let mut user = self.players.remove(&msg.id).unwrap();
        user.in_game = false;
        self.players.insert(msg.id, user);
        proof {
            assert(self@ =~= ended(l, msg.id));
        }
        Some(GameEndAck(self.member_profiles(room_id)))
    }
}

impl ServerActor {
    /// Relays a gameplay payload. An empty payload, one that is not a record,
    /// or a sender in no room, gives nothing. Otherwise the payload, stamped
    /// with the sender's id as its leading field, goes to every other member
    /// of the room that is in a match, in joining order.
    pub fn handle_relay(&self, msg: &SendRelayMex) -> (out: Vec<Delivery>)
        requires
            self.wf(),
            self@.players.contains_key(msg.sender_id),
        ensures
            ({
                let l = self@;
                if !is_record(msg.data@) || room_of(l, msg.sender_id) is None {
                    out@.len() == 0
                } else {
                    let to = in_game_members(l.players, others(l.rooms[room_of(l, msg.sender_id)->0].players, msg.sender_id));
                    &&& out@.len() == to.len()
                    &&& forall|i: int| 0 <= i < to.len() ==> {
                        &&& (#[trigger] out@[i]).to == to[i]
                        &&& out@[i].message matches Outbound::Relay(raw) && raw.data@ == stamped(msg.sender_id as nat, msg.data@)
                    }
                }
            }),
    {
        if msg.data.len() == 0 {
            return Vec::new();
        }
        let room_id = match self.players.get(&msg.sender_id).unwrap().room {
            Some(r) => r,
            None => return Vec::new(),
        };
        let payload = match stamp_sender(msg.sender_id, &msg.data) {
            Some(p) => p,
            None => return Vec::new(),
        };
        proof {
            assert(player_ok(self@, msg.sender_id));
        }
        let others_in_room = without(&self.rooms.get(&room_id).unwrap().players, msg.sender_id);
        let to = self.in_game_members(&others_in_room);
        let mut out: Vec<Delivery> = Vec::new();
        let mut i: usize = 0;
        while i < to.len()
            invariant
                i <= to@.len(),
                out@.len() == i,
                forall|k: int| 0 <= k < i ==> {
                    &&& (#[trigger] out@[k]).to == to@[k]
                    &&& out@[k].message matches Outbound::Relay(raw) && raw.data@ == payload@
                },
            decreases to.len() - i,
        {
            out.push(Delivery { to: to[i], message: Outbound::Relay(SendRelayMexRaw { data: copy_bytes(&payload) }) });
            i += 1;
        }
        out
    }
}

} // verus!
