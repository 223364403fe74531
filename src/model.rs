use vstd::prelude::*;
use crate::protocol::{IdType, OutEvent, OutGameEvent, PlayerObject, RoomConnectionType};
use crate::messages::{Delivery, Event, GameEvent, Outbound};
use crate::server::{RoomState, UserData};

verus! {

/// A room as the model sees it: `players` lists the members in joining order.
pub struct RoomView {
    pub state: RoomState,
    pub players: Seq<IdType>,
    pub in_game_count: usize,
}

/// The coordinator's state as the model sees it.
#[verifier::ext_equal]
pub struct Lobby {
    pub players: Map<IdType, UserData>,
    pub rooms: Map<IdType, RoomView>,
    pub pool: Set<IdType>,
}

pub open spec fn flag(u: UserData, host: bool) -> bool {
    if host {
        u.obj.is_host
    } else {
        u.in_game
    }
}

pub open spec fn flag_at(ps: Map<IdType, UserData>, p: IdType, host: bool) -> nat {
    if ps.contains_key(p) && flag(ps[p], host) {
        1
    } else {
        0
    }
}

/// How many of the players listed in `s` are hosts (`host`) or in a match (`!host`).
pub open spec fn count_flag(s: Seq<IdType>, ps: Map<IdType, UserData>, host: bool) -> nat
    decreases s.len(),
{
    if s.len() == 0 {
        0
    } else {
        count_flag(s.drop_last(), ps, host) + flag_at(ps, s.last(), host)
    }
}

/// `s` without `x`.
pub open spec fn others(s: Seq<IdType>, x: IdType) -> Seq<IdType> {
    s.filter(|y: IdType| y != x)
}

/// The record of a player once it has left its room.
pub open spec fn departed(u: UserData) -> UserData {
    UserData { obj: PlayerObject { is_host: false, ..u.obj }, room: None, in_game: false }
}

/// The record of a player once it has been made host.
pub open spec fn promoted(u: UserData) -> UserData {
    UserData { obj: PlayerObject { is_host: true, ..u.obj }, ..u }
}

/// What a remaining member `to` is told when `player` leaves: the in-match
/// form if it is in a match, the lobby form otherwise.
pub open spec fn left_notice(to: IdType, in_game: bool, player: IdType, new_host: Option<IdType>) -> Delivery {
    Delivery {
        to,
        message: if in_game {
            Outbound::Game(GameEvent(OutGameEvent::PlayerLeft { player, new_host }))
        } else {
            Outbound::Event(Event(OutEvent::EventPlayerLeft { player, new_host }))
        },
    }
}

pub proof fn lemma_count_frame(s: Seq<IdType>, p1: Map<IdType, UserData>, p2: Map<IdType, UserData>, host: bool)
    requires
        forall|i: int| 0 <= i < s.len() ==> #[trigger] flag_at(p1, s[i], host) == flag_at(p2, s[i], host),
    ensures
        count_flag(s, p1, host) == count_flag(s, p2, host),
    decreases s.len(),
{
    if s.len() > 0 {
        let t = s.drop_last();
        assert forall|i: int| 0 <= i < t.len() implies #[trigger] flag_at(p1, t[i], host) == flag_at(p2, t[i], host) by {
            assert(t[i] == s[i]);
        }
        lemma_count_frame(t, p1, p2, host);
        assert(flag_at(p1, s[s.len() - 1], host) == flag_at(p2, s[s.len() - 1], host));
    }
}

/// Changing the record of one listed player changes the count by at most that player.
pub proof fn lemma_count_update(s: Seq<IdType>, ps: Map<IdType, UserData>, x: IdType, v: UserData, host: bool)
    requires
        s.no_duplicates(),
        s.contains(x),
    ensures
        count_flag(s, ps.insert(x, v), host) + flag_at(ps, x, host)
            == count_flag(s, ps, host) + flag_at(ps.insert(x, v), x, host),
    decreases s.len(),
{
    let t = s.drop_last();
    let qs = ps.insert(x, v);
    if s.last() == x {
        assert forall|i: int| 0 <= i < t.len() implies #[trigger] flag_at(ps, t[i], host) == flag_at(qs, t[i], host) by {
            assert(t[i] == s[i]);
            assert(s[i] != s[s.len() - 1]);
        }
        lemma_count_frame(t, ps, qs, host);
    } else {
        let k = choose|k: int| 0 <= k < s.len() && s[k] == x;
        assert(k < s.len() - 1);
        assert(t[k] == x);
        assert(t.no_duplicates()) by {
            assert forall|i: int, j: int| 0 <= i < t.len() && 0 <= j < t.len() && i != j implies t[i] != t[j] by {
                assert(t[i] == s[i] && t[j] == s[j]);
            }
        }
        lemma_count_update(t, ps, x, v, host);
    }
}

/// Removing a player from a list takes exactly that player out of the counts.
pub proof fn lemma_others(s: Seq<IdType>, x: IdType)
    requires
        s.no_duplicates(),
    ensures
        others(s, x).no_duplicates(),
        forall|y: IdType| #[trigger] others(s, x).contains(y) <==> (s.contains(y) && y != x),
        forall|ps: Map<IdType, UserData>, host: bool|
            #[trigger] count_flag(others(s, x), ps, host) + (if s.contains(x) { flag_at(ps, x, host) } else { 0 })
                == count_flag(s, ps, host),
    decreases s.len(),
{
    reveal(Seq::filter);
    if s.len() > 0 {
        let t = s.drop_last();
        assert(t.no_duplicates()) by {
            assert forall|i: int, j: int| 0 <= i < t.len() && 0 <= j < t.len() && i != j implies t[i] != t[j] by {
                assert(t[i] == s[i] && t[j] == s[j]);
            }
        }
        lemma_others(t, x);
        let l = s.last();
        assert(others(s, x) == if l != x { others(t, x).push(l) } else { others(t, x) });
        assert(!t.contains(l)) by {
            if t.contains(l) {
                let k = choose|k: int| 0 <= k < t.len() && t[k] == l;
                assert(s[k] == s[s.len() - 1]);
            }
        }
        assert forall|y: IdType| s.contains(y) <==> (t.contains(y) || y == l) by {
            if s.contains(y) && y != l {
                let k = choose|k: int| 0 <= k < s.len() && s[k] == y;
                assert(t[k] == y);
            }
            if t.contains(y) {
                let k = choose|k: int| 0 <= k < t.len() && t[k] == y;
                assert(s[k] == y);
            }
            if y == l {
                assert(s[s.len() - 1] == y);
            }
        }
        let o = others(t, x);
        if l != x {
            assert(o.push(l).drop_last() =~= o);
            assert forall|y: IdType| o.push(l).contains(y) <==> (o.contains(y) || y == l) by {
                if o.push(l).contains(y) && y != l {
                    let k = choose|k: int| 0 <= k < o.push(l).len() && o.push(l)[k] == y;
                    assert(o[k] == y);
                }
                if o.contains(y) {
                    let k = choose|k: int| 0 <= k < o.len() && o[k] == y;
                    assert(o.push(l)[k] == y);
                }
                if y == l {
                    assert(o.push(l)[o.len() as int] == y);
                }
            }
            assert(o.push(l).no_duplicates()) by {
                assert forall|i: int, j: int| 0 <= i < o.push(l).len() && 0 <= j < o.push(l).len() && i != j implies o.push(l)[i] != o.push(l)[j] by {
                    if i < o.len() {
                        assert(o.contains(o[i]));
                    }
                    if j < o.len() {
                        assert(o.contains(o[j]));
                    }
                }
            }
        }
        assert forall|y: IdType| #[trigger] others(s, x).contains(y) <==> (s.contains(y) && y != x) by {
            assert(o.contains(y) <==> (t.contains(y) && y != x));
            assert(s.contains(y) <==> (t.contains(y) || y == l));
            if l != x {
                assert(o.push(l).contains(y) <==> (o.contains(y) || y == l));
            }
        }
        assert forall|ps: Map<IdType, UserData>, host: bool|
            #[trigger] count_flag(others(s, x), ps, host) + (if s.contains(x) { flag_at(ps, x, host) } else { 0 })
                == count_flag(s, ps, host) by {
            assert(count_flag(o, ps, host) + (if t.contains(x) { flag_at(ps, x, host) } else { 0 })
                == count_flag(t, ps, host));
        }
    } else {
        assert(others(s, x) == s);
    }
}


/// What the model asks of a registered player.
pub open spec fn player_ok(l: Lobby, p: IdType) -> bool {
    let u = l.players[p];
    &&& u.obj.id == p
    &&& match u.room {
        None => !u.in_game && !u.obj.is_host,
        Some(r) => l.rooms.contains_key(r) && l.rooms[r].players.contains(p),
    }
}

/// What the model asks of a live room: it is never empty, lists each member
/// once, each member points back at it, exactly one member is host, and its
/// counter counts the members that are in a match.
pub open spec fn room_ok(l: Lobby, r: IdType) -> bool {
    let room = l.rooms[r];
    &&& room.players.len() > 0
    &&& room.players.no_duplicates()
    &&& forall|i: int|
        0 <= i < room.players.len() ==> l.players.contains_key(#[trigger] room.players[i])
            && l.players[room.players[i]].room == Some(r)
    &&& count_flag(room.players, l.players, true) == 1
    &&& count_flag(room.players, l.players, false) == room.in_game_count
}

/// The invariant that every operation keeps.
pub open spec fn lobby_ok(l: Lobby) -> bool {
    &&& forall|p: IdType| #[trigger] l.players.contains_key(p) ==> player_ok(l, p)
    &&& forall|r: IdType| #[trigger] l.rooms.contains_key(r) ==> room_ok(l, r)
    &&& forall|r: IdType|
        #[trigger] l.pool.contains(r) ==> l.rooms.contains_key(r) && l.rooms[r].state
            == RoomState::Matchmaking
}

/// The room `p` is in, if `p` is registered and in one.
pub open spec fn room_of(l: Lobby, p: IdType) -> Option<IdType> {
    if l.players.contains_key(p) {
        l.players[p].room
    } else {
        None
    }
}

/// The members that stay when `p` leaves its room.
pub open spec fn rest_after_leave(l: Lobby, p: IdType) -> Seq<IdType> {
    others(l.rooms[room_of(l, p)->0].players, p)
}

/// The member that becomes host when `p` leaves: the earliest-joined one
/// that stays, and only where `p` was host.
pub open spec fn new_host_after_leave(l: Lobby, p: IdType) -> Option<IdType> {
    if room_of(l, p) is Some && l.players[p].obj.is_host && rest_after_leave(l, p).len() > 0 {
        Some(rest_after_leave(l, p)[0])
    } else {
        None
    }
}

/// The state after `p` leaves whatever room it is in. The player is no
/// longer in a room, in a match or host; an emptied room is destroyed and
/// leaves the pool.
pub open spec fn leave(l: Lobby, p: IdType) -> Lobby {
    match room_of(l, p) {
        None => l,
        Some(r) => {
            let u = l.players[p];
            let room = l.rooms[r];
            let rest = rest_after_leave(l, p);
            let ps = l.players.insert(p, departed(u));
            if rest.len() == 0 {
                Lobby { players: ps, rooms: l.rooms.remove(r), pool: l.pool.remove(r) }
            } else {
                let ps2 = match new_host_after_leave(l, p) {
                    Some(h) => ps.insert(h, promoted(ps[h])),
                    None => ps,
                };
                let count = if u.in_game { (room.in_game_count - 1) as usize } else { room.in_game_count };
                Lobby {
                    players: ps2,
                    rooms: l.rooms.insert(r, RoomView { players: rest, in_game_count: count, ..room }),
                    pool: l.pool,
                }
            }
        },
    }
}

/// What the members that stay are told when `p` leaves, in joining order.
pub open spec fn leave_notices(l: Lobby, p: IdType) -> Seq<Delivery> {
    if room_of(l, p) is None {
        Seq::empty()
    } else {
        let rest = rest_after_leave(l, p);
        let after = leave(l, p);
        Seq::new(
            rest.len(),
            |i: int| left_notice(rest[i], after.players[rest[i]].in_game, p, new_host_after_leave(l, p)),
        )
    }
}

pub proof fn lemma_member(l: Lobby, r: IdType, q: IdType)
    requires
        lobby_ok(l),
        l.rooms.contains_key(r),
        l.rooms[r].players.contains(q),
    ensures
        l.players.contains_key(q),
        l.players[q].room == Some(r),
{
    assert(room_ok(l, r));
    let k = choose|k: int| 0 <= k < l.rooms[r].players.len() && l.rooms[r].players[k] == q;
    assert(l.players.contains_key(l.rooms[r].players[k]));
}

/// Leaving a room keeps the invariant.
pub proof fn lemma_leave_ok(l: Lobby, p: IdType)
    requires
        lobby_ok(l),
    ensures
        lobby_ok(leave(l, p)),
{
    if let Some(r) = room_of(l, p) {
        let u = l.players[p];
        let room = l.rooms[r];
        assert(player_ok(l, p));
        assert(room_ok(l, r));
        let rest = rest_after_leave(l, p);
        lemma_others(room.players, p);
        let n = leave(l, p);
        let ps = l.players.insert(p, departed(u));
        assert(forall|q: IdType| #[trigger] rest.contains(q) ==> l.players.contains_key(q) && l.players[q].room == Some(r)) by {
            assert forall|q: IdType| #[trigger] rest.contains(q) implies l.players.contains_key(q) && l.players[q].room == Some(r) by {
                lemma_member(l, r, q);
            }
        }
        // Players outside room `r` keep their records.
        assert forall|q: IdType| l.players.contains_key(q) && l.players[q].room != Some(r) implies
            #[trigger] n.players.contains_key(q) && n.players[q] == l.players[q] by {
            if rest.len() > 0 && new_host_after_leave(l, p) is Some {
                assert(rest.contains(rest[0]));
            }
        }
        // Rooms other than `r` are untouched.
        assert forall|r2: IdType| #[trigger] n.rooms.contains_key(r2) && r2 != r implies room_ok(n, r2) by {
            assert(room_ok(l, r2));
            let mem = l.rooms[r2].players;
            assert(n.rooms[r2] == l.rooms[r2]);
            assert forall|i: int| 0 <= i < mem.len() implies n.players.contains_key(#[trigger] mem[i])
                && n.players[mem[i]].room == Some(r2) by {
                assert(l.players.contains_key(mem[i]));
            }
            assert forall|host: bool| #[trigger] count_flag(mem, n.players, host) == count_flag(mem, l.players, host) by {
                assert forall|i: int| 0 <= i < mem.len() implies #[trigger] flag_at(n.players, mem[i], host)
                    == flag_at(l.players, mem[i], host) by {
                    assert(l.players.contains_key(mem[i]));
                }
                lemma_count_frame(mem, n.players, l.players, host);
            }
            assert(count_flag(mem, n.players, true) == count_flag(mem, l.players, true));
            assert(count_flag(mem, n.players, false) == count_flag(mem, l.players, false));
        }
        if rest.len() > 0 {
            // The room that stays.
            assert(!rest.contains(p));
            assert forall|i: int| 0 <= i < rest.len() implies #[trigger] flag_at(ps, rest[i], false)
                == flag_at(l.players, rest[i], false) by {
                assert(rest.contains(rest[i]));
            }
            lemma_count_frame(rest, ps, l.players, false);
            assert forall|i: int| 0 <= i < rest.len() implies #[trigger] flag_at(ps, rest[i], true)
                == flag_at(l.players, rest[i], true) by {
                assert(rest.contains(rest[i]));
            }
            lemma_count_frame(rest, ps, l.players, true);
            assert(room.players.contains(p));
            assert(count_flag(rest, l.players, false) + flag_at(l.players, p, false) == count_flag(room.players, l.players, false));
            assert(count_flag(rest, l.players, true) + flag_at(l.players, p, true) == count_flag(room.players, l.players, true));
            if let Some(h) = new_host_after_leave(l, p) {
                assert(rest.contains(h));
                assert(count_flag(others(rest, h), ps, true) + flag_at(ps, h, true) == count_flag(rest, ps, true)) by {
                    lemma_others(rest, h);
                }
                lemma_count_update(rest, ps, h, promoted(ps[h]), true);
                lemma_count_update(rest, ps, h, promoted(ps[h]), false);
            }
            assert(count_flag(rest, n.players, true) == 1);
            assert(count_flag(rest, n.players, false) == n.rooms[r].in_game_count);
            assert forall|i: int| 0 <= i < rest.len() implies n.players.contains_key(#[trigger] rest[i])
                && n.players[rest[i]].room == Some(r) by {
                assert(rest.contains(rest[i]));
            }
            assert(room_ok(n, r));
        }
        assert forall|q: IdType| #[trigger] n.players.contains_key(q) implies player_ok(n, q) by {
            if q != p {
                assert(player_ok(l, q));
                if l.players[q].room == Some(r) {
                    assert(rest.contains(q));
                } else {
                    if let Some(r2) = l.players[q].room {
                        assert(n.rooms.contains_key(r2) && n.rooms[r2] == l.rooms[r2]);
                    }
                }
            }
        }
        assert forall|r2: IdType| #[trigger] n.rooms.contains_key(r2) implies room_ok(n, r2) by {
            if r2 != r {
            }
        }
    }
}

/// The state after registered player `p`, in no room, creates room `r` and
/// becomes its only member and host; a public room enters the pool.
pub open spec fn created(l: Lobby, p: IdType, r: IdType, public: bool) -> Lobby {
    let u = l.players[p];
    Lobby {
        players: l.players.insert(p, UserData { obj: PlayerObject { is_host: true, ..u.obj }, room: Some(r), ..u }),
        rooms: l.rooms.insert(r, RoomView { state: RoomState::Matchmaking, players: seq![p], in_game_count: 0 }),
        pool: if public { l.pool.insert(r) } else { l.pool },
    }
}

/// The state after registered player `p`, in no room, is appended to the members of room `r`.
pub open spec fn added(l: Lobby, p: IdType, r: IdType) -> Lobby {
    let u = l.players[p];
    let room = l.rooms[r];
    Lobby {
        players: l.players.insert(p, UserData { room: Some(r), ..u }),
        rooms: l.rooms.insert(r, RoomView { players: room.players.push(p), ..room }),
        pool: l.pool,
    }
}

/// The lobby event `e` for each player of `s` that is registered and not in a match, in order.
pub open spec fn lobby_broadcast(ps: Map<IdType, UserData>, s: Seq<IdType>, e: OutEvent) -> Seq<Delivery>
    decreases s.len(),
{
    if s.len() == 0 {
        Seq::empty()
    } else {
        let prev = lobby_broadcast(ps, s.drop_last(), e);
        if ps.contains_key(s.last()) && !ps[s.last()].in_game {
            prev.push(Delivery { to: s.last(), message: Outbound::Event(Event(e)) })
        } else {
            prev
        }
    }
}

/// The public profiles of the players of `s`, in order.
pub open spec fn profiles(ps: Map<IdType, UserData>, s: Seq<IdType>) -> Seq<PlayerObject> {
    Seq::new(s.len(), |i: int| ps[s[i]].obj)
}

proof fn lemma_not_member(l: Lobby, p: IdType, r: IdType)
    requires
        lobby_ok(l),
        l.players.contains_key(p),
        l.players[p].room != Some(r),
        l.rooms.contains_key(r),
    ensures
        !l.rooms[r].players.contains(p),
{
    if l.rooms[r].players.contains(p) {
        lemma_member(l, r, p);
    }
}

/// Creating a room keeps the invariant.
pub proof fn lemma_create_ok(l: Lobby, p: IdType, r: IdType, public: bool)
    requires
        lobby_ok(l),
        l.players.contains_key(p),
        l.players[p].room is None,
        !l.rooms.contains_key(r),
    ensures
        lobby_ok(created(l, p, r, public)),
{
    let n = created(l, p, r, public);
    assert(player_ok(l, p));
    assert forall|r2: IdType| #[trigger] n.rooms.contains_key(r2) implies room_ok(n, r2) by {
        if r2 == r {
            let s = seq![p];
            assert(s.drop_last() =~= Seq::<IdType>::empty());
            assert(s.contains(p) ==> s.no_duplicates());
            assert(s.last() == p);
            assert(count_flag(s.drop_last(), n.players, true) == 0);
            assert(count_flag(s.drop_last(), n.players, false) == 0);
            assert(count_flag(s, n.players, true) == 1);
            assert(count_flag(s, n.players, false) == 0);
        } else {
            assert(room_ok(l, r2));
            lemma_not_member(l, p, r2);
            let mem = l.rooms[r2].players;
            assert forall|host: bool| #[trigger] count_flag(mem, n.players, host) == count_flag(mem, l.players, host) by {
                assert forall|i: int| 0 <= i < mem.len() implies #[trigger] flag_at(n.players, mem[i], host)
                    == flag_at(l.players, mem[i], host) by {
                    assert(mem.contains(mem[i]));
                }
                lemma_count_frame(mem, n.players, l.players, host);
            }
            assert(count_flag(mem, n.players, true) == count_flag(mem, l.players, true));
            assert(count_flag(mem, n.players, false) == count_flag(mem, l.players, false));
            assert forall|i: int| 0 <= i < mem.len() implies n.players.contains_key(#[trigger] mem[i])
                && n.players[mem[i]].room == Some(r2) by {
                assert(mem.contains(mem[i]));
            }
        }
    }
    assert forall|q: IdType| #[trigger] n.players.contains_key(q) implies player_ok(n, q) by {
        if q == p {
            assert(seq![p][0] == p);
        } else {
            assert(player_ok(l, q));
        }
    }
}

/// Adding a player to a room keeps the invariant.
pub proof fn lemma_add_ok(l: Lobby, p: IdType, r: IdType)
    requires
        lobby_ok(l),
        l.players.contains_key(p),
        l.players[p].room is None,
        l.rooms.contains_key(r),
    ensures
        lobby_ok(added(l, p, r)),
{
    let n = added(l, p, r);
    assert(player_ok(l, p));
    assert forall|r2: IdType| #[trigger] n.rooms.contains_key(r2) implies room_ok(n, r2) by {
        assert(room_ok(l, r2));
        lemma_not_member(l, p, r2);
        let mem = l.rooms[r2].players;
        assert forall|host: bool| #[trigger] count_flag(mem, n.players, host) == count_flag(mem, l.players, host) by {
            assert forall|i: int| 0 <= i < mem.len() implies #[trigger] flag_at(n.players, mem[i], host)
                == flag_at(l.players, mem[i], host) by {
                assert(mem.contains(mem[i]));
            }
            lemma_count_frame(mem, n.players, l.players, host);
        }
        assert(count_flag(mem, n.players, true) == count_flag(mem, l.players, true));
        assert(count_flag(mem, n.players, false) == count_flag(mem, l.players, false));
        if r2 == r {
            let s = mem.push(p);
            assert(s.drop_last() =~= mem);
            assert(count_flag(s, n.players, true) == count_flag(mem, n.players, true));
            assert(count_flag(s, n.players, false) == count_flag(mem, n.players, false));
            assert forall|i: int| 0 <= i < s.len() implies n.players.contains_key(#[trigger] s[i])
                && n.players[s[i]].room == Some(r) by {
                if i < mem.len() {
                    assert(mem.contains(mem[i]));
                }
            }
            assert(s.no_duplicates()) by {
                assert forall|i: int, j: int| 0 <= i < s.len() && 0 <= j < s.len() && i != j implies s[i] != s[j] by {
                    if i < mem.len() {
                        assert(mem.contains(mem[i]));
                    }
                    if j < mem.len() {
                        assert(mem.contains(mem[j]));
                    }
                }
            }
        } else {
            assert forall|i: int| 0 <= i < mem.len() implies n.players.contains_key(#[trigger] mem[i])
                && n.players[mem[i]].room == Some(r2) by {
                assert(mem.contains(mem[i]));
            }
        }
    }
    assert forall|q: IdType| #[trigger] n.players.contains_key(q) implies player_ok(n, q) by {
        if q == p {
            assert(l.rooms[r].players.push(p)[l.rooms[r].players.len() as int] == p);
        } else {
            assert(player_ok(l, q));
            if l.players[q].room == Some(r) {
                let k = choose|k: int| 0 <= k < l.rooms[r].players.len() && l.rooms[r].players[k] == q;
                assert(l.rooms[r].players.push(p)[k] == q);
            }
        }
    }
}

/// Putting `u` in place of player `p`'s record keeps the invariant when its
/// room and flags stay what they were, or, for a new player, when it is in
/// no room, in no match and not host.
pub proof fn lemma_record_ok(l: Lobby, p: IdType, u: UserData)
    requires
        lobby_ok(l),
        u.obj.id == p,
        l.players.contains_key(p) ==> l.players[p].room == u.room && l.players[p].in_game == u.in_game
            && l.players[p].obj.is_host == u.obj.is_host,
        !l.players.contains_key(p) ==> u.room is None && !u.in_game && !u.obj.is_host,
    ensures
        lobby_ok(Lobby { players: l.players.insert(p, u), ..l }),
{
    let n = Lobby { players: l.players.insert(p, u), ..l };
    assert forall|r2: IdType| #[trigger] n.rooms.contains_key(r2) implies room_ok(n, r2) by {
        assert(room_ok(l, r2));
        let mem = l.rooms[r2].players;
        assert forall|host: bool| #[trigger] count_flag(mem, n.players, host) == count_flag(mem, l.players, host) by {
            assert forall|i: int| 0 <= i < mem.len() implies #[trigger] flag_at(n.players, mem[i], host)
                == flag_at(l.players, mem[i], host) by {
                assert(mem.contains(mem[i]));
            }
            lemma_count_frame(mem, n.players, l.players, host);
        }
        assert(count_flag(mem, n.players, true) == count_flag(mem, l.players, true));
        assert(count_flag(mem, n.players, false) == count_flag(mem, l.players, false));
        assert forall|i: int| 0 <= i < mem.len() implies n.players.contains_key(#[trigger] mem[i])
            && n.players[mem[i]].room == Some(r2) by {
            assert(mem.contains(mem[i]));
        }
    }
    assert forall|q: IdType| #[trigger] n.players.contains_key(q) implies player_ok(n, q) by {
        if q != p {
            assert(player_ok(l, q));
        } else if l.players.contains_key(p) {
            assert(player_ok(l, p));
        }
    }
}

/// Removing a player that is in no room keeps the invariant.
pub proof fn lemma_remove_ok(l: Lobby, p: IdType)
    requires
        lobby_ok(l),
        room_of(l, p) is None,
    ensures
        lobby_ok(Lobby { players: l.players.remove(p), ..l }),
{
    let n = Lobby { players: l.players.remove(p), ..l };
    assert forall|r2: IdType| #[trigger] n.rooms.contains_key(r2) implies room_ok(n, r2) by {
        assert(room_ok(l, r2));
        let mem = l.rooms[r2].players;
        if l.players.contains_key(p) {
            lemma_not_member(l, p, r2);
        }
        assert forall|host: bool| #[trigger] count_flag(mem, n.players, host) == count_flag(mem, l.players, host) by {
            assert forall|i: int| 0 <= i < mem.len() implies #[trigger] flag_at(n.players, mem[i], host)
                == flag_at(l.players, mem[i], host) by {
                assert(mem.contains(mem[i]));
            }
            lemma_count_frame(mem, n.players, l.players, host);
        }
        assert(count_flag(mem, n.players, true) == count_flag(mem, l.players, true));
        assert(count_flag(mem, n.players, false) == count_flag(mem, l.players, false));
        assert forall|i: int| 0 <= i < mem.len() implies n.players.contains_key(#[trigger] mem[i])
            && n.players[mem[i]].room == Some(r2) by {
            assert(mem.contains(mem[i]));
        }
    }
    assert forall|q: IdType| #[trigger] n.players.contains_key(q) implies player_ok(n, q) by {
        assert(player_ok(l, q));
    }
}

/// After leaving, a registered player is still registered and in no room.
pub proof fn lemma_left(l: Lobby, p: IdType)
    requires
        lobby_ok(l),
        l.players.contains_key(p),
    ensures
        leave(l, p).players.contains_key(p),
        leave(l, p).players[p].room is None,
        leave(l, p).players[p].obj.id == p,
{
    assert(player_ok(l, p));
    if let Some(r) = room_of(l, p) {
        assert(room_ok(l, r));
        lemma_others(l.rooms[r].players, p);
        if let Some(h) = new_host_after_leave(l, p) {
            assert(rest_after_leave(l, p).contains(h));
        }
    }
}

/// The players of `s` that are registered and in a match, in order.
pub open spec fn in_game_members(ps: Map<IdType, UserData>, s: Seq<IdType>) -> Seq<IdType>
    decreases s.len(),
{
    if s.len() == 0 {
        Seq::empty()
    } else {
        let prev = in_game_members(ps, s.drop_last());
        if ps.contains_key(s.last()) && ps[s.last()].in_game {
            prev.push(s.last())
        } else {
            prev
        }
    }
}

/// The state after each player of `s` leaves its room, in order.
pub open spec fn evicted(l: Lobby, s: Seq<IdType>) -> Lobby
    decreases s.len(),
{
    if s.len() == 0 {
        l
    } else {
        leave(evicted(l, s.drop_last()), s.last())
    }
}

/// The notices sent while each player of `s` leaves its room, in order.
pub open spec fn evict_notices(l: Lobby, s: Seq<IdType>) -> Seq<Delivery>
    decreases s.len(),
{
    if s.len() == 0 {
        Seq::empty()
    } else {
        evict_notices(l, s.drop_last()) + leave_notices(evicted(l, s.drop_last()), s.last())
    }
}

/// The records with every listed player of `s` put in a match.
pub open spec fn in_match(ps: Map<IdType, UserData>, s: Seq<IdType>) -> Map<IdType, UserData> {
    Map::new(|k: IdType| ps.contains_key(k), |k: IdType| if s.contains(k) { UserData { in_game: true, ..ps[k] } } else { ps[k] })
}

/// The state once every member of room `r` is in the match.
pub open spec fn started(l: Lobby, r: IdType) -> Lobby {
    let room = l.rooms[r];
    Lobby {
        players: in_match(l.players, room.players),
        rooms: l.rooms.insert(r, RoomView { in_game_count: room.players.len() as usize, ..room }),
        pool: l.pool,
    }
}

/// The match-start event for each member of `s`, in order.
pub open spec fn start_notices(s: Seq<IdType>, r: IdType, conn: RoomConnectionType) -> Seq<Delivery> {
    Seq::new(
        s.len(),
        |i: int| Delivery {
            to: s[i],
            message: Outbound::Event(Event(OutEvent::EventRoomStart { connection_type: conn, broadcast_id: r })),
        },
    )
}

/// The room of `p` taken out of the pool and, where it was in matchmaking
/// with at least two members, put in the match state.
pub open spec fn start_requested(l: Lobby, p: IdType) -> Lobby {
    let r = room_of(l, p)->0;
    let room = l.rooms[r];
    let unlisted = Lobby { pool: l.pool.remove(r), ..l };
    if room.state == RoomState::Matchmaking && room.players.len() >= 2 {
        Lobby { rooms: l.rooms.insert(r, RoomView { state: RoomState::Playing, ..room }), ..unlisted }
    } else {
        unlisted
    }
}

/// The state after player `p`, in a match, ends it: the room is back in
/// matchmaking and counts one member in a match less.
pub open spec fn ended(l: Lobby, p: IdType) -> Lobby {
    let u = l.players[p];
    let r = u.room->0;
    let room = l.rooms[r];
    Lobby {
        players: l.players.insert(p, UserData { in_game: false, ..u }),
        rooms: l.rooms.insert(r, RoomView { state: RoomState::Matchmaking, in_game_count: (room.in_game_count - 1) as usize, ..room }),
        pool: l.pool,
    }
}

proof fn lemma_count_all(s: Seq<IdType>, ps: Map<IdType, UserData>)
    requires
        forall|i: int| 0 <= i < s.len() ==> #[trigger] flag_at(ps, s[i], false) == 1,
    ensures
        count_flag(s, ps, false) == s.len(),
    decreases s.len(),
{
    if s.len() > 0 {
        let t = s.drop_last();
        assert forall|i: int| 0 <= i < t.len() implies #[trigger] flag_at(ps, t[i], false) == 1 by {
            assert(t[i] == s[i]);
        }
        lemma_count_all(t, ps);
        assert(flag_at(ps, s[s.len() - 1], false) == 1);
    }
}

/// Asking to start a match keeps the invariant.
pub proof fn lemma_start_requested_ok(l: Lobby, p: IdType)
    requires
        lobby_ok(l),
        room_of(l, p) is Some,
    ensures
        lobby_ok(start_requested(l, p)),
{
    let r = room_of(l, p)->0;
    let n = start_requested(l, p);
    assert(player_ok(l, p));
    assert forall|r2: IdType| #[trigger] n.rooms.contains_key(r2) implies room_ok(n, r2) by {
        assert(room_ok(l, r2));
    }
    assert forall|q: IdType| #[trigger] n.players.contains_key(q) implies player_ok(n, q) by {
        assert(player_ok(l, q));
    }
}

/// Putting every member of a room that is out of the pool in the match keeps the invariant.
pub proof fn lemma_started_ok(l: Lobby, r: IdType)
    requires
        lobby_ok(l),
        l.rooms.contains_key(r),
        !l.pool.contains(r),
        l.rooms[r].players.len() <= usize::MAX,
    ensures
        lobby_ok(started(l, r)),
{
    let n = started(l, r);
    let mem = l.rooms[r].players;
    assert(room_ok(l, r));
    assert forall|r2: IdType| #[trigger] n.rooms.contains_key(r2) implies room_ok(n, r2) by {
        assert(room_ok(l, r2));
        let m2 = l.rooms[r2].players;
        assert forall|i: int| 0 <= i < m2.len() implies #[trigger] flag_at(n.players, m2[i], true)
            == flag_at(l.players, m2[i], true) by {
            assert(m2.contains(m2[i]));
        }
        lemma_count_frame(m2, n.players, l.players, true);
        assert forall|i: int| 0 <= i < m2.len() implies n.players.contains_key(#[trigger] m2[i])
            && n.players[m2[i]].room == Some(r2) by {
            assert(m2.contains(m2[i]));
        }
        if r2 == r {
            assert forall|i: int| 0 <= i < mem.len() implies #[trigger] flag_at(n.players, mem[i], false) == 1 by {
                assert(mem.contains(mem[i]));
            }
            lemma_count_all(mem, n.players);
        } else {
            assert forall|i: int| 0 <= i < m2.len() implies #[trigger] flag_at(n.players, m2[i], false)
                == flag_at(l.players, m2[i], false) by {
                assert(m2.contains(m2[i]));
                if mem.contains(m2[i]) {
                    lemma_member(l, r, m2[i]);
                }
            }
            lemma_count_frame(m2, n.players, l.players, false);
        }
    }
    assert forall|q: IdType| #[trigger] n.players.contains_key(q) implies player_ok(n, q) by {
        assert(player_ok(l, q));
        if mem.contains(q) {
            lemma_member(l, r, q);
        }
    }
}

/// Ending one's match keeps the invariant.
pub proof fn lemma_ended_ok(l: Lobby, p: IdType)
    requires
        lobby_ok(l),
        room_of(l, p) is Some,
        l.players[p].in_game,
    ensures
        lobby_ok(ended(l, p)),
        l.rooms[room_of(l, p)->0].in_game_count >= 1,
{
    let n = ended(l, p);
    let u = l.players[p];
    let r = u.room->0;
    assert(player_ok(l, p));
    let mem = l.rooms[r].players;
    assert(room_ok(l, r));
    assert(count_flag(others(mem, p), l.players, false) + flag_at(l.players, p, false) == count_flag(mem, l.players, false)) by {
        lemma_others(mem, p);
    }
    assert forall|r2: IdType| #[trigger] n.rooms.contains_key(r2) implies room_ok(n, r2) by {
        assert(room_ok(l, r2));
        let m2 = l.rooms[r2].players;
        assert forall|i: int| 0 <= i < m2.len() implies n.players.contains_key(#[trigger] m2[i])
            && n.players[m2[i]].room == Some(r2) by {
            assert(m2.contains(m2[i]));
        }
        if r2 == r {
            let v = UserData { in_game: false, ..u };
            assert(n.players == l.players.insert(p, v));
            lemma_count_update(mem, l.players, p, v, true);
            lemma_count_update(mem, l.players, p, v, false);
            assert(flag_at(l.players, p, false) == 1);
            assert(flag_at(n.players, p, false) == 0);
            assert(flag_at(l.players, p, true) == flag_at(n.players, p, true));
            assert(count_flag(mem, n.players, false) == n.rooms[r].in_game_count);
            assert(count_flag(mem, n.players, true) == 1);
        } else {
            lemma_not_member(l, p, r2);
            assert forall|host: bool| #[trigger] count_flag(m2, n.players, host) == count_flag(m2, l.players, host) by {
                assert forall|i: int| 0 <= i < m2.len() implies #[trigger] flag_at(n.players, m2[i], host)
                    == flag_at(l.players, m2[i], host) by {
                    assert(m2.contains(m2[i]));
                }
                lemma_count_frame(m2, n.players, l.players, host);
            }
            assert(count_flag(m2, n.players, true) == count_flag(m2, l.players, true));
            assert(count_flag(m2, n.players, false) == count_flag(m2, l.players, false));
        }
    }
    assert forall|q: IdType| #[trigger] n.players.contains_key(q) implies player_ok(n, q) by {
        assert(player_ok(l, q));
    }
}

/// Players leaving rooms never add a room to the pool.
pub proof fn lemma_evicted_pool(l: Lobby, s: Seq<IdType>)
    ensures
        evicted(l, s).pool.subset_of(l.pool),
    decreases s.len(),
{
    if s.len() > 0 {
        lemma_evicted_pool(l, s.drop_last());
    }
}

} // verus!
