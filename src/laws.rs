use vstd::prelude::*;
use crate::protocol::IdType;
use crate::model::{
    added, count_flag, lobby_broadcast, flag_at, in_game_members, leave, leave_notices, lemma_add_ok, lemma_leave_ok,
    lemma_left, lemma_others, lobby_ok, new_host_after_leave, others, player_ok, rest_after_leave,
    room_of, room_ok, Lobby,
};
use crate::protocol::OutEvent;
use crate::relay::{decimal, sender_key, stamped};
use crate::server::{RoomState, UserData};

verus! {

/// A membership request: join a room, or leave one's room.
pub enum MembershipOp {
    Join { player: IdType, room: IdType },
    Leave { player: IdType },
}

/// What a join request does to the state: nothing for an unknown room or one
/// in a match; otherwise the player leaves its room and, if the target still
/// stands, is appended to its members.
pub open spec fn joined(l: Lobby, p: IdType, r: IdType) -> Lobby {
    if !l.rooms.contains_key(r) || l.rooms[r].state == RoomState::Playing {
        l
    } else if !leave(l, p).rooms.contains_key(r) {
        leave(l, p)
    } else {
        added(leave(l, p), p, r)
    }
}

pub open spec fn apply(l: Lobby, op: MembershipOp) -> Lobby {
    match op {
        MembershipOp::Join { player, room } => if l.players.contains_key(player) {
            joined(l, player, room)
        } else {
            l
        },
        MembershipOp::Leave { player } => leave(l, player),
    }
}

/// The states passed through while `ops` are applied in order, starting with `l`.
pub open spec fn run(l: Lobby, ops: Seq<MembershipOp>) -> Seq<Lobby>
    decreases ops.len(),
{
    if ops.len() == 0 {
        seq![l]
    } else {
        let prev = run(l, ops.drop_last());
        prev.push(apply(prev.last(), ops.last()))
    }
}

/// Any sequence of joins and leaves keeps the invariant after every step:
/// members point back at their room, each live room has exactly one host and
/// a true count of members in a match, and the pool holds only live rooms in
/// matchmaking.
pub proof fn lemma_membership_sequence_ok(l: Lobby, ops: Seq<MembershipOp>)
    requires
        lobby_ok(l),
    ensures
        run(l, ops).len() == ops.len() + 1,
        forall|i: int| 0 <= i < run(l, ops).len() ==> lobby_ok(#[trigger] run(l, ops)[i]),
    decreases ops.len(),
{
    if ops.len() > 0 {
        let prev = run(l, ops.drop_last());
        lemma_membership_sequence_ok(l, ops.drop_last());
        let s = prev.last();
        assert(lobby_ok(s));
        match ops.last() {
            MembershipOp::Join { player, room } => {
                if s.players.contains_key(player) {
                    lemma_leave_ok(s, player);
                    lemma_left(s, player);
                    if s.rooms.contains_key(room) && s.rooms[room].state != RoomState::Playing
                        && leave(s, player).rooms.contains_key(room) {
                        lemma_add_ok(leave(s, player), player, room);
                    }
                }
            },
            MembershipOp::Leave { player } => {
                lemma_leave_ok(s, player);
            },
        }
        assert forall|i: int| 0 <= i < run(l, ops).len() implies lobby_ok(#[trigger] run(l, ops)[i]) by {
            if i < prev.len() {
                assert(run(l, ops)[i] == prev[i]);
            }
        }
    }
}

proof fn lemma_count_zero(s: Seq<IdType>, ps: Map<IdType, UserData>)
    requires
        count_flag(s, ps, true) == 0,
    ensures
        forall|i: int| 0 <= i < s.len() ==> #[trigger] flag_at(ps, s[i], true) == 0,
    decreases s.len(),
{
    if s.len() > 0 {
        lemma_count_zero(s.drop_last(), ps);
        assert forall|i: int| 0 <= i < s.len() implies #[trigger] flag_at(ps, s[i], true) == 0 by {
            if i < s.len() - 1 {
                assert(s.drop_last()[i] == s[i]);
            }
        }
    }
}

proof fn lemma_count_one(s: Seq<IdType>, ps: Map<IdType, UserData>) -> (h: int)
    requires
        count_flag(s, ps, true) == 1,
    ensures
        0 <= h < s.len(),
        flag_at(ps, s[h], true) == 1,
        forall|j: int| 0 <= j < s.len() && #[trigger] flag_at(ps, s[j], true) == 1 ==> j == h,
    decreases s.len(),
{
    let t = s.drop_last();
    if flag_at(ps, s.last(), true) == 1 {
        lemma_count_zero(t, ps);
        assert forall|j: int| 0 <= j < s.len() && #[trigger] flag_at(ps, s[j], true) == 1 implies j == s.len() - 1 by {
            if j < s.len() - 1 {
                assert(t[j] == s[j]);
            }
        }
        s.len() - 1
    } else {
        let h = lemma_count_one(t, ps);
        assert forall|j: int| 0 <= j < s.len() && #[trigger] flag_at(ps, s[j], true) == 1 implies j == h by {
            if j < s.len() - 1 {
                assert(t[j] == s[j]);
            }
        }
        assert(t[h] == s[h]);
        h
    }
}

/// Every live room has exactly one host among its members. When the host
/// leaves a room that keeps members, one of those becomes host; when the last
/// member leaves, the room is gone and out of the pool.
pub proof fn lemma_host(l: Lobby, r: IdType, p: IdType)
    requires
        lobby_ok(l),
        l.rooms.contains_key(r),
    ensures
        exists|h: int| {
            &&& 0 <= h < l.rooms[r].players.len()
            &&& l.players[#[trigger] l.rooms[r].players[h]].obj.is_host
            &&& forall|j: int| 0 <= j < l.rooms[r].players.len() && l.players[#[trigger] l.rooms[r].players[j]].obj.is_host ==> j == h
        },
        room_of(l, p) == Some(r) && l.players[p].obj.is_host && rest_after_leave(l, p).len() > 0 ==> {
            let h = new_host_after_leave(l, p)->0;
            &&& new_host_after_leave(l, p) is Some
            &&& rest_after_leave(l, p).contains(h)
            &&& leave(l, p).rooms[r].players.contains(h)
            &&& leave(l, p).players[h].obj.is_host
        },
        room_of(l, p) == Some(r) && rest_after_leave(l, p).len() == 0 ==> !leave(l, p).rooms.contains_key(r)
            && !leave(l, p).pool.contains(r),
{
    assert(room_ok(l, r));
    let s = l.rooms[r].players;
    let h = lemma_count_one(s, l.players);
    assert forall|j: int| 0 <= j < s.len() && l.players[#[trigger] s[j]].obj.is_host implies j == h by {
        assert(l.players.contains_key(s[j]));
        assert(flag_at(l.players, s[j], true) == 1);
    }
    assert(l.players.contains_key(s[h]));
    if room_of(l, p) == Some(r) && rest_after_leave(l, p).len() > 0 {
        lemma_others(s, p);
        assert(rest_after_leave(l, p).contains(rest_after_leave(l, p)[0]));
    }
}

/// A player that leaves in the middle of a match takes one off its room's
/// count of members in a match, and each remaining member is told in the form
/// that fits it: the in-match form exactly for those in a match.
pub proof fn lemma_leave_in_match(l: Lobby, p: IdType)
    requires
        lobby_ok(l),
        room_of(l, p) is Some,
        l.players[p].in_game,
        rest_after_leave(l, p).len() > 0,
    ensures
        leave(l, p).rooms[room_of(l, p)->0].in_game_count == l.rooms[room_of(l, p)->0].in_game_count - 1,
        leave_notices(l, p).len() == rest_after_leave(l, p).len(),
        forall|i: int| 0 <= i < leave_notices(l, p).len() ==> {
            &&& (#[trigger] leave_notices(l, p)[i]).to == rest_after_leave(l, p)[i]
            &&& (leave_notices(l, p)[i].message is Game <==> leave(l, p).players[rest_after_leave(l, p)[i]].in_game)
        },
{
    let r = room_of(l, p)->0;
    assert(player_ok(l, p));
    assert(room_ok(l, r));
    lemma_others(l.rooms[r].players, p);
    assert(count_flag(others(l.rooms[r].players, p), l.players, false) + flag_at(l.players, p, false)
        == count_flag(l.rooms[r].players, l.players, false));
}

/// Relayed traffic goes only to players in a match, never to its sender.
pub proof fn lemma_relay_recipients(ps: Map<IdType, UserData>, members: Seq<IdType>, sender: IdType)
    requires
        members.no_duplicates(),
    ensures
        forall|x: IdType| #[trigger] in_game_members(ps, others(members, sender)).contains(x) ==> {
            &&& x != sender
            &&& members.contains(x)
            &&& ps.contains_key(x) && ps[x].in_game
        },
{
    lemma_in_game_members(ps, others(members, sender));
    lemma_others(members, sender);
}

proof fn lemma_in_game_members(ps: Map<IdType, UserData>, s: Seq<IdType>)
    ensures
        forall|x: IdType| #[trigger] in_game_members(ps, s).contains(x) ==> s.contains(x) && ps.contains_key(x)
            && ps[x].in_game,
    decreases s.len(),
{
    if s.len() > 0 {
        let t = s.drop_last();
        lemma_in_game_members(ps, t);
        assert forall|x: IdType| #[trigger] in_game_members(ps, s).contains(x) implies s.contains(x)
            && ps.contains_key(x) && ps[x].in_game by {
            let prev = in_game_members(ps, t);
            if prev.contains(x) {
                let k = choose|k: int| 0 <= k < t.len() && t[k] == x;
                assert(s[k] == x);
            } else {
                let q = prev.push(s.last());
                let k = choose|k: int| 0 <= k < q.len() && q[k] == x;
                if k < prev.len() {
                    assert(prev[k] == x);
                }
                assert(s[s.len() - 1] == x);
            }
        }
    }
}

/// Whatever sender a payload claims, the relayed payload starts with the
/// authoritative sender: `{"sender":"<id>"`.
pub proof fn lemma_stamped_sender(sender: IdType, d: Seq<u8>)
    ensures
        ({
            let head = seq![123u8] + sender_key() + seq![34u8] + decimal(sender as nat) + seq![34u8];
            stamped(sender as nat, d).subrange(0, head.len() as int) == head
        }),
{
    let head = seq![123u8] + sender_key() + seq![34u8] + decimal(sender as nat) + seq![34u8];
    let rest = d.skip(crate::relay::claimed_end(d));
    if rest.len() > 0 && rest[0] == 125 {
        assert((head + rest).subrange(0, head.len() as int) =~= head);
    } else {
        assert((head + seq![44u8] + rest).subrange(0, head.len() as int) =~= head);
    }
}

proof fn lemma_lobby_broadcast(ps: Map<IdType, UserData>, s: Seq<IdType>, e: OutEvent)
    ensures
        forall|i: int| 0 <= i < lobby_broadcast(ps, s, e).len() ==> {
            let to = (#[trigger] lobby_broadcast(ps, s, e)[i]).to;
            &&& s.contains(to)
            &&& ps.contains_key(to) && !ps[to].in_game
        },
    decreases s.len(),
{
    if s.len() > 0 {
        let t = s.drop_last();
        lemma_lobby_broadcast(ps, t, e);
        let prev = lobby_broadcast(ps, t, e);
        assert forall|i: int| 0 <= i < lobby_broadcast(ps, s, e).len() implies {
            let to = (#[trigger] lobby_broadcast(ps, s, e)[i]).to;
            &&& s.contains(to)
            &&& ps.contains_key(to) && !ps[to].in_game
        } by {
            if i < prev.len() {
                assert(lobby_broadcast(ps, s, e)[i] == prev[i]);
                let k = choose|k: int| 0 <= k < t.len() && t[k] == prev[i].to;
                assert(s[k] == t[k]);
            } else {
                assert(s[s.len() - 1] == s.last());
            }
        }
    }
}

/// A cosmetics change is announced only to members other than the editor
/// that are not in a match.
pub proof fn lemma_cosmetics_notice_skips_editor(
    ps: Map<IdType, UserData>,
    members: Seq<IdType>,
    editor: IdType,
    e: OutEvent,
)
    requires
        members.no_duplicates(),
    ensures
        forall|i: int| 0 <= i < lobby_broadcast(ps, others(members, editor), e).len() ==> {
            let to = (#[trigger] lobby_broadcast(ps, others(members, editor), e)[i]).to;
            &&& to != editor
            &&& members.contains(to)
            &&& ps.contains_key(to) && !ps[to].in_game
        },
{
    lemma_others(members, editor);
    lemma_lobby_broadcast(ps, others(members, editor), e);
}

} // verus!
