use lobby_server::messages::{
    CreateRoom, Delivery, Disconnect, EditCosmetics, FindRoom, FindRoomResult, GameEndRequest, JoinRoom,
    JoinRoomResult, LeaveRoom, Outbound, RegisterSession, SendRelayMex, StartRoom,
};
use lobby_server::protocol::{IdType, LoginData, OutEvent, OutGameEvent, PlayerCosmetics, RoomConnectionType};
use lobby_server::relay::stamp_sender;
use lobby_server::server::{RoomState, ServerActor};

fn login(name: &str, look: &str) -> LoginData {
    LoginData { username: name.to_string(), cosmetics: PlayerCosmetics { descriptor: look.to_string() } }
}

fn register(s: &mut ServerActor, name: &str) -> IdType {
    s.handle_register_session(RegisterSession { id: None, obj: login(name, "plain") })
}

fn find(s: &mut ServerActor, id: IdType) -> (IdType, usize, bool, Vec<Delivery>) {
    match s.handle_find_room(FindRoom { id }) {
        (FindRoomResult::Success { room_id, players, just_created }, out) => (room_id, players.len(), just_created, out),
        (FindRoomResult::GameIsFull, _) => panic!("matchmaking never reports a full game"),
    }
}

fn host_count(s: &ServerActor, room: IdType) -> usize {
    s.rooms[&room].players.iter().filter(|p| s.players[p].obj.is_host).count()
}

fn relay_targets(out: &[Delivery]) -> Vec<(IdType, String)> {
    out.iter()
        .map(|d| match &d.message {
            Outbound::Relay(raw) => (d.to, String::from_utf8(raw.data.clone()).unwrap()),
            _ => panic!("expected a relayed payload"),
        })
        .collect()
}

/// Two players in one public room whose match has started; the first is host.
fn started_pair(s: &mut ServerActor) -> (IdType, IdType, IdType) {
    let a = register(s, "a");
    let b = register(s, "b");
    let (room, _, _, _) = find(s, a);
    find(s, b);
    s.handle_start_room(StartRoom { id: a, conn_type: RoomConnectionType::Relay });
    (a, b, room)
}

#[test]
fn register_assigns_distinct_ids() {
    let mut s = ServerActor::new();
    let a = register(&mut s, "a");
    let b = register(&mut s, "b");
    assert_ne!(a, b);
    assert_eq!(s.players[&a].obj.id, a);
    assert_eq!(s.players[&a].obj.username, "a");
    assert!(!s.players[&a].in_game);
    assert!(!s.players[&a].obj.is_host);
    assert!(s.players[&a].room.is_none());
}

#[test]
fn register_known_id_updates_profile_outside_room() {
    let mut s = ServerActor::new();
    let a = register(&mut s, "a");
    let again = s.handle_register_session(RegisterSession { id: Some(a), obj: login("renamed", "gold") });
    assert_eq!(again, a);
    assert_eq!(s.players[&a].obj.username, "renamed");
    assert_eq!(s.players[&a].obj.cosmetics.descriptor, "gold");
    assert_eq!(s.players.len(), 1);
}

#[test]
fn register_known_id_keeps_profile_inside_room() {
    let mut s = ServerActor::new();
    let a = register(&mut s, "a");
    s.handle_create_room(CreateRoom { id: a });
    let again = s.handle_register_session(RegisterSession { id: Some(a), obj: login("renamed", "gold") });
    assert_eq!(again, a);
    assert_eq!(s.players[&a].obj.username, "a");
    assert_eq!(s.players[&a].obj.cosmetics.descriptor, "plain");
}

#[test]
fn register_unknown_id_allocates_new_player() {
    let mut s = ServerActor::new();
    let a = register(&mut s, "a");
    let unknown = a.wrapping_add(1);
    let b = s.handle_register_session(RegisterSession { id: Some(unknown), obj: login("b", "plain") });
    assert_ne!(b, a);
    assert_eq!(s.players.len(), 2);
}

#[test]
fn find_room_twice_creates_then_joins() {
    let mut s = ServerActor::new();
    let a = register(&mut s, "a");
    let b = register(&mut s, "b");
    let (r1, n1, created1, _) = find(&mut s, a);
    assert!(created1);
    assert_eq!(n1, 1);
    assert!(s.available_rooms.contains(&r1));
    assert!(s.players[&a].obj.is_host);
    let (r2, n2, created2, out) = find(&mut s, b);
    assert!(!created2);
    assert_eq!(r2, r1);
    assert_eq!(n2, 2);
    assert_eq!(out.len(), 1);
    assert_eq!(out[0].to, a);
    assert!(matches!(&out[0].message, Outbound::Event(e) if matches!(&e.0, OutEvent::EventPlayerJoined { player } if player.id == b)));
    assert!(!s.players[&b].obj.is_host);
}

#[test]
fn create_room_is_private() {
    let mut s = ServerActor::new();
    let a = register(&mut s, "a");
    let (res, out) = s.handle_create_room(CreateRoom { id: a });
    assert!(out.is_empty());
    assert_eq!(res.player.id, a);
    assert!(res.player.is_host);
    assert!(!s.available_rooms.contains(&res.room_id));
    assert_eq!(s.rooms[&res.room_id].players, vec![a]);
}

#[test]
fn join_unknown_room_is_not_found() {
    let mut s = ServerActor::new();
    let a = register(&mut s, "a");
    let (res, out) = s.handle_join_room(JoinRoom { id: a, room_id: 7 });
    assert!(matches!(res, JoinRoomResult::RoomNotFound));
    assert!(out.is_empty());
}

#[test]
fn join_playing_room_is_already_playing_and_changes_nothing() {
    let mut s = ServerActor::new();
    let (_, _, room) = started_pair(&mut s);
    assert_eq!(s.rooms[&room].state, RoomState::Playing);
    let c = register(&mut s, "c");
    let (res, out) = s.handle_join_room(JoinRoom { id: c, room_id: room });
    assert!(matches!(res, JoinRoomResult::AlreadyPlaying));
    assert!(out.is_empty());
    assert_eq!(s.rooms[&room].players.len(), 2);
    assert!(s.players[&c].room.is_none());
}

#[test]
fn join_room_returns_members_and_announces() {
    let mut s = ServerActor::new();
    let a = register(&mut s, "a");
    let b = register(&mut s, "b");
    let (created, _) = s.handle_create_room(CreateRoom { id: a });
    let (res, out) = s.handle_join_room(JoinRoom { id: b, room_id: created.room_id });
    match res {
        JoinRoomResult::Success(players) => {
            assert_eq!(players.iter().map(|p| p.id).collect::<Vec<_>>(), vec![a, b]);
        },
        _ => panic!("join should succeed"),
    }
    assert_eq!(out.len(), 1);
    assert_eq!(out[0].to, a);
}

#[test]
fn host_leaving_hands_over_and_last_leave_destroys_room() {
    let mut s = ServerActor::new();
    let a = register(&mut s, "a");
    let b = register(&mut s, "b");
    let c = register(&mut s, "c");
    let (room, _, _, _) = find(&mut s, a);
    find(&mut s, b);
    find(&mut s, c);
    assert_eq!(host_count(&s, room), 1);
    let out = s.handle_leave_room(LeaveRoom { id: a });
    assert_eq!(host_count(&s, room), 1);
    assert!(s.players[&b].obj.is_host);
    assert!(!s.players[&a].obj.is_host);
    assert_eq!(out.len(), 2);
    for d in &out {
        assert!(matches!(&d.message, Outbound::Event(e) if matches!(e.0, OutEvent::EventPlayerLeft { player, new_host: Some(h) } if player == a && h == b)));
    }
    s.handle_leave_room(LeaveRoom { id: b });
    assert!(s.players[&c].obj.is_host);
    let out = s.handle_leave_room(LeaveRoom { id: c });
    assert!(out.is_empty());
    assert!(!s.rooms.contains_key(&room));
    assert!(!s.available_rooms.contains(&room));
}

#[test]
fn start_room_with_one_member_only_unlists_it() {
    let mut s = ServerActor::new();
    let a = register(&mut s, "a");
    let (room, _, _, _) = find(&mut s, a);
    let out = s.handle_start_room(StartRoom { id: a, conn_type: RoomConnectionType::Relay });
    assert!(out.is_empty());
    assert_eq!(s.rooms[&room].state, RoomState::Matchmaking);
    assert!(!s.available_rooms.contains(&room));
    assert!(!s.players[&a].in_game);
    assert_eq!(s.rooms[&room].in_game_count, 0);
}

#[test]
fn start_room_puts_everyone_in_the_match() {
    let mut s = ServerActor::new();
    let a = register(&mut s, "a");
    let b = register(&mut s, "b");
    let (room, _, _, _) = find(&mut s, a);
    find(&mut s, b);
    let out = s.handle_start_room(StartRoom { id: b, conn_type: RoomConnectionType::Direct });
    assert_eq!(s.rooms[&room].state, RoomState::Playing);
    assert_eq!(s.rooms[&room].in_game_count, 2);
    assert!(s.players[&a].in_game && s.players[&b].in_game);
    assert_eq!(out.iter().map(|d| d.to).collect::<Vec<_>>(), vec![a, b]);
    for d in &out {
        assert!(matches!(&d.message, Outbound::Event(e) if matches!(e.0, OutEvent::EventRoomStart { connection_type: RoomConnectionType::Direct, broadcast_id } if broadcast_id == room)));
    }
}

#[test]
fn start_room_evicts_stragglers_from_previous_match() {
    let mut s = ServerActor::new();
    let (a, b, room) = started_pair(&mut s);
    let c = register(&mut s, "c");
    assert!(s.handle_game_end(GameEndRequest { id: a }).is_some());
    let (res, _) = s.handle_join_room(JoinRoom { id: c, room_id: room });
    assert!(matches!(res, JoinRoomResult::Success(_)));
    let out = s.handle_start_room(StartRoom { id: a, conn_type: RoomConnectionType::Relay });
    assert!(s.players[&b].room.is_none());
    assert!(!s.players[&b].in_game);
    assert_eq!(s.rooms[&room].players, vec![a, c]);
    assert_eq!(s.rooms[&room].in_game_count, 2);
    assert_eq!(host_count(&s, room), 1);
    assert_eq!(out.len(), 4);
}

#[test]
fn edit_cosmetics_unchanged_sends_nothing() {
    let mut s = ServerActor::new();
    let a = register(&mut s, "a");
    let b = register(&mut s, "b");
    find(&mut s, a);
    find(&mut s, b);
    let out = s.handle_edit_cosmetics(EditCosmetics { id: a, obj: PlayerCosmetics { descriptor: "plain".to_string() } });
    assert!(out.is_empty());
}

#[test]
fn edit_cosmetics_changed_tells_the_others_once() {
    let mut s = ServerActor::new();
    let a = register(&mut s, "a");
    let b = register(&mut s, "b");
    find(&mut s, a);
    find(&mut s, b);
    let out = s.handle_edit_cosmetics(EditCosmetics { id: a, obj: PlayerCosmetics { descriptor: "gold".to_string() } });
    assert_eq!(out.len(), 1);
    assert_eq!(out[0].to, b);
    assert!(matches!(&out[0].message, Outbound::Event(e) if matches!(&e.0, OutEvent::EventPlayerAvatarChange { player, cosmetics } if *player == a && cosmetics.descriptor == "gold")));
    assert_eq!(s.players[&a].obj.cosmetics.descriptor, "gold");
}

#[test]
fn relay_goes_to_other_players_in_the_match() {
    let mut s = ServerActor::new();
    let (a, b, room) = started_pair(&mut s);
    let c = register(&mut s, "c");
    s.handle_game_end(GameEndRequest { id: a });
    s.handle_join_room(JoinRoom { id: c, room_id: room });
    let out = s.handle_relay(&SendRelayMex { sender_id: c, data: b"{\"x\":1}".to_vec() });
    let targets = relay_targets(&out);
    assert_eq!(targets, vec![(b, format!("{{\"sender\":\"{}\",\"x\":1}}", c))]);
}

#[test]
fn relay_replaces_claimed_sender() {
    let mut s = ServerActor::new();
    let (a, b, _) = started_pair(&mut s);
    let out = s.handle_relay(&SendRelayMex { sender_id: a, data: b"{\"sender\":\"999\",\"x\":[1,2]}".to_vec() });
    assert_eq!(relay_targets(&out), vec![(b, format!("{{\"sender\":\"{}\",\"x\":[1,2]}}", a))]);
}

#[test]
fn relay_ignores_empty_and_malformed_payloads() {
    let mut s = ServerActor::new();
    let (a, _, _) = started_pair(&mut s);
    assert!(s.handle_relay(&SendRelayMex { sender_id: a, data: Vec::new() }).is_empty());
    assert!(s.handle_relay(&SendRelayMex { sender_id: a, data: b"[1]".to_vec() }).is_empty());
}

#[test]
fn stamp_sender_exact_forms() {
    assert_eq!(stamp_sender(42, &b"{\"a\":1}".to_vec()).unwrap(), b"{\"sender\":\"42\",\"a\":1}".to_vec());
    assert_eq!(stamp_sender(0, &b"{}".to_vec()).unwrap(), b"{\"sender\":\"0\"}".to_vec());
    assert_eq!(stamp_sender(7, &b"{\"sender\":\"a\\\"b\",\"k\":2}".to_vec()).unwrap(), b"{\"sender\":\"7\",\"k\":2}".to_vec());
    assert_eq!(stamp_sender(7, &b"{\"sender\":13}".to_vec()).unwrap(), b"{\"sender\":\"7\"}".to_vec());
    assert_eq!(
        stamp_sender(u64::MAX, &b"{\"t\":0}".to_vec()).unwrap(),
        b"{\"sender\":\"18446744073709551615\",\"t\":0}".to_vec()
    );
    assert!(stamp_sender(1, &b"x".to_vec()).is_none());
}

#[test]
fn game_end_outside_match_changes_nothing() {
    let mut s = ServerActor::new();
    let a = register(&mut s, "a");
    assert!(s.handle_game_end(GameEndRequest { id: a }).is_none());
    let (room, _, _, _) = find(&mut s, a);
    assert!(s.handle_game_end(GameEndRequest { id: a }).is_none());
    assert_eq!(s.rooms[&room].state, RoomState::Matchmaking);
    assert!(s.available_rooms.contains(&room));
}

#[test]
fn game_end_returns_to_lobby_without_relisting() {
    let mut s = ServerActor::new();
    let (a, b, room) = started_pair(&mut s);
    let ack = s.handle_game_end(GameEndRequest { id: b }).unwrap();
    assert_eq!(ack.0.iter().map(|p| p.id).collect::<Vec<_>>(), vec![a, b]);
    assert_eq!(s.rooms[&room].state, RoomState::Matchmaking);
    assert_eq!(s.rooms[&room].in_game_count, 1);
    assert!(!s.players[&b].in_game);
    assert!(!s.available_rooms.contains(&room));
}

#[test]
fn disconnect_during_match_uses_in_match_notice() {
    let mut s = ServerActor::new();
    let a = register(&mut s, "a");
    let b = register(&mut s, "b");
    let c = register(&mut s, "c");
    let (room, _, _, _) = find(&mut s, a);
    find(&mut s, b);
    find(&mut s, c);
    s.handle_start_room(StartRoom { id: a, conn_type: RoomConnectionType::Relay });
    let out = s.handle_disconnect(Disconnect { id: b });
    assert!(!s.players.contains_key(&b));
    assert_eq!(s.rooms[&room].in_game_count, 2);
    assert_eq!(out.iter().map(|d| d.to).collect::<Vec<_>>(), vec![a, c]);
    for d in &out {
        assert!(matches!(&d.message, Outbound::Game(g) if matches!(g.0, OutGameEvent::PlayerLeft { player, new_host: None } if player == b)));
    }
}
