//! The session router: handshake capacity, ownership validation, cascade on
//! disconnect, and the tick broadcast's generation counter.
use kissmp_server::commands::ClientCommand;
use kissmp_server::commands::ClientInfoPrivate;
use kissmp_server::commands::ServerCommand;
use kissmp_server::config::Config;
use kissmp_server::server::IncomingEvent;
use kissmp_server::server::PlayerConnectError;
use kissmp_server::server::LuaCommand;
use kissmp_server::server::merge_ingress;
use kissmp_server::server::Server;
use kissmp_server::should_apply_update;
use kissmp_server::vehicle::Electrics;
use kissmp_server::vehicle::Gearbox;
use kissmp_server::vehicle::Transform;
use kissmp_server::vehicle::VehicleData;
use kissmp_server::vehicle::VehicleUpdate;
use kissmp_server::VERSION;

fn test_config(max_players: u8) -> Config {
    let mut c = Config::default();
    c.max_players = max_players;
    c
}

fn identity(name: &[u8]) -> ClientInfoPrivate {
    ClientInfoPrivate {
        name: name.to_vec(),
        secret: b"token".to_vec(),
        steamid64: None,
        client_version: VERSION,
    }
}

fn vehicle(local: u32) -> VehicleData {
    VehicleData {
        parts_config: b"cfg".to_vec(),
        in_game_id: local,
        color: [0; 4],
        palete_0: [0; 4],
        palete_1: [0; 4],
        plate: None,
        name: b"car".to_vec(),
        server_id: 0,
        owner: None,
        position: [1, 2, 3],
        rotation: [0, 0, 0, 1],
    }
}

fn bundled(local: u32) -> VehicleUpdate {
    VehicleUpdate {
        transform: Transform {
            position: [42, 43, 44],
            rotation: [5, 6, 7, 8],
            velocity: [1, 1, 1],
            angular_velocity: [2, 2, 2],
        },
        electrics: Electrics {
            throttle_input: 1,
            brake_input: 2,
            clutch: 3,
            parkingbrake: 4,
            steering_input: 5,
        },
        gearbox: Gearbox { arcade: false, lock_coef: 0, mode: None, gear_indices: [0, 1] },
        vehicle_id: local,
        generation: 0,
        sent_at: 0,
    }
}

#[test]
fn second_connection_is_refused_when_the_server_is_full() {
    let mut server = Server::from_config(test_config(1), Vec::new());
    let first = server.on_connect(identity(b"alice"));
    assert!(first.is_ok());
    assert_eq!(server.connections.len(), 1);
    let second = server.on_connect(identity(b"bob"));
    assert!(matches!(second, Err(PlayerConnectError::ServerFull)));
    // no session was created for the refused attempt
    assert_eq!(server.connections.len(), 1);
}

#[test]
fn version_mismatch_is_refused_before_a_session_exists() {
    let mut server = Server::from_config(test_config(8), Vec::new());
    let mut wrong = identity(b"old");
    wrong.client_version = (0, 5);
    let r = server.on_connect(wrong);
    assert!(matches!(r, Err(PlayerConnectError::VersionMismatch)));
    assert_eq!(server.connections.len(), 0);
}

#[test]
fn handshake_reply_reports_count_before_join_and_assigned_id() {
    let mut server = Server::from_config(test_config(8), vec![(b"map.zip".to_vec(), 512)]);
    let (id, si) = server.on_connect(identity(b"alice")).unwrap();
    assert_eq!(si.player_count, 0);
    assert_eq!(si.client_id, id);
    assert_eq!(si.tickrate, 60);
    assert_eq!(si.mods.len(), 1);
    assert_eq!(si.mods[0].0, b"map.zip".to_vec());
}

#[test]
fn non_owner_update_is_dropped_and_owner_update_applies() {
    let mut server = Server::from_config(test_config(8), Vec::new());
    let (a, _) = server.on_connect(identity(b"alice")).unwrap();
    let (b, _) = server.on_connect(identity(b"bob")).unwrap();
    // client A spawns under local id 5: exactly one vehicle, owned by A
    server.on_client_event(a, IncomingEvent::ClientCommand(ClientCommand::VehicleData(vehicle(5))), 0);
    assert_eq!(server.registry.len(), 1);
    let g = server.get_server_id_from_game_id(a, 5).unwrap();
    let before = server.registry.get(g).unwrap().data.position;
    // B's update names local id 5, read under B's own (empty) table: dropped
    let mut upd = bundled(5);
    upd.vehicle_id = 5;
    server.on_client_event(b, IncomingEvent::ClientCommand(ClientCommand::VehicleUpdate(upd)), 0);
    let v = server.registry.get(g).unwrap();
    assert_eq!(v.data.position, before);
    assert!(v.transform.is_none());
    // the owner's update lands
    server.on_client_event(a, IncomingEvent::ClientCommand(ClientCommand::VehicleUpdate(bundled(5))), 0);
    let v = server.registry.get(g).unwrap();
    assert_eq!(v.data.position, [42, 43, 44]);
    assert!(v.transform.is_some());
}

#[test]
fn disconnect_cascade_removes_only_that_sessions_vehicles() {
    let mut server = Server::from_config(test_config(8), Vec::new());
    let (a, _) = server.on_connect(identity(b"alice")).unwrap();
    let (b, _) = server.on_connect(identity(b"bob")).unwrap();
    server.on_client_event(a, IncomingEvent::ClientCommand(ClientCommand::VehicleData(vehicle(1))), 0);
    server.on_client_event(a, IncomingEvent::ClientCommand(ClientCommand::VehicleData(vehicle(2))), 0);
    server.on_client_event(b, IncomingEvent::ClientCommand(ClientCommand::VehicleData(vehicle(1))), 0);
    assert_eq!(server.registry.len(), 3);
    let bg = server.get_server_id_from_game_id(b, 1).unwrap();
    server.on_client_event(a, IncomingEvent::ConnectionLost, 0);
    assert_eq!(server.connections.len(), 1);
    assert_eq!(server.registry.len(), 1);
    assert!(server.registry.contains_id(bg));
    assert_eq!(server.get_server_id_from_game_id(a, 1), None);
    assert_eq!(server.get_server_id_from_game_id(b, 1), Some(bg));
}

#[test]
fn vehicle_cap_drops_spawns_but_spares_the_exempt_name() {
    let mut server = Server::from_config(test_config(8), Vec::new());
    let (a, _) = server.on_connect(identity(b"alice")).unwrap();
    // the cap is three vehicles per client
    for local in 0..5u32 {
        server.on_client_event(
            a,
            IncomingEvent::ClientCommand(ClientCommand::VehicleData(vehicle(local))),
            0,
        );
    }
    assert_eq!(server.registry.len(), 3);
    assert_eq!(server.get_server_id_from_game_id(a, 4), None);
    // the exempt name is spawned past the cap
    let mut walker = vehicle(9);
    walker.name = b"unicycle".to_vec();
    server.on_client_event(a, IncomingEvent::ClientCommand(ClientCommand::VehicleData(walker)), 0);
    assert_eq!(server.registry.len(), 4);
    assert!(server.get_server_id_from_game_id(a, 9).is_some());
}

#[test]
fn two_ticks_stamp_increasing_generations_and_stale_ones_are_discarded() {
    let mut server = Server::from_config(test_config(8), Vec::new());
    let (a, _) = server.on_connect(identity(b"alice")).unwrap();
    server.on_client_event(a, IncomingEvent::ClientCommand(ClientCommand::VehicleData(vehicle(5))), 0);
    // the vehicle broadcasts only once all three snapshots are present
    server.tick = 9;
    server.tick();
    assert!(server.connections[0].unreliable.is_empty());
    server.on_client_event(a, IncomingEvent::ClientCommand(ClientCommand::VehicleUpdate(bundled(5))), 0);
    server.tick();
    server.tick();
    let gens: Vec<u64> = server.connections[0]
        .unreliable
        .iter()
        .map(|c| match c {
            ServerCommand::VehicleUpdate(u) => u.generation,
            _ => panic!("only bundled updates travel on the tick broadcast"),
        })
        .collect();
    assert_eq!(gens, vec![11, 12]);
    // a client holding generation 12 discards a late generation-11 datagram,
    // by the generation value and not by arrival order
    assert!(!should_apply_update(12, 11));
    assert!(should_apply_update(11, 12));
    assert!(!should_apply_update(11, 11));
}

#[test]
fn chat_is_truncated_and_attributed() {
    let mut server = Server::from_config(test_config(8), Vec::new());
    let (a, _) = server.on_connect(identity(b"alice")).unwrap();
    let long = vec![b'x'; 500];
    let before = server.connections[0].ordered.len();
    server.on_client_event(a, IncomingEvent::ClientCommand(ClientCommand::Chat(long)), 0);
    let q = &server.connections[0].ordered;
    assert_eq!(q.len(), before + 1);
    match q.last().unwrap() {
        ServerCommand::Chat(msg, from) => {
            assert_eq!(msg.len(), 128);
            assert_eq!(*from, Some(a));
        },
        _ => panic!("a chat line was expected"),
    }
}

#[test]
fn ping_is_answered_out_of_band_with_a_clock_echo() {
    let mut server = Server::from_config(test_config(8), Vec::new());
    let (a, _) = server.on_connect(identity(b"alice")).unwrap();
    server.on_client_event(a, IncomingEvent::ClientCommand(ClientCommand::Ping(37)), 123456);
    assert_eq!(server.connections[0].client_info_public.ping, 37);
    match server.connections[0].unreliable.last().unwrap() {
        ServerCommand::Pong(t) => assert_eq!(*t, 123456),
        _ => panic!("a clock echo was expected"),
    }
}

#[test]
fn events_from_unknown_sessions_change_nothing() {
    let mut server = Server::from_config(test_config(8), Vec::new());
    let (a, _) = server.on_connect(identity(b"alice")).unwrap();
    server.on_client_event(a.wrapping_add(1), IncomingEvent::ClientCommand(ClientCommand::VehicleData(vehicle(5))), 0);
    assert_eq!(server.registry.len(), 0);
    assert_eq!(server.connections.len(), 1);
}

#[test]
fn a_new_session_receives_the_full_snapshot_first() {
    let mut server = Server::from_config(test_config(8), Vec::new());
    let (a, _) = server.on_connect(identity(b"alice")).unwrap();
    server.on_client_event(a, IncomingEvent::ClientCommand(ClientCommand::VehicleData(vehicle(5))), 0);
    let g = server.get_server_id_from_game_id(a, 5).unwrap();
    // drain what the join itself queued, so only the replay is inspected
    for c in server.connections.iter_mut() {
        c.ordered.clear();
    }
    let (b, _) = server.on_connect(identity(b"bob")).unwrap();
    let replay = &server.connections[1].ordered;
    // one spawn per live vehicle, one identity record per session, the notice
    assert_eq!(replay.len(), 4);
    match &replay[0] {
        ServerCommand::VehicleSpawn(d) => {
            assert_eq!(d.server_id, g);
            assert_eq!(d.owner, Some(a));
        },
        _ => panic!("the snapshot replay opens with the vehicle spawns"),
    }
    assert!(matches!(replay[1], ServerCommand::PlayerInfoUpdate(_)));
    assert!(matches!(replay[2], ServerCommand::PlayerInfoUpdate(_)));
    match &replay[3] {
        ServerCommand::Chat(x, from) => {
            assert_eq!(x, &b"Player bob has joined the server".to_vec());
            assert_eq!(*from, None);
        },
        _ => panic!("the replay closes with the join notice"),
    }
    // the session already present learns of the arrival too
    let told = &server.connections[0].ordered;
    assert_eq!(told.len(), 2);
    assert!(matches!(&told[0], ServerCommand::Chat(x, None) if x == &b"Player bob has joined the server".to_vec()));
    assert!(matches!(&told[1], ServerCommand::PlayerInfoUpdate(ci) if ci.id == b));
}

#[test]
fn leaving_is_announced_to_everyone_left() {
    let mut server = Server::from_config(test_config(8), Vec::new());
    let (a, _) = server.on_connect(identity(b"alice")).unwrap();
    let (b, _) = server.on_connect(identity(b"bob")).unwrap();
    server.on_client_event(a, IncomingEvent::ClientCommand(ClientCommand::VehicleData(vehicle(1))), 0);
    let g = server.get_server_id_from_game_id(a, 1).unwrap();
    for c in server.connections.iter_mut() {
        c.ordered.clear();
    }
    server.on_client_event(a, IncomingEvent::ConnectionLost, 0);
    assert_eq!(server.connections.len(), 1);
    assert_eq!(server.connections[0].id, b);
    let told = &server.connections[0].ordered;
    // each cascaded removal, the leave notice, then the disconnect record
    assert_eq!(told.len(), 3);
    assert!(matches!(told[0], ServerCommand::RemoveVehicle(x) if x == g));
    assert!(matches!(&told[1], ServerCommand::Chat(x, None) if x == &b"Player alice has left the server".to_vec()));
    assert!(matches!(told[2], ServerCommand::PlayerDisconnected(e) if e == a));
}

#[test]
fn a_respawn_under_the_same_local_id_announces_the_replacement() {
    let mut server = Server::from_config(test_config(8), Vec::new());
    let (a, _) = server.on_connect(identity(b"alice")).unwrap();
    let (b, _) = server.on_connect(identity(b"bob")).unwrap();
    server.on_client_event(a, IncomingEvent::ClientCommand(ClientCommand::VehicleData(vehicle(5))), 0);
    let g1 = server.get_server_id_from_game_id(a, 5).unwrap();
    let bidx = server.connections.iter().position(|c| c.id == b).unwrap();
    for c in server.connections.iter_mut() {
        c.ordered.clear();
    }
    server.on_client_event(a, IncomingEvent::ClientCommand(ClientCommand::VehicleData(vehicle(5))), 0);
    let g2 = server.get_server_id_from_game_id(a, 5).unwrap();
    assert_eq!(server.registry.len(), 1);
    // the other session hears the removal of the replaced vehicle first
    let told = &server.connections[bidx].ordered;
    assert_eq!(told.len(), 2);
    assert!(matches!(told[0], ServerCommand::RemoveVehicle(x) if x == g1));
    assert!(matches!(&told[1], ServerCommand::VehicleSpawn(d) if d.server_id == g2));
}

#[test]
fn script_actions_apply_as_fresh_commands() {
    let mut server = Server::from_config(test_config(8), Vec::new());
    let (a, _) = server.on_connect(identity(b"alice")).unwrap();
    // a script-initiated spawn has no owner and is never current for anyone
    server.apply_script_command(LuaCommand::SpawnVehicle(vehicle(3), None));
    assert_eq!(server.registry.len(), 1);
    assert_eq!(server.get_server_id_from_game_id(a, 3), None);
    assert_eq!(server.connections[0].client_info_public.current_vehicle, None);
    // a script kick tears the session down like a transport loss
    server.apply_script_command(LuaCommand::Kick(a, b"rules".to_vec()));
    assert_eq!(server.connections.len(), 0);
}

#[test]
fn ingress_merge_keeps_every_command_from_both_channels() {
    let ordered = vec![ClientCommand::RemoveVehicle(1), ClientCommand::VehicleChanged(2)];
    let unordered = vec![ClientCommand::Ping(3)];
    let merged = merge_ingress(ordered, unordered);
    assert_eq!(merged.len(), 3);
    let removes = merged.iter().filter(|c| matches!(c, ClientCommand::RemoveVehicle(1))).count();
    let changes = merged.iter().filter(|c| matches!(c, ClientCommand::VehicleChanged(2))).count();
    let pings = merged.iter().filter(|c| matches!(c, ClientCommand::Ping(3))).count();
    assert_eq!((removes, changes, pings), (1, 1, 1));
}

#[test]
fn reset_and_meta_resolve_through_the_senders_namespace() {
    let mut server = Server::from_config(test_config(8), Vec::new());
    let (a, _) = server.on_connect(identity(b"alice")).unwrap();
    let (b, _) = server.on_connect(identity(b"bob")).unwrap();
    server.on_client_event(a, IncomingEvent::ClientCommand(ClientCommand::VehicleData(vehicle(5))), 0);
    let g = server.get_server_id_from_game_id(a, 5).unwrap();
    // a reset from a non-owner resolves to nothing and changes nothing
    let reset = kissmp_server::vehicle::VehicleReset {
        vehicle_id: 5,
        position: [9, 9, 9],
        rotation: [1, 1, 1, 1],
    };
    server.on_client_event(b, IncomingEvent::ClientCommand(ClientCommand::ResetVehicle(reset)), 0);
    assert_eq!(server.registry.get(g).unwrap().data.position, [1, 2, 3]);
    // the owner's reset lands, with the placement it asked for
    server.on_client_event(a, IncomingEvent::ClientCommand(ClientCommand::ResetVehicle(reset)), 0);
    assert_eq!(server.registry.get(g).unwrap().data.position, [9, 9, 9]);
    // a meta update recolours the owner's vehicle
    let meta = kissmp_server::vehicle::VehicleMeta {
        vehicle_id: 5,
        plate: Some(b"NEW".to_vec()),
        colors_table: [[7, 7, 7, 7], [8, 8, 8, 8], [9, 9, 9, 9]],
    };
    server.on_client_event(a, IncomingEvent::ClientCommand(ClientCommand::VehicleMetaUpdate(meta)), 0);
    let v = server.registry.get(g).unwrap();
    assert_eq!(v.data.color, [7, 7, 7, 7]);
    assert_eq!(v.data.plate, Some(b"NEW".to_vec()));
}

#[test]
fn a_removed_vehicle_stops_being_anyones_current_vehicle() {
    let mut server = Server::from_config(test_config(8), Vec::new());
    let (a, _) = server.on_connect(identity(b"alice")).unwrap();
    server.on_client_event(a, IncomingEvent::ClientCommand(ClientCommand::VehicleData(vehicle(5))), 0);
    let g = server.get_server_id_from_game_id(a, 5).unwrap();
    assert_eq!(server.connections[0].client_info_public.current_vehicle, Some(g));
    server.on_client_event(a, IncomingEvent::ClientCommand(ClientCommand::RemoveVehicle(5)), 0);
    assert!(!server.registry.contains_id(g));
    assert_eq!(server.connections[0].client_info_public.current_vehicle, None);
    assert_eq!(server.get_server_id_from_game_id(a, 5), None);
}
