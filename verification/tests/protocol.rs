//! The wire protocol: round trips through both payload forms, typed decode
//! errors on damaged input, framing, and the chunked file transfer.
use kissmp_server::codec::DecodeError;
use kissmp_server::commands::ClientCommand;
use kissmp_server::commands::ClientInfoPrivate;
use kissmp_server::commands::ClientInfoPublic;
use kissmp_server::commands::ServerCommand;
use kissmp_server::commands::ServerInfo;
use kissmp_server::file_transfer::encode_chunks;
use kissmp_server::file_transfer::FileTransferReceiver;
use kissmp_server::file_transfer::TransferError;
use kissmp_server::vehicle::CouplerAttached;
use kissmp_server::vehicle::Electrics;
use kissmp_server::vehicle::ElectricsUndefined;
use kissmp_server::vehicle::Gearbox;
use kissmp_server::vehicle::Transform;
use kissmp_server::vehicle::VehicleData;
use kissmp_server::vehicle::VehicleMeta;
use kissmp_server::vehicle::VehicleReset;
use kissmp_server::vehicle::VehicleUpdate;
use kissmp_server::wire::decode_client_command;
use kissmp_server::wire::decode_frame;
use kissmp_server::wire::decode_server_command;
use kissmp_server::wire::encode_client_command;
use kissmp_server::wire::encode_frame;
use kissmp_server::wire::encode_server_command;

fn sample_update() -> VehicleUpdate {
    VehicleUpdate {
        transform: Transform {
            position: [1, 2, 3],
            rotation: [4, 5, 6, 7],
            velocity: [8, 9, 10],
            angular_velocity: [11, 12, 13],
        },
        electrics: Electrics {
            throttle_input: 100,
            brake_input: 200,
            clutch: 300,
            parkingbrake: 400,
            steering_input: 500,
        },
        gearbox: Gearbox {
            arcade: true,
            lock_coef: 77,
            mode: Some(b"manual".to_vec()),
            gear_indices: [-2, 3],
        },
        vehicle_id: 4242,
        generation: 17,
        sent_at: 99,
    }
}

fn sample_data() -> VehicleData {
    VehicleData {
        parts_config: b"vehicles/pickup/config.pc".to_vec(),
        in_game_id: 12,
        color: [10, 20, 30, 40],
        palete_0: [1, 1, 1, 1],
        palete_1: [2, 2, 2, 2],
        plate: Some(b"ABC-123".to_vec()),
        name: b"pickup".to_vec(),
        server_id: 9000,
        owner: Some(77),
        position: [5, 5, 5],
        rotation: [0, 0, 0, 1],
    }
}

#[test]
fn client_commands_round_trip_through_the_wire() {
    let cases = vec![
        ClientCommand::ClientInfo(ClientInfoPrivate {
            name: b"alice".to_vec(),
            secret: b"s3cr3t".to_vec(),
            steamid64: Some(b"7656119".to_vec()),
            client_version: (0, 6),
        }),
        ClientCommand::VehicleUpdate(sample_update()),
        ClientCommand::VehicleData(sample_data()),
        ClientCommand::RemoveVehicle(31),
        ClientCommand::ResetVehicle(VehicleReset {
            vehicle_id: 8,
            position: [9, 9, 9],
            rotation: [1, 2, 3, 4],
        }),
        ClientCommand::Chat(b"hello out there".to_vec()),
        ClientCommand::RequestMods(vec![b"a.zip".to_vec(), b"b.zip".to_vec()]),
        ClientCommand::VehicleMetaUpdate(VehicleMeta {
            vehicle_id: 3,
            plate: None,
            colors_table: [[1, 2, 3, 4], [5, 6, 7, 8], [9, 10, 11, 12]],
        }),
        ClientCommand::VehicleChanged(5),
        ClientCommand::CouplerAttached(CouplerAttached {
            obj_a: 1,
            obj_b: 2,
            node_a_id: 3,
            node_b_id: 4,
        }),
        ClientCommand::ElectricsUndefinedUpdate(
            6,
            ElectricsUndefined { diff: vec![(b"fog".to_vec(), 1)] },
        ),
        ClientCommand::VoiceChatPacket(vec![0, 255, 128]),
        ClientCommand::Ping(999),
        ClientCommand::DataChunk { chunk_index: 1, total_chunks: 3, data: b"xyz".to_vec() },
    ];
    for c in &cases {
        let encoded = encode_client_command(c);
        let decoded = decode_client_command(&encoded).expect("a sent command decodes");
        // compare through a re-encoding: equal payloads encode equally
        assert_eq!(encode_client_command(&decoded), encoded);
    }
}

#[test]
fn server_commands_round_trip_through_the_wire() {
    let cases = vec![
        ServerCommand::VehicleUpdate(sample_update()),
        ServerCommand::VehicleSpawn(sample_data()),
        ServerCommand::RemoveVehicle(12),
        ServerCommand::Chat(b"welcome".to_vec(), Some(3)),
        ServerCommand::TransferFile(b"map.zip".to_vec()),
        ServerCommand::SendLua(b"print(1)".to_vec()),
        ServerCommand::PlayerInfoUpdate(ClientInfoPublic {
            name: b"bob".to_vec(),
            id: 4,
            current_vehicle: Some(77),
            ping: 31,
            hide_nametag: false,
        }),
        ServerCommand::PlayerDisconnected(9),
        ServerCommand::VehicleLuaCommand(2, b"beep()".to_vec()),
        ServerCommand::ServerInfo(ServerInfo {
            name: b"my server".to_vec(),
            player_count: 2,
            client_id: 11,
            map: b"/levels/x/info.json".to_vec(),
            tickrate: 30,
            max_vehicles_per_client: 4,
            mods: vec![(b"a.zip".to_vec(), 100), (b"b.zip".to_vec(), 200)],
            server_identifier: b"ident".to_vec(),
        }),
        ServerCommand::FilePart(b"a.zip".to_vec(), vec![1, 2, 3], 0, 3, 0),
        ServerCommand::VoiceChatPacket(5, [1, 2, 3], vec![9, 8, 7]),
        ServerCommand::Pong(123456789),
    ];
    for c in &cases {
        let encoded = encode_server_command(c);
        let decoded = decode_server_command(&encoded).expect("a sent command decodes");
        assert_eq!(encode_server_command(&decoded), encoded);
    }
}

#[test]
fn both_payload_forms_are_accepted_on_read() {
    // the sender emits high-frequency commands compact: a one-byte tag first
    let ping = encode_client_command(&ClientCommand::Ping(7));
    assert_ne!(ping[0], 0);
    // and administrative commands structured: marker, tag, declared arity
    let chat = encode_client_command(&ClientCommand::Chat(b"hi".to_vec()));
    assert_eq!(chat[0], 0);
    // a compact form of an administrative command still decodes
    let compact_chat: Vec<u8> = chat[1..2].iter().chain(chat[3..].iter()).cloned().collect();
    let decoded = decode_client_command(&compact_chat).expect("the compact form decodes too");
    assert_eq!(encode_client_command(&decoded), chat);
}

#[test]
fn truncated_and_corrupted_frames_yield_typed_errors() {
    let encoded = encode_client_command(&ClientCommand::Chat(b"hello".to_vec()));
    // empty input
    assert!(matches!(decode_client_command(&[]), Err(DecodeError::Truncated)));
    // every strict prefix fails, and never panics
    for cut in 1..encoded.len() {
        assert!(decode_client_command(&encoded[..cut]).is_err());
    }
    // an unknown tag is reported as such, with the tag
    assert!(matches!(
        decode_client_command(&[200, 1, 2, 3]),
        Err(DecodeError::UnknownTag(200))
    ));
    // trailing bytes past the command are refused
    let mut long = encoded.clone();
    long.push(0);
    assert!(matches!(decode_client_command(&long), Err(DecodeError::Malformed)));
    // a corrupted structured arity is refused
    let mut bad_arity = encoded.clone();
    bad_arity[2] = bad_arity[2].wrapping_add(1);
    assert!(matches!(decode_client_command(&bad_arity), Err(DecodeError::Malformed)));
}

#[test]
fn frames_carry_their_own_length() {
    let payload = encode_server_command(&ServerCommand::Pong(5));
    let frame = encode_frame(&payload);
    assert_eq!(frame.len(), payload.len() + 4);
    let (out, used) = decode_frame(&frame).unwrap();
    assert_eq!(used, frame.len());
    assert_eq!(out, payload);
    // a truncated frame is a typed error, not a panic
    assert!(decode_frame(&frame[..frame.len() - 1]).is_err());
    assert!(decode_frame(&[1, 0]).is_err());
}

#[test]
fn file_transfer_round_trip_reconstructs_identical_bytes() {
    // more than two chunks, with a ragged tail
    let mut data = Vec::new();
    for i in 0..150_000usize {
        data.push((i % 251) as u8);
    }
    let name = b"big.zip".to_vec();
    let chunks = encode_chunks(&name, &data);
    assert_eq!(chunks.len(), 3);
    let mut recv = FileTransferReceiver::new();
    let mut result = None;
    for c in &chunks {
        match c {
            ServerCommand::FilePart(n, d, ci, total, offset) => {
                result = recv.accept(n, d, *ci, *total, *offset).unwrap();
            },
            _ => panic!("the encoder yields file parts only"),
        }
    }
    assert_eq!(result.as_ref().unwrap(), &data);
    assert_eq!(recv.pending_count(), 0);
    // chunk 0 again after completion opens a fresh transfer, it corrupts
    // nothing
    match &chunks[0] {
        ServerCommand::FilePart(n, d, ci, total, offset) => {
            let again = recv.accept(n, d, *ci, *total, *offset).unwrap();
            assert!(again.is_none());
            assert_eq!(recv.pending_count(), 1);
            // but chunk 0 for a name mid-transfer is a restart error
            let r = recv.accept(n, d, *ci, *total, *offset);
            assert_eq!(r, Err(TransferError::Restarted));
            assert_eq!(recv.pending_count(), 1);
        },
        _ => unreachable!(),
    }
    // a continuation for an unknown name is refused
    let r = recv.accept(&b"other.zip".to_vec(), &vec![1], 1, 10, 1);
    assert_eq!(r, Err(TransferError::UnknownTransfer));
    // bytes past the declared total are refused
    let r = recv.accept(&b"tiny".to_vec(), &vec![1, 2, 3], 0, 2, 0);
    assert_eq!(r, Err(TransferError::Oversized));
    // teardown deletes the incomplete transfer instead of leaving a partial
    recv.abort_all();
    assert_eq!(recv.pending_count(), 0);
}

#[test]
fn an_empty_file_needs_no_chunks() {
    let chunks = encode_chunks(&b"empty".to_vec(), &Vec::new());
    assert!(chunks.is_empty());
}
