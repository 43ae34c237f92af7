//! The vehicle registry: id uniqueness, namespace lookups, cascade isolation.
use kissmp_server::registry::VehicleRegistry;
use kissmp_server::vehicle::Electrics;
use kissmp_server::vehicle::Gearbox;
use kissmp_server::vehicle::Transform;
use kissmp_server::vehicle::VehicleData;

fn data(local: u32, name: &[u8]) -> VehicleData {
    VehicleData {
        parts_config: b"cfg".to_vec(),
        in_game_id: local,
        color: [1, 2, 3, 4],
        palete_0: [0; 4],
        palete_1: [0; 4],
        plate: Some(b"KISS".to_vec()),
        name: name.to_vec(),
        server_id: 0,
        owner: None,
        position: [10, 20, 30],
        rotation: [0, 0, 0, 1],
    }
}

#[test]
fn spawned_ids_are_unique_among_live_vehicles() {
    let mut reg = VehicleRegistry::new();
    let mut ids = Vec::new();
    for k in 0..32u32 {
        ids.push(reg.spawn(Some(7), data(k, b"car")));
    }
    for a in 0..ids.len() {
        for b in 0..ids.len() {
            if a != b {
                assert_ne!(ids[a], ids[b]);
            }
        }
        assert!(reg.contains_id(ids[a]));
    }
    assert_eq!(reg.len(), 32);
}

#[test]
fn resolve_returns_most_recent_spawn_and_none_after_removal() {
    let mut reg = VehicleRegistry::new();
    let first = reg.spawn(Some(1), data(5, b"car"));
    assert_eq!(reg.resolve(1, 5), Some(first));
    // a respawn under the same local id replaces the mapping
    let second = reg.spawn(Some(1), data(5, b"car"));
    assert_ne!(first, second);
    assert_eq!(reg.resolve(1, 5), Some(second));
    assert!(!reg.contains_id(first));
    // removal clears the mapping rather than leaving it stale
    reg.remove(second);
    assert_eq!(reg.resolve(1, 5), None);
    // removing an absent id is a no-op, not an error
    reg.remove(second);
    assert_eq!(reg.len(), 0);
}

#[test]
fn local_ids_are_scoped_to_their_owner() {
    let mut reg = VehicleRegistry::new();
    let a = reg.spawn(Some(1), data(5, b"car"));
    let b = reg.spawn(Some(2), data(5, b"car"));
    assert_ne!(a, b);
    assert_eq!(reg.resolve(1, 5), Some(a));
    assert_eq!(reg.resolve(2, 5), Some(b));
    assert_eq!(reg.resolve(3, 5), None);
}

#[test]
fn script_spawn_touches_no_namespace() {
    let mut reg = VehicleRegistry::new();
    let g = reg.spawn(None, data(5, b"prop"));
    assert!(reg.contains_id(g));
    assert_eq!(reg.resolve(0, 5), None);
    assert_eq!(reg.resolve(5, 5), None);
}

#[test]
fn removing_a_session_removes_its_vehicles_and_no_others() {
    let mut reg = VehicleRegistry::new();
    let a1 = reg.spawn(Some(1), data(0, b"car"));
    let a2 = reg.spawn(Some(1), data(1, b"car"));
    let b1 = reg.spawn(Some(2), data(0, b"car"));
    let s1 = reg.spawn(None, data(9, b"prop"));
    let mut removed = reg.remove_owned_by(1);
    removed.sort();
    let mut expected = vec![a1, a2];
    expected.sort();
    assert_eq!(removed, expected);
    assert!(!reg.contains_id(a1));
    assert!(!reg.contains_id(a2));
    assert!(reg.contains_id(b1));
    assert!(reg.contains_id(s1));
    assert_eq!(reg.resolve(1, 0), None);
    assert_eq!(reg.resolve(2, 0), Some(b1));
}

#[test]
fn updates_replace_snapshots_and_track_placement() {
    let mut reg = VehicleRegistry::new();
    let g = reg.spawn(Some(1), data(0, b"car"));
    let t = Transform {
        position: [100, 200, 300],
        rotation: [1, 2, 3, 4],
        velocity: [9, 9, 9],
        angular_velocity: [8, 8, 8],
    };
    let e = Electrics {
        throttle_input: 11,
        brake_input: 22,
        clutch: 33,
        parkingbrake: 44,
        steering_input: 55,
    };
    let gb = Gearbox { arcade: true, lock_coef: 7, mode: Some(b"sport".to_vec()), gear_indices: [-1, 2] };
    reg.apply_update(g, t, e, gb);
    let v = reg.get(g).unwrap();
    assert_eq!(v.data.position, [100, 200, 300]);
    assert_eq!(v.data.rotation, [1, 2, 3, 4]);
    assert_eq!(v.electrics.as_ref().unwrap().brake_input, 22);
    assert_eq!(v.gearbox.as_ref().unwrap().gear_indices, [-1, 2]);
    // a reset keeps the vehicle but clears its motion
    reg.reset(g, [7, 7, 7], [0, 0, 0, 9]);
    let v = reg.get(g).unwrap();
    assert_eq!(v.data.position, [7, 7, 7]);
    let nt = v.transform.as_ref().unwrap();
    assert_eq!(nt.position, [7, 7, 7]);
    assert_eq!(nt.velocity, [0, 0, 0]);
    assert_eq!(nt.angular_velocity, [0, 0, 0]);
}

#[test]
fn channel_updates_merge_without_clobbering() {
    let mut reg = VehicleRegistry::new();
    let g = reg.spawn(Some(1), data(0, b"car"));
    let first = kissmp_server::vehicle::ElectricsUndefined {
        diff: vec![(b"fog".to_vec(), 1), (b"lowbeam".to_vec(), 2)],
    };
    reg.apply_electrics_undefined(g, &first);
    let second = kissmp_server::vehicle::ElectricsUndefined {
        diff: vec![(b"fog".to_vec(), 9)],
    };
    reg.apply_electrics_undefined(g, &second);
    let v = reg.get(g).unwrap();
    let table = &v.undefined_electrics.diff;
    let get = |key: &[u8]| -> Option<u32> {
        table.iter().find(|p| p.0 == key).map(|p| p.1)
    };
    // the named channel took the newer value; the unnamed one survived
    assert_eq!(get(b"fog"), Some(9));
    assert_eq!(get(b"lowbeam"), Some(2));
}
