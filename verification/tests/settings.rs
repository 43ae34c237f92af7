//! Configuration defaults and identity constructors.
use kissmp_server::commands::ClientInfoPublic;
use kissmp_server::config::Config;

#[test]
fn stock_configuration_matches_the_documented_defaults() {
    let c = Config::default();
    assert_eq!(c.server_name, b"Vanilla KissMP Server".to_vec());
    assert_eq!(c.description, b"Vanilla KissMP Server".to_vec());
    assert_eq!(c.map, b"/levels/smallgrid/info.json".to_vec());
    assert_eq!(c.max_players, 8);
    assert_eq!(c.tickrate, 60);
    assert_eq!(c.port, 3698);
    assert_eq!(c.max_vehicles_per_client, 3);
    assert!(!c.show_in_server_list);
    assert!(!c.upnp_enabled);
    assert_eq!(c.server_identifier.len(), 10);
    assert!(c.mods.is_none());
}

#[test]
fn a_fresh_public_identity_starts_blank() {
    let p = ClientInfoPublic::new(42);
    assert_eq!(p.id, 42);
    assert_eq!(p.name, b"Unknown".to_vec());
    assert_eq!(p.current_vehicle, None);
    assert_eq!(p.ping, 0);
    assert!(!p.hide_nametag);
    let d = ClientInfoPublic::default();
    assert_eq!(d.id, 0);
    assert_eq!(d.name, b"Unknown".to_vec());
}
