//! Server configuration: what the operator chooses before startup.
use vstd::prelude::*;

verus! {

/// The operator-chosen settings of one server process. Loading and saving the
/// on-disk form is the program shell's concern; the core consumes the values.
pub struct Config {
    pub server_name: Vec<u8>,
    pub description: Vec<u8>,
    pub map: Vec<u8>,
    pub max_players: u8,
    pub tickrate: u8,
    pub port: u16,
    pub max_vehicles_per_client: u8,
    pub show_in_server_list: bool,
    pub upnp_enabled: bool,
    pub server_identifier: Vec<u8>,
    pub mods: Option<Vec<Vec<u8>>>,
}

/// The default server name.
pub open spec fn default_name() -> Seq<u8> {
    // "Vanilla KissMP Server"
    seq![
        86u8, 97, 110, 105, 108, 108, 97, 32, 75, 105, 115, 115, 77, 80, 32, 83, 101, 114, 118,
        101, 114,
    ]
}

/// The default map path.
pub open spec fn default_map() -> Seq<u8> {
    // "/levels/smallgrid/info.json"
    seq![
        47u8, 108, 101, 118, 101, 108, 115, 47, 115, 109, 97, 108, 108, 103, 114, 105, 100, 47,
        105, 110, 102, 111, 46, 106, 115, 111, 110,
    ]
}

/// Ten random printable characters: the identifier a fresh server registers
/// itself under. Nothing is promised of which characters are drawn, only
/// their count and that each lies in the printable range.
pub fn rand_string() -> (r: Vec<u8>)
    ensures
        r@.len() == 10,
        forall|k: int| 0 <= k < 10 ==> 0x20 <= #[trigger] r@[k] < 0x7F,
{
    let mut r: Vec<u8> = Vec::new();
    let mut i: usize = 0;
    while i < 10
        invariant
            0 <= i <= 10,
            r@.len() == i,
            forall|k: int| 0 <= k < i ==> 0x20 <= #[trigger] r@[k] < 0x7F,
        decreases 10 - i,
    {
        let x = crate::rng::random_u32();
        r.push(0x20u8 + ((x % 95) as u8));
        i = i + 1;
    }
    r
}

impl Default for Config {
    /// The stock configuration: a small private server with a random
    /// identifier.
    fn default() -> (r: Self)
        ensures
            r.server_name@ == default_name(),
            r.description@ == default_name(),
            r.map@ == default_map(),
            r.max_players == 8,
            r.tickrate == 60,
            r.port == 3698,
            r.max_vehicles_per_client == 3,
            r.show_in_server_list == false,
            r.upnp_enabled == false,
            r.server_identifier@.len() == 10,
            r.mods is None,
    {
        let mut server_name: Vec<u8> = Vec::new();
        let mut i: usize = 0;
        // "Vanilla KissMP Server"
        let letters: [u8; 21] = [
            86u8, 97, 110, 105, 108, 108, 97, 32, 75, 105, 115, 115, 77, 80, 32, 83, 101, 114,
            118, 101, 114,
        ];
        while i < 21
            invariant
                0 <= i <= 21,
                server_name@.len() == i,
                forall|k: int| 0 <= k < i ==> server_name@[k] == letters@[k],
            decreases 21 - i,
        {
            server_name.push(letters[i]);
            i = i + 1;
        }
        proof {
            assert(server_name@ =~= default_name());
        }
        let description = crate::util::clone_bytes(&server_name);
        // "/levels/smallgrid/info.json"
        let map_letters: [u8; 27] = [
            47u8, 108, 101, 118, 101, 108, 115, 47, 115, 109, 97, 108, 108, 103, 114, 105, 100,
            47, 105, 110, 102, 111, 46, 106, 115, 111, 110,
        ];
        let mut map: Vec<u8> = Vec::new();
        let mut j: usize = 0;
        while j < 27
            invariant
                0 <= j <= 27,
                map@.len() == j,
                forall|k: int| 0 <= k < j ==> map@[k] == map_letters@[k],
            decreases 27 - j,
        {
            map.push(map_letters[j]);
            j = j + 1;
        }
        proof {
            assert(map@ =~= default_map());
        }
        Config {
            server_name,
            description,
            map,
            max_players: 8,
            tickrate: 60,
            port: 3698,
            max_vehicles_per_client: 3,
            show_in_server_list: false,
            upnp_enabled: false,
            server_identifier: rand_string(),
            mods: None,
        }
    }
}

} // verus!
