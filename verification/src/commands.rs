//! Identity records, the handshake reply, and the two tagged command types
//! carried on the wire: what a client may send to the server and what the
//! server may send to a client.
use crate::vehicle::CouplerAttached;
use crate::vehicle::CouplerDetached;
use crate::vehicle::ElectricsUndefined;
use crate::vehicle::VehicleData;
use crate::vehicle::VehicleMeta;
use crate::vehicle::VehicleReset;
use crate::vehicle::VehicleUpdate;
use crate::vehicle::eu_eq;
use crate::vehicle::opt_bytes_eq;
use crate::vehicle::vd_eq;
use crate::vehicle::vm_eq;
use crate::vehicle::vu_eq;
use vstd::prelude::*;

verus! {

/// What a client discloses about itself during the handshake; the secret is
/// the per-connection token and is never echoed to other clients.
pub struct ClientInfoPrivate {
    pub name: Vec<u8>,
    pub secret: Vec<u8>,
    pub steamid64: Option<Vec<u8>>,
    pub client_version: (u32, u32),
}

/// The publicly visible identity of a connected client.
pub struct ClientInfoPublic {
    pub name: Vec<u8>,
    pub id: u32,
    pub current_vehicle: Option<u32>,
    pub ping: u32,
    pub hide_nametag: bool,
}

/// The placeholder shown until a client's real name arrives.
pub open spec fn placeholder_name() -> Seq<u8> {
    // "Unknown"
    seq![85u8, 110, 107, 110, 111, 119, 110]
}

impl Default for ClientInfoPublic {
    /// A blank public identity: the placeholder name, no session, no vehicle.
    fn default() -> (r: Self)
        ensures
            r.name@ == placeholder_name(),
            r.id == 0,
            r.current_vehicle is None,
            r.ping == 0,
            r.hide_nametag == false,
    {
        let letters: [u8; 7] = [85u8, 110, 107, 110, 111, 119, 110];
        let mut name: Vec<u8> = Vec::new();
        let mut i: usize = 0;
        while i < 7
            invariant
                0 <= i <= 7,
                name@.len() == i,
                forall|k: int| 0 <= k < i ==> name@[k] == letters@[k],
            decreases 7 - i,
        {
            name.push(letters[i]);
            i = i + 1;
        }
        proof {
            assert(name@ =~= placeholder_name());
        }
        ClientInfoPublic { name, id: 0, current_vehicle: None, ping: 0, hide_nametag: false }
    }
}

impl ClientInfoPublic {
    /// A fresh public identity for a newly assigned session id.
    pub fn new(id: u32) -> (r: Self)
        ensures
            r.name@ == placeholder_name(),
            r.id == id,
            r.current_vehicle is None,
            r.ping == 0,
            r.hide_nametag == false,
    {
        let mut r = ClientInfoPublic::default();
        r.id = id;
        r
    }
}

/// The handshake reply: what a client learns about the server before any
/// other traffic, including its assigned session id and the mod manifest as
/// name and size pairs.
pub struct ServerInfo {
    pub name: Vec<u8>,
    pub player_count: u8,
    pub client_id: u32,
    pub map: Vec<u8>,
    pub tickrate: u8,
    pub max_vehicles_per_client: u8,
    pub mods: Vec<(Vec<u8>, u32)>,
    pub server_identifier: Vec<u8>,
}

/// Where received file transfers are written by the receiving side.
pub struct State {
    pub download_directory: Vec<u8>,
    pub disregard_unix_path_correction: bool,
}

/// Commands a client sends to the server, on either channel.
pub enum ClientCommand {
    ClientInfo(ClientInfoPrivate),
    VehicleUpdate(VehicleUpdate),
    VehicleData(VehicleData),
    RemoveVehicle(u32),
    ResetVehicle(VehicleReset),
    Chat(Vec<u8>),
    RequestMods(Vec<Vec<u8>>),
    VehicleMetaUpdate(VehicleMeta),
    VehicleChanged(u32),
    CouplerAttached(CouplerAttached),
    CouplerDetached(CouplerDetached),
    ElectricsUndefinedUpdate(u32, ElectricsUndefined),
    VoiceChatPacket(Vec<u8>),
    Ping(u16),
    DataChunk { chunk_index: u32, total_chunks: u32, data: Vec<u8> },
}

/// Commands the server sends to a client, on either channel.
pub enum ServerCommand {
    VehicleUpdate(VehicleUpdate),
    VehicleSpawn(VehicleData),
    RemoveVehicle(u32),
    ResetVehicle(VehicleReset),
    Chat(Vec<u8>, Option<u32>),
    TransferFile(Vec<u8>),
    SendLua(Vec<u8>),
    PlayerInfoUpdate(ClientInfoPublic),
    VehicleMetaUpdate(VehicleMeta),
    PlayerDisconnected(u32),
    VehicleLuaCommand(u32, Vec<u8>),
    CouplerAttached(CouplerAttached),
    CouplerDetached(CouplerDetached),
    ElectricsUndefinedUpdate(u32, ElectricsUndefined),
    ServerInfo(ServerInfo),
    FilePart(Vec<u8>, Vec<u8>, u32, u32, u32),
    VoiceChatPacket(u32, [u32; 3], Vec<u8>),
    Pong(u64),
}

impl Clone for ClientInfoPrivate {
    /// A fresh private identity record that agrees on every field.
    fn clone(&self) -> (r: Self)
        ensures
            cip_eq(r, *self),
    {
        ClientInfoPrivate {
            name: crate::util::clone_bytes(&self.name),
            secret: crate::util::clone_bytes(&self.secret),
            steamid64: crate::util::clone_opt_bytes(&self.steamid64),
            client_version: self.client_version,
        }
    }
}

impl Clone for ClientInfoPublic {
    /// A fresh public identity record that agrees on every field.
    fn clone(&self) -> (r: Self)
        ensures
            cipub_eq(r, *self),
    {
        ClientInfoPublic {
            name: crate::util::clone_bytes(&self.name),
            id: self.id,
            current_vehicle: self.current_vehicle,
            ping: self.ping,
            hide_nametag: self.hide_nametag,
        }
    }
}

impl Clone for ServerInfo {
    /// A fresh handshake reply that agrees on every field.
    fn clone(&self) -> (r: Self)
        ensures
            si_eq(r, *self),
    {
        ServerInfo {
            name: crate::util::clone_bytes(&self.name),
            player_count: self.player_count,
            client_id: self.client_id,
            map: crate::util::clone_bytes(&self.map),
            tickrate: self.tickrate,
            max_vehicles_per_client: self.max_vehicles_per_client,
            mods: crate::util::clone_pairs(&self.mods),
            server_identifier: crate::util::clone_bytes(&self.server_identifier),
        }
    }
}

impl Clone for ServerCommand {
    /// A fresh command carrying the same payload.
    fn clone(&self) -> (r: Self)
        ensures
            sc_eq(r, *self),
    {
        match self {
            ServerCommand::VehicleUpdate(x) => ServerCommand::VehicleUpdate(x.clone()),
            ServerCommand::VehicleSpawn(x) => ServerCommand::VehicleSpawn(x.clone()),
            ServerCommand::RemoveVehicle(x) => ServerCommand::RemoveVehicle(*x),
            ServerCommand::ResetVehicle(x) => ServerCommand::ResetVehicle(*x),
            ServerCommand::Chat(x, who) => ServerCommand::Chat(
                crate::util::clone_bytes(x),
                *who,
            ),
            ServerCommand::TransferFile(x) => ServerCommand::TransferFile(
                crate::util::clone_bytes(x),
            ),
            ServerCommand::SendLua(x) => ServerCommand::SendLua(crate::util::clone_bytes(x)),
            ServerCommand::PlayerInfoUpdate(x) => ServerCommand::PlayerInfoUpdate(x.clone()),
            ServerCommand::VehicleMetaUpdate(x) => ServerCommand::VehicleMetaUpdate(x.clone()),
            ServerCommand::PlayerDisconnected(x) => ServerCommand::PlayerDisconnected(*x),
            ServerCommand::VehicleLuaCommand(id, x) => ServerCommand::VehicleLuaCommand(
                *id,
                crate::util::clone_bytes(x),
            ),
            ServerCommand::CouplerAttached(x) => ServerCommand::CouplerAttached(*x),
            ServerCommand::CouplerDetached(x) => ServerCommand::CouplerDetached(*x),
            ServerCommand::ElectricsUndefinedUpdate(id, x) => ServerCommand::ElectricsUndefinedUpdate(
                *id,
                x.clone(),
            ),
            ServerCommand::ServerInfo(x) => ServerCommand::ServerInfo(x.clone()),
            ServerCommand::FilePart(name, data, chunk, total, offset) => ServerCommand::FilePart(
                crate::util::clone_bytes(name),
                crate::util::clone_bytes(data),
                *chunk,
                *total,
                *offset,
            ),
            ServerCommand::VoiceChatPacket(id, p, x) => ServerCommand::VoiceChatPacket(
                *id,
                *p,
                crate::util::clone_bytes(x),
            ),
            ServerCommand::Pong(x) => ServerCommand::Pong(*x),
        }
    }
}

/// The two private identity records agree on every field, up to byte views.
pub open spec fn cip_eq(a: ClientInfoPrivate, b: ClientInfoPrivate) -> bool {
    &&& a.name@ == b.name@
    &&& a.secret@ == b.secret@
    &&& opt_bytes_eq(a.steamid64, b.steamid64)
    &&& a.client_version == b.client_version
}

/// The two public identity records agree on every field, up to byte views.
pub open spec fn cipub_eq(a: ClientInfoPublic, b: ClientInfoPublic) -> bool {
    &&& a.name@ == b.name@
    &&& a.id == b.id
    &&& a.current_vehicle == b.current_vehicle
    &&& a.ping == b.ping
    &&& a.hide_nametag == b.hide_nametag
}

/// The two manifests list the same names and sizes in the same order.
pub open spec fn mods_eq(a: Seq<(Vec<u8>, u32)>, b: Seq<(Vec<u8>, u32)>) -> bool {
    &&& a.len() == b.len()
    &&& forall|i: int| 0 <= i < a.len() ==> a[i].0@ == b[i].0@ && a[i].1 == b[i].1
}

/// The two handshake replies agree on every field, up to byte views.
pub open spec fn si_eq(a: ServerInfo, b: ServerInfo) -> bool {
    &&& a.name@ == b.name@
    &&& a.player_count == b.player_count
    &&& a.client_id == b.client_id
    &&& a.map@ == b.map@
    &&& a.tickrate == b.tickrate
    &&& a.max_vehicles_per_client == b.max_vehicles_per_client
    &&& mods_eq(a.mods@, b.mods@)
    &&& a.server_identifier@ == b.server_identifier@
}

/// The two name lists hold the same byte strings in the same order.
pub open spec fn names_eq(a: Seq<Vec<u8>>, b: Seq<Vec<u8>>) -> bool {
    &&& a.len() == b.len()
    &&& forall|i: int| 0 <= i < a.len() ==> a[i]@ == b[i]@
}

/// The two client commands are the same command with the same payload, up to
/// byte views.
pub open spec fn cc_eq(a: ClientCommand, b: ClientCommand) -> bool {
    match (a, b) {
        (ClientCommand::ClientInfo(x), ClientCommand::ClientInfo(y)) => cip_eq(x, y),
        (ClientCommand::VehicleUpdate(x), ClientCommand::VehicleUpdate(y)) => vu_eq(x, y),
        (ClientCommand::VehicleData(x), ClientCommand::VehicleData(y)) => vd_eq(x, y),
        (ClientCommand::RemoveVehicle(x), ClientCommand::RemoveVehicle(y)) => x == y,
        (ClientCommand::ResetVehicle(x), ClientCommand::ResetVehicle(y)) => x == y,
        (ClientCommand::Chat(x), ClientCommand::Chat(y)) => x@ == y@,
        (ClientCommand::RequestMods(x), ClientCommand::RequestMods(y)) => names_eq(x@, y@),
        (ClientCommand::VehicleMetaUpdate(x), ClientCommand::VehicleMetaUpdate(y)) => vm_eq(x, y),
        (ClientCommand::VehicleChanged(x), ClientCommand::VehicleChanged(y)) => x == y,
        (ClientCommand::CouplerAttached(x), ClientCommand::CouplerAttached(y)) => x == y,
        (ClientCommand::CouplerDetached(x), ClientCommand::CouplerDetached(y)) => x == y,
        (
            ClientCommand::ElectricsUndefinedUpdate(i, x),
            ClientCommand::ElectricsUndefinedUpdate(j, y),
        ) => i == j && eu_eq(x, y),
        (ClientCommand::VoiceChatPacket(x), ClientCommand::VoiceChatPacket(y)) => x@ == y@,
        (ClientCommand::Ping(x), ClientCommand::Ping(y)) => x == y,
        (
            ClientCommand::DataChunk { chunk_index: i, total_chunks: t, data: x },
            ClientCommand::DataChunk { chunk_index: j, total_chunks: u, data: y },
        ) => i == j && t == u && x@ == y@,
        _ => false,
    }
}

/// The two server commands are the same command with the same payload, up to
/// byte views.
pub open spec fn sc_eq(a: ServerCommand, b: ServerCommand) -> bool {
    match (a, b) {
        (ServerCommand::VehicleUpdate(x), ServerCommand::VehicleUpdate(y)) => vu_eq(x, y),
        (ServerCommand::VehicleSpawn(x), ServerCommand::VehicleSpawn(y)) => vd_eq(x, y),
        (ServerCommand::RemoveVehicle(x), ServerCommand::RemoveVehicle(y)) => x == y,
        (ServerCommand::ResetVehicle(x), ServerCommand::ResetVehicle(y)) => x == y,
        (ServerCommand::Chat(x, p), ServerCommand::Chat(y, q)) => x@ == y@ && p == q,
        (ServerCommand::TransferFile(x), ServerCommand::TransferFile(y)) => x@ == y@,
        (ServerCommand::SendLua(x), ServerCommand::SendLua(y)) => x@ == y@,
        (ServerCommand::PlayerInfoUpdate(x), ServerCommand::PlayerInfoUpdate(y)) => cipub_eq(x, y),
        (ServerCommand::VehicleMetaUpdate(x), ServerCommand::VehicleMetaUpdate(y)) => vm_eq(x, y),
        (ServerCommand::PlayerDisconnected(x), ServerCommand::PlayerDisconnected(y)) => x == y,
        (ServerCommand::VehicleLuaCommand(i, x), ServerCommand::VehicleLuaCommand(j, y)) => i == j
            && x@ == y@,
        (ServerCommand::CouplerAttached(x), ServerCommand::CouplerAttached(y)) => x == y,
        (ServerCommand::CouplerDetached(x), ServerCommand::CouplerDetached(y)) => x == y,
        (
            ServerCommand::ElectricsUndefinedUpdate(i, x),
            ServerCommand::ElectricsUndefinedUpdate(j, y),
        ) => i == j && eu_eq(x, y),
        (ServerCommand::ServerInfo(x), ServerCommand::ServerInfo(y)) => si_eq(x, y),
        (
            ServerCommand::FilePart(n, d, c, s, o),
            ServerCommand::FilePart(m, e, k, t, p),
        ) => n@ == m@ && d@ == e@ && c == k && s == t && o == p,
        (ServerCommand::VoiceChatPacket(i, p, x), ServerCommand::VoiceChatPacket(j, q, y)) => i == j
            && p == q && x@ == y@,
        (ServerCommand::Pong(x), ServerCommand::Pong(y)) => x == y,
        _ => false,
    }
}

} // verus!
