//! The session table and the event router: per-connection lifecycle,
//! validation of every inbound command against the registry's ownership
//! rules, the mutations they cause, and the outbound commands they enqueue.
//!
//! Each session owns two bounded outbound queues — ordered and unreliable —
//! so a slow client backs up only its own queues and never stalls the tick
//! broadcast to anyone else. The registry and session table are mutated only
//! here; transport tasks reach them exclusively through decoded commands.
use crate::commands::ClientCommand;
use crate::commands::ClientInfoPrivate;
use crate::commands::ClientInfoPublic;
use crate::commands::ServerCommand;
use crate::commands::ServerInfo;
use crate::commands::cipub_eq;
use crate::commands::mods_eq;
use crate::commands::sc_eq;
use crate::registry::VehicleRegistry;
use crate::registry::has_id;
use crate::registry::reg_wf;
use crate::registry::spec_resolve;
use crate::registry::strip_id;
use crate::registry::vehicle_of;
use crate::vehicle::vd_eq;
use vstd::multiset::Multiset;
use vstd::prelude::*;

verus! {

/// How many outbound commands one session queue holds at most; beyond this
/// the send is dropped for that session alone.
pub const QUEUE_CAPACITY: usize = 128;

/// Reassembly state for one oversized application message that arrives as
/// numbered text chunks: the declared chunk count, the chunks, and an
/// explicit received-bitmap — a genuinely empty chunk is then distinct from a
/// not-yet-received one.
pub struct ChunkBuffer {
    pub total: u32,
    pub parts: Vec<Vec<u8>>,
    pub received: Vec<bool>,
}

/// One connected client: its session id, identity records, its two bounded
/// outbound queues, and at most one oversized message being reassembled.
pub struct Connection {
    pub id: u32,
    pub client_info_private: ClientInfoPrivate,
    pub client_info_public: ClientInfoPublic,
    pub ordered: Vec<ServerCommand>,
    pub unreliable: Vec<ServerCommand>,
    pub chunks: Option<ChunkBuffer>,
}

/// What a bounded enqueue does: appends the command when there is room,
/// drops it (for this session alone) when there is not.
pub open spec fn queue_pushed(q0: Seq<ServerCommand>, q1: Seq<ServerCommand>, c: ServerCommand) -> bool {
    if q0.len() < 128 {
        q1.len() == q0.len() + 1 && q1.drop_last() == q0 && sc_eq(q1.last(), c)
    } else {
        q1 == q0
    }
}

/// The two connections are the same session with the same identity records.
pub open spec fn same_identity(a: Connection, b: Connection) -> bool {
    &&& a.id == b.id
    &&& a.client_info_private == b.client_info_private
    &&& a.client_info_public == b.client_info_public
}

/// Some session carries the id.
pub open spec fn has_conn(s: Seq<Connection>, id: u32) -> bool {
    exists|i: int| 0 <= i < s.len() && s[i].id == id
}

/// The position of the session with the id.
pub open spec fn conn_idx(s: Seq<Connection>, id: u32) -> int {
    choose|i: int| 0 <= i < s.len() && s[i].id == id
}

/// The session with the id.
pub open spec fn conn_of(s: Seq<Connection>, id: u32) -> Connection {
    s[conn_idx(s, id)]
}

/// Session-table well-formedness: session ids are unique.
pub open spec fn conns_wf(s: Seq<Connection>) -> bool {
    forall|i: int, j: int| 0 <= i < j < s.len() ==> s[i].id != s[j].id
}

/// Under well-formedness, a session at a matching index is the unique one.
proof fn lemma_conn_at(s: Seq<Connection>, id: u32, i: int)
    requires
        conns_wf(s),
        0 <= i < s.len(),
        s[i].id == id,
    ensures
        has_conn(s, id),
        conn_idx(s, id) == i,
        conn_of(s, id) == s[i],
{
    assert(has_conn(s, id));
    let j = conn_idx(s, id);
    assert(0 <= j < s.len() && s[j].id == id);
    if i != j {
        assert(false);
    }
}

/// All of the ids 0, 1, ..., m-1 occur among sessions with pairwise distinct
/// ids, so there are at least m sessions.
proof fn lemma_conn_pigeonhole(s: Seq<Connection>, m: int)
    requires
        0 <= m <= 0x1_0000_0000,
        conns_wf(s),
        forall|j: int| 0 <= j < m ==> #[trigger] has_conn(s, j as u32),
    ensures
        m <= s.len(),
    decreases m,
{
    if m > 0 {
        let g = (m - 1) as u32;
        assert(has_conn(s, g));
        let i = choose|i: int| 0 <= i < s.len() && s[i].id == g;
        assert(0 <= i < s.len() && s[i].id == g);
        let s2 = s.remove(i);
        assert(conns_wf(s2)) by {
            assert forall|p: int, q: int| 0 <= p < q < s2.len() implies s2[p].id != s2[q].id by {
                let p0 = if p < i { p } else { p + 1 };
                let q0 = if q < i { q } else { q + 1 };
                assert(s2[p] == s[p0] && s2[q] == s[q0]);
            }
        }
        assert forall|j: int| 0 <= j < m - 1 implies #[trigger] has_conn(s2, j as u32) by {
            assert(has_conn(s, j as u32));
            let k = choose|k: int| 0 <= k < s.len() && s[k].id == j as u32;
            assert(0 <= k < s.len() && s[k].id == j as u32);
            assert(k != i);
            if k < i {
                assert(s2[k].id == j as u32);
            } else {
                assert(s2[k - 1].id == j as u32);
            }
        }
        lemma_conn_pigeonhole(s2, m - 1);
    }
}

/// Every command holds the same payload as itself.
proof fn lemma_sc_eq_refl(c: ServerCommand)
    ensures
        sc_eq(c, c),
{
    match c {
        ServerCommand::VehicleUpdate(x) => {},
        ServerCommand::VehicleSpawn(x) => {},
        ServerCommand::RemoveVehicle(x) => {},
        ServerCommand::ResetVehicle(x) => {},
        ServerCommand::Chat(x, who) => {},
        ServerCommand::TransferFile(x) => {},
        ServerCommand::SendLua(x) => {},
        ServerCommand::PlayerInfoUpdate(x) => {},
        ServerCommand::VehicleMetaUpdate(x) => {},
        ServerCommand::PlayerDisconnected(x) => {},
        ServerCommand::VehicleLuaCommand(id, x) => {},
        ServerCommand::CouplerAttached(x) => {},
        ServerCommand::CouplerDetached(x) => {},
        ServerCommand::ElectricsUndefinedUpdate(id, x) => {},
        ServerCommand::ServerInfo(x) => {},
        ServerCommand::FilePart(n, d, ck, tt, of) => {},
        ServerCommand::VoiceChatPacket(id, p, x) => {},
        ServerCommand::Pong(x) => {},
    }
}

/// Appends a command to a bounded queue, dropping it when the queue is full.
fn enqueue(q: &mut Vec<ServerCommand>, c: ServerCommand) -> (queued: bool)
    ensures
        queue_pushed(old(q)@, final(q)@, c),
        queued == (old(q)@.len() < 128),
{
    proof {
        lemma_sc_eq_refl(c);
    }
    if q.len() < QUEUE_CAPACITY {
        let ghost q0 = q@;
        q.push(c);
        proof {
            assert(q@.drop_last() =~= q0);
        }
        true
    } else {
        false
    }
}

impl Connection {
    /// A fresh session: the given id and identity, empty queues.
    pub fn new(id: u32, client_info_private: ClientInfoPrivate, name: Vec<u8>) -> (r: Self)
        ensures
            r.id == id,
            r.client_info_private == client_info_private,
            r.client_info_public.id == id,
            r.client_info_public.name@ == name@,
            r.client_info_public.current_vehicle is None,
            r.client_info_public.ping == 0,
            r.client_info_public.hide_nametag == false,
            r.ordered@ === Seq::<ServerCommand>::empty(),
            r.unreliable@ === Seq::<ServerCommand>::empty(),
            r.chunks is None,
    {
        let r = Connection {
            id,
            client_info_private,
            client_info_public: ClientInfoPublic {
                name,
                id,
                current_vehicle: None,
                ping: 0,
                hide_nametag: false,
            },
            ordered: Vec::new(),
            unreliable: Vec::new(),
            chunks: None,
        };
        proof {
            assert(r.ordered@ =~= Seq::<ServerCommand>::empty());
            assert(r.unreliable@ =~= Seq::<ServerCommand>::empty());
        }
        r
    }

    /// Queues a chat line addressed to this client on the ordered channel.
    pub fn send_chat_message(&mut self, message: Vec<u8>)
        ensures
            same_identity(*final(self), *old(self)),
            final(self).unreliable@ == old(self).unreliable@,
            final(self).chunks == old(self).chunks,
            queue_pushed(
                old(self).ordered@,
                final(self).ordered@,
                ServerCommand::Chat(message, None),
            ),
    {
        enqueue(&mut self.ordered, ServerCommand::Chat(message, None));
    }

    /// Queues a chat line attributed to a player on the ordered channel.
    pub fn send_player_chat_message(&mut self, message: Vec<u8>, player: u32)
        ensures
            same_identity(*final(self), *old(self)),
            final(self).unreliable@ == old(self).unreliable@,
            final(self).chunks == old(self).chunks,
            queue_pushed(
                old(self).ordered@,
                final(self).ordered@,
                ServerCommand::Chat(message, Some(player)),
            ),
    {
        enqueue(&mut self.ordered, ServerCommand::Chat(message, Some(player)));
    }

    /// Queues a script line for this client on the ordered channel.
    pub fn send_lua(&mut self, lua: Vec<u8>)
        ensures
            same_identity(*final(self), *old(self)),
            final(self).unreliable@ == old(self).unreliable@,
            final(self).chunks == old(self).chunks,
            queue_pushed(old(self).ordered@, final(self).ordered@, ServerCommand::SendLua(lua)),
    {
        enqueue(&mut self.ordered, ServerCommand::SendLua(lua));
    }
}

/// Payload equality is transitive.
proof fn lemma_sc_eq_trans(a: ServerCommand, b: ServerCommand, c: ServerCommand)
    requires
        sc_eq(a, b),
        sc_eq(b, c),
    ensures
        sc_eq(a, c),
{
}

/// Why a connection attempt was refused during the handshake.
#[derive(Clone, Copy, Debug, PartialEq, Eq, Structural)]
pub enum PlayerConnectError {
    /// The configured player cap is reached; the reason is sent before close.
    ServerFull,
    /// The client speaks another protocol version.
    VersionMismatch,
}

/// What a session hands the router: the transport closed underneath it, or
/// one decoded command arrived on either channel.
pub enum IncomingEvent {
    ConnectionLost,
    ClientCommand(ClientCommand),
}

/// A side-effecting action the scripting engine asks the router to perform:
/// the engine's call-outs are pure, and their requested effects come back to
/// the core only through these.
pub enum LuaCommand {
    ChatMessage(u32, Vec<u8>),
    ChatMessageBroadcast(Vec<u8>),
    RemoveVehicle(u32),
    ResetVehicle(u32),
    SendLua(u32, Vec<u8>),
    SendVehicleLua(u32, Vec<u8>),
    Kick(u32, Vec<u8>),
    SpawnVehicle(crate::vehicle::VehicleData, Option<u32>),
}

/// The top-level server state: the session table, the vehicle registry, the
/// configuration it runs under, and the tick counter that stamps broadcasts.
pub struct Server {
    pub connections: Vec<Connection>,
    pub registry: VehicleRegistry,
    pub name: Vec<u8>,
    pub description: Vec<u8>,
    pub map: Vec<u8>,
    pub tickrate: u8,
    pub max_players: u8,
    pub max_vehicles_per_client: u8,
    pub port: u16,
    pub show_in_server_list: bool,
    pub server_identifier: Vec<u8>,
    pub mods: Vec<(Vec<u8>, u32)>,
    pub tick: u64,
}

/// Server well-formedness: session ids unique, registry well-formed.
pub open spec fn server_wf(s: Server) -> bool {
    &&& conns_wf(s.connections@)
    &&& reg_wf(s.registry@)
}

/// The two states agree on every configuration field.
pub open spec fn same_config(a: Server, b: Server) -> bool {
    &&& a.name == b.name
    &&& a.description == b.description
    &&& a.map == b.map
    &&& a.tickrate == b.tickrate
    &&& a.max_players == b.max_players
    &&& a.max_vehicles_per_client == b.max_vehicles_per_client
    &&& a.port == b.port
    &&& a.show_in_server_list == b.show_in_server_list
    &&& a.server_identifier == b.server_identifier
    &&& a.mods == b.mods
}

/// Between the old and the new session table, session `i` kept its identity
/// and its unreliable queue, and its ordered queue either got the command or
/// — when it is the excluded session — stayed put.
pub open spec fn ordered_broadcast_effect(
    s0: Seq<Connection>,
    s1: Seq<Connection>,
    cmd: ServerCommand,
    except: Option<u32>,
) -> bool {
    &&& s1.len() == s0.len()
    &&& forall|i: int|
        0 <= i < s0.len() ==> {
            let c0 = s0[i];
            let c1 = #[trigger] s1[i];
            &&& same_identity(c1, c0)
            &&& c1.unreliable@ == c0.unreliable@
            &&& (if except == Some(c0.id) {
                c1.ordered@ == c0.ordered@
            } else {
                queue_pushed(c0.ordered@, c1.ordered@, cmd)
            })
        }
}

/// As `ordered_broadcast_effect`, on the unreliable queues.
pub open spec fn unreliable_broadcast_effect(
    s0: Seq<Connection>,
    s1: Seq<Connection>,
    cmd: ServerCommand,
    except: Option<u32>,
) -> bool {
    &&& s1.len() == s0.len()
    &&& forall|i: int|
        0 <= i < s0.len() ==> {
            let c0 = s0[i];
            let c1 = #[trigger] s1[i];
            &&& same_identity(c1, c0)
            &&& c1.ordered@ == c0.ordered@
            &&& (if except == Some(c0.id) {
                c1.unreliable@ == c0.unreliable@
            } else {
                queue_pushed(c0.unreliable@, c1.unreliable@, cmd)
            })
        }
}


/// What routing one command from a connected client does. Ownership resolves
/// through the sender's own namespace; an unauthorized or unresolvable
/// operation changes nothing; and each handler's outbound traffic is pinned
/// per session. This is the contract of `handle_command`, and `on_client_event`
/// carries it unchanged.
pub open spec fn routed_effect(
    pre: Server,
    post: Server,
    client_id: u32,
    cmd: ClientCommand,
    now: u64,
) -> bool {
    match cmd {
        ClientCommand::VehicleUpdate(u) => {
            // a non-owner's update is dropped whole
            &&& (spec_resolve(pre.registry@, client_id, u.vehicle_id) is None ==> (post.registry@
                == pre.registry@ && post.connections@ == pre.connections@))
            &&& (spec_resolve(pre.registry@, client_id, u.vehicle_id) matches Some(g) ==> ({
                let v1 = vehicle_of(post.registry@, g);
                &&& v1.transform == Some(u.transform)
                &&& v1.electrics == Some(u.electrics)
                &&& (v1.gearbox matches Some(gb) && crate::vehicle::gb_eq(gb, u.gearbox))
                &&& v1.data.position == u.transform.position
                &&& v1.data.rotation == u.transform.rotation
                &&& (forall|g2: u32|
                    g2 != g && has_id(pre.registry@, g2) ==> #[trigger] vehicle_of(
                        post.registry@,
                        g2,
                    ) == vehicle_of(pre.registry@, g2))
                &&& post.connections@ == pre.connections@
            }))
            &&& (forall|g2: u32| #[trigger] has_id(post.registry@, g2) <==> has_id(pre.registry@, g2))
            &&& (forall|o2: u32, l2: u32|
                #[trigger] spec_resolve(post.registry@, o2, l2) == spec_resolve(
                    pre.registry@,
                    o2,
                    l2,
                ))
        },
        ClientCommand::RemoveVehicle(l) => {
            &&& (spec_resolve(pre.registry@, client_id, l) is None ==> (post.registry@
                == pre.registry@ && post.connections@ == pre.connections@))
            &&& (spec_resolve(pre.registry@, client_id, l) matches Some(g) ==> (!has_id(
                post.registry@,
                g,
            ) && spec_resolve(post.registry@, client_id, l) is None && (forall|g2: u32|
                g2 != g ==> ((#[trigger] has_id(post.registry@, g2) <==> has_id(pre.registry@, g2))
                    && (has_id(pre.registry@, g2) ==> vehicle_of(post.registry@, g2) == vehicle_of(
                    pre.registry@,
                    g2,
                ))))))
        },
        ClientCommand::VehicleData(d) => ({
            let rid = spec_resolve(pre.registry@, client_id, d.in_game_id);
            let mid = (match rid {
                Some(g0) => strip_id(pre.registry@, g0),
                None => pre.registry@,
            });
            let cnt = crate::registry::owned_count(mid, client_id);
            // within the cap (or exempt), a fresh vehicle is live, the local
            // id resolves to it, and every unrelated vehicle survives
            &&& ((d.name@ == unicycle_name() || cnt < pre.max_vehicles_per_client as int) ==> (
            spec_resolve(post.registry@, client_id, d.in_game_id) matches Some(g) && has_id(
                post.registry@,
                g,
            ) && vehicle_of(post.registry@, g).data == (crate::vehicle::VehicleData {
                server_id: g,
                owner: Some(client_id),
                ..d
            }) && (forall|g2: u32|
                g2 != g ==> ((#[trigger] has_id(post.registry@, g2)) <==> (has_id(
                    pre.registry@,
                    g2,
                ) && !(rid matches Some(g0) && g2 == g0)))) && (forall|g2: u32|
                g2 != g && has_id(post.registry@, g2) ==> #[trigger] vehicle_of(post.registry@, g2)
                    == vehicle_of(pre.registry@, g2)) && post.registry@.len()
                == pre.registry@.len() + 1 - (if rid is Some {
                1int
            } else {
                0
            })))
            // past the cap the spawn is dropped: only the replaced mapping's
            // vehicle is gone, and the local id resolves to nothing
            &&& (!(d.name@ == unicycle_name() || cnt < pre.max_vehicles_per_client as int) ==> ((
            forall|g2: u32|
                #[trigger] has_id(post.registry@, g2) <==> (has_id(pre.registry@, g2) && !(rid
                    matches Some(g0) && g2 == g0))) && (forall|g2: u32|
                has_id(post.registry@, g2) ==> #[trigger] vehicle_of(post.registry@, g2)
                    == vehicle_of(pre.registry@, g2)) && spec_resolve(
                post.registry@,
                client_id,
                d.in_game_id,
            ) is None && post.registry@.len() == pre.registry@.len() - (if rid is Some {
                1int
            } else {
                0
            })))
        }),
        ClientCommand::ResetVehicle(rst) => {
            &&& (spec_resolve(pre.registry@, client_id, rst.vehicle_id) is None ==> (post.registry@
                == pre.registry@ && post.connections@ == pre.connections@))
            &&& (forall|g2: u32| #[trigger] has_id(post.registry@, g2) <==> has_id(pre.registry@, g2))
            &&& (spec_resolve(pre.registry@, client_id, rst.vehicle_id) matches Some(g) ==> ({
                let v1 = vehicle_of(post.registry@, g);
                v1.transform matches Some(nt) && nt.position == rst.position && nt.rotation
                    == rst.rotation && (forall|k: int|
                    0 <= k < 3 ==> nt.velocity@[k] == 0 && nt.angular_velocity@[k] == 0)
            }))
        },
        ClientCommand::Chat(msg) => ({
            // oversized chat is silently truncated, never an error; a nonempty
            // line is delivered to every session, attributed to the sender
            let m = if msg@.len() <= 128 {
                msg@
            } else {
                msg@.take(128)
            };
            &&& post.registry@ == pre.registry@
            &&& (m.len() == 0 ==> post.connections@ == pre.connections@)
            &&& (m.len() > 0 ==> (post.connections@.len() == pre.connections@.len() && (forall|
                k: int,
            |
                0 <= k < pre.connections@.len() ==> {
                    let c0 = pre.connections@[k];
                    let c1 = #[trigger] post.connections@[k];
                    &&& same_identity(c1, c0)
                    &&& c1.unreliable@ == c0.unreliable@
                    &&& (if c0.ordered@.len() < 128 {
                        c1.ordered@.len() == c0.ordered@.len() + 1 && c1.ordered@.drop_last()
                            == c0.ordered@ && (c1.ordered@.last() matches ServerCommand::Chat(
                            x,
                            who,
                        ) && x@ == m && who == Some(client_id))
                    } else {
                        c1.ordered@ == c0.ordered@
                    })
                })))
        }),
        ClientCommand::RequestMods(_) => post.registry@ == pre.registry@,
        ClientCommand::VehicleMetaUpdate(m) => {
            &&& (forall|g2: u32| #[trigger] has_id(post.registry@, g2) <==> has_id(pre.registry@, g2))
            &&& (forall|o2: u32, l2: u32|
                #[trigger] spec_resolve(post.registry@, o2, l2) == spec_resolve(
                    pre.registry@,
                    o2,
                    l2,
                ))
            &&& (spec_resolve(pre.registry@, client_id, m.vehicle_id) is None ==> (post.registry@
                == pre.registry@ && post.connections@ == pre.connections@))
        },
        ClientCommand::VehicleChanged(l) => {
            &&& post.registry@ == pre.registry@
            &&& (spec_resolve(pre.registry@, client_id, l) is None ==> post.connections@
                == pre.connections@)
            &&& (spec_resolve(pre.registry@, client_id, l) matches Some(g) ==> (
            post.connections@.len() == pre.connections@.len() && (forall|k: int|
                0 <= k < pre.connections@.len() ==> {
                    let c0 = pre.connections@[k];
                    let c1 = #[trigger] post.connections@[k];
                    &&& c1.id == c0.id
                    &&& c1.ordered@ == c0.ordered@
                    &&& c1.unreliable@ == c0.unreliable@
                    &&& c1.client_info_public.current_vehicle == (if c0.id == client_id {
                        Some(g)
                    } else {
                        c0.client_info_public.current_vehicle
                    })
                })))
        },
        ClientCommand::CouplerAttached(ev) => post.registry@ == pre.registry@
            && ordered_broadcast_effect(
            pre.connections@,
            post.connections@,
            ServerCommand::CouplerAttached(ev),
            None,
        ),
        ClientCommand::CouplerDetached(ev) => post.registry@ == pre.registry@
            && ordered_broadcast_effect(
            pre.connections@,
            post.connections@,
            ServerCommand::CouplerDetached(ev),
            None,
        ),
        ClientCommand::ElectricsUndefinedUpdate(l, _) => {
            &&& (forall|g2: u32| #[trigger] has_id(post.registry@, g2) <==> has_id(pre.registry@, g2))
            &&& (forall|o2: u32, l2: u32|
                #[trigger] spec_resolve(post.registry@, o2, l2) == spec_resolve(
                    pre.registry@,
                    o2,
                    l2,
                ))
            &&& (spec_resolve(pre.registry@, client_id, l) is None ==> (post.registry@
                == pre.registry@ && post.connections@ == pre.connections@))
        },
        ClientCommand::VoiceChatPacket(data) => {
            // relayed verbatim on the unreliable channel, to everyone else
            &&& post.registry@ == pre.registry@
            &&& post.connections@.len() == pre.connections@.len()
            &&& (forall|k: int|
                0 <= k < pre.connections@.len() ==> {
                    let c0 = pre.connections@[k];
                    let c1 = #[trigger] post.connections@[k];
                    &&& same_identity(c1, c0)
                    &&& c1.ordered@ == c0.ordered@
                    &&& (if c0.id == client_id {
                        c1.unreliable@ == c0.unreliable@
                    } else {
                        if c0.unreliable@.len() < 128 {
                            c1.unreliable@.len() == c0.unreliable@.len() + 1
                                && c1.unreliable@.drop_last() == c0.unreliable@ && (
                            c1.unreliable@.last() matches ServerCommand::VoiceChatPacket(
                                who,
                                _pos,
                                x,
                            ) && who == client_id && x@ == data@)
                        } else {
                            c1.unreliable@ == c0.unreliable@
                        }
                    })
                })
        },
        ClientCommand::Ping(p) => {
            // answered at once, out of band of the tick loop
            &&& post.registry@ == pre.registry@
            &&& post.connections@.len() == pre.connections@.len()
            &&& (forall|k: int|
                0 <= k < pre.connections@.len() ==> {
                    let c0 = pre.connections@[k];
                    let c1 = #[trigger] post.connections@[k];
                    if c0.id == client_id {
                        &&& c1.id == c0.id
                        &&& c1.client_info_public.ping == p as u32
                        &&& c1.client_info_public.name == c0.client_info_public.name
                        &&& c1.client_info_public.current_vehicle
                            == c0.client_info_public.current_vehicle
                        &&& c1.ordered@ == c0.ordered@
                        &&& queue_pushed(c0.unreliable@, c1.unreliable@, ServerCommand::Pong(now))
                    } else {
                        c1 == c0
                    }
                })
        },
        ClientCommand::ClientInfo(_) => post == pre,
        ClientCommand::DataChunk { .. } => true,
    }
}

impl Server {
    /// A server with no sessions and no vehicles, configured as given. The
    /// mod manifest is handed in separately by whoever listed the mod files.
    pub fn from_config(config: crate::config::Config, mods: Vec<(Vec<u8>, u32)>) -> (r: Server)
        ensures
            server_wf(r),
            r.connections@ === Seq::<Connection>::empty(),
            r.registry@ === Seq::<crate::registry::Vehicle>::empty(),
            r.name@ == config.server_name@,
            r.description@ == config.description@,
            r.map@ == config.map@,
            r.tickrate == config.tickrate,
            r.max_players == config.max_players,
            r.max_vehicles_per_client == config.max_vehicles_per_client,
            r.port == config.port,
            r.show_in_server_list == config.show_in_server_list,
            r.server_identifier@ == config.server_identifier@,
            r.mods == mods,
            r.tick == 0,
    {
        let r = Server {
            connections: Vec::new(),
            registry: VehicleRegistry::new(),
            name: config.server_name,
            description: config.description,
            map: config.map,
            tickrate: config.tickrate,
            max_players: config.max_players,
            max_vehicles_per_client: config.max_vehicles_per_client,
            port: config.port,
            show_in_server_list: config.show_in_server_list,
            server_identifier: config.server_identifier,
            mods,
            tick: 0,
        };
        proof {
            assert(r.connections@ =~= Seq::<Connection>::empty());
        }
        r
    }

    /// Looks a local id up in the sender's own namespace: the global id most
    /// recently spawned by that client under the local id, or nothing.
    pub fn get_server_id_from_game_id(&self, client_id: u32, game_id: u32) -> (r: Option<u32>)
        requires
            server_wf(*self),
        ensures
            r == spec_resolve(self.registry@, client_id, game_id),
    {
        self.registry.resolve(client_id, game_id)
    }

    /// A session id no connected client carries: one random draw, then — on
    /// the rare collision — a deterministic search.
    fn fresh_session_id(&self) -> (r: u32)
        requires
            conns_wf(self.connections@),
            self.connections@.len() < 0xFFFF_FFFFusize,
        ensures
            !has_conn(self.connections@, r),
    {
        let c = crate::rng::random_u32();
        if !self.contains_conn(c) {
            return c;
        }
        let n = self.connections.len();
        let n32 = n as u32;
        let mut k: u32 = 0;
        loop
            invariant
                conns_wf(self.connections@),
                n == self.connections@.len(),
                n < 0xFFFF_FFFFusize,
                n32 == n,
                k <= n32,
                forall|j: u32| j < k ==> has_conn(self.connections@, j),
            decreases n32 - k,
        {
            if !self.contains_conn(k) {
                return k;
            }
            proof {
                if k == n32 {
                    assert forall|j: int| 0 <= j < n as int + 1 implies #[trigger] has_conn(
                        self.connections@,
                        j as u32,
                    ) by {
                        if j < k {
                            assert(has_conn(self.connections@, j as u32));
                        }
                    }
                    lemma_conn_pigeonhole(self.connections@, n as int + 1);
                    assert(false);
                }
            }
            k = k + 1;
        }
    }

    /// Whether a connected session carries the id.
    fn contains_conn(&self, id: u32) -> (r: bool)
        ensures
            r == has_conn(self.connections@, id),
    {
        let n = self.connections.len();
        let mut i: usize = 0;
        while i < n
            invariant
                0 <= i <= n,
                n == self.connections@.len(),
                forall|k: int| 0 <= k < i ==> self.connections@[k].id != id,
            decreases n - i,
        {
            if self.connections[i].id == id {
                return true;
            }
            i = i + 1;
        }
        false
    }

    /// The position of the session with the id, if connected.
    fn find_conn(&self, id: u32) -> (r: Option<usize>)
        requires
            conns_wf(self.connections@),
        ensures
            match r {
                Some(i) => i < self.connections@.len() && self.connections@[i as int].id == id
                    && has_conn(self.connections@, id) && conn_idx(self.connections@, id)
                    == i as int,
                None => !has_conn(self.connections@, id),
            },
    {
        let n = self.connections.len();
        let mut i: usize = 0;
        while i < n
            invariant
                0 <= i <= n,
                n == self.connections@.len(),
                conns_wf(self.connections@),
                forall|k: int| 0 <= k < i ==> self.connections@[k].id != id,
            decreases n - i,
        {
            if self.connections[i].id == id {
                proof {
                    lemma_conn_at(self.connections@, id, i as int);
                }
                return Some(i);
            }
            i = i + 1;
        }
        proof {
            assert(!has_conn(self.connections@, id)) by {
                if has_conn(self.connections@, id) {
                    let k = choose|k: int|
                        0 <= k < self.connections@.len() && self.connections@[k].id == id;
                    assert(0 <= k < self.connections@.len() && self.connections@[k].id == id);
                }
            }
        }
        None
    }

    /// Handles one connection attempt once the transport handshake is done
    /// and the client's identity record has arrived. The attempt is refused
    /// with an explicit reason — and no session is created — when the player
    /// cap is reached or the protocol versions disagree; otherwise a session
    /// with a fresh id is inserted, the current registry snapshot and every
    /// public identity are replayed to it alone, and the reply for the client
    /// is returned.
    pub fn on_connect(&mut self, client_info: ClientInfoPrivate) -> (r: Result<
        (u32, ServerInfo),
        PlayerConnectError,
    >)
        requires
            server_wf(*old(self)),
            old(self).connections@.len() < 0xFFFF_FFFFusize,
            old(self).name@.len() <= 0xFFFF_FFFF,
        ensures
            server_wf(*final(self)),
            same_config(*final(self), *old(self)),
            final(self).registry@ == old(self).registry@,
            final(self).tick == old(self).tick,
            match r {
                Err(e) => *final(self) == *old(self) && ((e is ServerFull) <==> old(
                    self,
                ).connections@.len() >= old(self).max_players as int) && ((e is VersionMismatch)
                    <==> (old(self).connections@.len() < old(self).max_players as int
                    && client_info.client_version != crate::VERSION)),
                Ok((id, si)) => {
                    &&& old(self).connections@.len() < old(self).max_players as int
                    &&& client_info.client_version == crate::VERSION
                    &&& !has_conn(old(self).connections@, id)
                    &&& final(self).connections@.len() == old(self).connections@.len() + 1
                    // every prior session keeps its identity and, with room,
                    // learns of the arrival: the notice, then the new identity
                    &&& forall|k: int|
                        0 <= k < old(self).connections@.len() ==> {
                            let c0 = old(self).connections@[k];
                            let c1 = #[trigger] final(self).connections@[k];
                            &&& same_identity(c1, c0)
                            &&& c1.unreliable@ == c0.unreliable@
                            &&& c1.ordered@.len() >= c0.ordered@.len()
                            &&& c1.ordered@.take(c0.ordered@.len() as int) == c0.ordered@
                            &&& (c0.ordered@.len() + 2 <= 128 ==> (c1.ordered@.len()
                                == c0.ordered@.len() + 2 && (c1.ordered@[c0.ordered@.len() as int]
                                matches ServerCommand::Chat(x, who) && x@ == notice_prefix()
                                + client_info.name@ + joined_suffix() && who is None) && (
                            c1.ordered@.last() matches ServerCommand::PlayerInfoUpdate(ci)
                                && ci.id == id && ci.name@ == client_info.name@
                                && ci.current_vehicle is None)))
                        }
                    // the new session is last, carries the client's identity,
                    // and controls no vehicle yet
                    &&& ({
                        let c = final(self).connections@.last();
                        &&& c.id == id
                        &&& c.client_info_private == client_info
                        &&& c.client_info_public.id == id
                        &&& c.client_info_public.name@ == client_info.name@
                        &&& c.client_info_public.current_vehicle is None
                        &&& c.client_info_public.ping == 0
                        &&& c.client_info_public.hide_nametag == false
                    })
                    // the reply states the server's own configuration and the
                    // player count before this session joined
                    &&& si.name@ == old(self).name@
                    &&& si.player_count as int == old(self).connections@.len()
                    &&& si.client_id == id
                    &&& si.map@ == old(self).map@
                    &&& si.tickrate == old(self).tickrate
                    &&& si.max_vehicles_per_client == old(self).max_vehicles_per_client
                    &&& mods_eq(si.mods@, old(self).mods@)
                    &&& si.server_identifier@ == old(self).server_identifier@
                    // the snapshot replay: one spawn per live vehicle, then
                    // one identity record per session, then the join notice,
                    // on the new session's ordered queue, when it holds them
                    &&& ({
                        let q = final(self).connections@.last().ordered@;
                        let nv = old(self).registry@.len() as int;
                        let nc = final(self).connections@.len() as int;
                        nv + nc + 1 <= 128 ==> {
                            &&& q.len() == nv + nc + 1
                            &&& (forall|k: int|
                                0 <= k < nv ==> ((#[trigger] q[k]) matches
                                    ServerCommand::VehicleSpawn(d) && vd_eq(
                                    d,
                                    old(self).registry@[k].data,
                                )))
                            &&& (forall|k: int|
                                nv <= k < nv + nc ==> ((#[trigger] q[k]) matches
                                    ServerCommand::PlayerInfoUpdate(p) && cipub_eq(
                                    p,
                                    final(self).connections@[k - nv].client_info_public,
                                )))
                            &&& (q.last() matches ServerCommand::Chat(x, who) && x@
                                == notice_prefix() + client_info.name@ + joined_suffix() && who
                                is None)
                        }
                    })
                },
            },
    {
        if self.connections.len() >= self.max_players as usize {
            return Err(PlayerConnectError::ServerFull);
        }
        if !(client_info.client_version.0 == crate::VERSION.0 && client_info.client_version.1
            == crate::VERSION.1) {
            proof {
                assert(client_info.client_version != crate::VERSION);
            }
            return Err(PlayerConnectError::VersionMismatch);
        }
        let id = self.fresh_session_id();
        let si = ServerInfo {
            name: crate::util::clone_bytes(&self.name),
            player_count: self.connections.len() as u8,
            client_id: id,
            map: crate::util::clone_bytes(&self.map),
            tickrate: self.tickrate,
            max_vehicles_per_client: self.max_vehicles_per_client,
            mods: crate::util::clone_pairs(&self.mods),
            server_identifier: crate::util::clone_bytes(&self.server_identifier),
        };
        let notice = joined_notice(&client_info.name);
        let name_copy = crate::util::clone_bytes(&client_info.name);
        let mut conn = Connection::new(id, client_info, name_copy);
        // replay the snapshot to the new session alone: every live vehicle,
        // then every public identity including its own
        let ghost s0 = self.connections@;
        let nv = self.registry.len();
        let mut k: usize = 0;
        while k < nv
            invariant
                0 <= k <= nv,
                nv == self.registry@.len(),
                reg_wf(self.registry@),
                conn.ordered@.len() <= k,
                nv + s0.len() + 1 <= 128 ==> (conn.ordered@.len() == k && forall|p: int|
                    0 <= p < k ==> ((#[trigger] conn.ordered@[p]) matches
                        ServerCommand::VehicleSpawn(d) && vd_eq(d, self.registry@[p].data))),
                conn.id == id,
                conn.client_info_private == client_info,
                conn.client_info_public.id == id,
                conn.client_info_public.name@ == client_info.name@,
                conn.client_info_public.current_vehicle is None,
                conn.client_info_public.ping == 0,
                conn.client_info_public.hide_nametag == false,
                conn.unreliable@.len() == 0,
            decreases nv - k,
        {
            let ghost q0 = conn.ordered@;
            let d = self.registry.get_vehicle_data(k);
            enqueue(&mut conn.ordered, ServerCommand::VehicleSpawn(d));
            proof {
                if nv + s0.len() + 1 <= 128 {
                    assert forall|p: int|
                        0 <= p < k + 1 implies ((#[trigger] conn.ordered@[p]) matches
                        ServerCommand::VehicleSpawn(d2) && vd_eq(
                        d2,
                        self.registry@[p].data,
                    )) by {
                        if p < k {
                            assert(conn.ordered@[p] == q0[p]);
                        } else {
                            assert(conn.ordered@[p] == conn.ordered@.last());
                        }
                    }
                }
            }
            k = k + 1;
        }
        // identities of the sessions connected before this one
        let nc0 = self.connections.len();
        let mut j: usize = 0;
        while j < nc0
            invariant
                0 <= j <= nc0,
                nc0 == self.connections@.len(),
                self.connections@ == s0,
                nv == self.registry@.len(),
                reg_wf(self.registry@),
                conn.ordered@.len() <= nv + j,
                nv + s0.len() + 1 <= 128 ==> (conn.ordered@.len() == nv + j && (forall|p: int|
                    0 <= p < nv ==> ((#[trigger] conn.ordered@[p]) matches
                        ServerCommand::VehicleSpawn(d) && vd_eq(d, self.registry@[p].data)))
                    && (forall|p: int|
                    nv <= p < nv + j ==> ((#[trigger] conn.ordered@[p]) matches
                        ServerCommand::PlayerInfoUpdate(ci) && cipub_eq(
                        ci,
                        s0[p - nv].client_info_public,
                    )))),
                conn.id == id,
                conn.client_info_private == client_info,
                conn.client_info_public.id == id,
                conn.client_info_public.name@ == client_info.name@,
                conn.client_info_public.current_vehicle is None,
                conn.client_info_public.ping == 0,
                conn.client_info_public.hide_nametag == false,
                conn.unreliable@.len() == 0,
            decreases nc0 - j,
        {
            let ghost q0 = conn.ordered@;
            let info = self.connections[j].client_info_public.clone();
            enqueue(&mut conn.ordered, ServerCommand::PlayerInfoUpdate(info));
            proof {
                if nv + s0.len() + 1 <= 128 {
                    assert forall|p: int|
                        0 <= p < nv + j + 1 implies (if p < nv {
                        ((#[trigger] conn.ordered@[p]) matches ServerCommand::VehicleSpawn(d)
                            && vd_eq(d, self.registry@[p].data))
                    } else {
                        (conn.ordered@[p] matches ServerCommand::PlayerInfoUpdate(ci) && cipub_eq(
                            ci,
                            s0[p - nv].client_info_public,
                        ))
                    }) by {
                        if p < nv + j {
                            assert(conn.ordered@[p] == q0[p]);
                        } else {
                            assert(conn.ordered@[p] == conn.ordered@.last());
                        }
                    }
                }
            }
            j = j + 1;
        }
        // the new session's own identity record closes the replay
        let own = conn.client_info_public.clone();
        let ghost qpre = conn.ordered@;
        enqueue(&mut conn.ordered, ServerCommand::PlayerInfoUpdate(own));
        let ghost s1 = self.connections@;
        self.connections.push(conn);
        proof {
            assert(s1 == s0);
            let sf = self.connections@;
            assert(sf.len() == s0.len() + 1);
            assert(sf.last().id == id);
            assert(conns_wf(sf)) by {
                assert forall|p: int, q: int| 0 <= p < q < sf.len() implies sf[p].id != sf[q].id by {
                    if q == sf.len() - 1 {
                        assert(sf[p] == s0[p]);
                        if s0[p].id == id {
                            assert(has_conn(s0, id));
                        }
                    } else {
                        assert(sf[p] == s0[p] && sf[q] == s0[q]);
                    }
                }
            }
            assert forall|kk: int| 0 <= kk < s0.len() implies same_identity(
                #[trigger] sf[kk],
                s0[kk],
            ) by {
                assert(sf[kk] == s0[kk]);
            }
            if self.registry@.len() + sf.len() <= 128 {
                let q = sf.last().ordered@;
                assert(q.len() == self.registry@.len() + sf.len());
                assert forall|p: int| 0 <= p < self.registry@.len() implies ((#[trigger] q[p])
                    matches ServerCommand::VehicleSpawn(d) && vd_eq(
                    d,
                    self.registry@[p].data,
                )) by {
                    assert(q[p] == qpre[p]);
                }
                assert forall|p: int|
                    self.registry@.len() <= p < self.registry@.len() + sf.len() implies ((
                #[trigger] q[p]) matches ServerCommand::PlayerInfoUpdate(ci) && cipub_eq(
                    ci,
                    sf[p - self.registry@.len()].client_info_public,
                )) by {
                    if p < q.len() - 1 {
                        assert(q[p] == qpre[p]);
                        assert(sf[p - self.registry@.len()] == s0[p - self.registry@.len()]);
                    } else {
                        assert(q[p] == q.last());
                    }
                }
            }
        }
        let ghost sf0 = self.connections@;
        // announce the arrival: the notice to everyone, the new identity to
        // everyone else (the newcomer already holds its own in the replay)
        let ghost notice_view = notice@;
        self.broadcast_ordered(&ServerCommand::Chat(notice, None), None);
        let ghost s_chat = self.connections@;
        let last_idx = self.connections.len() - 1;
        let newpub = self.connections[last_idx].client_info_public.clone();
        proof {
            assert(same_identity(s_chat[last_idx as int], sf0[last_idx as int]));
        }
        self.broadcast_ordered(&ServerCommand::PlayerInfoUpdate(newpub), Some(id));
        proof {
            let sfin = self.connections@;
            let ghost nv = old(self).registry@.len() as int;
            // prior sessions: identity kept, then the two-entry join block
            assert forall|k: int| 0 <= k < s0.len() implies {
                let c0 = s0[k];
                let c1 = #[trigger] sfin[k];
                &&& same_identity(c1, c0)
                &&& c1.unreliable@ == c0.unreliable@
                &&& c1.ordered@.len() >= c0.ordered@.len()
                &&& c1.ordered@.take(c0.ordered@.len() as int) == c0.ordered@
                &&& (c0.ordered@.len() + 2 <= 128 ==> (c1.ordered@.len() == c0.ordered@.len() + 2
                    && (c1.ordered@[c0.ordered@.len() as int] matches ServerCommand::Chat(x, who)
                    && x@ == notice_prefix() + client_info.name@ + joined_suffix() && who is None)
                    && (c1.ordered@.last() matches ServerCommand::PlayerInfoUpdate(ci) && ci.id
                    == id && ci.name@ == client_info.name@ && ci.current_vehicle is None)))
            } by {
                let c0 = s0[k];
                let cp = sf0[k];
                let cc = s_chat[k];
                let c1 = sfin[k];
                assert(cp == c0);
                assert(c0.id != id) by {
                    if c0.id == id {
                        assert(has_conn(s0, id));
                    }
                }
                if c0.ordered@.len() + 2 <= 128 {
                    assert(cc.ordered@.len() == c0.ordered@.len() + 1);
                    assert(cc.ordered@.drop_last() == c0.ordered@);
                    assert(sc_eq(cc.ordered@.last(), ServerCommand::Chat(notice, None)));
                    assert(c1.ordered@.len() == cc.ordered@.len() + 1);
                    assert(c1.ordered@.drop_last() == cc.ordered@);
                    assert(sc_eq(c1.ordered@.last(), ServerCommand::PlayerInfoUpdate(newpub)));
                    assert(c1.ordered@.take(c0.ordered@.len() as int) =~= c0.ordered@) by {
                        assert forall|p: int| 0 <= p < c0.ordered@.len() implies c1.ordered@[p]
                            == c0.ordered@[p] by {
                            assert(c1.ordered@[p] == cc.ordered@[p]);
                            assert(cc.ordered@[p] == c0.ordered@[p]);
                        }
                    }
                    assert(c1.ordered@[c0.ordered@.len() as int] == cc.ordered@.last());
                    assert(cipub_eq(newpub, sf0.last().client_info_public));
                } else {
                    if cc.ordered@.len() < 128 {
                        assert(c1.ordered@.take(c0.ordered@.len() as int) =~= c0.ordered@) by {
                            assert forall|p: int| 0 <= p < c0.ordered@.len() implies c1.ordered@[p]
                                == c0.ordered@[p] by {
                                assert(c1.ordered@[p] == cc.ordered@[p]);
                                assert(cc.ordered@[p] == c0.ordered@[p]);
                            }
                        }
                    }
                }
            }
            // the newcomer: the replay, closed by the join notice
            assert(sfin.len() == s0.len() + 1);
            assert(sfin.last().id == id);
            if nv + sfin.len() + 1 <= 128 {
                let qr = sf0.last().ordered@;
                assert(qr.len() == nv + sfin.len());
                let cc = s_chat[s0.len() as int];
                let c1 = sfin[s0.len() as int];
                assert(qr.len() < 128);
                assert(cc.ordered@.len() == qr.len() + 1);
                assert(cc.ordered@.drop_last() == qr);
                assert(sc_eq(cc.ordered@.last(), ServerCommand::Chat(notice, None)));
                assert(c1.ordered@ == cc.ordered@);
                let q = c1.ordered@;
                assert(q.len() == nv + sfin.len() + 1);
                assert forall|p: int| 0 <= p < nv implies ((#[trigger] q[p]) matches
                    ServerCommand::VehicleSpawn(d) && vd_eq(d, old(self).registry@[p].data)) by {
                    assert(q[p] == qr[p]);
                }
                assert forall|p: int| nv <= p < nv + sfin.len() implies ((#[trigger] q[p]) matches
                    ServerCommand::PlayerInfoUpdate(ci) && cipub_eq(
                    ci,
                    sfin[p - nv].client_info_public,
                )) by {
                    assert(q[p] == qr[p]);
                    assert(same_identity(sfin[p - nv], sf0[p - nv]));
                }
                assert(q.last() matches ServerCommand::Chat(x, who) && x@ == notice_prefix()
                    + client_info.name@ + joined_suffix() && who is None);
            }
        }
        Ok((id, si))
    }

    /// Points one session at a vehicle, or at none. Everything else about
    /// every session, and the registry, stays put.
    pub fn set_current_vehicle(&mut self, client_id: u32, vehicle_id: Option<u32>)
        requires
            server_wf(*old(self)),
        ensures
            server_wf(*final(self)),
            same_config(*final(self), *old(self)),
            final(self).registry@ == old(self).registry@,
            final(self).tick == old(self).tick,
            final(self).connections@.len() == old(self).connections@.len(),
            forall|k: int|
                0 <= k < old(self).connections@.len() ==> {
                    let c0 = old(self).connections@[k];
                    let c1 = #[trigger] final(self).connections@[k];
                    &&& c1.id == c0.id
                    &&& c1.client_info_private == c0.client_info_private
                    &&& c1.ordered@ == c0.ordered@
                    &&& c1.unreliable@ == c0.unreliable@
                    &&& c1.client_info_public.name == c0.client_info_public.name
                    &&& c1.client_info_public.id == c0.client_info_public.id
                    &&& c1.client_info_public.ping == c0.client_info_public.ping
                    &&& c1.client_info_public.hide_nametag == c0.client_info_public.hide_nametag
                    &&& c1.client_info_public.current_vehicle == (if c0.id == client_id {
                        vehicle_id
                    } else {
                        c0.client_info_public.current_vehicle
                    })
                },
    {
        let r = self.find_conn(client_id);
        match r {
            Some(i) => {
                let ghost pre = self.connections@;
                let mut c = self.connections.remove(i);
                c.client_info_public.current_vehicle = vehicle_id;
                self.connections.insert(i, c);
                proof {
                    assert(self.connections@ =~= pre.update(i as int, c));
                    assert(conns_wf(self.connections@)) by {
                        assert forall|p: int, q: int|
                            0 <= p < q < self.connections@.len() implies self.connections@[p].id
                            != self.connections@[q].id by {
                            assert(self.connections@[p].id == pre[p].id);
                            assert(self.connections@[q].id == pre[q].id);
                        }
                    }
                    assert forall|k: int|
                        0 <= k < pre.len() && k != i && #[trigger] pre[k].id == client_id implies
                        false by {}
                }
            },
            None => {},
        }
    }

    /// Clears every session's controlled-vehicle reference to one vehicle:
    /// run when that vehicle is removed, so no session points at a dead id.
    fn clear_current(&mut self, vehicle: u32)
        requires
            server_wf(*old(self)),
        ensures
            server_wf(*final(self)),
            same_config(*final(self), *old(self)),
            final(self).registry@ == old(self).registry@,
            final(self).tick == old(self).tick,
            final(self).connections@.len() == old(self).connections@.len(),
            forall|k: int|
                0 <= k < old(self).connections@.len() ==> {
                    let c0 = old(self).connections@[k];
                    let c1 = #[trigger] final(self).connections@[k];
                    &&& c1.id == c0.id
                    &&& c1.client_info_private == c0.client_info_private
                    &&& c1.ordered@ == c0.ordered@
                    &&& c1.unreliable@ == c0.unreliable@
                    &&& c1.client_info_public.name == c0.client_info_public.name
                    &&& c1.client_info_public.id == c0.client_info_public.id
                    &&& c1.client_info_public.ping == c0.client_info_public.ping
                    &&& c1.client_info_public.hide_nametag == c0.client_info_public.hide_nametag
                    &&& c1.client_info_public.current_vehicle == (if c0.client_info_public.current_vehicle == Some(vehicle) {
                        Option::<u32>::None
                    } else {
                        c0.client_info_public.current_vehicle
                    })
                },
    {
        let ghost s0 = self.connections@;
        let n = self.connections.len();
        let mut i: usize = 0;
        while i < n
            invariant
                0 <= i <= n,
                n == self.connections@.len(),
                s0 == old(self).connections@,
                s0.len() == n,
                self.registry == old(self).registry,
                same_config(*self, *old(self)),
                self.tick == old(self).tick,
                reg_wf(self.registry@),
                forall|k: int| i <= k < n ==> #[trigger] self.connections@[k] == s0[k],
                forall|k: int|
                    0 <= k < i ==> {
                        let c0 = s0[k];
                        let c1 = #[trigger] self.connections@[k];
                        &&& c1.id == c0.id
                        &&& c1.client_info_private == c0.client_info_private
                        &&& c1.ordered@ == c0.ordered@
                        &&& c1.unreliable@ == c0.unreliable@
                        &&& c1.client_info_public.name == c0.client_info_public.name
                        &&& c1.client_info_public.id == c0.client_info_public.id
                        &&& c1.client_info_public.ping == c0.client_info_public.ping
                        &&& c1.client_info_public.hide_nametag
                            == c0.client_info_public.hide_nametag
                        &&& c1.client_info_public.current_vehicle == (if c0.client_info_public.current_vehicle == Some(vehicle) {
                            Option::<u32>::None
                        } else {
                            c0.client_info_public.current_vehicle
                        })
                    },
            decreases n - i,
        {
            let clears = match self.connections[i].client_info_public.current_vehicle {
                Some(v) => v == vehicle,
                None => false,
            };
            if clears {
                let ghost pre = self.connections@;
                let mut c = self.connections.remove(i);
                c.client_info_public.current_vehicle = None;
                self.connections.insert(i, c);
                proof {
                    assert(self.connections@ =~= pre.update(i as int, c));
                }
            }
            i = i + 1;
        }
        proof {
            assert(conns_wf(self.connections@)) by {
                assert forall|p: int, q: int|
                    0 <= p < q < self.connections@.len() implies self.connections@[p].id
                    != self.connections@[q].id by {
                    assert(self.connections@[p].id == s0[p].id);
                    assert(self.connections@[q].id == s0[q].id);
                }
            }
        }
    }

    /// Removes one vehicle: it leaves the registry and its owner's namespace,
    /// its removal is announced to every session but the one that asked, and
    /// no session keeps pointing at it. Removing an absent id only announces.
    pub fn remove_vehicle(&mut self, id: u32, client_id: Option<u32>)
        requires
            server_wf(*old(self)),
        ensures
            server_wf(*final(self)),
            same_config(*final(self), *old(self)),
            final(self).tick == old(self).tick,
            // registry: exactly this vehicle is gone
            final(self).registry@ == strip_id(old(self).registry@, id),
            !has_id(final(self).registry@, id),
            forall|g: u32|
                g != id ==> ((#[trigger] has_id(final(self).registry@, g) <==> has_id(
                    old(self).registry@,
                    g,
                )) && (has_id(old(self).registry@, g) ==> vehicle_of(final(self).registry@, g)
                    == vehicle_of(old(self).registry@, g))),
            forall|o2: u32, l2: u32|
                #[trigger] spec_resolve(final(self).registry@, o2, l2) == (if has_id(
                    old(self).registry@,
                    id,
                ) && crate::registry::is_pair(vehicle_of(old(self).registry@, id), o2, l2) {
                    None
                } else {
                    spec_resolve(old(self).registry@, o2, l2)
                }),
            // sessions: the removal is queued everywhere but at the asker,
            // and stale controlled-vehicle references are cleared
            final(self).connections@.len() == old(self).connections@.len(),
            forall|k: int|
                0 <= k < old(self).connections@.len() ==> {
                    let c0 = old(self).connections@[k];
                    let c1 = #[trigger] final(self).connections@[k];
                    &&& c1.id == c0.id
                    &&& c1.client_info_private == c0.client_info_private
                    &&& c1.unreliable@ == c0.unreliable@
                    &&& (if client_id == Some(c0.id) {
                        c1.ordered@ == c0.ordered@
                    } else {
                        queue_pushed(c0.ordered@, c1.ordered@, ServerCommand::RemoveVehicle(id))
                    })
                    &&& c1.client_info_public.current_vehicle == (if c0.client_info_public.current_vehicle == Some(id) {
                        Option::<u32>::None
                    } else {
                        c0.client_info_public.current_vehicle
                    })
                },
    {
        self.registry.remove(id);
        self.broadcast_ordered(&ServerCommand::RemoveVehicle(id), client_id);
        self.clear_current(id);
    }

    /// Moves one vehicle back to a placement: the registry records the new
    /// placement with cleared motion, and the reset is announced to every
    /// session but the one that asked. The caller has already translated the
    /// vehicle id into the registry's global id.
    pub fn reset_vehicle(&mut self, data: crate::vehicle::VehicleReset, client_id: Option<u32>)
        requires
            server_wf(*old(self)),
        ensures
            server_wf(*final(self)),
            same_config(*final(self), *old(self)),
            final(self).tick == old(self).tick,
            !has_id(old(self).registry@, data.vehicle_id) ==> final(self).registry@ == old(
                self,
            ).registry@,
            has_id(old(self).registry@, data.vehicle_id) ==> ({
                let v0 = vehicle_of(old(self).registry@, data.vehicle_id);
                let v1 = vehicle_of(final(self).registry@, data.vehicle_id);
                &&& (v1.transform matches Some(nt) && nt.position == data.position && nt.rotation
                    == data.rotation && (forall|k: int|
                    0 <= k < 3 ==> nt.velocity@[k] == 0 && nt.angular_velocity@[k] == 0))
                &&& v1.data == (crate::vehicle::VehicleData {
                    position: data.position,
                    rotation: data.rotation,
                    ..v0.data
                })
            }),
            forall|g: u32|
                #[trigger] has_id(final(self).registry@, g) <==> has_id(old(self).registry@, g),
            forall|o2: u32, l2: u32|
                #[trigger] spec_resolve(final(self).registry@, o2, l2) == spec_resolve(
                    old(self).registry@,
                    o2,
                    l2,
                ),
            final(self).connections@.len() == old(self).connections@.len(),
            forall|k: int|
                0 <= k < old(self).connections@.len() ==> {
                    let c0 = old(self).connections@[k];
                    let c1 = #[trigger] final(self).connections@[k];
                    &&& same_identity(c1, c0)
                    &&& c1.unreliable@ == c0.unreliable@
                    &&& (if client_id == Some(c0.id) {
                        c1.ordered@ == c0.ordered@
                    } else {
                        queue_pushed(c0.ordered@, c1.ordered@, ServerCommand::ResetVehicle(data))
                    })
                },
    {
        self.broadcast_ordered(&ServerCommand::ResetVehicle(data), client_id);
        self.registry.reset(data.vehicle_id, data.position, data.rotation);
    }

    /// Spawns a vehicle: the registry assigns a fresh global id — replacing
    /// any earlier vehicle the owner had under the same local id, whose
    /// removal is announced first — the spawn is announced to every session,
    /// and the owner is pointed at the new vehicle. A spawn without an owner
    /// touches no namespace and no session's controlled vehicle, and no other
    /// live vehicle is changed or removed.
    pub fn spawn_vehicle(&mut self, owner: Option<u32>, data: crate::vehicle::VehicleData) -> (r:
        u32)
        requires
            server_wf(*old(self)),
            old(self).registry@.len() < 0xFFFF_FFFFusize,
        ensures
            server_wf(*final(self)),
            same_config(*final(self), *old(self)),
            final(self).tick == old(self).tick,
            !has_id(old(self).registry@, r),
            has_id(final(self).registry@, r),
            vehicle_of(final(self).registry@, r).data == (crate::vehicle::VehicleData {
                server_id: r,
                owner,
                ..data
            }),
            vehicle_of(final(self).registry@, r).transform is None,
            // frame: every other vehicle survives unchanged, but for the
            // owner's replaced mapping; nothing else appears
            forall|g: u32|
                g != r ==> ((#[trigger] has_id(final(self).registry@, g)) <==> (has_id(
                    old(self).registry@,
                    g,
                ) && !(owner matches Some(o) && spec_resolve(old(self).registry@, o, data.in_game_id)
                    == Some(g)))),
            forall|g: u32|
                g != r && has_id(final(self).registry@, g) ==> #[trigger] vehicle_of(
                    final(self).registry@,
                    g,
                ) == vehicle_of(old(self).registry@, g),
            final(self).registry@.len() == (match owner {
                Some(o) => if spec_resolve(old(self).registry@, o, data.in_game_id) is Some {
                    old(self).registry@.len() as int
                } else {
                    old(self).registry@.len() as int + 1
                },
                None => old(self).registry@.len() as int + 1,
            }),
            match owner {
                Some(o) => spec_resolve(final(self).registry@, o, data.in_game_id) == Some(r)
                    && forall|o2: u32, l2: u32|
                    !(o2 == o && l2 == data.in_game_id) ==> #[trigger] spec_resolve(
                        final(self).registry@,
                        o2,
                        l2,
                    ) == spec_resolve(old(self).registry@, o2, l2),
                None => forall|o2: u32, l2: u32|
                    #[trigger] spec_resolve(final(self).registry@, o2, l2) == spec_resolve(
                        old(self).registry@,
                        o2,
                        l2,
                    ),
            },
            // every session is told of the replacement (when one happens) and
            // of the spawn; the owner now controls the new vehicle
            final(self).connections@.len() == old(self).connections@.len(),
            forall|k: int|
                0 <= k < old(self).connections@.len() ==> {
                    let c0 = old(self).connections@[k];
                    let c1 = #[trigger] final(self).connections@[k];
                    let pre = (match owner {
                        Some(o) => spec_resolve(old(self).registry@, o, data.in_game_id),
                        None => None::<u32>,
                    });
                    &&& c1.id == c0.id
                    &&& c1.client_info_private == c0.client_info_private
                    &&& c1.unreliable@ == c0.unreliable@
                    &&& (match pre {
                        None => (if c0.ordered@.len() < 128 {
                            c1.ordered@.len() == c0.ordered@.len() + 1 && c1.ordered@.drop_last()
                                == c0.ordered@ && (c1.ordered@.last() matches
                                ServerCommand::VehicleSpawn(d) && vd_eq(
                                d,
                                vehicle_of(final(self).registry@, r).data,
                            ))
                        } else {
                            c1.ordered@ == c0.ordered@
                        }),
                        Some(g0) => c0.ordered@.len() + 2 <= 128 ==> (c1.ordered@.len()
                            == c0.ordered@.len() + 2 && c1.ordered@.take(c0.ordered@.len() as int)
                            == c0.ordered@ && (c1.ordered@[c0.ordered@.len() as int] matches
                            ServerCommand::RemoveVehicle(x) && x == g0) && (c1.ordered@.last()
                            matches ServerCommand::VehicleSpawn(d) && vd_eq(
                            d,
                            vehicle_of(final(self).registry@, r).data,
                        ))),
                    })
                    &&& c1.client_info_public.current_vehicle == (if owner == Some(c0.id) {
                        Some(r)
                    } else {
                        c0.client_info_public.current_vehicle
                    })
                },
    {
        let ghost conns0 = self.connections@;
        // announce the removal of the vehicle this spawn replaces, if any
        let replaced: Option<u32> = match owner {
            Some(o) => self.registry.resolve(o, data.in_game_id),
            None => None,
        };
        match replaced {
            Some(g0) => {
                self.broadcast_ordered(&ServerCommand::RemoveVehicle(g0), None);
            },
            None => {},
        }
        let ghost conns_mid = self.connections@;
        let mut announced = data.clone();
        let gid = self.registry.spawn(owner, data);
        announced.server_id = gid;
        announced.owner = owner;
        proof {
            assert(vd_eq(announced, vehicle_of(self.registry@, gid).data));
        }
        self.broadcast_ordered(&ServerCommand::VehicleSpawn(announced), None);
        let ghost conns_spawned = self.connections@;
        match owner {
            Some(o) => {
                self.set_current_vehicle(o, Some(gid));
            },
            None => {},
        }
        proof {
            assert forall|k: int| 0 <= k < conns0.len() implies {
                let c0 = conns0[k];
                let c1 = #[trigger] self.connections@[k];
                let pre = (match owner {
                    Some(o) => spec_resolve(old(self).registry@, o, data.in_game_id),
                    None => None::<u32>,
                });
                &&& c1.id == c0.id
                &&& c1.client_info_private == c0.client_info_private
                &&& c1.unreliable@ == c0.unreliable@
                &&& (match pre {
                    None => (if c0.ordered@.len() < 128 {
                        c1.ordered@.len() == c0.ordered@.len() + 1 && c1.ordered@.drop_last()
                            == c0.ordered@ && (c1.ordered@.last() matches
                            ServerCommand::VehicleSpawn(d) && vd_eq(
                            d,
                            vehicle_of(self.registry@, gid).data,
                        ))
                    } else {
                        c1.ordered@ == c0.ordered@
                    }),
                    Some(g0) => c0.ordered@.len() + 2 <= 128 ==> (c1.ordered@.len()
                        == c0.ordered@.len() + 2 && c1.ordered@.take(c0.ordered@.len() as int)
                        == c0.ordered@ && (c1.ordered@[c0.ordered@.len() as int] matches
                        ServerCommand::RemoveVehicle(x) && x == g0) && (c1.ordered@.last() matches
                        ServerCommand::VehicleSpawn(d) && vd_eq(
                        d,
                        vehicle_of(self.registry@, gid).data,
                    ))),
                })
            } by {
                let c0 = conns0[k];
                let cm = conns_mid[k];
                let cs = conns_spawned[k];
                let c1 = self.connections@[k];
                assert(c1.ordered@ == cs.ordered@);
                match replaced {
                    Some(g0) => {
                        if c0.ordered@.len() + 2 <= 128 {
                            assert(cm.ordered@.len() == c0.ordered@.len() + 1);
                            assert(cm.ordered@.drop_last() == c0.ordered@);
                            assert(cs.ordered@.len() == cm.ordered@.len() + 1);
                            assert(cs.ordered@.drop_last() == cm.ordered@);
                            assert(cs.ordered@.take(c0.ordered@.len() as int)
                                =~= c0.ordered@) by {
                                assert forall|p: int| 0 <= p < c0.ordered@.len() implies
                                    cs.ordered@[p] == c0.ordered@[p] by {
                                    assert(cs.ordered@[p] == cm.ordered@[p]);
                                    assert(cm.ordered@[p] == c0.ordered@[p]);
                                }
                            }
                            assert(cs.ordered@[c0.ordered@.len() as int] == cm.ordered@.last());
                            assert(sc_eq(cm.ordered@.last(), ServerCommand::RemoveVehicle(g0)));
                            assert(sc_eq(
                                cs.ordered@.last(),
                                ServerCommand::VehicleSpawn(announced),
                            ));
                        }
                    },
                    None => {
                        if c0.ordered@.len() < 128 {
                            assert(sc_eq(
                                cs.ordered@.last(),
                                ServerCommand::VehicleSpawn(announced),
                            ));
                        }
                    },
                }
            }
        }
        gid
    }

    /// Queues one command on the ordered channel of every session except the
    /// one named, cloning the payload per session.
    fn broadcast_ordered(&mut self, cmd: &ServerCommand, except: Option<u32>)
        requires
            server_wf(*old(self)),
        ensures
            server_wf(*final(self)),
            same_config(*final(self), *old(self)),
            final(self).registry@ == old(self).registry@,
            final(self).tick == old(self).tick,
            ordered_broadcast_effect(
                old(self).connections@,
                final(self).connections@,
                *cmd,
                except,
            ),
    {
        let ghost s0 = self.connections@;
        let n = self.connections.len();
        let mut i: usize = 0;
        while i < n
            invariant
                0 <= i <= n,
                n == self.connections@.len(),
                s0 == old(self).connections@,
                s0.len() == n,
                self.registry == old(self).registry,
                same_config(*self, *old(self)),
                self.tick == old(self).tick,
                reg_wf(self.registry@),
                forall|k: int| i <= k < n ==> #[trigger] self.connections@[k] == s0[k],
                forall|k: int|
                    0 <= k < i ==> {
                        let c0 = s0[k];
                        let c1 = #[trigger] self.connections@[k];
                        &&& same_identity(c1, c0)
                        &&& c1.unreliable@ == c0.unreliable@
                        &&& (if except == Some(c0.id) {
                            c1.ordered@ == c0.ordered@
                        } else {
                            queue_pushed(c0.ordered@, c1.ordered@, *cmd)
                        })
                    },
            decreases n - i,
        {
            let skip = match except {
                Some(e) => self.connections[i].id == e,
                None => false,
            };
            if !skip {
                let ghost pre = self.connections@;
                let mut c = self.connections.remove(i);
                let copy = cmd.clone();
                enqueue(&mut c.ordered, copy);
                self.connections.insert(i, c);
                proof {
                    assert(self.connections@ =~= pre.update(i as int, c));
                    if pre[i as int].ordered@.len() < 128 {
                        lemma_sc_eq_trans(c.ordered@.last(), copy, *cmd);
                    }
                }
            }
            i = i + 1;
        }
        proof {
            assert(conns_wf(self.connections@)) by {
                assert forall|p: int, q: int|
                    0 <= p < q < self.connections@.len() implies self.connections@[p].id
                    != self.connections@[q].id by {
                    assert(self.connections@[p].id == s0[p].id);
                    assert(self.connections@[q].id == s0[q].id);
                }
            }
        }
    }

    /// Queues one command on the unreliable channel of every session except
    /// the one named, cloning the payload per session.
    fn broadcast_unreliable(&mut self, cmd: &ServerCommand, except: Option<u32>)
        requires
            server_wf(*old(self)),
        ensures
            server_wf(*final(self)),
            same_config(*final(self), *old(self)),
            final(self).registry@ == old(self).registry@,
            final(self).tick == old(self).tick,
            unreliable_broadcast_effect(
                old(self).connections@,
                final(self).connections@,
                *cmd,
                except,
            ),
    {
        let ghost s0 = self.connections@;
        let n = self.connections.len();
        let mut i: usize = 0;
        while i < n
            invariant
                0 <= i <= n,
                n == self.connections@.len(),
                s0 == old(self).connections@,
                s0.len() == n,
                self.registry == old(self).registry,
                same_config(*self, *old(self)),
                self.tick == old(self).tick,
                reg_wf(self.registry@),
                forall|k: int| i <= k < n ==> #[trigger] self.connections@[k] == s0[k],
                forall|k: int|
                    0 <= k < i ==> {
                        let c0 = s0[k];
                        let c1 = #[trigger] self.connections@[k];
                        &&& same_identity(c1, c0)
                        &&& c1.ordered@ == c0.ordered@
                        &&& (if except == Some(c0.id) {
                            c1.unreliable@ == c0.unreliable@
                        } else {
                            queue_pushed(c0.unreliable@, c1.unreliable@, *cmd)
                        })
                    },
            decreases n - i,
        {
            let skip = match except {
                Some(e) => self.connections[i].id == e,
                None => false,
            };
            if !skip {
                let ghost pre = self.connections@;
                let mut c = self.connections.remove(i);
                let copy = cmd.clone();
                enqueue(&mut c.unreliable, copy);
                self.connections.insert(i, c);
                proof {
                    assert(self.connections@ =~= pre.update(i as int, c));
                    if pre[i as int].unreliable@.len() < 128 {
                        lemma_sc_eq_trans(c.unreliable@.last(), copy, *cmd);
                    }
                }
            }
            i = i + 1;
        }
        proof {
            assert(conns_wf(self.connections@)) by {
                assert forall|p: int, q: int|
                    0 <= p < q < self.connections@.len() implies self.connections@[p].id
                    != self.connections@[q].id by {
                    assert(self.connections@[p].id == s0[p].id);
                    assert(self.connections@[q].id == s0[q].id);
                }
            }
        }
    }
}

/// Concatenation collects both sequences' elements.
proof fn lemma_to_multiset_concat(a: Seq<ClientCommand>, b: Seq<ClientCommand>)
    ensures
        (a + b).to_multiset() == a.to_multiset().add(b.to_multiset()),
    decreases b.len(),
{
    broadcast use vstd::seq_lib::group_to_multiset_ensures;

    if b.len() == 0 {
        assert(a + b =~= a);
        assert(b.to_multiset() =~= Multiset::<ClientCommand>::empty());
        assert(a.to_multiset().add(b.to_multiset()) =~= a.to_multiset());
    } else {
        lemma_to_multiset_concat(a, b.drop_last());
        assert(a + b =~= (a + b.drop_last()).push(b.last()));
        assert(b =~= b.drop_last().push(b.last()));
        assert((a + b).to_multiset() =~= a.to_multiset().add(b.to_multiset()));
    }
}

/// Merges the two inbound channels of one session into its single ingress
/// sequence. The result holds exactly the commands of both channels — stated
/// as a multiset, because no ordering between the ordered and the unreliable
/// channel is promised, and handlers must not assume one. The generation
/// counter on bundled updates is the only cross-channel ordering signal.
pub fn merge_ingress(ordered: Vec<ClientCommand>, unordered: Vec<ClientCommand>) -> (r: Vec<
    ClientCommand,
>)
    ensures
        r@.to_multiset() == ordered@.to_multiset().add(unordered@.to_multiset()),
{
    let mut r = ordered;
    let mut rest = unordered;
    let ghost a = r@;
    let ghost b = rest@;
    r.append(&mut rest);
    proof {
        lemma_to_multiset_concat(a, b);
    }
    r
}

/// The opening of every join/leave notice.
pub open spec fn notice_prefix() -> Seq<u8> {
    // "Player "
    seq![80u8, 108, 97, 121, 101, 114, 32]
}

/// What follows the name in a join notice.
pub open spec fn joined_suffix() -> Seq<u8> {
    // " has joined the server"
    seq![
        32u8, 104, 97, 115, 32, 106, 111, 105, 110, 101, 100, 32, 116, 104, 101, 32, 115, 101,
        114, 118, 101, 114,
    ]
}

/// What follows the name in a leave notice.
pub open spec fn left_suffix() -> Seq<u8> {
    // " has left the server"
    seq![
        32u8, 104, 97, 115, 32, 108, 101, 102, 116, 32, 116, 104, 101, 32, 115, 101, 114, 118,
        101, 114,
    ]
}

/// The human-readable notice chat line announcing a player's arrival.
fn joined_notice(name: &Vec<u8>) -> (r: Vec<u8>)
    ensures
        r@ == notice_prefix() + name@ + joined_suffix(),
{
    let prefix: [u8; 7] = [80u8, 108, 97, 121, 101, 114, 32];
    let suffix: [u8; 22] = [
        32u8, 104, 97, 115, 32, 106, 111, 105, 110, 101, 100, 32, 116, 104, 101, 32, 115, 101,
        114, 118, 101, 114,
    ];
    let mut r: Vec<u8> = Vec::new();
    let mut i: usize = 0;
    while i < 7
        invariant
            0 <= i <= 7,
            r@.len() == i,
            forall|k: int| 0 <= k < i ==> r@[k] == notice_prefix()[k],
            forall|k: int| 0 <= k < 7 ==> prefix@[k] == notice_prefix()[k],
        decreases 7 - i,
    {
        r.push(prefix[i]);
        i = i + 1;
    }
    proof {
        assert(r@ =~= notice_prefix());
    }
    let mut middle = crate::util::clone_bytes(name);
    r.append(&mut middle);
    let ghost mid = r@;
    proof {
        assert(mid == notice_prefix() + name@);
    }
    let mut j: usize = 0;
    while j < 22
        invariant
            0 <= j <= 22,
            r@.len() == mid.len() + j,
            r@.take(mid.len() as int) == mid,
            forall|k: int| 0 <= k < j ==> r@[mid.len() + k] == joined_suffix()[k],
            forall|k: int| 0 <= k < 22 ==> suffix@[k] == joined_suffix()[k],
        decreases 22 - j,
    {
        let ghost before = r@;
        r.push(suffix[j]);
        proof {
            assert(r@.take(mid.len() as int) =~= before.take(mid.len() as int));
        }
        j = j + 1;
    }
    proof {
        assert(r@ =~= notice_prefix() + name@ + joined_suffix());
    }
    r
}

/// The human-readable notice chat line announcing a player's departure.
fn left_notice(name: &Vec<u8>) -> (r: Vec<u8>)
    ensures
        r@ == notice_prefix() + name@ + left_suffix(),
{
    let prefix: [u8; 7] = [80u8, 108, 97, 121, 101, 114, 32];
    let suffix: [u8; 20] = [
        32u8, 104, 97, 115, 32, 108, 101, 102, 116, 32, 116, 104, 101, 32, 115, 101, 114, 118,
        101, 114,
    ];
    let mut r: Vec<u8> = Vec::new();
    let mut i: usize = 0;
    while i < 7
        invariant
            0 <= i <= 7,
            r@.len() == i,
            forall|k: int| 0 <= k < i ==> r@[k] == notice_prefix()[k],
            forall|k: int| 0 <= k < 7 ==> prefix@[k] == notice_prefix()[k],
        decreases 7 - i,
    {
        r.push(prefix[i]);
        i = i + 1;
    }
    proof {
        assert(r@ =~= notice_prefix());
    }
    let mut middle = crate::util::clone_bytes(name);
    r.append(&mut middle);
    let ghost mid = r@;
    proof {
        assert(mid == notice_prefix() + name@);
    }
    let mut j: usize = 0;
    while j < 20
        invariant
            0 <= j <= 20,
            r@.len() == mid.len() + j,
            r@.take(mid.len() as int) == mid,
            forall|k: int| 0 <= k < j ==> r@[mid.len() + k] == left_suffix()[k],
            forall|k: int| 0 <= k < 20 ==> suffix@[k] == left_suffix()[k],
        decreases 20 - j,
    {
        let ghost before = r@;
        r.push(suffix[j]);
        proof {
            assert(r@.take(mid.len() as int) =~= before.take(mid.len() as int));
        }
        j = j + 1;
    }
    proof {
        assert(r@ =~= notice_prefix() + name@ + left_suffix());
    }
    r
}

/// The reserved vehicle name that is exempt from the per-client cap.
pub open spec fn unicycle_name() -> Seq<u8> {
    // "unicycle"
    seq![117u8, 110, 105, 99, 121, 99, 108, 101]
}

/// Whether a vehicle name is the cap-exempt one.
fn is_unicycle(name: &Vec<u8>) -> (r: bool)
    ensures
        r == (name@ == unicycle_name()),
{
    let letters: [u8; 8] = [117u8, 110, 105, 99, 121, 99, 108, 101];
    if name.len() != 8 {
        proof {
            assert(name@ != unicycle_name());
        }
        return false;
    }
    let mut i: usize = 0;
    while i < 8
        invariant
            0 <= i <= 8,
            name@.len() == 8,
            forall|k: int| 0 <= k < i ==> name@[k] == unicycle_name()[k],
            forall|k: int| 0 <= k < 8 ==> letters@[k] == unicycle_name()[k],
        decreases 8 - i,
    {
        if name[i] != letters[i] {
            return false;
        }
        i = i + 1;
    }
    proof {
        assert(name@ =~= unicycle_name());
    }
    true
}

/// Whether the requested-name list holds the byte string.
fn names_contain(names: &Vec<Vec<u8>>, key: &Vec<u8>) -> (r: bool)
    ensures
        r == exists|i: int| 0 <= i < names@.len() && (#[trigger] names@[i])@ == key@,
{
    let n = names.len();
    let mut i: usize = 0;
    while i < n
        invariant
            0 <= i <= n,
            n == names@.len(),
            forall|k: int| 0 <= k < i ==> (#[trigger] names@[k])@ != key@,
        decreases n - i,
    {
        if crate::util::bytes_eq(&names[i], key) {
            proof {
                assert((names@[i as int])@ == key@);
            }
            return true;
        }
        i = i + 1;
    }
    false
}

impl Server {
    /// Tears one session down: its entry leaves the table, every vehicle it
    /// owns is removed — each removal announced individually — and everyone
    /// left is told, with a leave notice and the disconnect record, that the
    /// player left. The cascade touches no vehicle owned by anyone else.
    pub fn disconnect(&mut self, client_id: u32)
        requires
            server_wf(*old(self)),
        ensures
            server_wf(*final(self)),
            same_config(*final(self), *old(self)),
            final(self).tick == old(self).tick,
            !has_conn(final(self).connections@, client_id),
            forall|e: u32|
                e != client_id ==> (#[trigger] has_conn(final(self).connections@, e) <==> has_conn(
                    old(self).connections@,
                    e,
                )),
            // the cascade removes every vehicle this session owns and no other
            forall|g: u32|
                #[trigger] has_id(final(self).registry@, g) <==> (has_id(old(self).registry@, g)
                    && !crate::registry::owned_by(vehicle_of(old(self).registry@, g), client_id)),
            forall|g: u32|
                has_id(final(self).registry@, g) ==> #[trigger] vehicle_of(
                    final(self).registry@,
                    g,
                ) == vehicle_of(old(self).registry@, g),
            forall|l2: u32| #[trigger] spec_resolve(final(self).registry@, client_id, l2) is None,
            forall|o2: u32, l2: u32|
                o2 != client_id ==> #[trigger] spec_resolve(final(self).registry@, o2, l2)
                    == spec_resolve(old(self).registry@, o2, l2),
            // every surviving session keeps its identity and, with room, is
            // told of each cascaded removal, the leave notice, and the
            // disconnect, in that order
            forall|k: int|
                0 <= k < final(self).connections@.len() ==> {
                    let c1 = #[trigger] final(self).connections@[k];
                    &&& c1.id != client_id
                    &&& has_conn(old(self).connections@, c1.id)
                    &&& ({
                        let c0 = conn_of(old(self).connections@, c1.id);
                        let rc = crate::registry::owned_count(old(self).registry@, client_id);
                        &&& c1.client_info_private == c0.client_info_private
                        &&& c1.client_info_public.name == c0.client_info_public.name
                        &&& c1.unreliable@ == c0.unreliable@
                        &&& c1.ordered@.len() >= c0.ordered@.len()
                        &&& c1.ordered@.take(c0.ordered@.len() as int) == c0.ordered@
                        &&& ((has_conn(old(self).connections@, client_id) && c0.ordered@.len() + rc
                            + 2 <= 128) ==> {
                            &&& c1.ordered@.len() == c0.ordered@.len() + rc + 2
                            &&& (forall|p: int|
                                0 <= p < rc ==> ((#[trigger] c1.ordered@[c0.ordered@.len() + p])
                                    matches ServerCommand::RemoveVehicle(x) && has_id(
                                    old(self).registry@,
                                    x,
                                ) && crate::registry::owned_by(
                                    vehicle_of(old(self).registry@, x),
                                    client_id,
                                )))
                            &&& (c1.ordered@[c0.ordered@.len() + rc] matches ServerCommand::Chat(
                                x,
                                who,
                            ) && x@ == notice_prefix() + conn_of(
                                old(self).connections@,
                                client_id,
                            ).client_info_public.name@ + left_suffix() && who is None)
                            &&& (c1.ordered@.last() matches ServerCommand::PlayerDisconnected(e)
                                && e == client_id)
                        })
                    })
                },
    {
        let ghost s0 = self.connections@;
        // the session leaves the table first, so nothing more is queued to it
        let found = self.find_conn(client_id);
        let leaver_name: Option<Vec<u8>> = match found {
            Some(i) => Some(crate::util::clone_bytes(&self.connections[i].client_info_public.name)),
            None => None,
        };
        match found {
            Some(i) => {
                self.connections.remove(i);
                proof {
                    let sf = self.connections@;
                    assert forall|p: int| 0 <= p < sf.len() implies #[trigger] sf[p] == s0[if p < i {
                        p
                    } else {
                        p + 1
                    }] by {}
                    assert(conns_wf(sf)) by {
                        assert forall|p: int, q: int| 0 <= p < q < sf.len() implies sf[p].id
                            != sf[q].id by {
                            let p0 = if p < i { p } else { p + 1 };
                            let q0 = if q < i { q } else { q + 1 };
                            assert(sf[p] == s0[p0] && sf[q] == s0[q0]);
                        }
                    }
                    assert(!has_conn(sf, client_id)) by {
                        if has_conn(sf, client_id) {
                            let k = choose|k: int| 0 <= k < sf.len() && sf[k].id == client_id;
                            assert(0 <= k < sf.len() && sf[k].id == client_id);
                            let k0 = if k < i { k } else { k + 1 };
                            assert(s0[k0].id == client_id && k0 != i as int);
                            assert(false);
                        }
                    }
                    assert forall|e: u32| e != client_id implies (#[trigger] has_conn(sf, e)
                        <==> has_conn(s0, e)) by {
                        if has_conn(s0, e) {
                            let k = choose|k: int| 0 <= k < s0.len() && s0[k].id == e;
                            assert(0 <= k < s0.len() && s0[k].id == e);
                            assert(k != i);
                            let k2 = if k < i { k } else { k - 1 };
                            assert(sf[k2].id == e);
                        }
                        if has_conn(sf, e) {
                            let k = choose|k: int| 0 <= k < sf.len() && sf[k].id == e;
                            assert(0 <= k < sf.len() && sf[k].id == e);
                            let k0 = if k < i { k } else { k + 1 };
                            assert(s0[k0].id == e);
                        }
                    }
                }
            },
            None => {},
        }
        proof {
            if found is None {
                assert(!has_conn(self.connections@, client_id));
            }
        }
        let ghost conns_mid = self.connections@;
        // cascade: every vehicle this session owned goes, one announcement each
        let removed = self.registry.remove_owned_by(client_id);
        let ghost regf = self.registry@;
        let n = removed.len();
        let mut j: usize = 0;
        while j < n
            invariant
                0 <= j <= n,
                n == removed@.len(),
                server_wf(*self),
                same_config(*self, *old(self)),
                self.tick == old(self).tick,
                self.registry@ == regf,
                self.connections@.len() == conns_mid.len(),
                forall|k: int|
                    0 <= k < conns_mid.len() ==> {
                        let c0 = conns_mid[k];
                        let c1 = #[trigger] self.connections@[k];
                        &&& c1.id == c0.id
                        &&& c1.client_info_private == c0.client_info_private
                        &&& c1.client_info_public.name == c0.client_info_public.name
                        &&& c1.unreliable@ == c0.unreliable@
                        &&& c1.ordered@.len() >= c0.ordered@.len()
                        &&& c1.ordered@.take(c0.ordered@.len() as int) == c0.ordered@
                        &&& (c0.ordered@.len() + n + 2 <= 128 ==> (c1.ordered@.len()
                            == c0.ordered@.len() + j && (forall|p: int|
                            0 <= p < j ==> ((#[trigger] c1.ordered@[c0.ordered@.len() + p]) matches
                                ServerCommand::RemoveVehicle(x) && x == removed@[p]))))
                    },
            decreases n - j,
        {
            let g = removed[j];
            let ghost before = self.connections@;
            self.broadcast_ordered(&ServerCommand::RemoveVehicle(g), None);
            let ghost after_bc = self.connections@;
            self.clear_current(g);
            proof {
                assert forall|k: int| 0 <= k < conns_mid.len() implies {
                    let c0 = conns_mid[k];
                    let c1 = #[trigger] self.connections@[k];
                    &&& c1.id == c0.id
                    &&& c1.client_info_private == c0.client_info_private
                    &&& c1.client_info_public.name == c0.client_info_public.name
                    &&& c1.unreliable@ == c0.unreliable@
                    &&& c1.ordered@.len() >= c0.ordered@.len()
                    &&& c1.ordered@.take(c0.ordered@.len() as int) == c0.ordered@
                    &&& (c0.ordered@.len() + n + 2 <= 128 ==> (c1.ordered@.len()
                        == c0.ordered@.len() + j + 1 && (forall|p: int|
                        0 <= p < j + 1 ==> ((#[trigger] c1.ordered@[c0.ordered@.len() + p]) matches
                            ServerCommand::RemoveVehicle(x) && x == removed@[p]))))
                } by {
                    let c0 = conns_mid[k];
                    let cb = before[k];
                    let ca = after_bc[k];
                    let c1 = self.connections@[k];
                    assert(c1.ordered@ == ca.ordered@);
                    assert(c1.unreliable@ == ca.unreliable@);
                    if cb.ordered@.len() < 128 {
                        assert(ca.ordered@.drop_last() == cb.ordered@);
                        assert(ca.ordered@.take(c0.ordered@.len() as int) =~= cb.ordered@.take(
                            c0.ordered@.len() as int,
                        ));
                    } else {
                        assert(ca.ordered@ == cb.ordered@);
                    }
                    if c0.ordered@.len() + n + 2 <= 128 {
                        assert(cb.ordered@.len() == c0.ordered@.len() + j);
                        assert(cb.ordered@.len() < 128);
                        assert(ca.ordered@.len() == c0.ordered@.len() + j + 1);
                        assert forall|p: int|
                            0 <= p < j + 1 implies ((#[trigger] c1.ordered@[c0.ordered@.len() + p])
                            matches ServerCommand::RemoveVehicle(x) && x == removed@[p]) by {
                            if p < j {
                                assert(c1.ordered@[c0.ordered@.len() + p]
                                    == cb.ordered@[c0.ordered@.len() + p]);
                            } else {
                                assert(c1.ordered@[c0.ordered@.len() + p] == ca.ordered@.last());
                                assert(sc_eq(
                                    ca.ordered@.last(),
                                    ServerCommand::RemoveVehicle(g),
                                ));
                            }
                        }
                    }
                }
            }
            j = j + 1;
        }
        let ghost after_cascade = self.connections@;
        // everyone left learns the player left: the notice, then the record
        let ghost lname = (match found {
            Some(_) => conn_of(s0, client_id).client_info_public.name@,
            None => Seq::<u8>::empty(),
        });
        match leaver_name {
            Some(nm) => {
                let line = left_notice(&nm);
                proof {
                    assert(has_conn(s0, client_id));
                    assert(nm@ == conn_of(s0, client_id).client_info_public.name@);
                    assert(line@ == notice_prefix() + lname + left_suffix());
                }
                self.broadcast_ordered(&ServerCommand::Chat(line, None), None);
            },
            None => {},
        }
        let ghost after_chat = self.connections@;
        self.broadcast_ordered(&ServerCommand::PlayerDisconnected(client_id), None);
        proof {
            let sfin = self.connections@;
            let ghost rc = crate::registry::owned_count(old(self).registry@, client_id);
            assert(n == rc);
            assert forall|k: int| 0 <= k < sfin.len() implies (#[trigger] sfin[k]).id
                == conns_mid[k].id by {
                assert(sfin[k].id == after_chat[k].id);
                assert(after_chat[k].id == after_cascade[k].id);
            }
            assert(!has_conn(sfin, client_id)) by {
                if has_conn(sfin, client_id) {
                    let k = choose|k: int| 0 <= k < sfin.len() && sfin[k].id == client_id;
                    assert(0 <= k < sfin.len() && sfin[k].id == client_id);
                    assert(conns_mid[k].id == client_id);
                    assert(has_conn(conns_mid, client_id));
                }
            }
            assert forall|e: u32| e != client_id implies (#[trigger] has_conn(sfin, e) <==> has_conn(
                conns_mid,
                e,
            )) by {
                if has_conn(conns_mid, e) {
                    let k = choose|k: int| 0 <= k < conns_mid.len() && conns_mid[k].id == e;
                    assert(0 <= k < conns_mid.len() && conns_mid[k].id == e);
                    assert(sfin[k].id == e);
                }
                if has_conn(sfin, e) {
                    let k = choose|k: int| 0 <= k < sfin.len() && sfin[k].id == e;
                    assert(0 <= k < sfin.len() && sfin[k].id == e);
                    assert(conns_mid[k].id == e);
                }
            }
            // per surviving session: identity kept, the announced block present
            assert forall|k: int| 0 <= k < sfin.len() implies {
                let c1 = #[trigger] sfin[k];
                &&& c1.id != client_id
                &&& has_conn(s0, c1.id)
                &&& ({
                    let c0 = conn_of(s0, c1.id);
                    &&& c1.client_info_private == c0.client_info_private
                    &&& c1.client_info_public.name == c0.client_info_public.name
                    &&& c1.unreliable@ == c0.unreliable@
                    &&& c1.ordered@.len() >= c0.ordered@.len()
                    &&& c1.ordered@.take(c0.ordered@.len() as int) == c0.ordered@
                    &&& ((has_conn(s0, client_id) && c0.ordered@.len() + rc + 2 <= 128) ==> {
                        &&& c1.ordered@.len() == c0.ordered@.len() + rc + 2
                        &&& (forall|p: int|
                            0 <= p < rc ==> ((#[trigger] c1.ordered@[c0.ordered@.len() + p])
                                matches ServerCommand::RemoveVehicle(x) && has_id(
                                old(self).registry@,
                                x,
                            ) && crate::registry::owned_by(
                                vehicle_of(old(self).registry@, x),
                                client_id,
                            )))
                        &&& (c1.ordered@[c0.ordered@.len() + rc] matches ServerCommand::Chat(
                            x,
                            who,
                        ) && x@ == notice_prefix() + conn_of(
                            s0,
                            client_id,
                        ).client_info_public.name@ + left_suffix() && who is None)
                        &&& (c1.ordered@.last() matches ServerCommand::PlayerDisconnected(e) && e
                            == client_id)
                    })
                })
            } by {
                let cm = conns_mid[k];
                let cc = after_cascade[k];
                let ch = after_chat[k];
                let c1 = sfin[k];
                // the session table index maps back to the original table
                let k0 = (match found {
                    Some(i) => if k < i { k } else { k + 1 },
                    None => k,
                });
                assert(cm == s0[k0]);
                assert(cm.id != client_id) by {
                    if cm.id == client_id {
                        assert(has_conn(conns_mid, client_id));
                    }
                }
                lemma_conn_at(s0, cm.id, k0);
                let c0 = conn_of(s0, cm.id);
                assert(c0 == cm);
                if has_conn(s0, client_id) && c0.ordered@.len() + rc + 2 <= 128 {
                    assert(cc.ordered@.len() == c0.ordered@.len() + rc);
                    assert(found is Some);
                    assert(ch.ordered@.len() == cc.ordered@.len() + 1);
                    assert(ch.ordered@.drop_last() == cc.ordered@);
                    assert(c1.ordered@.len() == ch.ordered@.len() + 1);
                    assert(c1.ordered@.drop_last() == ch.ordered@);
                    assert(c1.ordered@.take(c0.ordered@.len() as int) =~= c0.ordered@) by {
                        assert forall|p: int| 0 <= p < c0.ordered@.len() implies c1.ordered@[p]
                            == c0.ordered@[p] by {
                            assert(c1.ordered@[p] == ch.ordered@[p]);
                            assert(ch.ordered@[p] == cc.ordered@[p]);
                            assert(cc.ordered@.take(c0.ordered@.len() as int)[p]
                                == c0.ordered@[p]);
                        }
                    }
                    assert forall|p: int|
                        0 <= p < rc implies ((#[trigger] c1.ordered@[c0.ordered@.len() + p])
                        matches ServerCommand::RemoveVehicle(x) && has_id(old(self).registry@, x)
                        && crate::registry::owned_by(
                        vehicle_of(old(self).registry@, x),
                        client_id,
                    )) by {
                        assert(c1.ordered@[c0.ordered@.len() + p] == ch.ordered@[c0.ordered@.len()
                            + p]);
                        assert(ch.ordered@[c0.ordered@.len() + p] == cc.ordered@[c0.ordered@.len()
                            + p]);
                        assert(cc.ordered@[c0.ordered@.len() + p] matches
                            ServerCommand::RemoveVehicle(x) && x == removed@[p]);
                        assert(removed@.contains(removed@[p]));
                    }
                    assert(c1.ordered@[c0.ordered@.len() + rc] == ch.ordered@.last());
                } else {
                    assert(c1.ordered@.take(c0.ordered@.len() as int) =~= c0.ordered@) by {
                        assert forall|p: int| 0 <= p < c0.ordered@.len() implies c1.ordered@[p]
                            == c0.ordered@[p] by {
                            assert(cc.ordered@.take(c0.ordered@.len() as int)[p]
                                == c0.ordered@[p]);
                            assert(cc.ordered@[p] == c0.ordered@[p]);
                            if ch.ordered@.len() > cc.ordered@.len() {
                                assert(ch.ordered@.drop_last() == cc.ordered@);
                            }
                            assert(ch.ordered@[p] == cc.ordered@[p]);
                            if c1.ordered@.len() > ch.ordered@.len() {
                                assert(c1.ordered@.drop_last() == ch.ordered@);
                            }
                            assert(c1.ordered@[p] == ch.ordered@[p]);
                        }
                    }
                }
            }
        }
    }

    /// Routes one decoded command from one connected client. Ownership is
    /// validated against the sender's own namespace wherever a vehicle is
    /// referenced: a command naming a vehicle the sender does not own changes
    /// no registry state. A command from an unknown session changes nothing.
    /// `depth` limits how often a reassembled oversized message may itself be
    /// routed.
    pub fn handle_command(&mut self, client_id: u32, cmd: ClientCommand, now: u64, depth: u8)
        requires
            server_wf(*old(self)),
            old(self).registry@.len() < 0xFFFF_FFFFusize,
        ensures
            server_wf(*final(self)),
            same_config(*final(self), *old(self)),
            final(self).tick == old(self).tick,
            !has_conn(old(self).connections@, client_id) ==> *final(self) == *old(self),
            final(self).connections@.len() == old(self).connections@.len(),
            forall|k: int|
                0 <= k < old(self).connections@.len() ==> (#[trigger] final(self).connections@[k]).id == old(self).connections@[k].id,
            has_conn(old(self).connections@, client_id) ==> routed_effect(
                *old(self),
                *final(self),
                client_id,
                cmd,
                now,
            ),
        decreases depth,
    {
        let present = self.contains_conn(client_id);
        if !present {
            return ;
        }
        match cmd {
            ClientCommand::ClientInfo(_) => {
                // identity is taken during the handshake alone
            },
            ClientCommand::VehicleUpdate(u) => {
                let resolved = self.registry.resolve(client_id, u.vehicle_id);
                match resolved {
                    Some(g) => {
                        self.registry.apply_update(g, u.transform, u.electrics, u.gearbox);
                        proof {
                            assert(vehicle_of(self.registry@, g) == self.registry@[
                            crate::registry::idx_of(old(self).registry@, g)]);
                        }
                    },
                    None => {},
                }
            },
            ClientCommand::VehicleData(d) => {
                let resolved = self.registry.resolve(client_id, d.in_game_id);
                match resolved {
                    Some(g0) => {
                        proof {
                            crate::registry::lemma_resolve_exact(
                                old(self).registry@,
                                client_id,
                                d.in_game_id,
                            );
                        }
                        self.remove_vehicle(g0, Some(client_id));
                    },
                    None => {},
                }
                proof {
                    assert(spec_resolve(self.registry@, client_id, d.in_game_id) is None);
                }
                let ghost mid_reg = self.registry@;
                let cnt = self.registry.count_owned(client_id);
                let exempt = is_unicycle(&d.name);
                if exempt || cnt < self.max_vehicles_per_client as usize {
                    self.spawn_vehicle(Some(client_id), d);
                    proof {
                        let rid = spec_resolve(old(self).registry@, client_id, d.in_game_id);
                        let g = spec_resolve(self.registry@, client_id, d.in_game_id)->Some_0;
                        assert forall|g2: u32| g2 != g implies ((#[trigger] has_id(
                            self.registry@,
                            g2,
                        )) <==> (has_id(old(self).registry@, g2) && !(rid matches Some(g0) && g2
                            == g0))) by {
                            assert(has_id(self.registry@, g2) <==> (has_id(mid_reg, g2) && !(
                            spec_resolve(mid_reg, client_id, d.in_game_id) == Some(g2))));
                        }
                    }
                }
            },
            ClientCommand::RemoveVehicle(l) => {
                let resolved = self.registry.resolve(client_id, l);
                match resolved {
                    Some(g) => {
                        proof {
                            crate::registry::lemma_resolve_exact(old(self).registry@, client_id, l);
                        }
                        self.remove_vehicle(g, Some(client_id));
                    },
                    None => {},
                }
            },
            ClientCommand::ResetVehicle(rst) => {
                let resolved = self.registry.resolve(client_id, rst.vehicle_id);
                match resolved {
                    Some(g) => {
                        let translated = crate::vehicle::VehicleReset {
                            vehicle_id: g,
                            position: rst.position,
                            rotation: rst.rotation,
                        };
                        self.reset_vehicle(translated, Some(client_id));
                    },
                    None => {},
                }
            },
            ClientCommand::Chat(msg) => {
                // oversized chat is silently truncated, never rejected
                let ghost m0 = msg@;
                let mut line = msg;
                line.truncate(128);
                proof {
                    if m0.len() <= 128 {
                        assert(line@ =~= m0);
                    } else {
                        assert(line@ =~= m0.take(128));
                    }
                }
                if line.len() > 0 {
                    let ghost lv = line@;
                    let ghost pre_conns = self.connections@;
                    self.broadcast_ordered(&ServerCommand::Chat(line, Some(client_id)), None);
                    proof {
                        assert forall|k: int| 0 <= k < pre_conns.len() implies {
                            let c0 = pre_conns[k];
                            let c1 = #[trigger] self.connections@[k];
                            &&& same_identity(c1, c0)
                            &&& c1.unreliable@ == c0.unreliable@
                            &&& (if c0.ordered@.len() < 128 {
                                c1.ordered@.len() == c0.ordered@.len() + 1 && c1.ordered@.drop_last()
                                    == c0.ordered@ && (c1.ordered@.last() matches
                                    ServerCommand::Chat(x, who) && x@ == lv && who == Some(
                                    client_id,
                                ))
                            } else {
                                c1.ordered@ == c0.ordered@
                            })
                        } by {
                            let c0 = pre_conns[k];
                            let c1 = self.connections@[k];
                            if c0.ordered@.len() < 128 {
                                assert(sc_eq(
                                    c1.ordered@.last(),
                                    ServerCommand::Chat(line, Some(client_id)),
                                ));
                            }
                        }
                    }
                }
            },
            ClientCommand::RequestMods(names) => {
                self.queue_requested_mods(client_id, &names);
            },
            ClientCommand::VehicleMetaUpdate(m) => {
                let resolved = self.registry.resolve(client_id, m.vehicle_id);
                match resolved {
                    Some(g) => {
                        let plate_copy = crate::util::clone_opt_bytes(&m.plate);
                        self.registry.apply_meta(g, m.plate, m.colors_table);
                        let announced = crate::vehicle::VehicleMeta {
                            vehicle_id: g,
                            plate: plate_copy,
                            colors_table: m.colors_table,
                        };
                        self.broadcast_ordered(&ServerCommand::VehicleMetaUpdate(announced), None);
                    },
                    None => {},
                }
            },
            ClientCommand::VehicleChanged(l) => {
                let resolved = self.registry.resolve(client_id, l);
                match resolved {
                    Some(g) => {
                        self.set_current_vehicle(client_id, Some(g));
                    },
                    None => {},
                }
            },
            ClientCommand::CouplerAttached(ev) => {
                self.broadcast_ordered(&ServerCommand::CouplerAttached(ev), None);
            },
            ClientCommand::CouplerDetached(ev) => {
                self.broadcast_ordered(&ServerCommand::CouplerDetached(ev), None);
            },
            ClientCommand::ElectricsUndefinedUpdate(l, e) => {
                let resolved = self.registry.resolve(client_id, l);
                match resolved {
                    Some(g) => {
                        self.registry.apply_electrics_undefined(g, &e);
                        self.broadcast_ordered(
                            &ServerCommand::ElectricsUndefinedUpdate(g, e),
                            None,
                        );
                    },
                    None => {},
                }
            },
            ClientCommand::VoiceChatPacket(data) => {
                // relayed verbatim, stamped with the speaker's vehicle position
                let ghost dv = data@;
                let pos = self.sender_position(client_id);
                let ghost pre_conns = self.connections@;
                self.broadcast_unreliable(
                    &ServerCommand::VoiceChatPacket(client_id, pos, data),
                    Some(client_id),
                );
                proof {
                    assert forall|k: int| 0 <= k < pre_conns.len() implies {
                        let c0 = pre_conns[k];
                        let c1 = #[trigger] self.connections@[k];
                        &&& same_identity(c1, c0)
                        &&& c1.ordered@ == c0.ordered@
                        &&& (if c0.id == client_id {
                            c1.unreliable@ == c0.unreliable@
                        } else {
                            if c0.unreliable@.len() < 128 {
                                c1.unreliable@.len() == c0.unreliable@.len() + 1
                                    && c1.unreliable@.drop_last() == c0.unreliable@ && (
                                c1.unreliable@.last() matches ServerCommand::VoiceChatPacket(
                                    who,
                                    _pos,
                                    x,
                                ) && who == client_id && x@ == dv)
                            } else {
                                c1.unreliable@ == c0.unreliable@
                            }
                        })
                    } by {
                        let c0 = pre_conns[k];
                        let c1 = self.connections@[k];
                        if c0.id != client_id && c0.unreliable@.len() < 128 {
                            assert(sc_eq(
                                c1.unreliable@.last(),
                                ServerCommand::VoiceChatPacket(client_id, pos, data),
                            ));
                        }
                    }
                }
            },
            ClientCommand::Ping(p) => {
                // answered at once, out of band of the tick loop
                self.record_ping(client_id, p as u32, now);
            },
            ClientCommand::DataChunk { chunk_index, total_chunks, data } => {
                if depth > 0 {
                    let reassembled = self.store_chunk(client_id, chunk_index, total_chunks, data);
                    match reassembled {
                        Some(bytes) => {
                            let decoded = crate::wire::decode_client_command(bytes.as_slice());
                            match decoded {
                                Ok(inner) => {
                                    self.handle_command(client_id, inner, now, depth - 1);
                                },
                                Err(_) => {
                                    // a malformed reassembly costs only itself
                                },
                            }
                        },
                        None => {},
                    }
                }
            },
        }
    }

    /// One client's lifecycle event or decoded command, as the transport hands
    /// them to the router. `now` is the caller's clock, echoed in ping replies.
    pub fn on_client_event(&mut self, client_id: u32, event: IncomingEvent, now: u64)
        requires
            server_wf(*old(self)),
            old(self).registry@.len() < 0xFFFF_FFFFusize,
        ensures
            server_wf(*final(self)),
            same_config(*final(self), *old(self)),
            match event {
                IncomingEvent::ConnectionLost => {
                    &&& !has_conn(final(self).connections@, client_id)
                    &&& (forall|e: u32|
                        e != client_id ==> (#[trigger] has_conn(final(self).connections@, e)
                            <==> has_conn(old(self).connections@, e)))
                    &&& (forall|g: u32|
                        #[trigger] has_id(final(self).registry@, g) <==> (has_id(
                            old(self).registry@,
                            g,
                        ) && !crate::registry::owned_by(
                            vehicle_of(old(self).registry@, g),
                            client_id,
                        )))
                    &&& (forall|g: u32|
                        has_id(final(self).registry@, g) ==> #[trigger] vehicle_of(
                            final(self).registry@,
                            g,
                        ) == vehicle_of(old(self).registry@, g))
                    &&& (forall|l2: u32|
                        #[trigger] spec_resolve(final(self).registry@, client_id, l2) is None)
                    &&& (forall|o2: u32, l2: u32|
                        o2 != client_id ==> #[trigger] spec_resolve(final(self).registry@, o2, l2)
                            == spec_resolve(old(self).registry@, o2, l2))
                },
                IncomingEvent::ClientCommand(cmd) => {
                    &&& (!has_conn(old(self).connections@, client_id) ==> *final(self) == *old(self))
                    &&& final(self).tick == old(self).tick
                    &&& final(self).connections@.len() == old(self).connections@.len()
                    &&& (forall|k: int|
                        0 <= k < old(self).connections@.len() ==> (#[trigger] final(self).connections@[k]).id == old(self).connections@[k].id)
                    &&& (has_conn(old(self).connections@, client_id) ==> routed_effect(
                        *old(self),
                        *final(self),
                        client_id,
                        cmd,
                        now,
                    ))
                },
            },
    {
        match event {
            IncomingEvent::ConnectionLost => {
                self.disconnect(client_id);
            },
            IncomingEvent::ClientCommand(cmd) => {
                self.handle_command(client_id, cmd, now, 1);
            },
        }
    }

    /// One tick of the broadcast loop: the counter advances, and every
    /// session's unreliable queue gains one bundled update per vehicle whose
    /// three snapshots are all present, each stamped with the new counter
    /// value. Because the counter only ever grows, a client that applies an
    /// update only when its generation exceeds the last applied one (the rule
    /// `should_apply_update` states) discards stale out-of-order arrivals.
    pub fn tick(&mut self)
        requires
            server_wf(*old(self)),
            old(self).tick < 0xFFFF_FFFF_FFFF_FFFFu64,
        ensures
            server_wf(*final(self)),
            same_config(*final(self), *old(self)),
            final(self).registry@ == old(self).registry@,
            final(self).tick == old(self).tick + 1,
            final(self).connections@.len() == old(self).connections@.len(),
            forall|k: int|
                0 <= k < old(self).connections@.len() ==> {
                    let c0 = old(self).connections@[k];
                    let c1 = #[trigger] final(self).connections@[k];
                    &&& same_identity(c1, c0)
                    &&& c1.ordered@ == c0.ordered@
                    &&& c1.unreliable@.len() >= c0.unreliable@.len()
                    &&& c1.unreliable@.take(c0.unreliable@.len() as int) == c0.unreliable@
                    // every appended entry is a bundled update carrying the
                    // new generation for some complete live vehicle
                    &&& (forall|p: int|
                        c0.unreliable@.len() <= p < c1.unreliable@.len() ==> ((
                        #[trigger] c1.unreliable@[p]) matches ServerCommand::VehicleUpdate(u)
                            && u.generation == old(self).tick + 1 && has_id(
                            final(self).registry@,
                            u.vehicle_id,
                        ) && crate::registry::update_matches(
                            u,
                            vehicle_of(final(self).registry@, u.vehicle_id),
                            final(self).tick,
                        )))
                    // and when the queue has room for the whole broadcast, it
                    // gains exactly one update per complete live vehicle
                    &&& (c0.unreliable@.len() + crate::registry::complete_count(
                        old(self).registry@,
                    ) <= 128 ==> (c1.unreliable@.len() == c0.unreliable@.len()
                        + crate::registry::complete_count(old(self).registry@) && (forall|g: u32|
                        has_id(old(self).registry@, g) && crate::registry::complete(
                            vehicle_of(old(self).registry@, g),
                        ) ==> exists|p: int|
                            c0.unreliable@.len() <= p < c1.unreliable@.len() && ((
                            #[trigger] c1.unreliable@[p]) matches ServerCommand::VehicleUpdate(u)
                                && u.vehicle_id == g))))
                },
    {
        self.tick = self.tick + 1;
        let generation = self.tick;
        let updates = self.registry.complete_updates(generation);
        let ghost s0 = self.connections@;
        let ghost reg0 = self.registry@;
        let nu = updates.len();
        let mut j: usize = 0;
        while j < nu
            invariant
                0 <= j <= nu,
                nu == updates@.len(),
                server_wf(*self),
                same_config(*self, *old(self)),
                self.registry@ == reg0,
                reg0 == old(self).registry@,
                self.tick == old(self).tick + 1,
                generation == self.tick,
                s0 == old(self).connections@,
                forall|p: int|
                    0 <= p < nu ==> has_id(reg0, (#[trigger] updates@[p]).vehicle_id)
                        && crate::registry::update_matches(
                        updates@[p],
                        vehicle_of(reg0, updates@[p].vehicle_id),
                        generation,
                    ),
                self.connections@.len() == s0.len(),
                forall|k: int|
                    0 <= k < s0.len() ==> {
                        let c0 = s0[k];
                        let c1 = #[trigger] self.connections@[k];
                        &&& same_identity(c1, c0)
                        &&& c1.ordered@ == c0.ordered@
                        &&& c1.unreliable@.len() >= c0.unreliable@.len()
                        &&& c1.unreliable@.take(c0.unreliable@.len() as int) == c0.unreliable@
                        &&& (forall|p: int|
                            c0.unreliable@.len() <= p < c1.unreliable@.len() ==> ((
                            #[trigger] c1.unreliable@[p]) matches ServerCommand::VehicleUpdate(u)
                                && u.generation == generation && has_id(reg0, u.vehicle_id)
                                && crate::registry::update_matches(
                                u,
                                vehicle_of(reg0, u.vehicle_id),
                                generation,
                            )))
                        &&& (c0.unreliable@.len() + nu <= 128 ==> (c1.unreliable@.len()
                            == c0.unreliable@.len() + j && (forall|p: int|
                            0 <= p < j ==> ((#[trigger] c1.unreliable@[c0.unreliable@.len() + p])
                                matches ServerCommand::VehicleUpdate(u) && u.vehicle_id
                                == updates@[p].vehicle_id))))
                    },
                nu == crate::registry::complete_count(reg0),
            decreases nu - j,
        {
            let ghost mid = self.connections@;
            let u = updates[j].clone();
            proof {
                assert(crate::vehicle::vu_eq(u, updates@[j as int]));
            }
            self.broadcast_unreliable(&ServerCommand::VehicleUpdate(u), None);
            proof {
                assert forall|k: int| 0 <= k < s0.len() implies {
                    let c0 = s0[k];
                    let c1 = #[trigger] self.connections@[k];
                    &&& same_identity(c1, c0)
                    &&& c1.ordered@ == c0.ordered@
                    &&& c1.unreliable@.len() >= c0.unreliable@.len()
                    &&& c1.unreliable@.take(c0.unreliable@.len() as int) == c0.unreliable@
                    &&& (forall|p: int|
                        c0.unreliable@.len() <= p < c1.unreliable@.len() ==> ((
                        #[trigger] c1.unreliable@[p]) matches ServerCommand::VehicleUpdate(u2)
                            && u2.generation == generation && has_id(reg0, u2.vehicle_id)
                            && crate::registry::update_matches(
                            u2,
                            vehicle_of(reg0, u2.vehicle_id),
                            generation,
                        )))
                    &&& (c0.unreliable@.len() + nu <= 128 ==> (c1.unreliable@.len()
                        == c0.unreliable@.len() + j + 1 && (forall|p: int|
                        0 <= p < j + 1 ==> ((#[trigger] c1.unreliable@[c0.unreliable@.len() + p])
                            matches ServerCommand::VehicleUpdate(u2) && u2.vehicle_id
                            == updates@[p].vehicle_id))))
                } by {
                    let c0 = s0[k];
                    let cm = mid[k];
                    let c1 = self.connections@[k];
                    if cm.unreliable@.len() < 128 {
                        assert(c1.unreliable@.drop_last() == cm.unreliable@);
                        assert(c1.unreliable@.take(c0.unreliable@.len() as int)
                            =~= cm.unreliable@.take(c0.unreliable@.len() as int));
                        assert forall|p: int|
                            c0.unreliable@.len() <= p < c1.unreliable@.len() implies ((
                        #[trigger] c1.unreliable@[p]) matches ServerCommand::VehicleUpdate(u2)
                            && u2.generation == generation && has_id(reg0, u2.vehicle_id)
                            && crate::registry::update_matches(
                            u2,
                            vehicle_of(reg0, u2.vehicle_id),
                            generation,
                        )) by {
                            if p < c1.unreliable@.len() - 1 {
                                assert(c1.unreliable@[p] == cm.unreliable@[p]);
                            } else {
                                assert(sc_eq(
                                    c1.unreliable@.last(),
                                    ServerCommand::VehicleUpdate(u),
                                ));
                                assert(crate::vehicle::vu_eq(u, updates@[j as int]));
                            }
                        }
                    } else {
                        assert(c1.unreliable@ == cm.unreliable@);
                    }
                    if c0.unreliable@.len() + nu <= 128 {
                        assert(cm.unreliable@.len() == c0.unreliable@.len() + j);
                        assert(cm.unreliable@.len() < 128);
                        assert(c1.unreliable@.len() == c0.unreliable@.len() + j + 1);
                        assert forall|p: int|
                            0 <= p < j + 1 implies ((#[trigger] c1.unreliable@[c0.unreliable@.len()
                            + p]) matches ServerCommand::VehicleUpdate(u2) && u2.vehicle_id
                            == updates@[p].vehicle_id) by {
                            if p < j {
                                assert(c1.unreliable@[c0.unreliable@.len() + p]
                                    == cm.unreliable@[c0.unreliable@.len() + p]);
                            } else {
                                assert(c1.unreliable@[c0.unreliable@.len() + p]
                                    == c1.unreliable@.last());
                                assert(sc_eq(
                                    c1.unreliable@.last(),
                                    ServerCommand::VehicleUpdate(u),
                                ));
                                assert(crate::vehicle::vu_eq(u, updates@[j as int]));
                            }
                        }
                    }
                }
            }
            j = j + 1;
        }
        proof {
            assert forall|k: int|
                0 <= k < s0.len() && s0[k].unreliable@.len() + nu <= 128 implies {
                let c0 = s0[k];
                let c1 = #[trigger] self.connections@[k];
                forall|g: u32|
                    has_id(reg0, g) && crate::registry::complete(vehicle_of(reg0, g))
                        ==> exists|p: int|
                        c0.unreliable@.len() <= p < c1.unreliable@.len() && ((
                        #[trigger] c1.unreliable@[p]) matches ServerCommand::VehicleUpdate(u)
                            && u.vehicle_id == g)
            } by {
                let c0 = s0[k];
                let c1 = self.connections@[k];
                assert forall|g: u32|
                    has_id(reg0, g) && crate::registry::complete(
                        vehicle_of(reg0, g),
                    ) implies exists|p: int|
                    c0.unreliable@.len() <= p < c1.unreliable@.len() && ((
                #[trigger] c1.unreliable@[p]) matches ServerCommand::VehicleUpdate(u)
                    && u.vehicle_id == g) by {
                    let q = choose|q: int| 0 <= q < updates@.len() && updates@[q].vehicle_id == g;
                    assert(0 <= q < updates@.len() && updates@[q].vehicle_id == g);
                    assert((c1.unreliable@[c0.unreliable@.len() + q]) matches
                        ServerCommand::VehicleUpdate(u) && u.vehicle_id == updates@[q].vehicle_id);
                }
            }
        }
    }

    /// Broadcasts every session's public identity to every session: the
    /// slower secondary loop that keeps names, latencies and controlled
    /// vehicles converged.
    pub fn send_players_info(&mut self)
        requires
            server_wf(*old(self)),
        ensures
            server_wf(*final(self)),
            same_config(*final(self), *old(self)),
            final(self).registry@ == old(self).registry@,
            final(self).tick == old(self).tick,
            final(self).connections@.len() == old(self).connections@.len(),
            forall|k: int|
                0 <= k < old(self).connections@.len() ==> {
                    let c0 = old(self).connections@[k];
                    let c1 = #[trigger] final(self).connections@[k];
                    &&& same_identity(c1, c0)
                    &&& c1.unreliable@ == c0.unreliable@
                    &&& c1.ordered@.len() >= c0.ordered@.len()
                    &&& c1.ordered@.take(c0.ordered@.len() as int) == c0.ordered@
                    // with room for the whole cycle, the ordered queue gains
                    // one identity record per session, in table order
                    &&& (c0.ordered@.len() + old(self).connections@.len() <= 128 ==> (
                    c1.ordered@.len() == c0.ordered@.len() + old(self).connections@.len() && (
                    forall|p: int|
                        0 <= p < old(self).connections@.len() ==> ((
                        #[trigger] c1.ordered@[c0.ordered@.len() + p]) matches
                            ServerCommand::PlayerInfoUpdate(ci) && cipub_eq(
                            ci,
                            old(self).connections@[p].client_info_public,
                        )))))
                },
    {
        let n = self.connections.len();
        let ghost s0 = self.connections@;
        let mut j: usize = 0;
        while j < n
            invariant
                0 <= j <= n,
                n == s0.len(),
                s0 == old(self).connections@,
                server_wf(*self),
                same_config(*self, *old(self)),
                self.registry@ == old(self).registry@,
                self.tick == old(self).tick,
                self.connections@.len() == s0.len(),
                forall|k: int|
                    0 <= k < s0.len() ==> {
                        let c0 = s0[k];
                        let c1 = #[trigger] self.connections@[k];
                        &&& same_identity(c1, c0)
                        &&& c1.unreliable@ == c0.unreliable@
                        &&& c1.ordered@.len() >= c0.ordered@.len()
                        &&& c1.ordered@.take(c0.ordered@.len() as int) == c0.ordered@
                        &&& (c0.ordered@.len() + n <= 128 ==> (c1.ordered@.len() == c0.ordered@.len()
                            + j && (forall|p: int|
                            0 <= p < j ==> ((#[trigger] c1.ordered@[c0.ordered@.len() + p]) matches
                                ServerCommand::PlayerInfoUpdate(ci) && cipub_eq(
                                ci,
                                s0[p].client_info_public,
                            )))))
                    },
            decreases n - j,
        {
            let ghost mid = self.connections@;
            let info = self.connections[j].client_info_public.clone();
            proof {
                assert(same_identity(mid[j as int], s0[j as int]));
                assert(cipub_eq(info, s0[j as int].client_info_public));
            }
            self.broadcast_ordered(&ServerCommand::PlayerInfoUpdate(info), None);
            proof {
                assert forall|k: int| 0 <= k < s0.len() implies {
                    let c0 = s0[k];
                    let c1 = #[trigger] self.connections@[k];
                    &&& same_identity(c1, c0)
                    &&& c1.unreliable@ == c0.unreliable@
                    &&& c1.ordered@.len() >= c0.ordered@.len()
                    &&& c1.ordered@.take(c0.ordered@.len() as int) == c0.ordered@
                    &&& (c0.ordered@.len() + n <= 128 ==> (c1.ordered@.len() == c0.ordered@.len() + j
                        + 1 && (forall|p: int|
                        0 <= p < j + 1 ==> ((#[trigger] c1.ordered@[c0.ordered@.len() + p]) matches
                            ServerCommand::PlayerInfoUpdate(ci) && cipub_eq(
                            ci,
                            s0[p].client_info_public,
                        )))))
                } by {
                    let c0 = s0[k];
                    let cm = mid[k];
                    let c1 = self.connections@[k];
                    assert(same_identity(c1, cm));
                    if cm.ordered@.len() < 128 {
                        assert(c1.ordered@.drop_last() == cm.ordered@);
                        assert(c1.ordered@.take(c0.ordered@.len() as int) =~= cm.ordered@.take(
                            c0.ordered@.len() as int,
                        ));
                    } else {
                        assert(c1.ordered@ == cm.ordered@);
                    }
                    if c0.ordered@.len() + n <= 128 {
                        assert(cm.ordered@.len() == c0.ordered@.len() + j);
                        assert(cm.ordered@.len() < 128);
                        assert(c1.ordered@.len() == c0.ordered@.len() + j + 1);
                        assert forall|p: int|
                            0 <= p < j + 1 implies ((#[trigger] c1.ordered@[c0.ordered@.len() + p])
                            matches ServerCommand::PlayerInfoUpdate(ci) && cipub_eq(
                            ci,
                            s0[p].client_info_public,
                        )) by {
                            if p < j {
                                assert(c1.ordered@[c0.ordered@.len() + p]
                                    == cm.ordered@[c0.ordered@.len() + p]);
                            } else {
                                assert(c1.ordered@[c0.ordered@.len() + p] == c1.ordered@.last());
                                assert(sc_eq(
                                    c1.ordered@.last(),
                                    ServerCommand::PlayerInfoUpdate(info),
                                ));
                            }
                        }
                    }
                }
            }
            j = j + 1;
        }
    }

    /// Applies one side-effecting action requested by the scripting engine.
    /// The engine runs outside the core; its call-outs are gathered after a
    /// mutation completes and applied here as fresh commands on the next
    /// dispatch cycle, never re-entrantly.
    pub fn apply_script_command(&mut self, cmd: LuaCommand)
        requires
            server_wf(*old(self)),
            old(self).registry@.len() < 0xFFFF_FFFFusize,
        ensures
            server_wf(*final(self)),
            same_config(*final(self), *old(self)),
            match cmd {
                LuaCommand::RemoveVehicle(g) => !has_id(final(self).registry@, g) && (forall|
                    g2: u32,
                |
                    g2 != g ==> (#[trigger] has_id(final(self).registry@, g2) <==> has_id(
                        old(self).registry@,
                        g2,
                    ))),
                LuaCommand::SpawnVehicle(d, owner) => exists|g: u32|
                    !has_id(old(self).registry@, g) && #[trigger] has_id(final(self).registry@, g)
                        && vehicle_of(final(self).registry@, g).data
                        == (crate::vehicle::VehicleData { server_id: g, owner, ..d }),
                LuaCommand::Kick(e, _) => !has_conn(final(self).connections@, e),
                LuaCommand::ResetVehicle(_) => (forall|g2: u32|
                    #[trigger] has_id(final(self).registry@, g2) <==> has_id(
                        old(self).registry@,
                        g2,
                    )) && (forall|o2: u32, l2: u32|
                    #[trigger] spec_resolve(final(self).registry@, o2, l2) == spec_resolve(
                        old(self).registry@,
                        o2,
                        l2,
                    )),
                _ => final(self).registry@ == old(self).registry@,
            },
    {
        match cmd {
            LuaCommand::ChatMessage(id, msg) => {
                let found = self.find_conn(id);
                match found {
                    Some(i) => {
                        let ghost pre = self.connections@;
                        let mut c = self.connections.remove(i);
                        c.send_chat_message(msg);
                        self.connections.insert(i, c);
                        proof {
                            assert(self.connections@ =~= pre.update(i as int, c));
                            assert(conns_wf(self.connections@)) by {
                                assert forall|p: int, q: int|
                                    0 <= p < q < self.connections@.len() implies self.connections@[
                                p].id != self.connections@[q].id by {
                                    assert(self.connections@[p].id == pre[p].id);
                                    assert(self.connections@[q].id == pre[q].id);
                                }
                            }
                        }
                    },
                    None => {},
                }
            },
            LuaCommand::ChatMessageBroadcast(msg) => {
                self.broadcast_ordered(&ServerCommand::Chat(msg, None), None);
            },
            LuaCommand::RemoveVehicle(g) => {
                self.remove_vehicle(g, None);
            },
            LuaCommand::ResetVehicle(g) => {
                // back to the vehicle's own last-known placement
                let placement = match self.registry.get(g) {
                    Some(v) => Some((v.data.position, v.data.rotation)),
                    None => None,
                };
                match placement {
                    Some((position, rotation)) => {
                        let data = crate::vehicle::VehicleReset { vehicle_id: g, position, rotation };
                        self.reset_vehicle(data, None);
                    },
                    None => {},
                }
            },
            LuaCommand::SendLua(id, code) => {
                let found = self.find_conn(id);
                match found {
                    Some(i) => {
                        let ghost pre = self.connections@;
                        let mut c = self.connections.remove(i);
                        c.send_lua(code);
                        self.connections.insert(i, c);
                        proof {
                            assert(self.connections@ =~= pre.update(i as int, c));
                            assert(conns_wf(self.connections@)) by {
                                assert forall|p: int, q: int|
                                    0 <= p < q < self.connections@.len() implies self.connections@[
                                p].id != self.connections@[q].id by {
                                    assert(self.connections@[p].id == pre[p].id);
                                    assert(self.connections@[q].id == pre[q].id);
                                }
                            }
                        }
                    },
                    None => {},
                }
            },
            LuaCommand::SendVehicleLua(g, code) => {
                self.broadcast_ordered(&ServerCommand::VehicleLuaCommand(g, code), None);
            },
            LuaCommand::Kick(id, reason) => {
                self.broadcast_ordered(&ServerCommand::Chat(reason, None), None);
                self.disconnect(id);
            },
            LuaCommand::SpawnVehicle(d, owner) => {
                let g = self.spawn_vehicle(owner, d);
                proof {
                    assert(has_id(self.registry@, g));
                }
            },
        }
    }

    /// The position stamped onto a relayed voice packet: the sender's current
    /// vehicle's last-known position, or the origin when it has none.
    fn sender_position(&self, client_id: u32) -> (r: [u32; 3])
        requires
            server_wf(*self),
        ensures
            ({
                let cs = self.connections@;
                if has_conn(cs, client_id) && (conn_of(
                    cs,
                    client_id,
                ).client_info_public.current_vehicle matches Some(v) && has_id(self.registry@, v)) {
                    r == vehicle_of(
                        self.registry@,
                        conn_of(cs, client_id).client_info_public.current_vehicle->Some_0,
                    ).data.position
                } else {
                    forall|k: int| 0 <= k < 3 ==> r@[k] == 0
                }
            }),
    {
        let found = self.find_conn(client_id);
        match found {
            Some(i) => {
                match self.connections[i].client_info_public.current_vehicle {
                    Some(v) => {
                        let veh = self.registry.get(v);
                        match veh {
                            Some(ve) => ve.data.position,
                            None => [0u32, 0u32, 0u32],
                        }
                    },
                    None => [0u32, 0u32, 0u32],
                }
            },
            None => [0u32, 0u32, 0u32],
        }
    }

    /// Records a ping measurement on the sender's public identity and answers
    /// at once with a clock echo on the unreliable channel, out of band of the
    /// tick loop. An unknown sender changes nothing.
    fn record_ping(&mut self, client_id: u32, ping: u32, now: u64)
        requires
            server_wf(*old(self)),
        ensures
            server_wf(*final(self)),
            same_config(*final(self), *old(self)),
            final(self).registry@ == old(self).registry@,
            final(self).tick == old(self).tick,
            final(self).connections@.len() == old(self).connections@.len(),
            !has_conn(old(self).connections@, client_id) ==> *final(self) == *old(self),
            has_conn(old(self).connections@, client_id) ==> (forall|k: int|
                0 <= k < old(self).connections@.len() ==> {
                    let c0 = old(self).connections@[k];
                    let c1 = #[trigger] final(self).connections@[k];
                    if c0.id == client_id {
                        &&& c1.id == c0.id
                        &&& c1.client_info_private == c0.client_info_private
                        &&& c1.client_info_public.name == c0.client_info_public.name
                        &&& c1.client_info_public.id == c0.client_info_public.id
                        &&& c1.client_info_public.current_vehicle
                            == c0.client_info_public.current_vehicle
                        &&& c1.client_info_public.hide_nametag == c0.client_info_public.hide_nametag
                        &&& c1.client_info_public.ping == ping
                        &&& c1.ordered@ == c0.ordered@
                        &&& queue_pushed(c0.unreliable@, c1.unreliable@, ServerCommand::Pong(now))
                    } else {
                        c1 == c0
                    }
                }),
    {
        let found = self.find_conn(client_id);
        match found {
            Some(i) => {
                let ghost pre = self.connections@;
                let mut c = self.connections.remove(i);
                c.client_info_public.ping = ping;
                enqueue(&mut c.unreliable, ServerCommand::Pong(now));
                self.connections.insert(i, c);
                proof {
                    assert(self.connections@ =~= pre.update(i as int, c));
                    assert(conns_wf(self.connections@)) by {
                        assert forall|p: int, q: int|
                            0 <= p < q < self.connections@.len() implies self.connections@[p].id
                            != self.connections@[q].id by {
                            assert(self.connections@[p].id == pre[p].id);
                            assert(self.connections@[q].id == pre[q].id);
                        }
                    }
                    assert forall|k: int| 0 <= k < pre.len() && k != i && #[trigger] pre[k].id
                        == client_id implies false by {}
                }
            },
            None => {},
        }
    }

    /// Starts one file transfer for every mod whose name the client asked for
    /// and the manifest offers: each match queues a transfer on the
    /// requester's ordered channel.
    fn queue_requested_mods(&mut self, client_id: u32, names: &Vec<Vec<u8>>)
        requires
            server_wf(*old(self)),
        ensures
            server_wf(*final(self)),
            same_config(*final(self), *old(self)),
            final(self).registry@ == old(self).registry@,
            final(self).tick == old(self).tick,
            final(self).connections@.len() == old(self).connections@.len(),
            forall|k: int|
                0 <= k < old(self).connections@.len() ==> (#[trigger] final(self).connections@[k]).id == old(self).connections@[k].id,
    {
        let found = self.find_conn(client_id);
        let i = match found {
            Some(i) => i,
            None => {
                return ;
            },
        };
        let ghost pre = self.connections@;
        let mut c = self.connections.remove(i);
        let nm = self.mods.len();
        let mut m: usize = 0;
        while m < nm
            invariant
                0 <= m <= nm,
                nm == self.mods@.len(),
                0 <= i < pre.len(),
                c.id == pre[i as int].id,
            decreases nm - m,
        {
            if names_contain(names, &self.mods[m].0) {
                let path = crate::util::clone_bytes(&self.mods[m].0);
                enqueue(&mut c.ordered, ServerCommand::TransferFile(path));
            }
            m = m + 1;
        }
        self.connections.insert(i, c);
        proof {
            assert(self.connections@ =~= pre.update(i as int, c));
            assert(conns_wf(self.connections@)) by {
                assert forall|p: int, q: int|
                    0 <= p < q < self.connections@.len() implies self.connections@[p].id
                    != self.connections@[q].id by {
                    assert(self.connections@[p].id == pre[p].id);
                    assert(self.connections@[q].id == pre[q].id);
                }
            }
        }
    }

    /// Stores one chunk of an oversized message in the sender's reassembly
    /// buffer; when the received-bitmap fills, the concatenation is handed
    /// back and the buffer cleared.
    fn store_chunk(&mut self, client_id: u32, chunk_index: u32, total_chunks: u32, data: Vec<u8>) -> (r:
        Option<Vec<u8>>)
        requires
            server_wf(*old(self)),
        ensures
            server_wf(*final(self)),
            same_config(*final(self), *old(self)),
            final(self).registry@ == old(self).registry@,
            final(self).tick == old(self).tick,
            final(self).connections@.len() == old(self).connections@.len(),
            // only the sender's reassembly buffer may change; a completed
            // reassembly clears it, so a later chunk starts a fresh message
            forall|k: int|
                0 <= k < old(self).connections@.len() ==> {
                    let c0 = old(self).connections@[k];
                    let c1 = #[trigger] final(self).connections@[k];
                    if c0.id == client_id {
                        &&& same_identity(c1, c0)
                        &&& c1.ordered@ == c0.ordered@
                        &&& c1.unreliable@ == c0.unreliable@
                        &&& (r is Some ==> c1.chunks is None)
                    } else {
                        c1 == c0
                    }
                },
            // a reassembly completes only for a valid chunk of a connected
            // sender
            r is Some ==> (has_conn(old(self).connections@, client_id) && 0 < total_chunks <= 1024
                && chunk_index < total_chunks),
    {
        if total_chunks == 0 || total_chunks > 1024 || chunk_index >= total_chunks {
            return None;
        }
        let found = self.find_conn(client_id);
        let i = match found {
            Some(i) => i,
            None => {
                return None;
            },
        };
        let ghost pre = self.connections@;
        let mut c = self.connections.remove(i);
        // a fresh or differently sized message restarts the buffer
        let restart = match &c.chunks {
            Some(b) => b.total != total_chunks,
            None => true,
        };
        if restart {
            let mut parts: Vec<Vec<u8>> = Vec::new();
            let mut received: Vec<bool> = Vec::new();
            let mut k: usize = 0;
            while k < total_chunks as usize
                invariant
                    parts@.len() == k,
                    received@.len() == k,
                decreases total_chunks as int - k,
            {
                parts.push(Vec::new());
                received.push(false);
                k = k + 1;
            }
            c.chunks = Some(ChunkBuffer { total: total_chunks, parts, received });
        }
        let mut buffer = match c.chunks.take() {
            Some(b) => b,
            None => {
                self.connections.insert(i, c);
                proof {
                    assert(self.connections@ =~= pre.update(i as int, c));
                    assert(conns_wf(self.connections@)) by {
                        assert forall|p: int, q: int|
                            0 <= p < q < self.connections@.len() implies self.connections@[p].id
                            != self.connections@[q].id by {
                            assert(self.connections@[p].id == pre[p].id);
                            assert(self.connections@[q].id == pre[q].id);
                        }
                    }
                }
                return None;
            },
        };
        let mut result: Option<Vec<u8>> = None;
        if buffer.parts.len() == total_chunks as usize && buffer.received.len()
            == total_chunks as usize && (chunk_index as usize) < buffer.parts.len() {
            let ghost bp = buffer.parts@;
            let _ = buffer.parts.remove(chunk_index as usize);
            buffer.parts.insert(chunk_index as usize, data);
            let _ = buffer.received.remove(chunk_index as usize);
            buffer.received.insert(chunk_index as usize, true);
            // completeness check over the explicit bitmap
            let mut all = true;
            let mut k: usize = 0;
            let nrecv = buffer.received.len();
            while k < nrecv
                invariant
                    0 <= k <= nrecv,
                    nrecv == buffer.received@.len(),
                    buffer.parts@.len() == nrecv,
                decreases nrecv - k,
            {
                if !buffer.received[k] {
                    all = false;
                }
                k = k + 1;
            }
            if all {
                let mut joined: Vec<u8> = Vec::new();
                let mut k2: usize = 0;
                let npart = buffer.parts.len();
                while k2 < npart
                    invariant
                        0 <= k2 <= npart,
                        npart == buffer.parts@.len(),
                    decreases npart - k2,
                {
                    let mut piece = crate::util::clone_bytes(&buffer.parts[k2]);
                    joined.append(&mut piece);
                    k2 = k2 + 1;
                }
                result = Some(joined);
                c.chunks = None;
            } else {
                c.chunks = Some(buffer);
            }
        } else {
            c.chunks = Some(buffer);
        }
        self.connections.insert(i, c);
        proof {
            assert(self.connections@ =~= pre.update(i as int, c));
            assert(conns_wf(self.connections@)) by {
                assert forall|p: int, q: int|
                    0 <= p < q < self.connections@.len() implies self.connections@[p].id
                    != self.connections@[q].id by {
                    assert(self.connections@[p].id == pre[p].id);
                    assert(self.connections@[q].id == pre[q].id);
                }
            }
        }
        result
    }
}

} // verus!
