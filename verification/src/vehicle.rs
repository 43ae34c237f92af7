//! Vehicle-entity data carried by the command protocol.
//!
//! Physical quantities (positions, velocities, colour channels) are opaque
//! payloads relayed as-is between clients; they are stored as raw 32-bit
//! patterns and never interpreted by the core.
use vstd::prelude::*;

verus! {

/// A vehicle's last-known placement and motion, as raw 32-bit patterns.
#[derive(Clone, Copy)]
pub struct Transform {
    pub position: [u32; 3],
    pub rotation: [u32; 4],
    pub velocity: [u32; 3],
    pub angular_velocity: [u32; 3],
}

/// The fixed, always-present electrical channels of a vehicle.
#[derive(Clone, Copy)]
pub struct Electrics {
    pub throttle_input: u32,
    pub brake_input: u32,
    pub clutch: u32,
    pub parkingbrake: u32,
    pub steering_input: u32,
}

/// Named electrical channels that arrive independently; an update merges its
/// channels into the stored table without clobbering channels it does not name.
pub struct ElectricsUndefined {
    pub diff: Vec<(Vec<u8>, u32)>,
}

/// A vehicle's gearbox snapshot.
pub struct Gearbox {
    pub arcade: bool,
    pub lock_coef: u32,
    pub mode: Option<Vec<u8>>,
    pub gear_indices: [i8; 2],
}

/// Paint and licence-plate description of a vehicle.
pub struct VehicleMeta {
    pub vehicle_id: u32,
    pub plate: Option<Vec<u8>>,
    pub colors_table: [[u32; 4]; 3],
}

/// The full description of a vehicle entity: configuration payload, the
/// owner's local id, the registry's global id, and the owning session.
pub struct VehicleData {
    pub parts_config: Vec<u8>,
    pub in_game_id: u32,
    pub color: [u32; 4],
    pub palete_0: [u32; 4],
    pub palete_1: [u32; 4],
    pub plate: Option<Vec<u8>>,
    pub name: Vec<u8>,
    pub server_id: u32,
    pub owner: Option<u32>,
    pub position: [u32; 3],
    pub rotation: [u32; 4],
}

/// One bundled state update for a vehicle: transform, electrics and gearbox
/// together, stamped with the generation counter that orders updates on the
/// unordered channel.
pub struct VehicleUpdate {
    pub transform: Transform,
    pub electrics: Electrics,
    pub gearbox: Gearbox,
    pub vehicle_id: u32,
    pub generation: u64,
    pub sent_at: u64,
}

/// A request to move a vehicle back to a placement, clearing its motion.
#[derive(Clone, Copy)]
pub struct VehicleReset {
    pub vehicle_id: u32,
    pub position: [u32; 3],
    pub rotation: [u32; 4],
}

/// Two vehicle nodes were coupled together.
#[derive(Clone, Copy)]
pub struct CouplerAttached {
    pub obj_a: u32,
    pub obj_b: u32,
    pub node_a_id: u32,
    pub node_b_id: u32,
}

/// Two vehicle nodes were decoupled.
#[derive(Clone, Copy)]
pub struct CouplerDetached {
    pub obj_a: u32,
    pub obj_b: u32,
    pub node_a_id: u32,
    pub node_b_id: u32,
}

impl Clone for ElectricsUndefined {
    /// A fresh channel table that holds the same named channels.
    fn clone(&self) -> (r: Self)
        ensures
            eu_eq(r, *self),
    {
        ElectricsUndefined { diff: crate::util::clone_pairs(&self.diff) }
    }
}

impl Clone for VehicleData {
    /// A fresh vehicle description that agrees with this one on every field.
    fn clone(&self) -> (r: Self)
        ensures
            vd_eq(r, *self),
    {
        VehicleData {
            parts_config: crate::util::clone_bytes(&self.parts_config),
            in_game_id: self.in_game_id,
            color: self.color,
            palete_0: self.palete_0,
            palete_1: self.palete_1,
            plate: crate::util::clone_opt_bytes(&self.plate),
            name: crate::util::clone_bytes(&self.name),
            server_id: self.server_id,
            owner: self.owner,
            position: self.position,
            rotation: self.rotation,
        }
    }
}

impl Clone for VehicleUpdate {
    /// A fresh bundled update that agrees with this one on every field.
    fn clone(&self) -> (r: Self)
        ensures
            vu_eq(r, *self),
    {
        VehicleUpdate {
            transform: self.transform,
            electrics: self.electrics,
            gearbox: self.gearbox.clone(),
            vehicle_id: self.vehicle_id,
            generation: self.generation,
            sent_at: self.sent_at,
        }
    }
}

impl Clone for VehicleMeta {
    /// A fresh meta record that agrees with this one on every field.
    fn clone(&self) -> (r: Self)
        ensures
            vm_eq(r, *self),
    {
        VehicleMeta {
            vehicle_id: self.vehicle_id,
            plate: crate::util::clone_opt_bytes(&self.plate),
            colors_table: self.colors_table,
        }
    }
}

impl Clone for Gearbox {
    /// A fresh gearbox snapshot that agrees with this one on every field.
    fn clone(&self) -> (r: Self)
        ensures
            gb_eq(r, *self),
    {
        Gearbox {
            arcade: self.arcade,
            lock_coef: self.lock_coef,
            mode: crate::util::clone_opt_bytes(&self.mode),
            gear_indices: self.gear_indices,
        }
    }
}

/// Byte-string equality up to views: the two options hold the same bytes.
pub open spec fn opt_bytes_eq(a: Option<Vec<u8>>, b: Option<Vec<u8>>) -> bool {
    match (a, b) {
        (Option::None, Option::None) => true,
        (Option::Some(x), Option::Some(y)) => x@ == y@,
        _ => false,
    }
}

/// The two channel tables hold the same named channels in the same order.
pub open spec fn eu_eq(a: ElectricsUndefined, b: ElectricsUndefined) -> bool {
    &&& a.diff@.len() == b.diff@.len()
    &&& forall|i: int|
        0 <= i < a.diff@.len() ==> a.diff@[i].0@ == b.diff@[i].0@ && a.diff@[i].1 == b.diff@[i].1
}

/// The two gearbox snapshots agree on every field, up to byte views.
pub open spec fn gb_eq(a: Gearbox, b: Gearbox) -> bool {
    &&& a.arcade == b.arcade
    &&& a.lock_coef == b.lock_coef
    &&& opt_bytes_eq(a.mode, b.mode)
    &&& a.gear_indices == b.gear_indices
}

/// The two vehicle descriptions agree on every field, up to byte views.
pub open spec fn vd_eq(a: VehicleData, b: VehicleData) -> bool {
    &&& a.parts_config@ == b.parts_config@
    &&& a.in_game_id == b.in_game_id
    &&& a.color == b.color
    &&& a.palete_0 == b.palete_0
    &&& a.palete_1 == b.palete_1
    &&& opt_bytes_eq(a.plate, b.plate)
    &&& a.name@ == b.name@
    &&& a.server_id == b.server_id
    &&& a.owner == b.owner
    &&& a.position == b.position
    &&& a.rotation == b.rotation
}

/// The two bundled updates agree on every field, up to byte views.
pub open spec fn vu_eq(a: VehicleUpdate, b: VehicleUpdate) -> bool {
    &&& a.transform == b.transform
    &&& a.electrics == b.electrics
    &&& gb_eq(a.gearbox, b.gearbox)
    &&& a.vehicle_id == b.vehicle_id
    &&& a.generation == b.generation
    &&& a.sent_at == b.sent_at
}

/// The two meta records agree on every field, up to byte views.
pub open spec fn vm_eq(a: VehicleMeta, b: VehicleMeta) -> bool {
    &&& a.vehicle_id == b.vehicle_id
    &&& opt_bytes_eq(a.plate, b.plate)
    &&& a.colors_table == b.colors_table
}

} // verus!
