//! The authoritative registry of vehicle entities and the per-owner
//! local-id-to-global-id namespaces.
//!
//! Every vehicle carries a registry-wide unique global id, assigned at spawn
//! time and never changed; a vehicle spawned by a client additionally carries
//! its owner's session id and the owner's local id, and at any time an owner's
//! namespace maps at most one local id to each live vehicle. Both uniqueness
//! properties are part of [`reg_wf`], which every operation preserves.
use crate::vehicle::ElectricsUndefined;
use crate::vehicle::Electrics;
use crate::vehicle::Gearbox;
use crate::vehicle::Transform;
use crate::vehicle::VehicleData;
use vstd::prelude::*;

verus! {

/// One live vehicle entity: its description plus the last-known snapshots,
/// each absent until the first update that carries it.
pub struct Vehicle {
    pub transform: Option<Transform>,
    pub electrics: Option<Electrics>,
    pub gearbox: Option<Gearbox>,
    pub undefined_electrics: ElectricsUndefined,
    pub data: VehicleData,
}

/// The global id of a vehicle.
pub open spec fn gid(v: Vehicle) -> u32 {
    v.data.server_id
}

/// The vehicle is owned by session `o` under the owner-local id `l`.
pub open spec fn is_pair(v: Vehicle, o: u32, l: u32) -> bool {
    v.data.owner == Some(o) && v.data.in_game_id == l
}

/// The vehicle is owned by session `o`.
pub open spec fn owned_by(v: Vehicle, o: u32) -> bool {
    v.data.owner == Some(o)
}

/// Some live vehicle carries the global id `g`.
pub open spec fn has_id(s: Seq<Vehicle>, g: u32) -> bool {
    exists|i: int| 0 <= i < s.len() && gid(s[i]) == g
}

/// The position of the vehicle with global id `g`.
pub open spec fn idx_of(s: Seq<Vehicle>, g: u32) -> int {
    choose|i: int| 0 <= i < s.len() && gid(s[i]) == g
}

/// The live vehicle with global id `g`.
pub open spec fn vehicle_of(s: Seq<Vehicle>, g: u32) -> Vehicle {
    s[idx_of(s, g)]
}

/// Some live vehicle is owned by `o` under the local id `l`.
pub open spec fn has_pair(s: Seq<Vehicle>, o: u32, l: u32) -> bool {
    exists|i: int| 0 <= i < s.len() && is_pair(s[i], o, l)
}

/// The position of the vehicle owned by `o` under the local id `l`.
pub open spec fn pair_idx(s: Seq<Vehicle>, o: u32, l: u32) -> int {
    choose|i: int| 0 <= i < s.len() && is_pair(s[i], o, l)
}

/// What a lookup of (owner `o`, local id `l`) yields: the global id of the
/// vehicle most recently spawned by `o` under `l` and not yet removed, or
/// nothing when no such vehicle is live.
pub open spec fn spec_resolve(s: Seq<Vehicle>, o: u32, l: u32) -> Option<u32> {
    if has_pair(s, o, l) {
        Some(gid(s[pair_idx(s, o, l)]))
    } else {
        None
    }
}

/// The named-channel table holds no key twice.
pub open spec fn channels_wf(s: Seq<(Vec<u8>, u32)>) -> bool {
    forall|i: int, j: int| 0 <= i < j < s.len() ==> s[i].0@ != s[j].0@
}

/// Registry well-formedness: global ids are unique among live vehicles, an
/// owner's namespace maps each local id to at most one live vehicle, and each
/// stored named-channel table holds each channel once.
pub open spec fn reg_wf(s: Seq<Vehicle>) -> bool {
    &&& forall|i: int, j: int| 0 <= i < j < s.len() ==> gid(s[i]) != gid(s[j])
    &&& forall|i: int, j: int|
        0 <= i < j < s.len() && s[i].data.owner is Some && s[i].data.owner == s[j].data.owner
            ==> s[i].data.in_game_id != s[j].data.in_game_id
    &&& forall|i: int| 0 <= i < s.len() ==> channels_wf(#[trigger] s[i].undefined_electrics.diff@)
}

/// The sequence with the vehicle owned by `o` under `l` taken out, when there
/// is one.
pub open spec fn strip_pair(s: Seq<Vehicle>, o: u32, l: u32) -> Seq<Vehicle> {
    if has_pair(s, o, l) {
        s.remove(pair_idx(s, o, l))
    } else {
        s
    }
}

/// The sequence with the vehicle of global id `g` taken out, when there is one.
pub open spec fn strip_id(s: Seq<Vehicle>, g: u32) -> Seq<Vehicle> {
    if has_id(s, g) {
        s.remove(idx_of(s, g))
    } else {
        s
    }
}

/// How many vehicles of the sequence session `o` owns.
pub open spec fn owned_count(s: Seq<Vehicle>, o: u32) -> int
    decreases s.len(),
{
    if s.len() == 0 {
        0
    } else {
        owned_count(s.drop_last(), o) + if owned_by(s.last(), o) {
            1int
        } else {
            0int
        }
    }
}

/// How many vehicles of the sequence have all three snapshots present.
pub open spec fn complete_count(s: Seq<Vehicle>) -> int
    decreases s.len(),
{
    if s.len() == 0 {
        0
    } else {
        complete_count(s.drop_last()) + if complete(s.last()) {
            1int
        } else {
            0int
        }
    }
}

/// Some entry of the channel table names `k`.
pub open spec fn has_channel(s: Seq<(Vec<u8>, u32)>, k: Seq<u8>) -> bool {
    exists|i: int| 0 <= i < s.len() && s[i].0@ == k
}

/// The position of the entry naming `k`.
pub open spec fn channel_idx(s: Seq<(Vec<u8>, u32)>, k: Seq<u8>) -> int {
    choose|i: int| 0 <= i < s.len() && s[i].0@ == k
}

/// The value the table holds for channel `k`, or nothing.
pub open spec fn spec_channel(s: Seq<(Vec<u8>, u32)>, k: Seq<u8>) -> Option<u32> {
    if has_channel(s, k) {
        Some(s[channel_idx(s, k)].1)
    } else {
        None
    }
}

/// A vehicle has all three snapshots, so a tick can broadcast its bundled
/// state.
pub open spec fn complete(v: Vehicle) -> bool {
    v.transform is Some && v.electrics is Some && v.gearbox is Some
}

/// The bundled update `u` carries exactly vehicle `v`'s snapshots, stamped
/// with `generation`.
pub open spec fn update_matches(u: crate::vehicle::VehicleUpdate, v: Vehicle, generation: u64) -> bool {
    &&& u.vehicle_id == gid(v)
    &&& Some(u.transform) == v.transform
    &&& Some(u.electrics) == v.electrics
    &&& (v.gearbox matches Some(gb) && crate::vehicle::gb_eq(u.gearbox, gb))
    &&& u.generation == generation
    &&& u.sent_at == 0
}

/// Replacing one vehicle by a vehicle with the same global id, owner and
/// local id preserves well-formedness and leaves every other vehicle, every
/// id, and every namespace entry untouched.
proof fn lemma_update_same_key(s: Seq<Vehicle>, i: int, nv: Vehicle)
    requires
        reg_wf(s),
        0 <= i < s.len(),
        gid(nv) == gid(s[i]),
        nv.data.owner == s[i].data.owner,
        nv.data.in_game_id == s[i].data.in_game_id,
        channels_wf(nv.undefined_electrics.diff@),
    ensures
        reg_wf(s.update(i, nv)),
        has_id(s.update(i, nv), gid(nv)),
        vehicle_of(s.update(i, nv), gid(nv)) == nv,
        forall|g: u32| #[trigger] has_id(s.update(i, nv), g) <==> has_id(s, g),
        forall|g: u32|
            g != gid(nv) && has_id(s, g) ==> #[trigger] vehicle_of(s.update(i, nv), g)
                == vehicle_of(s, g),
        forall|o2: u32, l2: u32|
            #[trigger] spec_resolve(s.update(i, nv), o2, l2) == spec_resolve(s, o2, l2),
{
    let s2 = s.update(i, nv);
    assert(s2[i] == nv);
    assert forall|p: int| 0 <= p < s2.len() && p != i implies s2[p] == s[p] by {}
    assert(reg_wf(s2)) by {
        assert forall|p: int, q: int| 0 <= p < q < s2.len() implies gid(s2[p]) != gid(s2[q])
            && !(s2[p].data.owner is Some && s2[p].data.owner == s2[q].data.owner
            && s2[p].data.in_game_id == s2[q].data.in_game_id) by {
            assert(gid(s2[p]) == gid(s[p]) && gid(s2[q]) == gid(s[q]));
            assert(s2[p].data.owner == s[p].data.owner && s2[q].data.owner == s[q].data.owner);
            assert(s2[p].data.in_game_id == s[p].data.in_game_id && s2[q].data.in_game_id
                == s[q].data.in_game_id);
        }
        assert forall|p: int| 0 <= p < s2.len() implies channels_wf(
            #[trigger] s2[p].undefined_electrics.diff@,
        ) by {
            if p != i {
                assert(s2[p] == s[p]);
                assert(channels_wf(s[p].undefined_electrics.diff@));
            }
        }
    }
    lemma_id_at(s2, gid(nv), i);
    assert forall|g: u32| #[trigger] has_id(s2, g) <==> has_id(s, g) by {
        if has_id(s2, g) {
            let k = choose|k: int| 0 <= k < s2.len() && gid(s2[k]) == g;
            assert(0 <= k < s2.len() && gid(s2[k]) == g);
            assert(gid(s[k]) == g);
        }
        if has_id(s, g) {
            let k = choose|k: int| 0 <= k < s.len() && gid(s[k]) == g;
            assert(0 <= k < s.len() && gid(s[k]) == g);
            assert(gid(s2[k]) == g);
        }
    }
    assert forall|g: u32| g != gid(nv) && has_id(s, g) implies #[trigger] vehicle_of(s2, g)
        == vehicle_of(s, g) by {
        let k = idx_of(s, g);
        assert(0 <= k < s.len() && gid(s[k]) == g);
        lemma_id_at(s, g, k);
        assert(k != i);
        lemma_id_at(s2, g, k);
    }
    assert forall|o2: u32, l2: u32| #[trigger] spec_resolve(s2, o2, l2) == spec_resolve(
        s,
        o2,
        l2,
    ) by {
        if has_pair(s, o2, l2) {
            let k = pair_idx(s, o2, l2);
            assert(0 <= k < s.len() && is_pair(s[k], o2, l2));
            lemma_pair_at(s, o2, l2, k);
            assert(is_pair(s2[k], o2, l2) && gid(s2[k]) == gid(s[k]));
            lemma_pair_at(s2, o2, l2, k);
        } else {
            if has_pair(s2, o2, l2) {
                let k = choose|k: int| 0 <= k < s2.len() && is_pair(s2[k], o2, l2);
                assert(0 <= k < s2.len() && is_pair(s2[k], o2, l2));
                assert(is_pair(s[k], o2, l2));
                assert(false);
            }
        }
    }
}

/// Under channel-table well-formedness, an entry naming `k` is the unique one.
proof fn lemma_channel_at(s: Seq<(Vec<u8>, u32)>, k: Seq<u8>, i: int)
    requires
        channels_wf(s),
        0 <= i < s.len(),
        s[i].0@ == k,
    ensures
        has_channel(s, k),
        channel_idx(s, k) == i,
        spec_channel(s, k) == Some(s[i].1),
{
    assert(has_channel(s, k));
    let j = channel_idx(s, k);
    assert(0 <= j < s.len() && s[j].0@ == k);
    if i != j {
        assert(false);
    }
}

/// Sets one named channel in a table: replaces the entry naming the channel,
/// or appends one, leaving every other channel's value alone.
fn set_channel(table: &mut Vec<(Vec<u8>, u32)>, key: &Vec<u8>, val: u32)
    requires
        channels_wf(old(table)@),
    ensures
        channels_wf(final(table)@),
        spec_channel(final(table)@, key@) == Some(val),
        forall|k: Seq<u8>|
            k != key@ ==> #[trigger] spec_channel(final(table)@, k) == spec_channel(
                old(table)@,
                k,
            ),
{
    let ghost t0 = table@;
    let n = table.len();
    let mut i: usize = 0;
    while i < n
        invariant
            0 <= i <= n,
            n == table@.len(),
            table@ == t0,
            t0 == old(table)@,
            channels_wf(t0),
            forall|p: int| 0 <= p < i ==> t0[p].0@ != key@,
        decreases n - i,
    {
        if crate::util::bytes_eq(&table[i].0, key) {
            proof {
                lemma_channel_at(t0, key@, i as int);
            }
            let e = table.remove(i);
            table.insert(i, (e.0, val));
            proof {
                let t2 = table@;
                assert(t2 =~= t0.update(i as int, (e.0, val)));
                assert(t2[i as int].0@ == key@);
                assert(channels_wf(t2)) by {
                    assert forall|p: int, q: int| 0 <= p < q < t2.len() implies t2[p].0@ != t2[
                    q].0@ by {
                        assert(t2[p].0@ == t0[p].0@ && t2[q].0@ == t0[q].0@);
                    }
                }
                lemma_channel_at(t2, key@, i as int);
                assert forall|k: Seq<u8>| k != key@ implies #[trigger] spec_channel(t2, k)
                    == spec_channel(t0, k) by {
                    if has_channel(t0, k) {
                        let p = channel_idx(t0, k);
                        assert(0 <= p < t0.len() && t0[p].0@ == k);
                        assert(p != i);
                        assert(t2[p].0@ == k && t2[p].1 == t0[p].1);
                        lemma_channel_at(t0, k, p);
                        lemma_channel_at(t2, k, p);
                    } else {
                        if has_channel(t2, k) {
                            let p = choose|p: int| 0 <= p < t2.len() && t2[p].0@ == k;
                            assert(0 <= p < t2.len() && t2[p].0@ == k);
                            assert(p != i);
                            assert(t0[p].0@ == k);
                            assert(false);
                        }
                    }
                }
            }
            return;
        }
        i = i + 1;
    }
    proof {
        assert(!has_channel(t0, key@)) by {
            if has_channel(t0, key@) {
                let p = choose|p: int| 0 <= p < t0.len() && t0[p].0@ == key@;
                assert(0 <= p < t0.len() && t0[p].0@ == key@);
            }
        }
    }
    let kc = crate::util::clone_bytes(key);
    table.push((kc, val));
    proof {
        let t2 = table@;
        assert(t2 == t0.push((kc, val)));
        assert(t2[t2.len() - 1].0@ == key@);
        assert(channels_wf(t2)) by {
            assert forall|p: int, q: int| 0 <= p < q < t2.len() implies t2[p].0@ != t2[q].0@ by {
                if q == t2.len() - 1 {
                    assert(t2[p].0@ == t0[p].0@);
                    if t0[p].0@ == key@ {
                        assert(has_channel(t0, key@));
                    }
                } else {
                    assert(t2[p].0@ == t0[p].0@ && t2[q].0@ == t0[q].0@);
                }
            }
        }
        lemma_channel_at(t2, key@, t2.len() - 1);
        assert forall|k: Seq<u8>| k != key@ implies #[trigger] spec_channel(t2, k) == spec_channel(
            t0,
            k,
        ) by {
            if has_channel(t0, k) {
                let p = channel_idx(t0, k);
                assert(0 <= p < t0.len() && t0[p].0@ == k);
                assert(t2[p].0@ == k && t2[p].1 == t0[p].1);
                lemma_channel_at(t0, k, p);
                lemma_channel_at(t2, k, p);
            } else {
                if has_channel(t2, k) {
                    let p = choose|p: int| 0 <= p < t2.len() && t2[p].0@ == k;
                    assert(0 <= p < t2.len() && t2[p].0@ == k);
                    assert(p != t2.len() - 1);
                    assert(t0[p].0@ == k);
                    assert(false);
                }
            }
        }
    }
}

/// Law: global ids are unique among currently-live vehicles. Two live
/// vehicles at distinct positions never share a global id; together with
/// `spawn`'s guarantee that the returned id was carried by no live vehicle
/// before the call, every id a spawn returns names exactly one live vehicle,
/// whatever sequence of spawns and removals produced the registry.
pub proof fn lemma_live_ids_unique(s: Seq<Vehicle>, i: int, j: int)
    requires
        reg_wf(s),
        0 <= i < s.len(),
        0 <= j < s.len(),
        i != j,
    ensures
        gid(s[i]) != gid(s[j]),
{
}

/// Law: a lookup never yields a stale mapping. When `spec_resolve` answers
/// with a global id, that id names a live vehicle owned by the asking owner
/// under the asked local id; when it answers with nothing, no live vehicle
/// carries that owner and local id. Which vehicle that is — the most recently
/// spawned one — is pinned down by `spawn`'s and `remove`'s own contracts.
pub proof fn lemma_resolve_exact(s: Seq<Vehicle>, o: u32, l: u32)
    requires
        reg_wf(s),
    ensures
        match spec_resolve(s, o, l) {
            Some(g) => has_id(s, g) && is_pair(vehicle_of(s, g), o, l),
            None => forall|i: int| 0 <= i < s.len() ==> !is_pair(#[trigger] s[i], o, l),
        },
{
    if has_pair(s, o, l) {
        let k = pair_idx(s, o, l);
        assert(0 <= k < s.len() && is_pair(s[k], o, l));
        lemma_id_at(s, gid(s[k]), k);
    } else {
        assert forall|i: int| 0 <= i < s.len() implies !is_pair(#[trigger] s[i], o, l) by {
            if is_pair(s[i], o, l) {
                assert(has_pair(s, o, l));
            }
        }
    }
}

/// The authoritative map of live vehicle entities. Its abstract value is the
/// sequence of live vehicles in spawn order.
pub struct VehicleRegistry {
    vehicles: Vec<Vehicle>,
}

impl View for VehicleRegistry {
    type V = Seq<Vehicle>;

    closed spec fn view(&self) -> Seq<Vehicle> {
        self.vehicles@
    }
}

/// Under well-formedness the vehicle at a matching index is the unique match,
/// so a found index pins down the lookup result.
proof fn lemma_pair_at(s: Seq<Vehicle>, o: u32, l: u32, i: int)
    requires
        reg_wf(s),
        0 <= i < s.len(),
        is_pair(s[i], o, l),
    ensures
        has_pair(s, o, l),
        pair_idx(s, o, l) == i,
        spec_resolve(s, o, l) == Some(gid(s[i])),
{
    assert(has_pair(s, o, l));
    let j = pair_idx(s, o, l);
    assert(0 <= j < s.len() && is_pair(s[j], o, l));
    if i != j {
        assert(s[i].data.owner is Some);
        assert(false);
    }
}

/// Under well-formedness the vehicle at an index with id `g` is the unique
/// carrier of `g`.
proof fn lemma_id_at(s: Seq<Vehicle>, g: u32, i: int)
    requires
        reg_wf(s),
        0 <= i < s.len(),
        gid(s[i]) == g,
    ensures
        has_id(s, g),
        idx_of(s, g) == i,
        vehicle_of(s, g) == s[i],
{
    assert(has_id(s, g));
    let j = idx_of(s, g);
    assert(0 <= j < s.len() && gid(s[j]) == g);
    if i != j {
        assert(false);
    }
}

/// The new vehicle appended by a spawn: no snapshots yet, an empty channel
/// table, and the description as handed in but restamped with the assigned
/// global id and the owner chosen by the registry.
pub open spec fn spawn_shape(v: Vehicle, data: VehicleData, r: u32, owner: Option<u32>) -> bool {
    &&& v.transform is None
    &&& v.electrics is None
    &&& v.gearbox is None
    &&& v.undefined_electrics.diff@ === Seq::<(Vec<u8>, u32)>::empty()
    &&& v.data == (VehicleData { server_id: r, owner, ..data })
}

/// All of the ids 0, 1, ..., m-1 occur in `s`, whose ids are pairwise
/// distinct, so `s` holds at least m vehicles.
proof fn lemma_ids_pigeonhole(s: Seq<Vehicle>, m: int)
    requires
        0 <= m <= 0x1_0000_0000,
        forall|i: int, j: int| 0 <= i < j < s.len() ==> gid(s[i]) != gid(s[j]),
        forall|j: int| 0 <= j < m ==> #[trigger] has_id(s, j as u32),
    ensures
        m <= s.len(),
    decreases m,
{
    if m > 0 {
        let g = (m - 1) as u32;
        assert(has_id(s, g));
        let i = choose|i: int| 0 <= i < s.len() && gid(s[i]) == g;
        assert(0 <= i < s.len() && gid(s[i]) == g);
        let s2 = s.remove(i);
        assert forall|p: int, q: int| 0 <= p < q < s2.len() implies gid(s2[p]) != gid(s2[q]) by {
            let p0 = if p < i { p } else { p + 1 };
            let q0 = if q < i { q } else { q + 1 };
            assert(s2[p] == s[p0] && s2[q] == s[q0]);
        }
        assert forall|j: int| 0 <= j < m - 1 implies #[trigger] has_id(s2, j as u32) by {
            assert(has_id(s, j as u32));
            let k = choose|k: int| 0 <= k < s.len() && gid(s[k]) == j as u32;
            assert(0 <= k < s.len() && gid(s[k]) == j as u32);
            assert(k != i);
            if k < i {
                assert(gid(s2[k]) == j as u32);
            } else {
                assert(gid(s2[k - 1]) == j as u32);
            }
        }
        lemma_ids_pigeonhole(s2, m - 1);
    }
}

/// Taking one vehicle out preserves well-formedness and leaves every other
/// vehicle, every other id, and every other namespace entry untouched.
proof fn lemma_remove_at(s: Seq<Vehicle>, i: int)
    requires
        reg_wf(s),
        0 <= i < s.len(),
    ensures
        reg_wf(s.remove(i)),
        !has_id(s.remove(i), gid(s[i])),
        forall|g: u32|
            g != gid(s[i]) ==> (#[trigger] has_id(s.remove(i), g) <==> has_id(s, g)),
        forall|g: u32|
            g != gid(s[i]) && has_id(s, g) ==> #[trigger] vehicle_of(s.remove(i), g) == vehicle_of(
                s,
                g,
            ),
        forall|o2: u32, l2: u32|
            !is_pair(s[i], o2, l2) ==> #[trigger] spec_resolve(s.remove(i), o2, l2) == spec_resolve(
                s,
                o2,
                l2,
            ),
        forall|o2: u32, l2: u32|
            is_pair(s[i], o2, l2) ==> #[trigger] spec_resolve(s.remove(i), o2, l2) is None,
{
    let s2 = s.remove(i);
    assert forall|p: int| 0 <= p < s2.len() implies s2[p] == s[if p < i {
        p
    } else {
        p + 1
    }] by {}
    assert(reg_wf(s2)) by {
        assert forall|p: int, q: int| 0 <= p < q < s2.len() implies gid(s2[p]) != gid(s2[q])
            && !(s2[p].data.owner is Some && s2[p].data.owner == s2[q].data.owner
            && s2[p].data.in_game_id == s2[q].data.in_game_id) by {
            let p0 = if p < i { p } else { p + 1 };
            let q0 = if q < i { q } else { q + 1 };
            assert(s2[p] == s[p0] && s2[q] == s[q0]);
        }
        assert forall|p: int| 0 <= p < s2.len() implies channels_wf(
            #[trigger] s2[p].undefined_electrics.diff@,
        ) by {
            let p0 = if p < i { p } else { p + 1 };
            assert(s2[p] == s[p0]);
            assert(channels_wf(s[p0].undefined_electrics.diff@));
        }
    }
    assert forall|g: u32| g != gid(s[i]) && has_id(s, g) implies #[trigger] has_id(s2, g)
        && vehicle_of(s2, g) == vehicle_of(s, g) by {
        let k = idx_of(s, g);
        assert(0 <= k < s.len() && gid(s[k]) == g);
        lemma_id_at(s, g, k);
        assert(k != i);
        let k2 = if k < i { k } else { k - 1 };
        assert(s2[k2] == s[k]);
        lemma_id_at(s2, g, k2);
    }
    assert forall|g: u32| g != gid(s[i]) && has_id(s, g) implies #[trigger] vehicle_of(s2, g)
        == vehicle_of(s, g) by {
        assert(has_id(s2, g));
    }
    assert forall|g: u32| has_id(s2, g) implies has_id(s, g) by {
        let k = choose|k: int| 0 <= k < s2.len() && gid(s2[k]) == g;
        assert(0 <= k < s2.len() && gid(s2[k]) == g);
        let k0 = if k < i { k } else { k + 1 };
        assert(gid(s[k0]) == g);
    }
    assert(!has_id(s2, gid(s[i]))) by {
        if has_id(s2, gid(s[i])) {
            let k = choose|k: int| 0 <= k < s2.len() && gid(s2[k]) == gid(s[i]);
            assert(0 <= k < s2.len() && gid(s2[k]) == gid(s[i]));
            let k0 = if k < i { k } else { k + 1 };
            assert(gid(s[k0]) == gid(s[i]) && k0 != i);
            assert(false);
        }
    }
    assert forall|o2: u32, l2: u32| !is_pair(s[i], o2, l2) implies #[trigger] spec_resolve(
        s2,
        o2,
        l2,
    ) == spec_resolve(s, o2, l2) by {
        if has_pair(s, o2, l2) {
            let k = pair_idx(s, o2, l2);
            assert(0 <= k < s.len() && is_pair(s[k], o2, l2));
            assert(k != i);
            let k2 = if k < i { k } else { k - 1 };
            assert(s2[k2] == s[k]);
            lemma_pair_at(s2, o2, l2, k2);
            lemma_pair_at(s, o2, l2, k);
        } else {
            if has_pair(s2, o2, l2) {
                let k = choose|k: int| 0 <= k < s2.len() && is_pair(s2[k], o2, l2);
                assert(0 <= k < s2.len() && is_pair(s2[k], o2, l2));
                let k0 = if k < i { k } else { k + 1 };
                assert(is_pair(s[k0], o2, l2));
                assert(false);
            }
        }
    }
    assert forall|o2: u32, l2: u32| is_pair(s[i], o2, l2) implies #[trigger] spec_resolve(
        s2,
        o2,
        l2,
    ) is None by {
        if has_pair(s2, o2, l2) {
            let k = choose|k: int| 0 <= k < s2.len() && is_pair(s2[k], o2, l2);
            assert(0 <= k < s2.len() && is_pair(s2[k], o2, l2));
            let k0 = if k < i { k } else { k + 1 };
            assert(is_pair(s[k0], o2, l2) && k0 != i);
            assert(s[k0].data.owner is Some);
            assert(false);
        }
    }
}

/// Appending a vehicle with a fresh id, and a fresh namespace entry when it
/// has an owner, preserves well-formedness and leaves every existing id and
/// namespace entry untouched.
proof fn lemma_push_fresh(s: Seq<Vehicle>, v: Vehicle)
    requires
        reg_wf(s),
        !has_id(s, gid(v)),
        channels_wf(v.undefined_electrics.diff@),
        forall|o: u32, l: u32| is_pair(v, o, l) ==> !has_pair(s, o, l),
    ensures
        reg_wf(s.push(v)),
        has_id(s.push(v), gid(v)),
        vehicle_of(s.push(v), gid(v)) == v,
        forall|g: u32| g != gid(v) ==> (#[trigger] has_id(s.push(v), g) <==> has_id(s, g)),
        forall|g: u32|
            g != gid(v) && has_id(s, g) ==> #[trigger] vehicle_of(s.push(v), g) == vehicle_of(s, g),
        forall|o2: u32, l2: u32|
            is_pair(v, o2, l2) ==> #[trigger] spec_resolve(s.push(v), o2, l2) == Some(gid(v)),
        forall|o2: u32, l2: u32|
            !is_pair(v, o2, l2) ==> #[trigger] spec_resolve(s.push(v), o2, l2) == spec_resolve(
                s,
                o2,
                l2,
            ),
{
    let s2 = s.push(v);
    let n = s.len() as int;
    assert(s2[n] == v);
    assert forall|p: int| 0 <= p < n implies s2[p] == s[p] by {}
    assert(reg_wf(s2)) by {
        assert forall|p: int| 0 <= p < s2.len() implies channels_wf(
            #[trigger] s2[p].undefined_electrics.diff@,
        ) by {
            if p < n {
                assert(s2[p] == s[p]);
                assert(channels_wf(s[p].undefined_electrics.diff@));
            }
        }
        assert forall|p: int, q: int| 0 <= p < q < s2.len() implies gid(s2[p]) != gid(s2[q])
            && !(s2[p].data.owner is Some && s2[p].data.owner == s2[q].data.owner
            && s2[p].data.in_game_id == s2[q].data.in_game_id) by {
            if q == n {
                assert(s2[p] == s[p]);
                if gid(s[p]) == gid(v) {
                    assert(has_id(s, gid(v)));
                }
                if s[p].data.owner is Some && s[p].data.owner == v.data.owner
                    && s[p].data.in_game_id == v.data.in_game_id {
                    let o = s[p].data.owner->Some_0;
                    assert(is_pair(v, o, v.data.in_game_id));
                    assert(is_pair(s[p], o, v.data.in_game_id));
                    assert(has_pair(s, o, v.data.in_game_id));
                }
            }
        }
    }
    lemma_id_at(s2, gid(v), n);
    assert forall|g: u32| g != gid(v) && has_id(s, g) implies #[trigger] has_id(s2, g)
        && vehicle_of(s2, g) == vehicle_of(s, g) by {
        let k = idx_of(s, g);
        assert(0 <= k < s.len() && gid(s[k]) == g);
        lemma_id_at(s, g, k);
        lemma_id_at(s2, g, k);
    }
    assert forall|g: u32| g != gid(v) && has_id(s, g) implies #[trigger] vehicle_of(s2, g)
        == vehicle_of(s, g) by {
        assert(has_id(s2, g));
    }
    assert forall|g: u32| g != gid(v) && has_id(s2, g) implies has_id(s, g) by {
        let k = choose|k: int| 0 <= k < s2.len() && gid(s2[k]) == g;
        assert(0 <= k < s2.len() && gid(s2[k]) == g);
        assert(k != n);
        assert(gid(s[k]) == g);
    }
    assert forall|o2: u32, l2: u32| is_pair(v, o2, l2) implies #[trigger] spec_resolve(
        s2,
        o2,
        l2,
    ) == Some(gid(v)) by {
        lemma_pair_at(s2, o2, l2, n);
    }
    assert forall|o2: u32, l2: u32| !is_pair(v, o2, l2) implies #[trigger] spec_resolve(
        s2,
        o2,
        l2,
    ) == spec_resolve(s, o2, l2) by {
        if has_pair(s, o2, l2) {
            let k = pair_idx(s, o2, l2);
            assert(0 <= k < s.len() && is_pair(s[k], o2, l2));
            lemma_pair_at(s, o2, l2, k);
            lemma_pair_at(s2, o2, l2, k);
        } else {
            if has_pair(s2, o2, l2) {
                let k = choose|k: int| 0 <= k < s2.len() && is_pair(s2[k], o2, l2);
                assert(0 <= k < s2.len() && is_pair(s2[k], o2, l2));
                assert(k != n);
                assert(is_pair(s[k], o2, l2));
                assert(false);
            }
        }
    }
}

impl VehicleRegistry {
    /// An empty registry: no vehicles, no namespaces.
    pub fn new() -> (r: Self)
        ensures
            r@ === Seq::<Vehicle>::empty(),
            reg_wf(r@),
    {
        let r = VehicleRegistry { vehicles: Vec::new() };
        proof {
            assert(r@ =~= Seq::<Vehicle>::empty());
        }
        r
    }

    /// How many vehicles are live.
    pub fn len(&self) -> (r: usize)
        ensures
            r == self@.len(),
    {
        self.vehicles.len()
    }

    /// Whether a live vehicle carries the global id `g`.
    pub fn contains_id(&self, g: u32) -> (r: bool)
        ensures
            r == has_id(self@, g),
    {
        let n = self.vehicles.len();
        let mut i: usize = 0;
        while i < n
            invariant
                0 <= i <= n,
                n == self@.len(),
                self@ == self.vehicles@,
                forall|k: int| 0 <= k < i ==> gid(self@[k]) != g,
            decreases n - i,
        {
            if self.vehicles[i].data.server_id == g {
                return true;
            }
            i = i + 1;
        }
        false
    }

    /// The live vehicle with global id `g`, if any.
    pub fn get(&self, g: u32) -> (r: Option<&Vehicle>)
        requires
            reg_wf(self@),
        ensures
            match r {
                Some(v) => has_id(self@, g) && *v == vehicle_of(self@, g),
                None => !has_id(self@, g),
            },
    {
        let n = self.vehicles.len();
        let mut i: usize = 0;
        while i < n
            invariant
                0 <= i <= n,
                n == self@.len(),
                self@ == self.vehicles@,
                reg_wf(self@),
                forall|k: int| 0 <= k < i ==> gid(self@[k]) != g,
            decreases n - i,
        {
            if self.vehicles[i].data.server_id == g {
                proof {
                    lemma_id_at(self@, g, i as int);
                }
                return Some(&self.vehicles[i]);
            }
            i = i + 1;
        }
        None
    }

    /// Looks a local id up in one owner's namespace: the global id of the
    /// vehicle most recently spawned by `owner` under `local` and still live,
    /// or nothing — never a stale mapping.
    pub fn resolve(&self, owner: u32, local: u32) -> (r: Option<u32>)
        requires
            reg_wf(self@),
        ensures
            r == spec_resolve(self@, owner, local),
    {
        let n = self.vehicles.len();
        let mut i: usize = 0;
        while i < n
            invariant
                0 <= i <= n,
                n == self@.len(),
                self@ == self.vehicles@,
                reg_wf(self@),
                forall|k: int| 0 <= k < i ==> !is_pair(self@[k], owner, local),
            decreases n - i,
        {
            let v = &self.vehicles[i];
            let owner_matches = match v.data.owner {
                Some(o) => o == owner,
                None => false,
            };
            if owner_matches && v.data.in_game_id == local {
                proof {
                    lemma_pair_at(self@, owner, local, i as int);
                }
                return Some(v.data.server_id);
            }
            i = i + 1;
        }
        None
    }

    /// A global id no live vehicle carries: one random draw, then — on the
    /// rare collision — a deterministic search, which the pigeonhole argument
    /// shows must find a free id.
    fn fresh_id(&self) -> (r: u32)
        requires
            reg_wf(self@),
            self@.len() < 0xFFFF_FFFFusize,
        ensures
            !has_id(self@, r),
    {
        let c = crate::rng::random_u32();
        if !self.contains_id(c) {
            return c;
        }
        let n = self.vehicles.len();
        let n32 = n as u32;
        let mut k: u32 = 0;
        loop
            invariant
                reg_wf(self@),
                n == self@.len(),
                n < 0xFFFF_FFFFusize,
                n32 == n,
                k <= n32,
                forall|j: u32| j < k ==> has_id(self@, j),
            decreases n32 - k,
        {
            if !self.contains_id(k) {
                return k;
            }
            proof {
                if k == n32 {
                    assert forall|j: int| 0 <= j < n as int + 1 implies #[trigger] has_id(
                        self@,
                        j as u32,
                    ) by {
                        if j < k {
                            assert(has_id(self@, j as u32));
                        }
                    }
                    lemma_ids_pigeonhole(self@, n as int + 1);
                    assert(false);
                }
            }
            k = k + 1;
        }
    }

    /// Takes the vehicle owned by `o` under `l` out of the registry, if there
    /// is one.
    fn take_pair(&mut self, o: u32, l: u32)
        requires
            reg_wf(old(self)@),
        ensures
            reg_wf(final(self)@),
            final(self)@ == strip_pair(old(self)@, o, l),
            !has_pair(final(self)@, o, l),
            forall|g: u32|
                !(has_pair(old(self)@, o, l) && g == gid(old(self)@[pair_idx(old(self)@, o, l)]))
                    ==> ((#[trigger] has_id(final(self)@, g) <==> has_id(old(self)@, g)) && (has_id(
                    old(self)@,
                    g,
                ) ==> vehicle_of(final(self)@, g) == vehicle_of(old(self)@, g))),
            forall|o2: u32, l2: u32|
                !(o2 == o && l2 == l) ==> #[trigger] spec_resolve(final(self)@, o2, l2)
                    == spec_resolve(old(self)@, o2, l2),
    {
        let ghost s0 = self@;
        let n = self.vehicles.len();
        let mut i: usize = 0;
        while i < n
            invariant
                0 <= i <= n,
                n == self@.len(),
                self@ == self.vehicles@,
                self@ == s0,
                s0 == old(self)@,
                reg_wf(self@),
                forall|k: int| 0 <= k < i ==> !is_pair(self@[k], o, l),
            decreases n - i,
        {
            let v = &self.vehicles[i];
            let owner_matches = match v.data.owner {
                Some(ow) => ow == o,
                None => false,
            };
            if owner_matches && v.data.in_game_id == l {
                proof {
                    lemma_pair_at(s0, o, l, i as int);
                    lemma_remove_at(s0, i as int);
                }
                self.vehicles.remove(i);
                proof {
                    assert(self@ == s0.remove(i as int));
                    assert forall|o2: u32, l2: u32| !(o2 == o && l2 == l)
                        implies !is_pair(s0[i as int], o2, l2) by {}
                    assert(!has_pair(self@, o, l)) by {
                        if has_pair(self@, o, l) {
                            assert(spec_resolve(self@, o, l) is Some);
                            assert(is_pair(s0[i as int], o, l));
                        }
                    }
                }
                return;
            }
            i = i + 1;
        }
        proof {
            assert(!has_pair(s0, o, l)) by {
                if has_pair(s0, o, l) {
                    let k = choose|k: int| 0 <= k < s0.len() && is_pair(s0[k], o, l);
                    assert(0 <= k < s0.len() && is_pair(s0[k], o, l));
                }
            }
        }
    }

    /// Spawns a vehicle: assigns a fresh global id unique among live vehicles,
    /// records the owner, and — when the owner already had a vehicle under the
    /// same local id — replaces that mapping, so a lookup afterwards yields the
    /// new vehicle. A spawn without an owner (script-initiated) never touches
    /// any owner's namespace.
    pub fn spawn(&mut self, owner: Option<u32>, data: VehicleData) -> (r: u32)
        requires
            reg_wf(old(self)@),
            old(self)@.len() < 0xFFFF_FFFFusize,
        ensures
            reg_wf(final(self)@),
            !has_id(old(self)@, r),
            final(self)@.len() >= 1,
            final(self)@.drop_last() == (match owner {
                Some(o) => strip_pair(old(self)@, o, data.in_game_id),
                None => old(self)@,
            }),
            spawn_shape(final(self)@.last(), data, r, owner),
            has_id(final(self)@, r),
            vehicle_of(final(self)@, r) == final(self)@.last(),
            // every live vehicle other than the replaced mapping's survives
            // unchanged, and nothing else appears
            forall|g: u32|
                g != r ==> ((#[trigger] has_id(final(self)@, g)) <==> (has_id(old(self)@, g) && !(
                owner matches Some(o) && spec_resolve(old(self)@, o, data.in_game_id) == Some(g)))),
            forall|g: u32|
                g != r && has_id(final(self)@, g) ==> #[trigger] vehicle_of(final(self)@, g)
                    == vehicle_of(old(self)@, g),
            final(self)@.len() == (match owner {
                Some(o) => if spec_resolve(old(self)@, o, data.in_game_id) is Some {
                    old(self)@.len() as int
                } else {
                    old(self)@.len() as int + 1
                },
                None => old(self)@.len() as int + 1,
            }),
            match owner {
                Some(o) => spec_resolve(final(self)@, o, data.in_game_id) == Some(r) && forall|
                    o2: u32,
                    l2: u32,
                |
                    !(o2 == o && l2 == data.in_game_id) ==> #[trigger] spec_resolve(
                        final(self)@,
                        o2,
                        l2,
                    ) == spec_resolve(old(self)@, o2, l2),
                None => forall|o2: u32, l2: u32|
                    #[trigger] spec_resolve(final(self)@, o2, l2) == spec_resolve(
                        old(self)@,
                        o2,
                        l2,
                    ),
            },
    {
        let ghost s0 = self@;
        let fresh = self.fresh_id();
        let local = data.in_game_id;
        if let Some(o) = owner {
            self.take_pair(o, local);
        }
        let ghost stripped = self@;
        let v = Vehicle {
            transform: None,
            electrics: None,
            gearbox: None,
            undefined_electrics: ElectricsUndefined { diff: Vec::new() },
            data: VehicleData {
                parts_config: data.parts_config,
                in_game_id: data.in_game_id,
                color: data.color,
                palete_0: data.palete_0,
                palete_1: data.palete_1,
                plate: data.plate,
                name: data.name,
                server_id: fresh,
                owner: owner,
                position: data.position,
                rotation: data.rotation,
            },
        };
        proof {
            assert(!has_id(stripped, fresh)) by {
                match owner {
                    Some(o) => {
                        if has_pair(s0, o, local) {
                            let k = pair_idx(s0, o, local);
                            assert(0 <= k < s0.len() && is_pair(s0[k], o, local));
                            assert(has_id(s0, gid(s0[k])));
                            assert(fresh != gid(s0[k]));
                        } else {
                            assert(stripped == s0);
                        }
                    },
                    None => {
                        assert(stripped == s0);
                    },
                }
            }
            assert(channels_wf(v.undefined_electrics.diff@));
            assert forall|o2: u32, l2: u32| is_pair(v, o2, l2) implies !has_pair(
                stripped,
                o2,
                l2,
            ) by {}
            lemma_push_fresh(stripped, v);
        }
        self.vehicles.push(v);
        proof {
            assert(self@ == stripped.push(v));
            assert(self@.drop_last() =~= stripped);
            assert(self@.last() == v);
            match owner {
                Some(o) => {
                    if has_pair(s0, o, local) {
                        let k = pair_idx(s0, o, local);
                        assert(0 <= k < s0.len() && is_pair(s0[k], o, local));
                        lemma_pair_at(s0, o, local, k);
                        lemma_remove_at(s0, k);
                        assert(stripped == s0.remove(k));
                        assert(spec_resolve(s0, o, local) == Some(gid(s0[k])));
                        assert(!has_id(stripped, gid(s0[k])));
                        assert forall|g: u32| g != fresh implies ((#[trigger] has_id(self@, g))
                            <==> (has_id(s0, g) && !(spec_resolve(s0, o, local) == Some(g)))) by {
                            if g != gid(s0[k]) {
                                assert(has_id(stripped, g) <==> has_id(s0, g));
                            }
                        }
                    } else {
                        assert(stripped == s0);
                        assert(spec_resolve(s0, o, local) is None);
                    }
                },
                None => {
                    assert(stripped == s0);
                },
            }
        }
        fresh
    }

    /// Removes the vehicle with global id `id`, together with its entry in its
    /// owner's namespace. Removing an absent id is a no-op, not an error.
    pub fn remove(&mut self, id: u32)
        requires
            reg_wf(old(self)@),
        ensures
            reg_wf(final(self)@),
            final(self)@ == strip_id(old(self)@, id),
            !has_id(final(self)@, id),
            forall|g: u32|
                g != id ==> ((#[trigger] has_id(final(self)@, g) <==> has_id(old(self)@, g)) && (
                has_id(old(self)@, g) ==> vehicle_of(final(self)@, g) == vehicle_of(old(self)@, g))),
            forall|o2: u32, l2: u32|
                #[trigger] spec_resolve(final(self)@, o2, l2) == (if has_id(old(self)@, id)
                    && is_pair(vehicle_of(old(self)@, id), o2, l2) {
                    None
                } else {
                    spec_resolve(old(self)@, o2, l2)
                }),
    {
        let ghost s0 = self@;
        let n = self.vehicles.len();
        let mut i: usize = 0;
        while i < n
            invariant
                0 <= i <= n,
                n == self@.len(),
                self@ == self.vehicles@,
                self@ == s0,
                s0 == old(self)@,
                reg_wf(self@),
                forall|k: int| 0 <= k < i ==> gid(self@[k]) != id,
            decreases n - i,
        {
            if self.vehicles[i].data.server_id == id {
                proof {
                    lemma_id_at(s0, id, i as int);
                    lemma_remove_at(s0, i as int);
                }
                self.vehicles.remove(i);
                proof {
                    assert(self@ == s0.remove(i as int));
                    assert forall|o2: u32, l2: u32| #[trigger] spec_resolve(self@, o2, l2) == (
                    if has_id(s0, id) && is_pair(vehicle_of(s0, id), o2, l2) {
                        None
                    } else {
                        spec_resolve(s0, o2, l2)
                    }) by {
                        if is_pair(s0[i as int], o2, l2) {
                            assert(spec_resolve(self@, o2, l2) is None);
                        }
                    }
                }
                return;
            }
            i = i + 1;
        }
        proof {
            assert(!has_id(s0, id)) by {
                if has_id(s0, id) {
                    let k = choose|k: int| 0 <= k < s0.len() && gid(s0[k]) == id;
                    assert(0 <= k < s0.len() && gid(s0[k]) == id);
                }
            }
        }
    }

    /// The global ids of every vehicle owned by session `o`.
    pub fn owned_ids(&self, o: u32) -> (r: Vec<u32>)
        requires
            reg_wf(self@),
        ensures
            r@.no_duplicates(),
            forall|g: u32|
                #[trigger] r@.contains(g) <==> has_id(self@, g) && owned_by(vehicle_of(self@, g), o),
            r@.len() == owned_count(self@, o),
    {
        let n = self.vehicles.len();
        let mut r: Vec<u32> = Vec::new();
        let mut i: usize = 0;
        proof {
            assert(self@.take(0) =~= Seq::<Vehicle>::empty());
        }
        while i < n
            invariant
                0 <= i <= n,
                n == self@.len(),
                self@ == self.vehicles@,
                reg_wf(self@),
                r@.no_duplicates(),
                r@.len() == owned_count(self@.take(i as int), o),
                forall|g: u32|
                    #[trigger] r@.contains(g) <==> exists|k: int|
                        0 <= k < i && gid(self@[k]) == g && owned_by(self@[k], o),
            decreases n - i,
        {
            proof {
                assert(self@.take(i as int + 1).drop_last() =~= self@.take(i as int));
                assert(self@.take(i as int + 1).last() == self@[i as int]);
            }
            let v = &self.vehicles[i];
            let owned = match v.data.owner {
                Some(ow) => ow == o,
                None => false,
            };
            if owned {
                let ghost r0 = r@;
                proof {
                    assert(!r0.contains(gid(self@[i as int]))) by {
                        if r0.contains(gid(self@[i as int])) {
                            let k = choose|k: int|
                                0 <= k < i && gid(self@[k]) == gid(self@[i as int]) && owned_by(
                                    self@[k],
                                    o,
                                );
                            assert(0 <= k < i && gid(self@[k]) == gid(self@[i as int]));
                        }
                    }
                }
                let g = v.data.server_id;
                r.push(g);
                proof {
                    assert(r@ == r0.push(g));
                    assert(r@.no_duplicates()) by {
                        assert forall|p: int, q: int| 0 <= p < q < r@.len() implies r@[p] != r@[
                        q] by {
                            if q == r@.len() - 1 {
                                assert(r@[p] == r0[p]);
                                assert(r0.contains(r0[p]));
                            } else {
                                assert(r@[p] == r0[p] && r@[q] == r0[q]);
                            }
                        }
                    }
                    assert forall|g2: u32| #[trigger] r@.contains(g2) implies exists|k: int|
                        0 <= k < i + 1 && gid(self@[k]) == g2 && owned_by(self@[k], o) by {
                        let j = choose|j: int| 0 <= j < r@.len() && r@[j] == g2;
                        assert(0 <= j < r@.len() && r@[j] == g2);
                        if j < r@.len() - 1 {
                            assert(r0[j] == g2);
                            assert(r0.contains(g2));
                            let k = choose|k: int|
                                0 <= k < i && gid(self@[k]) == g2 && owned_by(self@[k], o);
                            assert(0 <= k < i + 1 && gid(self@[k]) == g2 && owned_by(self@[k], o));
                        } else {
                            assert(g2 == g);
                            assert(gid(self@[i as int]) == g2 && owned_by(self@[i as int], o));
                        }
                    }
                    assert forall|g2: u32|
                        (exists|k: int| 0 <= k < i + 1 && gid(self@[k]) == g2 && owned_by(
                            self@[k],
                            o,
                        )) implies #[trigger] r@.contains(g2) by {
                        let k = choose|k: int|
                            0 <= k < i + 1 && gid(self@[k]) == g2 && owned_by(self@[k], o);
                        if k < i {
                            assert(r0.contains(g2));
                            let j = choose|j: int| 0 <= j < r0.len() && r0[j] == g2;
                            assert(r@[j] == g2);
                        } else {
                            assert(r@[r@.len() - 1] == g2);
                        }
                    }
                }
            } else {
                proof {
                    assert forall|g2: u32| #[trigger] r@.contains(g2) implies exists|k: int|
                        0 <= k < i + 1 && gid(self@[k]) == g2 && owned_by(self@[k], o) by {
                        let k = choose|k: int|
                            0 <= k < i && gid(self@[k]) == g2 && owned_by(self@[k], o);
                        assert(0 <= k < i + 1 && gid(self@[k]) == g2 && owned_by(self@[k], o));
                    }
                    assert forall|g2: u32|
                        (exists|k: int| 0 <= k < i + 1 && gid(self@[k]) == g2 && owned_by(
                            self@[k],
                            o,
                        )) implies #[trigger] r@.contains(g2) by {
                        let k = choose|k: int|
                            0 <= k < i + 1 && gid(self@[k]) == g2 && owned_by(self@[k], o);
                        assert(0 <= k < i + 1 && gid(self@[k]) == g2 && owned_by(self@[k], o));
                        assert(k != i);
                        assert(0 <= k < i && gid(self@[k]) == g2 && owned_by(self@[k], o));
                    }
                }
            }
            i = i + 1;
        }
        proof {
            assert(self@.take(n as int) =~= self@);
            assert forall|g: u32| has_id(self@, g) && owned_by(vehicle_of(self@, g), o) implies
                #[trigger] r@.contains(g) by {
                let k = idx_of(self@, g);
                assert(0 <= k < self@.len() && gid(self@[k]) == g);
                lemma_id_at(self@, g, k);
                assert(owned_by(self@[k], o));
            }
            assert forall|g: u32| #[trigger] r@.contains(g) implies has_id(self@, g) && owned_by(
                vehicle_of(self@, g),
                o,
            ) by {
                let k = choose|k: int| 0 <= k < n && gid(self@[k]) == g && owned_by(self@[k], o);
                assert(0 <= k < n && gid(self@[k]) == g && owned_by(self@[k], o));
                lemma_id_at(self@, g, k);
            }
        }
        r
    }

    /// Removes every vehicle owned by session `o` and no vehicle owned by
    /// anyone else, returning the removed global ids. This is the cascade run
    /// when a session is destroyed.
    pub fn remove_owned_by(&mut self, o: u32) -> (removed: Vec<u32>)
        requires
            reg_wf(old(self)@),
        ensures
            reg_wf(final(self)@),
            forall|g: u32|
                #[trigger] has_id(final(self)@, g) <==> (has_id(old(self)@, g) && !owned_by(
                    vehicle_of(old(self)@, g),
                    o,
                )),
            forall|g: u32|
                has_id(final(self)@, g) ==> #[trigger] vehicle_of(final(self)@, g) == vehicle_of(
                    old(self)@,
                    g,
                ),
            forall|g: u32|
                #[trigger] removed@.contains(g) <==> (has_id(old(self)@, g) && owned_by(
                    vehicle_of(old(self)@, g),
                    o,
                )),
            removed@.no_duplicates(),
            removed@.len() == owned_count(old(self)@, o),
            forall|l2: u32| #[trigger] spec_resolve(final(self)@, o, l2) is None,
            forall|o2: u32, l2: u32|
                o2 != o ==> #[trigger] spec_resolve(final(self)@, o2, l2) == spec_resolve(
                    old(self)@,
                    o2,
                    l2,
                ),
    {
        let ghost s0 = self@;
        let ids = self.owned_ids(o);
        let n = ids.len();
        let mut j: usize = 0;
        while j < n
            invariant
                0 <= j <= n,
                n == ids@.len(),
                s0 == old(self)@,
                reg_wf(s0),
                reg_wf(self@),
                ids@.no_duplicates(),
                forall|g: u32|
                    #[trigger] ids@.contains(g) <==> has_id(s0, g) && owned_by(
                        vehicle_of(s0, g),
                        o,
                    ),
                forall|g: u32|
                    #[trigger] has_id(self@, g) <==> (has_id(s0, g) && !ids@.take(j as int).contains(
                        g,
                    )),
                forall|g: u32|
                    has_id(self@, g) ==> #[trigger] vehicle_of(self@, g) == vehicle_of(s0, g),
                forall|o2: u32, l2: u32|
                    #[trigger] spec_resolve(self@, o2, l2) == (if spec_resolve(s0, o2, l2) matches
                        Some(g) && ids@.take(j as int).contains(g) {
                        None
                    } else {
                        spec_resolve(s0, o2, l2)
                    }),
            decreases n - j,
        {
            let id = ids[j];
            let ghost pre = self@;
            proof {
                assert(ids@.contains(id));
            }
            self.remove(id);
            proof {
                assert(ids@.take(j as int + 1) =~= ids@.take(j as int).push(id));
                assert forall|g: u32| #[trigger] has_id(self@, g) <==> (has_id(s0, g)
                    && !ids@.take(j as int + 1).contains(g)) by {
                    if g == id {
                        assert(!has_id(self@, g));
                        assert(ids@.take(j as int + 1)[j as int] == id);
                        assert(ids@.take(j as int + 1).contains(g));
                    } else {
                        assert(ids@.take(j as int + 1).contains(g) == ids@.take(
                            j as int,
                        ).contains(g));
                    }
                }
                assert forall|o2: u32, l2: u32| #[trigger] spec_resolve(self@, o2, l2) == (
                if spec_resolve(s0, o2, l2) matches Some(g) && ids@.take(j as int + 1).contains(g) {
                    None
                } else {
                    spec_resolve(s0, o2, l2)
                }) by {
                    if has_id(pre, id) && is_pair(vehicle_of(pre, id), o2, l2) {
                        assert(vehicle_of(pre, id) == vehicle_of(s0, id));
                        lemma_pair_at(pre, o2, l2, idx_of(pre, id));
                        assert(spec_resolve(pre, o2, l2) == Some(id));
                        assert(spec_resolve(s0, o2, l2) == (if spec_resolve(s0, o2, l2) matches
                            Some(g) && ids@.take(j as int).contains(g) {
                            None
                        } else {
                            spec_resolve(s0, o2, l2)
                        }));
                        assert(spec_resolve(s0, o2, l2) == Some(id));
                        assert(ids@.take(j as int + 1)[j as int] == id);
                        assert(ids@.take(j as int + 1).contains(id));
                    } else {
                        assert(spec_resolve(self@, o2, l2) == spec_resolve(pre, o2, l2));
                        if spec_resolve(s0, o2, l2) == Some(id) {
                            if !(ids@.take(j as int).contains(id)) {
                                let k = pair_idx(s0, o2, l2);
                                assert(0 <= k < s0.len() && is_pair(s0[k], o2, l2));
                                lemma_id_at(s0, id, k);
                                assert(has_id(pre, id));
                                assert(vehicle_of(pre, id) == s0[k]);
                                assert(is_pair(vehicle_of(pre, id), o2, l2));
                                assert(false);
                            }
                        }
                    }
                }
            }
            j = j + 1;
        }
        proof {
            assert(ids@.take(n as int) =~= ids@);
            assert forall|g: u32| #[trigger] has_id(self@, g) <==> (has_id(s0, g) && !owned_by(
                vehicle_of(s0, g),
                o,
            )) by {
                if has_id(s0, g) {
                    assert(ids@.contains(g) == (has_id(s0, g) && owned_by(vehicle_of(s0, g), o)));
                }
            }
            assert forall|l2: u32| #[trigger] spec_resolve(self@, o, l2) is None by {
                if spec_resolve(s0, o, l2) is Some {
                    let g = spec_resolve(s0, o, l2)->Some_0;
                    let k = pair_idx(s0, o, l2);
                    assert(0 <= k < s0.len() && is_pair(s0[k], o, l2));
                    lemma_id_at(s0, g, k);
                    assert(owned_by(vehicle_of(s0, g), o));
                    assert(ids@.contains(g));
                } else {
                    if has_pair(self@, o, l2) {
                        let k = choose|k: int| 0 <= k < self@.len() && is_pair(self@[k], o, l2);
                        assert(0 <= k < self@.len() && is_pair(self@[k], o, l2));
                        lemma_id_at(self@, gid(self@[k]), k);
                        assert(has_id(self@, gid(self@[k])));
                        assert(has_id(s0, gid(self@[k])));
                        assert(vehicle_of(self@, gid(self@[k])) == vehicle_of(s0, gid(self@[k])));
                        lemma_pair_at(s0, o, l2, idx_of(s0, gid(self@[k])));
                        assert(false);
                    }
                }
            }
            assert forall|o2: u32, l2: u32| o2 != o implies #[trigger] spec_resolve(
                self@,
                o2,
                l2,
            ) == spec_resolve(s0, o2, l2) by {
                if spec_resolve(s0, o2, l2) is Some && ids@.contains(
                    spec_resolve(s0, o2, l2)->Some_0,
                ) {
                    let g = spec_resolve(s0, o2, l2)->Some_0;
                    let k = pair_idx(s0, o2, l2);
                    assert(0 <= k < s0.len() && is_pair(s0[k], o2, l2));
                    lemma_id_at(s0, g, k);
                    assert(owned_by(vehicle_of(s0, g), o));
                    assert(s0[k].data.owner == Some(o2));
                    assert(false);
                }
            }
        }
        ids
    }

    /// Applies one bundled update to the vehicle with global id `id`: the
    /// three snapshots are replaced and the description's placement follows
    /// the transform. An unknown id changes nothing. Only the caller checks
    /// ownership; the registry applies what it is handed.
    pub fn apply_update(
        &mut self,
        id: u32,
        t: Transform,
        e: Electrics,
        gbx: Gearbox,
    )
        requires
            reg_wf(old(self)@),
        ensures
            reg_wf(final(self)@),
            !has_id(old(self)@, id) ==> final(self)@ == old(self)@,
            has_id(old(self)@, id) ==> final(self)@ == old(self)@.update(
                idx_of(old(self)@, id),
                (Vehicle {
                    transform: Some(t),
                    electrics: Some(e),
                    gearbox: Some(gbx),
                    undefined_electrics: vehicle_of(old(self)@, id).undefined_electrics,
                    data: VehicleData {
                        position: t.position,
                        rotation: t.rotation,
                        ..vehicle_of(old(self)@, id).data
                    },
                }),
            ),
            forall|g: u32| #[trigger] has_id(final(self)@, g) <==> has_id(old(self)@, g),
            forall|g: u32|
                g != id && has_id(old(self)@, g) ==> #[trigger] vehicle_of(final(self)@, g)
                    == vehicle_of(old(self)@, g),
            forall|o2: u32, l2: u32|
                #[trigger] spec_resolve(final(self)@, o2, l2) == spec_resolve(old(self)@, o2, l2),
    {
        let ghost s0 = self@;
        let n = self.vehicles.len();
        let mut i: usize = 0;
        while i < n
            invariant
                0 <= i <= n,
                n == self@.len(),
                self@ == self.vehicles@,
                self@ == s0,
                s0 == old(self)@,
                reg_wf(self@),
                forall|k: int| 0 <= k < i ==> gid(self@[k]) != id,
            decreases n - i,
        {
            if self.vehicles[i].data.server_id == id {
                proof {
                    lemma_id_at(s0, id, i as int);
                }
                let mut v = self.vehicles.remove(i);
                v.transform = Some(t);
                v.electrics = Some(e);
                v.data.position = t.position;
                v.data.rotation = t.rotation;
                v.gearbox = Some(gbx);
                proof {
                    assert(v == (Vehicle {
                        transform: Some(t),
                        electrics: Some(e),
                        gearbox: Some(gbx),
                        undefined_electrics: vehicle_of(s0, id).undefined_electrics,
                        data: VehicleData {
                            position: t.position,
                            rotation: t.rotation,
                            ..vehicle_of(s0, id).data
                        },
                    }));
                    lemma_update_same_key(s0, i as int, v);
                }
                self.vehicles.insert(i, v);
                proof {
                    assert(self@ =~= s0.update(i as int, v));
                }
                return;
            }
            i = i + 1;
        }
        proof {
            assert(!has_id(s0, id)) by {
                if has_id(s0, id) {
                    let k = choose|k: int| 0 <= k < s0.len() && gid(s0[k]) == id;
                    assert(0 <= k < s0.len() && gid(s0[k]) == id);
                }
            }
        }
    }

    /// Moves the vehicle with global id `id` back to a placement: the
    /// description and the stored transform take the given position and
    /// rotation, and the motion is cleared. An unknown id changes nothing.
    pub fn reset(&mut self, id: u32, position: [u32; 3], rotation: [u32; 4])
        requires
            reg_wf(old(self)@),
        ensures
            reg_wf(final(self)@),
            !has_id(old(self)@, id) ==> final(self)@ == old(self)@,
            has_id(old(self)@, id) ==> ({
                let v0 = vehicle_of(old(self)@, id);
                let v1 = vehicle_of(final(self)@, id);
                &&& final(self)@ == old(self)@.update(idx_of(old(self)@, id), v1)
                &&& (v1.transform matches Some(nt) && nt.position == position && nt.rotation
                    == rotation && (forall|k: int|
                    0 <= k < 3 ==> nt.velocity@[k] == 0 && nt.angular_velocity@[k] == 0))
                &&& v1.electrics == v0.electrics
                &&& v1.gearbox == v0.gearbox
                &&& v1.undefined_electrics == v0.undefined_electrics
                &&& v1.data == (VehicleData { position, rotation, ..v0.data })
            }),
            forall|g: u32| #[trigger] has_id(final(self)@, g) <==> has_id(old(self)@, g),
            forall|g: u32|
                g != id && has_id(old(self)@, g) ==> #[trigger] vehicle_of(final(self)@, g)
                    == vehicle_of(old(self)@, g),
            forall|o2: u32, l2: u32|
                #[trigger] spec_resolve(final(self)@, o2, l2) == spec_resolve(old(self)@, o2, l2),
    {
        let ghost s0 = self@;
        let n = self.vehicles.len();
        let mut i: usize = 0;
        while i < n
            invariant
                0 <= i <= n,
                n == self@.len(),
                self@ == self.vehicles@,
                self@ == s0,
                s0 == old(self)@,
                reg_wf(self@),
                forall|k: int| 0 <= k < i ==> gid(self@[k]) != id,
            decreases n - i,
        {
            if self.vehicles[i].data.server_id == id {
                proof {
                    lemma_id_at(s0, id, i as int);
                }
                let mut v = self.vehicles.remove(i);
                v.transform = Some(
                    Transform {
                        position,
                        rotation,
                        velocity: [0u32; 3],
                        angular_velocity: [0u32; 3],
                    },
                );
                v.data.position = position;
                v.data.rotation = rotation;
                proof {
                    lemma_update_same_key(s0, i as int, v);
                }
                self.vehicles.insert(i, v);
                proof {
                    assert(self@ =~= s0.update(i as int, v));
                    assert(vehicle_of(self@, id) == v);
                }
                return;
            }
            i = i + 1;
        }
        proof {
            assert(!has_id(s0, id)) by {
                if has_id(s0, id) {
                    let k = choose|k: int| 0 <= k < s0.len() && gid(s0[k]) == id;
                    assert(0 <= k < s0.len() && gid(s0[k]) == id);
                }
            }
        }
    }

    /// Applies a paint-and-plate update to the vehicle with global id `id`:
    /// the three colour tables and the plate are replaced and nothing else
    /// changes. An unknown id changes nothing.
    pub fn apply_meta(&mut self, id: u32, plate: Option<Vec<u8>>, colors: [[u32; 4]; 3])
        requires
            reg_wf(old(self)@),
        ensures
            reg_wf(final(self)@),
            !has_id(old(self)@, id) ==> final(self)@ == old(self)@,
            has_id(old(self)@, id) ==> ({
                let v0 = vehicle_of(old(self)@, id);
                final(self)@ == old(self)@.update(
                    idx_of(old(self)@, id),
                    (Vehicle {
                        transform: v0.transform,
                        electrics: v0.electrics,
                        gearbox: v0.gearbox,
                        undefined_electrics: v0.undefined_electrics,
                        data: VehicleData {
                            color: colors@[0],
                            palete_0: colors@[1],
                            palete_1: colors@[2],
                            plate: plate,
                            ..v0.data
                        },
                    }),
                )
            }),
            forall|g: u32| #[trigger] has_id(final(self)@, g) <==> has_id(old(self)@, g),
            forall|g: u32|
                g != id && has_id(old(self)@, g) ==> #[trigger] vehicle_of(final(self)@, g)
                    == vehicle_of(old(self)@, g),
            forall|o2: u32, l2: u32|
                #[trigger] spec_resolve(final(self)@, o2, l2) == spec_resolve(old(self)@, o2, l2),
    {
        let ghost s0 = self@;
        let n = self.vehicles.len();
        let mut i: usize = 0;
        while i < n
            invariant
                0 <= i <= n,
                n == self@.len(),
                self@ == self.vehicles@,
                self@ == s0,
                s0 == old(self)@,
                reg_wf(self@),
                forall|k: int| 0 <= k < i ==> gid(self@[k]) != id,
            decreases n - i,
        {
            if self.vehicles[i].data.server_id == id {
                proof {
                    lemma_id_at(s0, id, i as int);
                }
                let mut v = self.vehicles.remove(i);
                v.data.color = colors[0];
                v.data.palete_0 = colors[1];
                v.data.palete_1 = colors[2];
                v.data.plate = plate;
                proof {
                    lemma_update_same_key(s0, i as int, v);
                }
                self.vehicles.insert(i, v);
                proof {
                    assert(self@ =~= s0.update(i as int, v));
                }
                return;
            }
            i = i + 1;
        }
        proof {
            assert(!has_id(s0, id)) by {
                if has_id(s0, id) {
                    let k = choose|k: int| 0 <= k < s0.len() && gid(s0[k]) == id;
                    assert(0 <= k < s0.len() && gid(s0[k]) == id);
                }
            }
        }
    }

    /// A copy of the description of the vehicle at position `i` in spawn
    /// order, for replaying the current snapshot to a newly joined session.
    pub fn get_vehicle_data(&self, i: usize) -> (r: VehicleData)
        requires
            i < self@.len(),
        ensures
            crate::vehicle::vd_eq(r, self@[i as int].data),
    {
        self.vehicles[i].data.clone()
    }

    /// How many live vehicles session `o` owns.
    pub fn count_owned(&self, o: u32) -> (r: usize)
        requires
            reg_wf(self@),
        ensures
            r == owned_count(self@, o),
    {
        let n = self.vehicles.len();
        let mut cnt: usize = 0;
        let mut i: usize = 0;
        proof {
            assert(self@.take(0) =~= Seq::<Vehicle>::empty());
        }
        while i < n
            invariant
                0 <= i <= n,
                n == self@.len(),
                self@ == self.vehicles@,
                cnt <= i,
                cnt == owned_count(self@.take(i as int), o),
            decreases n - i,
        {
            let v = &self.vehicles[i];
            let owned = match v.data.owner {
                Some(ow) => ow == o,
                None => false,
            };
            proof {
                assert(self@.take(i as int + 1).drop_last() =~= self@.take(i as int));
                assert(self@.take(i as int + 1).last() == self@[i as int]);
            }
            if owned {
                cnt = cnt + 1;
            }
            i = i + 1;
        }
        proof {
            assert(self@.take(n as int) =~= self@);
        }
        cnt
    }

    /// Merges one named-channel update into the vehicle with global id `id`:
    /// every channel the update names takes a value the update gives it, and
    /// no channel the update does not name changes. An unknown id changes
    /// nothing.
    pub fn apply_electrics_undefined(&mut self, id: u32, upd: &ElectricsUndefined)
        requires
            reg_wf(old(self)@),
        ensures
            reg_wf(final(self)@),
            !has_id(old(self)@, id) ==> final(self)@ == old(self)@,
            forall|g: u32| #[trigger] has_id(final(self)@, g) <==> has_id(old(self)@, g),
            forall|g: u32|
                g != id && has_id(old(self)@, g) ==> #[trigger] vehicle_of(final(self)@, g)
                    == vehicle_of(old(self)@, g),
            forall|o2: u32, l2: u32|
                #[trigger] spec_resolve(final(self)@, o2, l2) == spec_resolve(old(self)@, o2, l2),
            has_id(old(self)@, id) ==> ({
                let v0 = vehicle_of(old(self)@, id);
                let v1 = vehicle_of(final(self)@, id);
                &&& final(self)@ == old(self)@.update(idx_of(old(self)@, id), v1)
                &&& v1.transform == v0.transform
                &&& v1.electrics == v0.electrics
                &&& v1.gearbox == v0.gearbox
                &&& v1.data == v0.data
                &&& (forall|k: Seq<u8>|
                    !has_channel(upd.diff@, k) ==> #[trigger] spec_channel(
                        v1.undefined_electrics.diff@,
                        k,
                    ) == spec_channel(v0.undefined_electrics.diff@, k))
                &&& (forall|k: Seq<u8>|
                    #[trigger] has_channel(upd.diff@, k) ==> exists|j: int|
                        0 <= j < upd.diff@.len() && upd.diff@[j].0@ == k && spec_channel(
                            v1.undefined_electrics.diff@,
                            k,
                        ) == Some(upd.diff@[j].1))
            }),
    {
        let ghost s0 = self@;
        let n = self.vehicles.len();
        let mut i: usize = 0;
        while i < n
            invariant
                0 <= i <= n,
                n == self@.len(),
                self@ == self.vehicles@,
                self@ == s0,
                s0 == old(self)@,
                reg_wf(self@),
                forall|k: int| 0 <= k < i ==> gid(self@[k]) != id,
            decreases n - i,
        {
            if self.vehicles[i].data.server_id == id {
                proof {
                    lemma_id_at(s0, id, i as int);
                    assert(channels_wf(s0[i as int].undefined_electrics.diff@));
                }
                let mut v = self.vehicles.remove(i);
                let ghost base = v.undefined_electrics.diff@;
                let m = upd.diff.len();
                let mut j: usize = 0;
                while j < m
                    invariant
                        0 <= j <= m,
                        m == upd.diff@.len(),
                        0 <= i < s0.len(),
                        v.transform == s0[i as int].transform,
                        v.electrics == s0[i as int].electrics,
                        v.gearbox == s0[i as int].gearbox,
                        v.data == s0[i as int].data,
                        base == s0[i as int].undefined_electrics.diff@,
                        channels_wf(v.undefined_electrics.diff@),
                        channels_wf(base),
                        forall|k: Seq<u8>|
                            !has_channel(upd.diff@.take(j as int), k) ==> #[trigger] spec_channel(
                                v.undefined_electrics.diff@,
                                k,
                            ) == spec_channel(base, k),
                        forall|k: Seq<u8>|
                            #[trigger] has_channel(upd.diff@.take(j as int), k) ==> exists|jj: int|
                                0 <= jj < j && upd.diff@[jj].0@ == k && spec_channel(
                                    v.undefined_electrics.diff@,
                                    k,
                                ) == Some(upd.diff@[jj].1),
                    decreases m - j,
                {
                    let ghost before = v.undefined_electrics.diff@;
                    set_channel(&mut v.undefined_electrics.diff, &upd.diff[j].0, upd.diff[j].1);
                    proof {
                        let key = upd.diff@[j as int].0@;
                        let cur = v.undefined_electrics.diff@;
                        assert forall|k: Seq<u8>|
                            !has_channel(upd.diff@.take(j as int + 1), k) implies #[trigger]
                        spec_channel(cur, k) == spec_channel(base, k) by {
                            assert(upd.diff@.take(j as int + 1)[j as int].0@ == key);
                            assert(has_channel(upd.diff@.take(j as int + 1), key));
                            assert(k != key);
                            assert forall|p: int| 0 <= p < j implies upd.diff@.take(
                                j as int,
                            )[p].0@ != k by {
                                assert(upd.diff@.take(j as int + 1)[p].0@ == upd.diff@.take(
                                    j as int,
                                )[p].0@);
                            }
                            assert(!has_channel(upd.diff@.take(j as int), k));
                        }
                        assert forall|k: Seq<u8>| #[trigger] has_channel(
                            upd.diff@.take(j as int + 1),
                            k,
                        ) implies exists|jj: int|
                            0 <= jj < j + 1 && upd.diff@[jj].0@ == k && spec_channel(cur, k)
                                == Some(upd.diff@[jj].1) by {
                            if k == key {
                                assert(0 <= j < j + 1 && upd.diff@[j as int].0@ == k
                                    && spec_channel(cur, k) == Some(upd.diff@[j as int].1));
                            } else {
                                let p = choose|p: int|
                                    0 <= p < j + 1 && (#[trigger] upd.diff@.take(
                                        j as int + 1,
                                    )[p]).0@ == k;
                                assert(0 <= p < j + 1 && upd.diff@.take(j as int + 1)[p].0@ == k);
                                assert(p != j);
                                assert(upd.diff@.take(j as int)[p].0@ == k);
                                assert(has_channel(upd.diff@.take(j as int), k));
                                let jj = choose|jj: int|
                                    0 <= jj < j && upd.diff@[jj].0@ == k && spec_channel(before, k)
                                        == Some(upd.diff@[jj].1);
                                assert(spec_channel(cur, k) == spec_channel(before, k));
                                assert(0 <= jj < j + 1 && upd.diff@[jj].0@ == k && spec_channel(
                                    cur,
                                    k,
                                ) == Some(upd.diff@[jj].1));
                            }
                        }
                    }
                    j = j + 1;
                }
                proof {
                    assert(upd.diff@.take(m as int) =~= upd.diff@);
                    lemma_update_same_key(s0, i as int, v);
                }
                self.vehicles.insert(i, v);
                proof {
                    assert(self@ =~= s0.update(i as int, v));
                    assert(vehicle_of(self@, id) == v);
                }
                return;
            }
            i = i + 1;
        }
        proof {
            assert(!has_id(s0, id)) by {
                if has_id(s0, id) {
                    let k = choose|k: int| 0 <= k < s0.len() && gid(s0[k]) == id;
                    assert(0 <= k < s0.len() && gid(s0[k]) == id);
                }
            }
        }
    }

    /// One bundled update per vehicle whose transform, electrics and gearbox
    /// snapshots are all present, each stamped with `generation`: what one
    /// tick broadcasts.
    pub fn complete_updates(&self, generation: u64) -> (r: Vec<crate::vehicle::VehicleUpdate>)
        requires
            reg_wf(self@),
        ensures
            forall|i: int|
                0 <= i < r@.len() ==> has_id(self@, #[trigger] r@[i].vehicle_id) && complete(
                    vehicle_of(self@, r@[i].vehicle_id),
                ) && update_matches(r@[i], vehicle_of(self@, r@[i].vehicle_id), generation),
            forall|g: u32|
                has_id(self@, g) && complete(vehicle_of(self@, g)) ==> exists|i: int|
                    0 <= i < r@.len() && #[trigger] r@[i].vehicle_id == g,
            forall|i: int, j: int|
                0 <= i < j < r@.len() ==> r@[i].vehicle_id != r@[j].vehicle_id,
            r@.len() == complete_count(self@),
    {
        let n = self.vehicles.len();
        let mut r: Vec<crate::vehicle::VehicleUpdate> = Vec::new();
        let mut i: usize = 0;
        proof {
            assert(self@.take(0) =~= Seq::<Vehicle>::empty());
        }
        while i < n
            invariant
                0 <= i <= n,
                n == self@.len(),
                self@ == self.vehicles@,
                reg_wf(self@),
                r@.len() == complete_count(self@.take(i as int)),
                forall|p: int|
                    0 <= p < r@.len() ==> has_id(self@, #[trigger] r@[p].vehicle_id) && complete(
                        vehicle_of(self@, r@[p].vehicle_id),
                    ) && update_matches(r@[p], vehicle_of(self@, r@[p].vehicle_id), generation),
                forall|k: int|
                    0 <= k < i && complete(#[trigger] self@[k]) ==> exists|p: int|
                        0 <= p < r@.len() && r@[p].vehicle_id == gid(self@[k]),
                forall|p: int, q: int| 0 <= p < q < r@.len() ==> r@[p].vehicle_id != r@[q].vehicle_id,
                forall|p: int| 0 <= p < r@.len() ==> idx_of(self@, #[trigger] r@[p].vehicle_id) < i,
            decreases n - i,
        {
            let v = &self.vehicles[i];
            let maybe_update: Option<crate::vehicle::VehicleUpdate> = match (
                &v.transform,
                &v.electrics,
                &v.gearbox,
            ) {
                (Some(t), Some(e), Some(gbx)) => Some(
                    crate::vehicle::VehicleUpdate {
                        transform: *t,
                        electrics: *e,
                        gearbox: gbx.clone(),
                        vehicle_id: v.data.server_id,
                        generation,
                        sent_at: 0,
                    },
                ),
                _ => None,
            };
            proof {
                assert(self@.take(i as int + 1).drop_last() =~= self@.take(i as int));
                assert(self@.take(i as int + 1).last() == self@[i as int]);
            }
            if let Some(u) = maybe_update {
                let ghost r0 = r@;
                proof {
                    lemma_id_at(self@, gid(self@[i as int]), i as int);
                }
                r.push(u);
                proof {
                    assert(r@ == r0.push(u));
                    assert(update_matches(u, self@[i as int], generation));
                    assert forall|p: int, q: int| 0 <= p < q < r@.len() implies r@[p].vehicle_id
                        != r@[q].vehicle_id by {
                        if q == r@.len() - 1 {
                            assert(r@[p] == r0[p]);
                            assert(has_id(self@, r0[p].vehicle_id) && update_matches(
                                r0[p],
                                vehicle_of(self@, r0[p].vehicle_id),
                                generation,
                            ));
                            if r0[p].vehicle_id == gid(self@[i as int]) {
                                assert(idx_of(self@, r0[p].vehicle_id) == i as int);
                                assert(false);
                            }
                        } else {
                            assert(r@[p] == r0[p] && r@[q] == r0[q]);
                        }
                    }
                    assert forall|k: int| 0 <= k < i + 1 && complete(#[trigger] self@[k]) implies
                        exists|p: int| 0 <= p < r@.len() && r@[p].vehicle_id == gid(self@[k]) by {
                        if k < i {
                            let p = choose|p: int|
                                0 <= p < r0.len() && r0[p].vehicle_id == gid(self@[k]);
                            assert(0 <= p < r@.len() && r@[p].vehicle_id == gid(self@[k]));
                        } else {
                            assert(r@[r@.len() - 1].vehicle_id == gid(self@[i as int]));
                        }
                    }
                }
            } else {
                proof {
                    assert(!complete(self@[i as int]));
                    assert forall|k: int| 0 <= k < i + 1 && complete(#[trigger] self@[k]) implies
                        exists|p: int| 0 <= p < r@.len() && r@[p].vehicle_id == gid(self@[k]) by {
                        assert(k != i);
                        let p = choose|p: int| 0 <= p < r@.len() && r@[p].vehicle_id == gid(self@[k]);
                        assert(0 <= p < r@.len() && r@[p].vehicle_id == gid(self@[k]));
                    }
                }
            }
            i = i + 1;
        }
        proof {
            assert(self@.take(n as int) =~= self@);
            assert forall|g: u32| has_id(self@, g) && complete(vehicle_of(self@, g)) implies
                exists|p: int| 0 <= p < r@.len() && #[trigger] r@[p].vehicle_id == g by {
                let k = idx_of(self@, g);
                assert(0 <= k < self@.len() && gid(self@[k]) == g);
                lemma_id_at(self@, g, k);
                assert(complete(self@[k]));
            }
        }
        r
    }
}

} // verus!
