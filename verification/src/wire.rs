//! The wire protocol: each command as a tagged binary payload, carried inside
//! a length-prefixed frame.
//!
//! Two payload shapes are accepted on read. The compact form is an explicit
//! one-byte tag followed by the fields; the structured form opens with a
//! marker byte, names the variant by its tag and declares its field count
//! before the same fields. The sender chooses per command: high-frequency
//! state goes compact, everything else structured. A frame always carries its
//! own length, so a payload with an unknown tag costs only that frame and
//! never corrupts stream alignment.
use crate::codec::DecodeError;
use crate::codec::enc_bytes;
use crate::codec::enc_c4;
use crate::codec::enc_chat;
use crate::codec::enc_chunk;
use crate::codec::enc_cip;
use crate::codec::enc_cipub;
use crate::codec::enc_filepart;
use crate::codec::enc_names;
use crate::codec::enc_reset;
use crate::codec::enc_si;
use crate::codec::enc_u16;
use crate::codec::enc_u32;
use crate::codec::enc_u32_bytes;
use crate::codec::enc_u32_pairs;
use crate::codec::enc_u64;
use crate::codec::enc_vd;
use crate::codec::enc_vm;
use crate::codec::enc_voice;
use crate::codec::enc_vu;
use crate::codec::cip_size_ok;
use crate::codec::lemma_peel;
use crate::codec::names_size_ok;
use crate::codec::nv;
use crate::codec::pairs_size_ok;
use crate::codec::pv;
use crate::codec::put_arr3;
use crate::codec::put_bytes;
use crate::codec::put_c4;
use crate::codec::put_cip;
use crate::codec::put_cipub;
use crate::codec::put_names;
use crate::codec::put_opt_u32;
use crate::codec::put_pairs;
use crate::codec::put_reset;
use crate::codec::put_si;
use crate::codec::put_u16;
use crate::codec::put_u32;
use crate::codec::put_u64;
use crate::codec::put_vd;
use crate::codec::put_vm;
use crate::codec::put_vu;
use crate::codec::read_bytes;
use crate::codec::read_c4;
use crate::codec::read_chat;
use crate::codec::read_chunk;
use crate::codec::read_cip;
use crate::codec::read_cipub;
use crate::codec::read_filepart;
use crate::codec::read_names;
use crate::codec::read_reset;
use crate::codec::read_si;
use crate::codec::read_u16;
use crate::codec::read_u32;
use crate::codec::read_u32_bytes;
use crate::codec::read_u32_pairs;
use crate::codec::read_u64;
use crate::codec::read_u8;
use crate::codec::read_vd;
use crate::codec::read_voice;
use crate::codec::read_vm;
use crate::codec::read_vu;
use crate::codec::si_size_ok;
use crate::codec::vd_size_ok;
use crate::commands::ClientCommand;
use crate::commands::ServerCommand;
use crate::commands::ServerInfo;
use crate::commands::cc_eq;
use crate::commands::sc_eq;
use crate::vehicle::CouplerAttached;
use crate::vehicle::CouplerDetached;
use crate::vehicle::ElectricsUndefined;
use vstd::prelude::*;

verus! {

/// Wraps one encoded command into a frame: a 32-bit length prefix, then the
/// payload.
pub fn encode_frame(payload: &Vec<u8>) -> (r: Vec<u8>)
    requires
        payload@.len() <= 0xFFFF_FFFF,
    ensures
        r@ == enc_bytes(payload@),
{
    let mut out: Vec<u8> = Vec::new();
    put_bytes(&mut out, payload);
    proof {
        assert(out@ =~= enc_bytes(payload@));
    }
    out
}

/// Reads one frame from the head of a byte stream: the payload and how many
/// bytes the frame occupied. A truncated frame yields a typed error and
/// consumes nothing.
pub fn decode_frame(buf: &[u8]) -> (r: Result<(Vec<u8>, usize), DecodeError>)
    ensures
        match r {
            Ok((p, used)) => used <= buf@.len() && buf@.subrange(0, used as int) == enc_bytes(p@)
                && used == 4 + p@.len(),
            Err(e) => true,
        },
        forall|p: Seq<u8>|
            (p.len() <= 0xFFFF_FFFF && 4 + p.len() <= buf@.len() && buf@.subrange(0, 4 + p.len() as int)
                == enc_bytes(p)) ==> (r matches Ok(w) && w.0@ == p && w.1 == 4 + p.len()),
{
    read_bytes(buf, 0)
}

/// The one-byte tag that selects each ClientCommand variant.
pub open spec fn cc_tag(c: ClientCommand) -> u8 {
    match c {
        ClientCommand::ClientInfo(_) => 1,
        ClientCommand::VehicleUpdate(_) => 2,
        ClientCommand::VehicleData(_) => 3,
        ClientCommand::RemoveVehicle(_) => 4,
        ClientCommand::ResetVehicle(_) => 5,
        ClientCommand::Chat(_) => 6,
        ClientCommand::RequestMods(_) => 7,
        ClientCommand::VehicleMetaUpdate(_) => 8,
        ClientCommand::VehicleChanged(_) => 9,
        ClientCommand::CouplerAttached(_) => 10,
        ClientCommand::CouplerDetached(_) => 11,
        ClientCommand::ElectricsUndefinedUpdate(_, _) => 12,
        ClientCommand::VoiceChatPacket(_) => 13,
        ClientCommand::Ping(_) => 14,
        ClientCommand::DataChunk { .. } => 15,
    }
}

/// The tag selects a known ClientCommand variant.
pub open spec fn cc_known_tag(t: u8) -> bool {
    1 <= t <= 15
}

/// How many fields follow each tag in the structured form.
pub open spec fn cc_tag_arity(t: u8) -> u8 {
    if t == 1 { 1 } else if t == 2 { 1 } else if t == 3 { 1 } else if t == 4 { 1 } else if t == 5 { 1 } else if t == 6 { 1 } else if t == 7 { 1 } else if t == 8 { 1 } else if t == 9 { 1 } else if t == 10 { 4 } else if t == 11 { 4 } else if t == 12 { 2 } else if t == 13 { 1 } else if t == 14 { 1 } else if t == 15 { 3 } else { 0 }
}

/// The field bytes of each ClientCommand variant, after its tag.
pub open spec fn cc_fields(c: ClientCommand) -> Seq<u8> {
    match c {
        ClientCommand::ClientInfo(x) => enc_cip(x),
        ClientCommand::VehicleUpdate(x) => enc_vu(x),
        ClientCommand::VehicleData(x) => enc_vd(x),
        ClientCommand::RemoveVehicle(x) => enc_u32(x),
        ClientCommand::ResetVehicle(x) => enc_reset(x),
        ClientCommand::Chat(x) => enc_bytes(x@),
        ClientCommand::RequestMods(x) => enc_names(nv(x@)),
        ClientCommand::VehicleMetaUpdate(x) => enc_vm(x),
        ClientCommand::VehicleChanged(x) => enc_u32(x),
        ClientCommand::CouplerAttached(x) => enc_c4(x.obj_a, x.obj_b, x.node_a_id, x.node_b_id),
        ClientCommand::CouplerDetached(x) => enc_c4(x.obj_a, x.obj_b, x.node_a_id, x.node_b_id),
        ClientCommand::ElectricsUndefinedUpdate(id, e) => enc_u32_pairs(id, pv(e.diff@)),
        ClientCommand::VoiceChatPacket(x) => enc_bytes(x@),
        ClientCommand::Ping(x) => enc_u16(x),
        ClientCommand::DataChunk { chunk_index, total_chunks, data } => enc_chunk(chunk_index, total_chunks, data@),
    }
}

/// Every byte string and list in the command fits its length prefix.
pub open spec fn cc_size_ok(c: ClientCommand) -> bool {
    match c {
        ClientCommand::ClientInfo(x) => cip_size_ok(x),
        ClientCommand::VehicleUpdate(x) => (x.gearbox.mode matches Some(v) ==> v@.len() <= 0xFFFF_FFFF),
        ClientCommand::VehicleData(x) => vd_size_ok(x),
        ClientCommand::RemoveVehicle(x) => true,
        ClientCommand::ResetVehicle(x) => true,
        ClientCommand::Chat(x) => x@.len() <= 0xFFFF_FFFF,
        ClientCommand::RequestMods(x) => names_size_ok(nv(x@)),
        ClientCommand::VehicleMetaUpdate(x) => (x.plate matches Some(v) ==> v@.len() <= 0xFFFF_FFFF),
        ClientCommand::VehicleChanged(x) => true,
        ClientCommand::CouplerAttached(x) => true,
        ClientCommand::CouplerDetached(x) => true,
        ClientCommand::ElectricsUndefinedUpdate(id, e) => pairs_size_ok(pv(e.diff@)),
        ClientCommand::VoiceChatPacket(x) => x@.len() <= 0xFFFF_FFFF,
        ClientCommand::Ping(x) => true,
        ClientCommand::DataChunk { chunk_index, total_chunks, data } => data@.len() <= 0xFFFF_FFFF,
    }
}

/// The compact form: an explicit one-byte tag, then the fields.
pub open spec fn cc_compact(c: ClientCommand) -> Seq<u8> {
    seq![cc_tag(c)] + cc_fields(c)
}

/// The structured form: a marker byte, the variant's tag, its declared
/// field count, then the fields.
pub open spec fn cc_structured(c: ClientCommand) -> Seq<u8> {
    seq![0u8, cc_tag(c), cc_tag_arity(cc_tag(c))] + cc_fields(c)
}

/// The performance-critical high-frequency commands travel compact; the
/// sender uses the structured form for everything else.
pub open spec fn cc_high_frequency(c: ClientCommand) -> bool {
    match c {
        ClientCommand::VehicleUpdate(_) => true,
        ClientCommand::VoiceChatPacket(_) => true,
        ClientCommand::Ping(_) => true,
        _ => false,
    }
}

/// What the sender puts on the wire for one client command.
pub open spec fn spec_encode_cc(c: ClientCommand) -> Seq<u8> {
    if cc_high_frequency(c) {
        cc_compact(c)
    } else {
        cc_structured(c)
    }
}

/// The declared field count for a tag.
fn cc_arity_of(t: u8) -> (r: u8)
    ensures
        r == cc_tag_arity(t),
{
    if t == 1 { 1 } else if t == 2 { 1 } else if t == 3 { 1 } else if t == 4 { 1 } else if t == 5 { 1 } else if t == 6 { 1 } else if t == 7 { 1 } else if t == 8 { 1 } else if t == 9 { 1 } else if t == 10 { 4 } else if t == 11 { 4 } else if t == 12 { 2 } else if t == 13 { 1 } else if t == 14 { 1 } else if t == 15 { 3 } else { 0 }
}

/// Encodes one client command: its tag and fields, compact for the
/// high-frequency commands and structured for the rest.
#[verifier::rlimit(100)]
#[verifier::spinoff_prover]
pub fn encode_client_command(c: &ClientCommand) -> (r: Vec<u8>)
    requires
        cc_size_ok(*c),
    ensures
        r@ == spec_encode_cc(*c),
{
    let mut out: Vec<u8> = Vec::new();
    match c {
        ClientCommand::ClientInfo(x) => {
            out.push(0u8);
            out.push(1u8);
            out.push(1u8);
            put_cip(&mut out, x);
            proof {
                assert(out@ =~= spec_encode_cc(*c));
            }
        },
        ClientCommand::VehicleUpdate(x) => {
            out.push(2u8);
            put_vu(&mut out, x);
            proof {
                assert(out@ =~= spec_encode_cc(*c));
            }
        },
        ClientCommand::VehicleData(x) => {
            out.push(0u8);
            out.push(3u8);
            out.push(1u8);
            put_vd(&mut out, x);
            proof {
                assert(out@ =~= spec_encode_cc(*c));
            }
        },
        ClientCommand::RemoveVehicle(x) => {
            out.push(0u8);
            out.push(4u8);
            out.push(1u8);
            put_u32(&mut out, *x);
            proof {
                assert(out@ =~= spec_encode_cc(*c));
            }
        },
        ClientCommand::ResetVehicle(x) => {
            out.push(0u8);
            out.push(5u8);
            out.push(1u8);
            put_reset(&mut out, x);
            proof {
                assert(out@ =~= spec_encode_cc(*c));
            }
        },
        ClientCommand::Chat(x) => {
            out.push(0u8);
            out.push(6u8);
            out.push(1u8);
            put_bytes(&mut out, x);
            proof {
                assert(out@ =~= spec_encode_cc(*c));
            }
        },
        ClientCommand::RequestMods(x) => {
            out.push(0u8);
            out.push(7u8);
            out.push(1u8);
            put_names(&mut out, x);
            proof {
                assert(out@ =~= spec_encode_cc(*c));
            }
        },
        ClientCommand::VehicleMetaUpdate(x) => {
            out.push(0u8);
            out.push(8u8);
            out.push(1u8);
            put_vm(&mut out, x);
            proof {
                assert(out@ =~= spec_encode_cc(*c));
            }
        },
        ClientCommand::VehicleChanged(x) => {
            out.push(0u8);
            out.push(9u8);
            out.push(1u8);
            put_u32(&mut out, *x);
            proof {
                assert(out@ =~= spec_encode_cc(*c));
            }
        },
        ClientCommand::CouplerAttached(x) => {
            out.push(0u8);
            out.push(10u8);
            out.push(4u8);
            put_c4(&mut out, x.obj_a, x.obj_b, x.node_a_id, x.node_b_id);
            proof {
                assert(out@ =~= spec_encode_cc(*c));
            }
        },
        ClientCommand::CouplerDetached(x) => {
            out.push(0u8);
            out.push(11u8);
            out.push(4u8);
            put_c4(&mut out, x.obj_a, x.obj_b, x.node_a_id, x.node_b_id);
            proof {
                assert(out@ =~= spec_encode_cc(*c));
            }
        },
        ClientCommand::ElectricsUndefinedUpdate(id, e) => {
            out.push(0u8);
            out.push(12u8);
            out.push(2u8);
            put_u32(&mut out, *id);
            put_pairs(&mut out, &e.diff);
            proof {
                assert(out@ =~= spec_encode_cc(*c));
            }
        },
        ClientCommand::VoiceChatPacket(x) => {
            out.push(13u8);
            put_bytes(&mut out, x);
            proof {
                assert(out@ =~= spec_encode_cc(*c));
            }
        },
        ClientCommand::Ping(x) => {
            out.push(14u8);
            put_u16(&mut out, *x);
            proof {
                assert(out@ =~= spec_encode_cc(*c));
            }
        },
        ClientCommand::DataChunk { chunk_index, total_chunks, data } => {
            out.push(0u8);
            out.push(15u8);
            out.push(3u8);
            put_u32(&mut out, *chunk_index);
            put_u32(&mut out, *total_chunks);
            put_bytes(&mut out, data);
            proof {
                assert(out@ =~= spec_encode_cc(*c));
            }
        },
    }
    out
}

/// Parses the fields of the client command selected by `tag`.
#[verifier::rlimit(100)]
#[verifier::spinoff_prover]
fn cc_parse_fields(buf: &[u8], tag: u8, pos: usize) -> (r: Result<(ClientCommand, usize), DecodeError>)
    ensures
        match r {
            Ok((c, p2)) => cc_tag(c) == tag && pos <= p2 <= buf@.len() && buf@.subrange(
                pos as int,
                p2 as int,
            ) == cc_fields(c) && p2 == pos + cc_fields(c).len() && cc_size_ok(c),
            Err(e) => true,
        },
        forall|c2: ClientCommand|
            #![trigger cc_fields(c2)]
            (cc_tag(c2) == tag && cc_size_ok(c2) && pos + cc_fields(c2).len() <= buf@.len()
                && buf@.subrange(pos as int, pos + cc_fields(c2).len()) == cc_fields(c2)) ==> (r matches Ok(w) && cc_eq(w.0, c2) && w.1 == pos + cc_fields(c2).len()),
        !cc_known_tag(tag) ==> r == Err::<(ClientCommand, usize), DecodeError>(DecodeError::UnknownTag(tag)),
{
    proof {
        vstd::bytes::lemma_auto_spec_u16_to_from_le_bytes();
        vstd::bytes::lemma_auto_spec_u32_to_from_le_bytes();
        vstd::bytes::lemma_auto_spec_u64_to_from_le_bytes();
    }
    if tag == 1 {
        match read_cip(buf, pos) {
            Ok(w) => {
                let c = ClientCommand::ClientInfo(w.0);
                let p2 = w.1;
                proof {
                    assert forall|c2: ClientCommand|
                        #![trigger cc_fields(c2)]
                        (cc_tag(c2) == tag && cc_size_ok(c2) && pos + cc_fields(c2).len() <= buf@.len()
                        && buf@.subrange(pos as int, pos + cc_fields(c2).len()) == cc_fields(c2)) implies (cc_eq(c, c2) && p2 == pos + cc_fields(c2).len()) by {
                        match c2 {
                            ClientCommand::ClientInfo(x) => {
                                assert(buf@.subrange(pos as int, pos + cc_fields(c2).len()) == cc_fields(c2));
                            },
                            _ => {},
                        }
                    }
                }
                return Ok((c, p2));
            },
            Err(e) => {
                proof {
                    assert forall|c2: ClientCommand|
                        #![trigger cc_fields(c2)]
                        (cc_tag(c2) == tag && cc_size_ok(c2) && pos + cc_fields(c2).len() <= buf@.len()
                        && buf@.subrange(pos as int, pos + cc_fields(c2).len()) == cc_fields(c2)) implies false by {
                        match c2 {
                            ClientCommand::ClientInfo(x) => {
                                assert(buf@.subrange(pos as int, pos + cc_fields(c2).len()) == cc_fields(c2));
                            },
                            _ => {},
                        }
                    }
                }
                return Err(e);
            },
        }
    }
    if tag == 2 {
        match read_vu(buf, pos) {
            Ok(w) => {
                let c = ClientCommand::VehicleUpdate(w.0);
                let p2 = w.1;
                proof {
                    assert forall|c2: ClientCommand|
                        #![trigger cc_fields(c2)]
                        (cc_tag(c2) == tag && cc_size_ok(c2) && pos + cc_fields(c2).len() <= buf@.len()
                        && buf@.subrange(pos as int, pos + cc_fields(c2).len()) == cc_fields(c2)) implies (cc_eq(c, c2) && p2 == pos + cc_fields(c2).len()) by {
                        match c2 {
                            ClientCommand::VehicleUpdate(x) => {
                                assert(buf@.subrange(pos as int, pos + cc_fields(c2).len()) == cc_fields(c2));
                            },
                            _ => {},
                        }
                    }
                }
                return Ok((c, p2));
            },
            Err(e) => {
                proof {
                    assert forall|c2: ClientCommand|
                        #![trigger cc_fields(c2)]
                        (cc_tag(c2) == tag && cc_size_ok(c2) && pos + cc_fields(c2).len() <= buf@.len()
                        && buf@.subrange(pos as int, pos + cc_fields(c2).len()) == cc_fields(c2)) implies false by {
                        match c2 {
                            ClientCommand::VehicleUpdate(x) => {
                                assert(buf@.subrange(pos as int, pos + cc_fields(c2).len()) == cc_fields(c2));
                            },
                            _ => {},
                        }
                    }
                }
                return Err(e);
            },
        }
    }
    if tag == 3 {
        match read_vd(buf, pos) {
            Ok(w) => {
                let c = ClientCommand::VehicleData(w.0);
                let p2 = w.1;
                proof {
                    assert forall|c2: ClientCommand|
                        #![trigger cc_fields(c2)]
                        (cc_tag(c2) == tag && cc_size_ok(c2) && pos + cc_fields(c2).len() <= buf@.len()
                        && buf@.subrange(pos as int, pos + cc_fields(c2).len()) == cc_fields(c2)) implies (cc_eq(c, c2) && p2 == pos + cc_fields(c2).len()) by {
                        match c2 {
                            ClientCommand::VehicleData(x) => {
                                assert(buf@.subrange(pos as int, pos + cc_fields(c2).len()) == cc_fields(c2));
                            },
                            _ => {},
                        }
                    }
                }
                return Ok((c, p2));
            },
            Err(e) => {
                proof {
                    assert forall|c2: ClientCommand|
                        #![trigger cc_fields(c2)]
                        (cc_tag(c2) == tag && cc_size_ok(c2) && pos + cc_fields(c2).len() <= buf@.len()
                        && buf@.subrange(pos as int, pos + cc_fields(c2).len()) == cc_fields(c2)) implies false by {
                        match c2 {
                            ClientCommand::VehicleData(x) => {
                                assert(buf@.subrange(pos as int, pos + cc_fields(c2).len()) == cc_fields(c2));
                            },
                            _ => {},
                        }
                    }
                }
                return Err(e);
            },
        }
    }
    if tag == 4 {
        match read_u32(buf, pos) {
            Ok(w) => {
                let c = ClientCommand::RemoveVehicle(w.0);
                let p2 = w.1;
                proof {
                    assert forall|c2: ClientCommand|
                        #![trigger cc_fields(c2)]
                        (cc_tag(c2) == tag && cc_size_ok(c2) && pos + cc_fields(c2).len() <= buf@.len()
                        && buf@.subrange(pos as int, pos + cc_fields(c2).len()) == cc_fields(c2)) implies (cc_eq(c, c2) && p2 == pos + cc_fields(c2).len()) by {
                        match c2 {
                            ClientCommand::RemoveVehicle(x) => {
                                assert(buf@.subrange(pos as int, pos + cc_fields(c2).len()) == cc_fields(c2));
                            },
                            _ => {},
                        }
                    }
                }
                return Ok((c, p2));
            },
            Err(e) => {
                proof {
                    assert forall|c2: ClientCommand|
                        #![trigger cc_fields(c2)]
                        (cc_tag(c2) == tag && cc_size_ok(c2) && pos + cc_fields(c2).len() <= buf@.len()
                        && buf@.subrange(pos as int, pos + cc_fields(c2).len()) == cc_fields(c2)) implies false by {
                        match c2 {
                            ClientCommand::RemoveVehicle(x) => {
                                assert(buf@.subrange(pos as int, pos + cc_fields(c2).len()) == cc_fields(c2));
                            },
                            _ => {},
                        }
                    }
                }
                return Err(e);
            },
        }
    }
    if tag == 5 {
        match read_reset(buf, pos) {
            Ok(w) => {
                let c = ClientCommand::ResetVehicle(w.0);
                let p2 = w.1;
                proof {
                    assert forall|c2: ClientCommand|
                        #![trigger cc_fields(c2)]
                        (cc_tag(c2) == tag && cc_size_ok(c2) && pos + cc_fields(c2).len() <= buf@.len()
                        && buf@.subrange(pos as int, pos + cc_fields(c2).len()) == cc_fields(c2)) implies (cc_eq(c, c2) && p2 == pos + cc_fields(c2).len()) by {
                        match c2 {
                            ClientCommand::ResetVehicle(x) => {
                                assert(buf@.subrange(pos as int, pos + cc_fields(c2).len()) == cc_fields(c2));
                            },
                            _ => {},
                        }
                    }
                }
                return Ok((c, p2));
            },
            Err(e) => {
                proof {
                    assert forall|c2: ClientCommand|
                        #![trigger cc_fields(c2)]
                        (cc_tag(c2) == tag && cc_size_ok(c2) && pos + cc_fields(c2).len() <= buf@.len()
                        && buf@.subrange(pos as int, pos + cc_fields(c2).len()) == cc_fields(c2)) implies false by {
                        match c2 {
                            ClientCommand::ResetVehicle(x) => {
                                assert(buf@.subrange(pos as int, pos + cc_fields(c2).len()) == cc_fields(c2));
                            },
                            _ => {},
                        }
                    }
                }
                return Err(e);
            },
        }
    }
    if tag == 6 {
        match read_bytes(buf, pos) {
            Ok(w) => {
                let c = ClientCommand::Chat(w.0);
                let p2 = w.1;
                proof {
                    assert forall|c2: ClientCommand|
                        #![trigger cc_fields(c2)]
                        (cc_tag(c2) == tag && cc_size_ok(c2) && pos + cc_fields(c2).len() <= buf@.len()
                        && buf@.subrange(pos as int, pos + cc_fields(c2).len()) == cc_fields(c2)) implies (cc_eq(c, c2) && p2 == pos + cc_fields(c2).len()) by {
                        match c2 {
                            ClientCommand::Chat(x) => {
                                assert(buf@.subrange(pos as int, pos + cc_fields(c2).len()) == cc_fields(c2));
                            },
                            _ => {},
                        }
                    }
                }
                return Ok((c, p2));
            },
            Err(e) => {
                proof {
                    assert forall|c2: ClientCommand|
                        #![trigger cc_fields(c2)]
                        (cc_tag(c2) == tag && cc_size_ok(c2) && pos + cc_fields(c2).len() <= buf@.len()
                        && buf@.subrange(pos as int, pos + cc_fields(c2).len()) == cc_fields(c2)) implies false by {
                        match c2 {
                            ClientCommand::Chat(x) => {
                                assert(buf@.subrange(pos as int, pos + cc_fields(c2).len()) == cc_fields(c2));
                            },
                            _ => {},
                        }
                    }
                }
                return Err(e);
            },
        }
    }
    if tag == 7 {
        match read_names(buf, pos) {
            Ok(w) => {
                let c = ClientCommand::RequestMods(w.0);
                let p2 = w.1;
                proof {
                    assert forall|c2: ClientCommand|
                        #![trigger cc_fields(c2)]
                        (cc_tag(c2) == tag && cc_size_ok(c2) && pos + cc_fields(c2).len() <= buf@.len()
                        && buf@.subrange(pos as int, pos + cc_fields(c2).len()) == cc_fields(c2)) implies (cc_eq(c, c2) && p2 == pos + cc_fields(c2).len()) by {
                        match c2 {
                            ClientCommand::RequestMods(x) => {
                                assert(buf@.subrange(pos as int, pos + cc_fields(c2).len()) == cc_fields(c2));
                                assert(nv(w.0@) == nv(x@));
                                assert(crate::commands::names_eq(w.0@, x@)) by {
                                    assert forall|i: int| 0 <= i < w.0@.len() implies w.0@[i]@
                                        == x@[i]@ by {
                                        assert(nv(w.0@)[i] == nv(x@)[i]);
                                    }
                                }
                            },
                            _ => {},
                        }
                    }
                }
                return Ok((c, p2));
            },
            Err(e) => {
                proof {
                    assert forall|c2: ClientCommand|
                        #![trigger cc_fields(c2)]
                        (cc_tag(c2) == tag && cc_size_ok(c2) && pos + cc_fields(c2).len() <= buf@.len()
                        && buf@.subrange(pos as int, pos + cc_fields(c2).len()) == cc_fields(c2)) implies false by {
                        match c2 {
                            ClientCommand::RequestMods(x) => {
                                assert(buf@.subrange(pos as int, pos + cc_fields(c2).len()) == cc_fields(c2));
                            },
                            _ => {},
                        }
                    }
                }
                return Err(e);
            },
        }
    }
    if tag == 8 {
        match read_vm(buf, pos) {
            Ok(w) => {
                let c = ClientCommand::VehicleMetaUpdate(w.0);
                let p2 = w.1;
                proof {
                    assert forall|c2: ClientCommand|
                        #![trigger cc_fields(c2)]
                        (cc_tag(c2) == tag && cc_size_ok(c2) && pos + cc_fields(c2).len() <= buf@.len()
                        && buf@.subrange(pos as int, pos + cc_fields(c2).len()) == cc_fields(c2)) implies (cc_eq(c, c2) && p2 == pos + cc_fields(c2).len()) by {
                        match c2 {
                            ClientCommand::VehicleMetaUpdate(x) => {
                                assert(buf@.subrange(pos as int, pos + cc_fields(c2).len()) == cc_fields(c2));
                            },
                            _ => {},
                        }
                    }
                }
                return Ok((c, p2));
            },
            Err(e) => {
                proof {
                    assert forall|c2: ClientCommand|
                        #![trigger cc_fields(c2)]
                        (cc_tag(c2) == tag && cc_size_ok(c2) && pos + cc_fields(c2).len() <= buf@.len()
                        && buf@.subrange(pos as int, pos + cc_fields(c2).len()) == cc_fields(c2)) implies false by {
                        match c2 {
                            ClientCommand::VehicleMetaUpdate(x) => {
                                assert(buf@.subrange(pos as int, pos + cc_fields(c2).len()) == cc_fields(c2));
                            },
                            _ => {},
                        }
                    }
                }
                return Err(e);
            },
        }
    }
    if tag == 9 {
        match read_u32(buf, pos) {
            Ok(w) => {
                let c = ClientCommand::VehicleChanged(w.0);
                let p2 = w.1;
                proof {
                    assert forall|c2: ClientCommand|
                        #![trigger cc_fields(c2)]
                        (cc_tag(c2) == tag && cc_size_ok(c2) && pos + cc_fields(c2).len() <= buf@.len()
                        && buf@.subrange(pos as int, pos + cc_fields(c2).len()) == cc_fields(c2)) implies (cc_eq(c, c2) && p2 == pos + cc_fields(c2).len()) by {
                        match c2 {
                            ClientCommand::VehicleChanged(x) => {
                                assert(buf@.subrange(pos as int, pos + cc_fields(c2).len()) == cc_fields(c2));
                            },
                            _ => {},
                        }
                    }
                }
                return Ok((c, p2));
            },
            Err(e) => {
                proof {
                    assert forall|c2: ClientCommand|
                        #![trigger cc_fields(c2)]
                        (cc_tag(c2) == tag && cc_size_ok(c2) && pos + cc_fields(c2).len() <= buf@.len()
                        && buf@.subrange(pos as int, pos + cc_fields(c2).len()) == cc_fields(c2)) implies false by {
                        match c2 {
                            ClientCommand::VehicleChanged(x) => {
                                assert(buf@.subrange(pos as int, pos + cc_fields(c2).len()) == cc_fields(c2));
                            },
                            _ => {},
                        }
                    }
                }
                return Err(e);
            },
        }
    }
    if tag == 10 {
        match read_c4(buf, pos) {
            Ok(w) => {
                let c = ClientCommand::CouplerAttached(CouplerAttached { obj_a: w.0.0, obj_b: w.0.1, node_a_id: w.0.2, node_b_id: w.0.3 });
                let p2 = w.1;
                proof {
                    assert forall|c2: ClientCommand|
                        #![trigger cc_fields(c2)]
                        (cc_tag(c2) == tag && cc_size_ok(c2) && pos + cc_fields(c2).len() <= buf@.len()
                        && buf@.subrange(pos as int, pos + cc_fields(c2).len()) == cc_fields(c2)) implies (cc_eq(c, c2) && p2 == pos + cc_fields(c2).len()) by {
                        match c2 {
                            ClientCommand::CouplerAttached(x) => {
                                assert(buf@.subrange(pos as int, pos + cc_fields(c2).len()) == cc_fields(c2));
                            },
                            _ => {},
                        }
                    }
                }
                return Ok((c, p2));
            },
            Err(e) => {
                proof {
                    assert forall|c2: ClientCommand|
                        #![trigger cc_fields(c2)]
                        (cc_tag(c2) == tag && cc_size_ok(c2) && pos + cc_fields(c2).len() <= buf@.len()
                        && buf@.subrange(pos as int, pos + cc_fields(c2).len()) == cc_fields(c2)) implies false by {
                        match c2 {
                            ClientCommand::CouplerAttached(x) => {
                                assert(buf@.subrange(pos as int, pos + cc_fields(c2).len()) == cc_fields(c2));
                            },
                            _ => {},
                        }
                    }
                }
                return Err(e);
            },
        }
    }
    if tag == 11 {
        match read_c4(buf, pos) {
            Ok(w) => {
                let c = ClientCommand::CouplerDetached(CouplerDetached { obj_a: w.0.0, obj_b: w.0.1, node_a_id: w.0.2, node_b_id: w.0.3 });
                let p2 = w.1;
                proof {
                    assert forall|c2: ClientCommand|
                        #![trigger cc_fields(c2)]
                        (cc_tag(c2) == tag && cc_size_ok(c2) && pos + cc_fields(c2).len() <= buf@.len()
                        && buf@.subrange(pos as int, pos + cc_fields(c2).len()) == cc_fields(c2)) implies (cc_eq(c, c2) && p2 == pos + cc_fields(c2).len()) by {
                        match c2 {
                            ClientCommand::CouplerDetached(x) => {
                                assert(buf@.subrange(pos as int, pos + cc_fields(c2).len()) == cc_fields(c2));
                            },
                            _ => {},
                        }
                    }
                }
                return Ok((c, p2));
            },
            Err(e) => {
                proof {
                    assert forall|c2: ClientCommand|
                        #![trigger cc_fields(c2)]
                        (cc_tag(c2) == tag && cc_size_ok(c2) && pos + cc_fields(c2).len() <= buf@.len()
                        && buf@.subrange(pos as int, pos + cc_fields(c2).len()) == cc_fields(c2)) implies false by {
                        match c2 {
                            ClientCommand::CouplerDetached(x) => {
                                assert(buf@.subrange(pos as int, pos + cc_fields(c2).len()) == cc_fields(c2));
                            },
                            _ => {},
                        }
                    }
                }
                return Err(e);
            },
        }
    }
    if tag == 12 {
        match read_u32_pairs(buf, pos) {
            Ok(w) => {
                let c = ClientCommand::ElectricsUndefinedUpdate(w.0.0, ElectricsUndefined { diff: w.0.1 });
                let p2 = w.1;
                proof {
                    assert forall|c2: ClientCommand|
                        #![trigger cc_fields(c2)]
                        (cc_tag(c2) == tag && cc_size_ok(c2) && pos + cc_fields(c2).len() <= buf@.len()
                        && buf@.subrange(pos as int, pos + cc_fields(c2).len()) == cc_fields(c2)) implies (cc_eq(c, c2) && p2 == pos + cc_fields(c2).len()) by {
                        match c2 {
                            ClientCommand::ElectricsUndefinedUpdate(id, e) => {
                                assert(buf@.subrange(pos as int, pos + cc_fields(c2).len()) == cc_fields(c2));
                                assert(pv(w.0.1@) == pv(e.diff@));
                                assert(crate::vehicle::eu_eq(ElectricsUndefined { diff: w.0.1 }, e)) by {
                                    assert forall|i: int| 0 <= i < w.0.1@.len() implies w.0.1@[i].0@
                                        == e.diff@[i].0@ && w.0.1@[i].1 == e.diff@[i].1 by {
                                        assert(pv(w.0.1@)[i] == pv(e.diff@)[i]);
                                    }
                                }
                            },
                            _ => {},
                        }
                    }
                }
                return Ok((c, p2));
            },
            Err(e) => {
                proof {
                    assert forall|c2: ClientCommand|
                        #![trigger cc_fields(c2)]
                        (cc_tag(c2) == tag && cc_size_ok(c2) && pos + cc_fields(c2).len() <= buf@.len()
                        && buf@.subrange(pos as int, pos + cc_fields(c2).len()) == cc_fields(c2)) implies false by {
                        match c2 {
                            ClientCommand::ElectricsUndefinedUpdate(id, e) => {
                                assert(buf@.subrange(pos as int, pos + cc_fields(c2).len()) == cc_fields(c2));
                            },
                            _ => {},
                        }
                    }
                }
                return Err(e);
            },
        }
    }
    if tag == 13 {
        match read_bytes(buf, pos) {
            Ok(w) => {
                let c = ClientCommand::VoiceChatPacket(w.0);
                let p2 = w.1;
                proof {
                    assert forall|c2: ClientCommand|
                        #![trigger cc_fields(c2)]
                        (cc_tag(c2) == tag && cc_size_ok(c2) && pos + cc_fields(c2).len() <= buf@.len()
                        && buf@.subrange(pos as int, pos + cc_fields(c2).len()) == cc_fields(c2)) implies (cc_eq(c, c2) && p2 == pos + cc_fields(c2).len()) by {
                        match c2 {
                            ClientCommand::VoiceChatPacket(x) => {
                                assert(buf@.subrange(pos as int, pos + cc_fields(c2).len()) == cc_fields(c2));
                            },
                            _ => {},
                        }
                    }
                }
                return Ok((c, p2));
            },
            Err(e) => {
                proof {
                    assert forall|c2: ClientCommand|
                        #![trigger cc_fields(c2)]
                        (cc_tag(c2) == tag && cc_size_ok(c2) && pos + cc_fields(c2).len() <= buf@.len()
                        && buf@.subrange(pos as int, pos + cc_fields(c2).len()) == cc_fields(c2)) implies false by {
                        match c2 {
                            ClientCommand::VoiceChatPacket(x) => {
                                assert(buf@.subrange(pos as int, pos + cc_fields(c2).len()) == cc_fields(c2));
                            },
                            _ => {},
                        }
                    }
                }
                return Err(e);
            },
        }
    }
    if tag == 14 {
        match read_u16(buf, pos) {
            Ok(w) => {
                let c = ClientCommand::Ping(w.0);
                let p2 = w.1;
                proof {
                    assert forall|c2: ClientCommand|
                        #![trigger cc_fields(c2)]
                        (cc_tag(c2) == tag && cc_size_ok(c2) && pos + cc_fields(c2).len() <= buf@.len()
                        && buf@.subrange(pos as int, pos + cc_fields(c2).len()) == cc_fields(c2)) implies (cc_eq(c, c2) && p2 == pos + cc_fields(c2).len()) by {
                        match c2 {
                            ClientCommand::Ping(x) => {
                                assert(buf@.subrange(pos as int, pos + cc_fields(c2).len()) == cc_fields(c2));
                            },
                            _ => {},
                        }
                    }
                }
                return Ok((c, p2));
            },
            Err(e) => {
                proof {
                    assert forall|c2: ClientCommand|
                        #![trigger cc_fields(c2)]
                        (cc_tag(c2) == tag && cc_size_ok(c2) && pos + cc_fields(c2).len() <= buf@.len()
                        && buf@.subrange(pos as int, pos + cc_fields(c2).len()) == cc_fields(c2)) implies false by {
                        match c2 {
                            ClientCommand::Ping(x) => {
                                assert(buf@.subrange(pos as int, pos + cc_fields(c2).len()) == cc_fields(c2));
                            },
                            _ => {},
                        }
                    }
                }
                return Err(e);
            },
        }
    }
    if tag == 15 {
        match read_chunk(buf, pos) {
            Ok(w) => {
                let c = ClientCommand::DataChunk { chunk_index: w.0.0, total_chunks: w.0.1, data: w.0.2 };
                let p2 = w.1;
                proof {
                    assert forall|c2: ClientCommand|
                        #![trigger cc_fields(c2)]
                        (cc_tag(c2) == tag && cc_size_ok(c2) && pos + cc_fields(c2).len() <= buf@.len()
                        && buf@.subrange(pos as int, pos + cc_fields(c2).len()) == cc_fields(c2)) implies (cc_eq(c, c2) && p2 == pos + cc_fields(c2).len()) by {
                        match c2 {
                            ClientCommand::DataChunk { chunk_index, total_chunks, data } => {
                                assert(buf@.subrange(pos as int, pos + cc_fields(c2).len()) == cc_fields(c2));
                            },
                            _ => {},
                        }
                    }
                }
                return Ok((c, p2));
            },
            Err(e) => {
                proof {
                    assert forall|c2: ClientCommand|
                        #![trigger cc_fields(c2)]
                        (cc_tag(c2) == tag && cc_size_ok(c2) && pos + cc_fields(c2).len() <= buf@.len()
                        && buf@.subrange(pos as int, pos + cc_fields(c2).len()) == cc_fields(c2)) implies false by {
                        match c2 {
                            ClientCommand::DataChunk { chunk_index, total_chunks, data } => {
                                assert(buf@.subrange(pos as int, pos + cc_fields(c2).len()) == cc_fields(c2));
                            },
                            _ => {},
                        }
                    }
                }
                return Err(e);
            },
        }
    }
    Err(DecodeError::UnknownTag(tag))
}

/// Decodes one client command from a frame payload. Both the compact and
/// the structured form are accepted; malformed or truncated input comes
/// back as a typed error, and an unknown tag is reported as such so the
/// caller can drop the frame and keep the stream aligned.
#[verifier::rlimit(100)]
#[verifier::spinoff_prover]
pub fn decode_client_command(buf: &[u8]) -> (r: Result<ClientCommand, DecodeError>)
    ensures
        match r {
            Ok(c) => cc_size_ok(c) && (buf@ == cc_compact(c) || buf@ == cc_structured(c)),
            Err(e) => true,
        },
        forall|c: ClientCommand|
            #![trigger cc_compact(c)]
            (cc_size_ok(c) && buf@ == cc_compact(c)) ==> (r matches Ok(c2) && cc_eq(c2, c)),
        forall|c: ClientCommand|
            #![trigger cc_structured(c)]
            (cc_size_ok(c) && buf@ == cc_structured(c)) ==> (r matches Ok(c2) && cc_eq(c2, c)),
        buf@.len() == 0 ==> r == Err::<ClientCommand, DecodeError>(DecodeError::Truncated),
        buf@.len() > 0 && buf@[0] != 0 && !cc_known_tag(buf@[0]) ==> r == Err::<
            ClientCommand,
            DecodeError,
        >(DecodeError::UnknownTag(buf@[0])),
{
    proof {
        vstd::bytes::lemma_auto_spec_u16_to_from_le_bytes();
        vstd::bytes::lemma_auto_spec_u32_to_from_le_bytes();
        vstd::bytes::lemma_auto_spec_u64_to_from_le_bytes();
    }
    let (t, p0) = match read_u8(buf, 0) {
        Ok(v) => v,
        Err(e) => {
            proof {
                assert forall|c: ClientCommand| #![trigger cc_compact(c)] (cc_size_ok(c) && buf@
                    == cc_compact(c)) implies false by {}
                assert forall|c: ClientCommand| #![trigger cc_structured(c)] (cc_size_ok(c) && buf@
                    == cc_structured(c)) implies false by {}
            }
            return Err(e);
        },
    };
    if t != 0 {
        let (c, p2) = match cc_parse_fields(buf, t, p0) {
            Ok(v) => v,
            Err(e) => {
                proof {
                    assert forall|c: ClientCommand| #![trigger cc_compact(c)] (cc_size_ok(c) && buf@
                        == cc_compact(c)) implies false by {
                        assert(buf@.subrange(0, 1 + cc_fields(c).len() as int) =~= buf@);
                        lemma_peel(buf@, 0, seq![cc_tag(c)], cc_fields(c));
                    }
                    assert forall|c: ClientCommand| #![trigger cc_structured(c)] (cc_size_ok(c) && buf@
                        == cc_structured(c)) implies false by {}
                }
                return Err(e);
            },
        };
        if p2 == buf.len() {
            proof {
                assert(buf@ =~= cc_compact(c));
                assert forall|c2: ClientCommand| #![trigger cc_compact(c2)] (cc_size_ok(c2) && buf@
                    == cc_compact(c2)) implies cc_eq(c, c2) by {
                    assert(buf@.subrange(0, 1 + cc_fields(c2).len() as int) =~= buf@);
                    lemma_peel(buf@, 0, seq![cc_tag(c2)], cc_fields(c2));
                }
                assert forall|c2: ClientCommand| #![trigger cc_structured(c2)] (cc_size_ok(c2) && buf@
                    == cc_structured(c2)) implies false by {}
            }
            Ok(c)
        } else {
            proof {
                assert forall|c2: ClientCommand| #![trigger cc_compact(c2)] (cc_size_ok(c2) && buf@
                    == cc_compact(c2)) implies false by {
                    assert(buf@.subrange(0, 1 + cc_fields(c2).len() as int) =~= buf@);
                    lemma_peel(buf@, 0, seq![cc_tag(c2)], cc_fields(c2));
                }
                assert forall|c2: ClientCommand| #![trigger cc_structured(c2)] (cc_size_ok(c2) && buf@
                    == cc_structured(c2)) implies false by {}
            }
            Err(DecodeError::Malformed)
        }
    } else {
        let (t2, p1) = match read_u8(buf, p0) {
            Ok(v) => v,
            Err(e) => {
                proof {
                    assert forall|c: ClientCommand| #![trigger cc_structured(c)] (cc_size_ok(c) && buf@
                        == cc_structured(c)) implies false by {}
                }
                return Err(e);
            },
        };
        let (ar, p2) = match read_u8(buf, p1) {
            Ok(v) => v,
            Err(e) => {
                proof {
                    assert forall|c: ClientCommand| #![trigger cc_structured(c)] (cc_size_ok(c) && buf@
                        == cc_structured(c)) implies false by {}
                }
                return Err(e);
            },
        };
        if ar != cc_arity_of(t2) {
            proof {
                assert forall|c: ClientCommand| #![trigger cc_structured(c)] (cc_size_ok(c) && buf@
                    == cc_structured(c)) implies false by {}
            }
            return Err(DecodeError::Malformed);
        }
        let (c, p3) = match cc_parse_fields(buf, t2, p2) {
            Ok(v) => v,
            Err(e) => {
                proof {
                    assert forall|c: ClientCommand| #![trigger cc_structured(c)] (cc_size_ok(c) && buf@
                        == cc_structured(c)) implies false by {
                        assert(buf@.subrange(0, 3 + cc_fields(c).len() as int) =~= buf@);
                        lemma_peel(buf@, 0, seq![0u8, cc_tag(c), cc_tag_arity(cc_tag(c))], cc_fields(c));
                    }
                }
                return Err(e);
            },
        };
        if p3 == buf.len() {
            proof {
                assert(buf@ =~= cc_structured(c));
                assert forall|c2: ClientCommand| #![trigger cc_structured(c2)] (cc_size_ok(c2) && buf@
                    == cc_structured(c2)) implies cc_eq(c, c2) by {
                    assert(buf@.subrange(0, 3 + cc_fields(c2).len() as int) =~= buf@);
                    lemma_peel(buf@, 0, seq![0u8, cc_tag(c2), cc_tag_arity(cc_tag(c2))], cc_fields(c2));
                }
                assert forall|c2: ClientCommand| #![trigger cc_compact(c2)] (cc_size_ok(c2) && buf@
                    == cc_compact(c2)) implies false by {}
            }
            Ok(c)
        } else {
            proof {
                assert forall|c2: ClientCommand| #![trigger cc_structured(c2)] (cc_size_ok(c2) && buf@
                    == cc_structured(c2)) implies false by {
                    assert(buf@.subrange(0, 3 + cc_fields(c2).len() as int) =~= buf@);
                    lemma_peel(buf@, 0, seq![0u8, cc_tag(c2), cc_tag_arity(cc_tag(c2))], cc_fields(c2));
                }
                assert forall|c2: ClientCommand| #![trigger cc_compact(c2)] (cc_size_ok(c2) && buf@
                    == cc_compact(c2)) implies false by {}
            }
            Err(DecodeError::Malformed)
        }
    }
}

/// The one-byte tag that selects each ServerCommand variant.
pub open spec fn sc_tag(c: ServerCommand) -> u8 {
    match c {
        ServerCommand::VehicleUpdate(_) => 1,
        ServerCommand::VehicleSpawn(_) => 2,
        ServerCommand::RemoveVehicle(_) => 3,
        ServerCommand::ResetVehicle(_) => 4,
        ServerCommand::Chat(_, _) => 5,
        ServerCommand::TransferFile(_) => 6,
        ServerCommand::SendLua(_) => 7,
        ServerCommand::PlayerInfoUpdate(_) => 8,
        ServerCommand::VehicleMetaUpdate(_) => 9,
        ServerCommand::PlayerDisconnected(_) => 10,
        ServerCommand::VehicleLuaCommand(_, _) => 11,
        ServerCommand::CouplerAttached(_) => 12,
        ServerCommand::CouplerDetached(_) => 13,
        ServerCommand::ElectricsUndefinedUpdate(_, _) => 14,
        ServerCommand::ServerInfo(_) => 15,
        ServerCommand::FilePart(_, _, _, _, _) => 16,
        ServerCommand::VoiceChatPacket(_, _, _) => 17,
        ServerCommand::Pong(_) => 18,
    }
}

/// The tag selects a known ServerCommand variant.
pub open spec fn sc_known_tag(t: u8) -> bool {
    1 <= t <= 18
}

/// How many fields follow each tag in the structured form.
pub open spec fn sc_tag_arity(t: u8) -> u8 {
    if t == 1 { 1 } else if t == 2 { 1 } else if t == 3 { 1 } else if t == 4 { 1 } else if t == 5 { 2 } else if t == 6 { 1 } else if t == 7 { 1 } else if t == 8 { 1 } else if t == 9 { 1 } else if t == 10 { 1 } else if t == 11 { 2 } else if t == 12 { 4 } else if t == 13 { 4 } else if t == 14 { 2 } else if t == 15 { 1 } else if t == 16 { 5 } else if t == 17 { 3 } else if t == 18 { 1 } else { 0 }
}

/// The field bytes of each ServerCommand variant, after its tag.
pub open spec fn sc_fields(c: ServerCommand) -> Seq<u8> {
    match c {
        ServerCommand::VehicleUpdate(x) => enc_vu(x),
        ServerCommand::VehicleSpawn(x) => enc_vd(x),
        ServerCommand::RemoveVehicle(x) => enc_u32(x),
        ServerCommand::ResetVehicle(x) => enc_reset(x),
        ServerCommand::Chat(x, who) => enc_chat(x@, who),
        ServerCommand::TransferFile(x) => enc_bytes(x@),
        ServerCommand::SendLua(x) => enc_bytes(x@),
        ServerCommand::PlayerInfoUpdate(x) => enc_cipub(x),
        ServerCommand::VehicleMetaUpdate(x) => enc_vm(x),
        ServerCommand::PlayerDisconnected(x) => enc_u32(x),
        ServerCommand::VehicleLuaCommand(id, x) => enc_u32_bytes(id, x@),
        ServerCommand::CouplerAttached(x) => enc_c4(x.obj_a, x.obj_b, x.node_a_id, x.node_b_id),
        ServerCommand::CouplerDetached(x) => enc_c4(x.obj_a, x.obj_b, x.node_a_id, x.node_b_id),
        ServerCommand::ElectricsUndefinedUpdate(id, e) => enc_u32_pairs(id, pv(e.diff@)),
        ServerCommand::ServerInfo(x) => enc_si(x),
        ServerCommand::FilePart(name, data, chunk, total, offset) => enc_filepart(name@, data@, chunk, total, offset),
        ServerCommand::VoiceChatPacket(id, p, x) => enc_voice(id, p, x@),
        ServerCommand::Pong(x) => enc_u64(x),
    }
}

/// Every byte string and list in the command fits its length prefix.
pub open spec fn sc_size_ok(c: ServerCommand) -> bool {
    match c {
        ServerCommand::VehicleUpdate(x) => (x.gearbox.mode matches Some(v) ==> v@.len() <= 0xFFFF_FFFF),
        ServerCommand::VehicleSpawn(x) => vd_size_ok(x),
        ServerCommand::RemoveVehicle(x) => true,
        ServerCommand::ResetVehicle(x) => true,
        ServerCommand::Chat(x, who) => x@.len() <= 0xFFFF_FFFF,
        ServerCommand::TransferFile(x) => x@.len() <= 0xFFFF_FFFF,
        ServerCommand::SendLua(x) => x@.len() <= 0xFFFF_FFFF,
        ServerCommand::PlayerInfoUpdate(x) => x.name@.len() <= 0xFFFF_FFFF,
        ServerCommand::VehicleMetaUpdate(x) => (x.plate matches Some(v) ==> v@.len() <= 0xFFFF_FFFF),
        ServerCommand::PlayerDisconnected(x) => true,
        ServerCommand::VehicleLuaCommand(id, x) => x@.len() <= 0xFFFF_FFFF,
        ServerCommand::CouplerAttached(x) => true,
        ServerCommand::CouplerDetached(x) => true,
        ServerCommand::ElectricsUndefinedUpdate(id, e) => pairs_size_ok(pv(e.diff@)),
        ServerCommand::ServerInfo(x) => si_size_ok(x),
        ServerCommand::FilePart(name, data, chunk, total, offset) => name@.len() <= 0xFFFF_FFFF && data@.len() <= 0xFFFF_FFFF,
        ServerCommand::VoiceChatPacket(id, p, x) => x@.len() <= 0xFFFF_FFFF,
        ServerCommand::Pong(x) => true,
    }
}

/// The compact form: an explicit one-byte tag, then the fields.
pub open spec fn sc_compact(c: ServerCommand) -> Seq<u8> {
    seq![sc_tag(c)] + sc_fields(c)
}

/// The structured form: a marker byte, the variant's tag, its declared
/// field count, then the fields.
pub open spec fn sc_structured(c: ServerCommand) -> Seq<u8> {
    seq![0u8, sc_tag(c), sc_tag_arity(sc_tag(c))] + sc_fields(c)
}

/// The performance-critical high-frequency commands travel compact; the
/// sender uses the structured form for everything else.
pub open spec fn sc_high_frequency(c: ServerCommand) -> bool {
    match c {
        ServerCommand::VehicleUpdate(_) => true,
        ServerCommand::FilePart(_, _, _, _, _) => true,
        ServerCommand::VoiceChatPacket(_, _, _) => true,
        ServerCommand::Pong(_) => true,
        _ => false,
    }
}

/// What the sender puts on the wire for one server command.
pub open spec fn spec_encode_sc(c: ServerCommand) -> Seq<u8> {
    if sc_high_frequency(c) {
        sc_compact(c)
    } else {
        sc_structured(c)
    }
}

/// The declared field count for a tag.
fn sc_arity_of(t: u8) -> (r: u8)
    ensures
        r == sc_tag_arity(t),
{
    if t == 1 { 1 } else if t == 2 { 1 } else if t == 3 { 1 } else if t == 4 { 1 } else if t == 5 { 2 } else if t == 6 { 1 } else if t == 7 { 1 } else if t == 8 { 1 } else if t == 9 { 1 } else if t == 10 { 1 } else if t == 11 { 2 } else if t == 12 { 4 } else if t == 13 { 4 } else if t == 14 { 2 } else if t == 15 { 1 } else if t == 16 { 5 } else if t == 17 { 3 } else if t == 18 { 1 } else { 0 }
}

/// Encodes one server command: its tag and fields, compact for the
/// high-frequency commands and structured for the rest.
#[verifier::rlimit(100)]
#[verifier::spinoff_prover]
pub fn encode_server_command(c: &ServerCommand) -> (r: Vec<u8>)
    requires
        sc_size_ok(*c),
    ensures
        r@ == spec_encode_sc(*c),
{
    let mut out: Vec<u8> = Vec::new();
    match c {
        ServerCommand::VehicleUpdate(x) => {
            out.push(1u8);
            put_vu(&mut out, x);
            proof {
                assert(out@ =~= spec_encode_sc(*c));
            }
        },
        ServerCommand::VehicleSpawn(x) => {
            out.push(0u8);
            out.push(2u8);
            out.push(1u8);
            put_vd(&mut out, x);
            proof {
                assert(out@ =~= spec_encode_sc(*c));
            }
        },
        ServerCommand::RemoveVehicle(x) => {
            out.push(0u8);
            out.push(3u8);
            out.push(1u8);
            put_u32(&mut out, *x);
            proof {
                assert(out@ =~= spec_encode_sc(*c));
            }
        },
        ServerCommand::ResetVehicle(x) => {
            out.push(0u8);
            out.push(4u8);
            out.push(1u8);
            put_reset(&mut out, x);
            proof {
                assert(out@ =~= spec_encode_sc(*c));
            }
        },
        ServerCommand::Chat(x, who) => {
            out.push(0u8);
            out.push(5u8);
            out.push(2u8);
            put_bytes(&mut out, x);
            put_opt_u32(&mut out, who);
            proof {
                assert(out@ =~= spec_encode_sc(*c));
            }
        },
        ServerCommand::TransferFile(x) => {
            out.push(0u8);
            out.push(6u8);
            out.push(1u8);
            put_bytes(&mut out, x);
            proof {
                assert(out@ =~= spec_encode_sc(*c));
            }
        },
        ServerCommand::SendLua(x) => {
            out.push(0u8);
            out.push(7u8);
            out.push(1u8);
            put_bytes(&mut out, x);
            proof {
                assert(out@ =~= spec_encode_sc(*c));
            }
        },
        ServerCommand::PlayerInfoUpdate(x) => {
            out.push(0u8);
            out.push(8u8);
            out.push(1u8);
            put_cipub(&mut out, x);
            proof {
                assert(out@ =~= spec_encode_sc(*c));
            }
        },
        ServerCommand::VehicleMetaUpdate(x) => {
            out.push(0u8);
            out.push(9u8);
            out.push(1u8);
            put_vm(&mut out, x);
            proof {
                assert(out@ =~= spec_encode_sc(*c));
            }
        },
        ServerCommand::PlayerDisconnected(x) => {
            out.push(0u8);
            out.push(10u8);
            out.push(1u8);
            put_u32(&mut out, *x);
            proof {
                assert(out@ =~= spec_encode_sc(*c));
            }
        },
        ServerCommand::VehicleLuaCommand(id, x) => {
            out.push(0u8);
            out.push(11u8);
            out.push(2u8);
            put_u32(&mut out, *id);
            put_bytes(&mut out, x);
            proof {
                assert(out@ =~= spec_encode_sc(*c));
            }
        },
        ServerCommand::CouplerAttached(x) => {
            out.push(0u8);
            out.push(12u8);
            out.push(4u8);
            put_c4(&mut out, x.obj_a, x.obj_b, x.node_a_id, x.node_b_id);
            proof {
                assert(out@ =~= spec_encode_sc(*c));
            }
        },
        ServerCommand::CouplerDetached(x) => {
            out.push(0u8);
            out.push(13u8);
            out.push(4u8);
            put_c4(&mut out, x.obj_a, x.obj_b, x.node_a_id, x.node_b_id);
            proof {
                assert(out@ =~= spec_encode_sc(*c));
            }
        },
        ServerCommand::ElectricsUndefinedUpdate(id, e) => {
            out.push(0u8);
            out.push(14u8);
            out.push(2u8);
            put_u32(&mut out, *id);
            put_pairs(&mut out, &e.diff);
            proof {
                assert(out@ =~= spec_encode_sc(*c));
            }
        },
        ServerCommand::ServerInfo(x) => {
            out.push(0u8);
            out.push(15u8);
            out.push(1u8);
            put_si(&mut out, x);
            proof {
                assert(out@ =~= spec_encode_sc(*c));
            }
        },
        ServerCommand::FilePart(name, data, chunk, total, offset) => {
            out.push(16u8);
            put_bytes(&mut out, name);
            put_bytes(&mut out, data);
            put_u32(&mut out, *chunk);
            put_u32(&mut out, *total);
            put_u32(&mut out, *offset);
            proof {
                assert(out@ =~= spec_encode_sc(*c));
            }
        },
        ServerCommand::VoiceChatPacket(id, p, x) => {
            out.push(17u8);
            put_u32(&mut out, *id);
            put_arr3(&mut out, p);
            put_bytes(&mut out, x);
            proof {
                assert(out@ =~= spec_encode_sc(*c));
            }
        },
        ServerCommand::Pong(x) => {
            out.push(18u8);
            put_u64(&mut out, *x);
            proof {
                assert(out@ =~= spec_encode_sc(*c));
            }
        },
    }
    out
}

/// Parses the fields of the server command selected by `tag`.
#[verifier::rlimit(100)]
#[verifier::spinoff_prover]
fn sc_parse_fields(buf: &[u8], tag: u8, pos: usize) -> (r: Result<(ServerCommand, usize), DecodeError>)
    ensures
        match r {
            Ok((c, p2)) => sc_tag(c) == tag && pos <= p2 <= buf@.len() && buf@.subrange(
                pos as int,
                p2 as int,
            ) == sc_fields(c) && p2 == pos + sc_fields(c).len() && sc_size_ok(c),
            Err(e) => true,
        },
        forall|c2: ServerCommand|
            #![trigger sc_fields(c2)]
            (sc_tag(c2) == tag && sc_size_ok(c2) && pos + sc_fields(c2).len() <= buf@.len()
                && buf@.subrange(pos as int, pos + sc_fields(c2).len()) == sc_fields(c2)) ==> (r matches Ok(w) && sc_eq(w.0, c2) && w.1 == pos + sc_fields(c2).len()),
        !sc_known_tag(tag) ==> r == Err::<(ServerCommand, usize), DecodeError>(DecodeError::UnknownTag(tag)),
{
    proof {
        vstd::bytes::lemma_auto_spec_u16_to_from_le_bytes();
        vstd::bytes::lemma_auto_spec_u32_to_from_le_bytes();
        vstd::bytes::lemma_auto_spec_u64_to_from_le_bytes();
    }
    if tag == 1 {
        match read_vu(buf, pos) {
            Ok(w) => {
                let c = ServerCommand::VehicleUpdate(w.0);
                let p2 = w.1;
                proof {
                    assert forall|c2: ServerCommand|
                        #![trigger sc_fields(c2)]
                        (sc_tag(c2) == tag && sc_size_ok(c2) && pos + sc_fields(c2).len() <= buf@.len()
                        && buf@.subrange(pos as int, pos + sc_fields(c2).len()) == sc_fields(c2)) implies (sc_eq(c, c2) && p2 == pos + sc_fields(c2).len()) by {
                        match c2 {
                            ServerCommand::VehicleUpdate(x) => {
                                assert(buf@.subrange(pos as int, pos + sc_fields(c2).len()) == sc_fields(c2));
                            },
                            _ => {},
                        }
                    }
                }
                return Ok((c, p2));
            },
            Err(e) => {
                proof {
                    assert forall|c2: ServerCommand|
                        #![trigger sc_fields(c2)]
                        (sc_tag(c2) == tag && sc_size_ok(c2) && pos + sc_fields(c2).len() <= buf@.len()
                        && buf@.subrange(pos as int, pos + sc_fields(c2).len()) == sc_fields(c2)) implies false by {
                        match c2 {
                            ServerCommand::VehicleUpdate(x) => {
                                assert(buf@.subrange(pos as int, pos + sc_fields(c2).len()) == sc_fields(c2));
                            },
                            _ => {},
                        }
                    }
                }
                return Err(e);
            },
        }
    }
    if tag == 2 {
        match read_vd(buf, pos) {
            Ok(w) => {
                let c = ServerCommand::VehicleSpawn(w.0);
                let p2 = w.1;
                proof {
                    assert forall|c2: ServerCommand|
                        #![trigger sc_fields(c2)]
                        (sc_tag(c2) == tag && sc_size_ok(c2) && pos + sc_fields(c2).len() <= buf@.len()
                        && buf@.subrange(pos as int, pos + sc_fields(c2).len()) == sc_fields(c2)) implies (sc_eq(c, c2) && p2 == pos + sc_fields(c2).len()) by {
                        match c2 {
                            ServerCommand::VehicleSpawn(x) => {
                                assert(buf@.subrange(pos as int, pos + sc_fields(c2).len()) == sc_fields(c2));
                            },
                            _ => {},
                        }
                    }
                }
                return Ok((c, p2));
            },
            Err(e) => {
                proof {
                    assert forall|c2: ServerCommand|
                        #![trigger sc_fields(c2)]
                        (sc_tag(c2) == tag && sc_size_ok(c2) && pos + sc_fields(c2).len() <= buf@.len()
                        && buf@.subrange(pos as int, pos + sc_fields(c2).len()) == sc_fields(c2)) implies false by {
                        match c2 {
                            ServerCommand::VehicleSpawn(x) => {
                                assert(buf@.subrange(pos as int, pos + sc_fields(c2).len()) == sc_fields(c2));
                            },
                            _ => {},
                        }
                    }
                }
                return Err(e);
            },
        }
    }
    if tag == 3 {
        match read_u32(buf, pos) {
            Ok(w) => {
                let c = ServerCommand::RemoveVehicle(w.0);
                let p2 = w.1;
                proof {
                    assert forall|c2: ServerCommand|
                        #![trigger sc_fields(c2)]
                        (sc_tag(c2) == tag && sc_size_ok(c2) && pos + sc_fields(c2).len() <= buf@.len()
                        && buf@.subrange(pos as int, pos + sc_fields(c2).len()) == sc_fields(c2)) implies (sc_eq(c, c2) && p2 == pos + sc_fields(c2).len()) by {
                        match c2 {
                            ServerCommand::RemoveVehicle(x) => {
                                assert(buf@.subrange(pos as int, pos + sc_fields(c2).len()) == sc_fields(c2));
                            },
                            _ => {},
                        }
                    }
                }
                return Ok((c, p2));
            },
            Err(e) => {
                proof {
                    assert forall|c2: ServerCommand|
                        #![trigger sc_fields(c2)]
                        (sc_tag(c2) == tag && sc_size_ok(c2) && pos + sc_fields(c2).len() <= buf@.len()
                        && buf@.subrange(pos as int, pos + sc_fields(c2).len()) == sc_fields(c2)) implies false by {
                        match c2 {
                            ServerCommand::RemoveVehicle(x) => {
                                assert(buf@.subrange(pos as int, pos + sc_fields(c2).len()) == sc_fields(c2));
                            },
                            _ => {},
                        }
                    }
                }
                return Err(e);
            },
        }
    }
    if tag == 4 {
        match read_reset(buf, pos) {
            Ok(w) => {
                let c = ServerCommand::ResetVehicle(w.0);
                let p2 = w.1;
                proof {
                    assert forall|c2: ServerCommand|
                        #![trigger sc_fields(c2)]
                        (sc_tag(c2) == tag && sc_size_ok(c2) && pos + sc_fields(c2).len() <= buf@.len()
                        && buf@.subrange(pos as int, pos + sc_fields(c2).len()) == sc_fields(c2)) implies (sc_eq(c, c2) && p2 == pos + sc_fields(c2).len()) by {
                        match c2 {
                            ServerCommand::ResetVehicle(x) => {
                                assert(buf@.subrange(pos as int, pos + sc_fields(c2).len()) == sc_fields(c2));
                            },
                            _ => {},
                        }
                    }
                }
                return Ok((c, p2));
            },
            Err(e) => {
                proof {
                    assert forall|c2: ServerCommand|
                        #![trigger sc_fields(c2)]
                        (sc_tag(c2) == tag && sc_size_ok(c2) && pos + sc_fields(c2).len() <= buf@.len()
                        && buf@.subrange(pos as int, pos + sc_fields(c2).len()) == sc_fields(c2)) implies false by {
                        match c2 {
                            ServerCommand::ResetVehicle(x) => {
                                assert(buf@.subrange(pos as int, pos + sc_fields(c2).len()) == sc_fields(c2));
                            },
                            _ => {},
                        }
                    }
                }
                return Err(e);
            },
        }
    }
    if tag == 5 {
        match read_chat(buf, pos) {
            Ok(w) => {
                let c = ServerCommand::Chat(w.0.0, w.0.1);
                let p2 = w.1;
                proof {
                    assert forall|c2: ServerCommand|
                        #![trigger sc_fields(c2)]
                        (sc_tag(c2) == tag && sc_size_ok(c2) && pos + sc_fields(c2).len() <= buf@.len()
                        && buf@.subrange(pos as int, pos + sc_fields(c2).len()) == sc_fields(c2)) implies (sc_eq(c, c2) && p2 == pos + sc_fields(c2).len()) by {
                        match c2 {
                            ServerCommand::Chat(x, who) => {
                                assert(buf@.subrange(pos as int, pos + sc_fields(c2).len()) == sc_fields(c2));
                            },
                            _ => {},
                        }
                    }
                }
                return Ok((c, p2));
            },
            Err(e) => {
                proof {
                    assert forall|c2: ServerCommand|
                        #![trigger sc_fields(c2)]
                        (sc_tag(c2) == tag && sc_size_ok(c2) && pos + sc_fields(c2).len() <= buf@.len()
                        && buf@.subrange(pos as int, pos + sc_fields(c2).len()) == sc_fields(c2)) implies false by {
                        match c2 {
                            ServerCommand::Chat(x, who) => {
                                assert(buf@.subrange(pos as int, pos + sc_fields(c2).len()) == sc_fields(c2));
                            },
                            _ => {},
                        }
                    }
                }
                return Err(e);
            },
        }
    }
    if tag == 6 {
        match read_bytes(buf, pos) {
            Ok(w) => {
                let c = ServerCommand::TransferFile(w.0);
                let p2 = w.1;
                proof {
                    assert forall|c2: ServerCommand|
                        #![trigger sc_fields(c2)]
                        (sc_tag(c2) == tag && sc_size_ok(c2) && pos + sc_fields(c2).len() <= buf@.len()
                        && buf@.subrange(pos as int, pos + sc_fields(c2).len()) == sc_fields(c2)) implies (sc_eq(c, c2) && p2 == pos + sc_fields(c2).len()) by {
                        match c2 {
                            ServerCommand::TransferFile(x) => {
                                assert(buf@.subrange(pos as int, pos + sc_fields(c2).len()) == sc_fields(c2));
                            },
                            _ => {},
                        }
                    }
                }
                return Ok((c, p2));
            },
            Err(e) => {
                proof {
                    assert forall|c2: ServerCommand|
                        #![trigger sc_fields(c2)]
                        (sc_tag(c2) == tag && sc_size_ok(c2) && pos + sc_fields(c2).len() <= buf@.len()
                        && buf@.subrange(pos as int, pos + sc_fields(c2).len()) == sc_fields(c2)) implies false by {
                        match c2 {
                            ServerCommand::TransferFile(x) => {
                                assert(buf@.subrange(pos as int, pos + sc_fields(c2).len()) == sc_fields(c2));
                            },
                            _ => {},
                        }
                    }
                }
                return Err(e);
            },
        }
    }
    if tag == 7 {
        match read_bytes(buf, pos) {
            Ok(w) => {
                let c = ServerCommand::SendLua(w.0);
                let p2 = w.1;
                proof {
                    assert forall|c2: ServerCommand|
                        #![trigger sc_fields(c2)]
                        (sc_tag(c2) == tag && sc_size_ok(c2) && pos + sc_fields(c2).len() <= buf@.len()
                        && buf@.subrange(pos as int, pos + sc_fields(c2).len()) == sc_fields(c2)) implies (sc_eq(c, c2) && p2 == pos + sc_fields(c2).len()) by {
                        match c2 {
                            ServerCommand::SendLua(x) => {
                                assert(buf@.subrange(pos as int, pos + sc_fields(c2).len()) == sc_fields(c2));
                            },
                            _ => {},
                        }
                    }
                }
                return Ok((c, p2));
            },
            Err(e) => {
                proof {
                    assert forall|c2: ServerCommand|
                        #![trigger sc_fields(c2)]
                        (sc_tag(c2) == tag && sc_size_ok(c2) && pos + sc_fields(c2).len() <= buf@.len()
                        && buf@.subrange(pos as int, pos + sc_fields(c2).len()) == sc_fields(c2)) implies false by {
                        match c2 {
                            ServerCommand::SendLua(x) => {
                                assert(buf@.subrange(pos as int, pos + sc_fields(c2).len()) == sc_fields(c2));
                            },
                            _ => {},
                        }
                    }
                }
                return Err(e);
            },
        }
    }
    if tag == 8 {
        match read_cipub(buf, pos) {
            Ok(w) => {
                let c = ServerCommand::PlayerInfoUpdate(w.0);
                let p2 = w.1;
                proof {
                    assert forall|c2: ServerCommand|
                        #![trigger sc_fields(c2)]
                        (sc_tag(c2) == tag && sc_size_ok(c2) && pos + sc_fields(c2).len() <= buf@.len()
                        && buf@.subrange(pos as int, pos + sc_fields(c2).len()) == sc_fields(c2)) implies (sc_eq(c, c2) && p2 == pos + sc_fields(c2).len()) by {
                        match c2 {
                            ServerCommand::PlayerInfoUpdate(x) => {
                                assert(buf@.subrange(pos as int, pos + sc_fields(c2).len()) == sc_fields(c2));
                            },
                            _ => {},
                        }
                    }
                }
                return Ok((c, p2));
            },
            Err(e) => {
                proof {
                    assert forall|c2: ServerCommand|
                        #![trigger sc_fields(c2)]
                        (sc_tag(c2) == tag && sc_size_ok(c2) && pos + sc_fields(c2).len() <= buf@.len()
                        && buf@.subrange(pos as int, pos + sc_fields(c2).len()) == sc_fields(c2)) implies false by {
                        match c2 {
                            ServerCommand::PlayerInfoUpdate(x) => {
                                assert(buf@.subrange(pos as int, pos + sc_fields(c2).len()) == sc_fields(c2));
                            },
                            _ => {},
                        }
                    }
                }
                return Err(e);
            },
        }
    }
    if tag == 9 {
        match read_vm(buf, pos) {
            Ok(w) => {
                let c = ServerCommand::VehicleMetaUpdate(w.0);
                let p2 = w.1;
                proof {
                    assert forall|c2: ServerCommand|
                        #![trigger sc_fields(c2)]
                        (sc_tag(c2) == tag && sc_size_ok(c2) && pos + sc_fields(c2).len() <= buf@.len()
                        && buf@.subrange(pos as int, pos + sc_fields(c2).len()) == sc_fields(c2)) implies (sc_eq(c, c2) && p2 == pos + sc_fields(c2).len()) by {
                        match c2 {
                            ServerCommand::VehicleMetaUpdate(x) => {
                                assert(buf@.subrange(pos as int, pos + sc_fields(c2).len()) == sc_fields(c2));
                            },
                            _ => {},
                        }
                    }
                }
                return Ok((c, p2));
            },
            Err(e) => {
                proof {
                    assert forall|c2: ServerCommand|
                        #![trigger sc_fields(c2)]
                        (sc_tag(c2) == tag && sc_size_ok(c2) && pos + sc_fields(c2).len() <= buf@.len()
                        && buf@.subrange(pos as int, pos + sc_fields(c2).len()) == sc_fields(c2)) implies false by {
                        match c2 {
                            ServerCommand::VehicleMetaUpdate(x) => {
                                assert(buf@.subrange(pos as int, pos + sc_fields(c2).len()) == sc_fields(c2));
                            },
                            _ => {},
                        }
                    }
                }
                return Err(e);
            },
        }
    }
    if tag == 10 {
        match read_u32(buf, pos) {
            Ok(w) => {
                let c = ServerCommand::PlayerDisconnected(w.0);
                let p2 = w.1;
                proof {
                    assert forall|c2: ServerCommand|
                        #![trigger sc_fields(c2)]
                        (sc_tag(c2) == tag && sc_size_ok(c2) && pos + sc_fields(c2).len() <= buf@.len()
                        && buf@.subrange(pos as int, pos + sc_fields(c2).len()) == sc_fields(c2)) implies (sc_eq(c, c2) && p2 == pos + sc_fields(c2).len()) by {
                        match c2 {
                            ServerCommand::PlayerDisconnected(x) => {
                                assert(buf@.subrange(pos as int, pos + sc_fields(c2).len()) == sc_fields(c2));
                            },
                            _ => {},
                        }
                    }
                }
                return Ok((c, p2));
            },
            Err(e) => {
                proof {
                    assert forall|c2: ServerCommand|
                        #![trigger sc_fields(c2)]
                        (sc_tag(c2) == tag && sc_size_ok(c2) && pos + sc_fields(c2).len() <= buf@.len()
                        && buf@.subrange(pos as int, pos + sc_fields(c2).len()) == sc_fields(c2)) implies false by {
                        match c2 {
                            ServerCommand::PlayerDisconnected(x) => {
                                assert(buf@.subrange(pos as int, pos + sc_fields(c2).len()) == sc_fields(c2));
                            },
                            _ => {},
                        }
                    }
                }
                return Err(e);
            },
        }
    }
    if tag == 11 {
        match read_u32_bytes(buf, pos) {
            Ok(w) => {
                let c = ServerCommand::VehicleLuaCommand(w.0.0, w.0.1);
                let p2 = w.1;
                proof {
                    assert forall|c2: ServerCommand|
                        #![trigger sc_fields(c2)]
                        (sc_tag(c2) == tag && sc_size_ok(c2) && pos + sc_fields(c2).len() <= buf@.len()
                        && buf@.subrange(pos as int, pos + sc_fields(c2).len()) == sc_fields(c2)) implies (sc_eq(c, c2) && p2 == pos + sc_fields(c2).len()) by {
                        match c2 {
                            ServerCommand::VehicleLuaCommand(id, x) => {
                                assert(buf@.subrange(pos as int, pos + sc_fields(c2).len()) == sc_fields(c2));
                            },
                            _ => {},
                        }
                    }
                }
                return Ok((c, p2));
            },
            Err(e) => {
                proof {
                    assert forall|c2: ServerCommand|
                        #![trigger sc_fields(c2)]
                        (sc_tag(c2) == tag && sc_size_ok(c2) && pos + sc_fields(c2).len() <= buf@.len()
                        && buf@.subrange(pos as int, pos + sc_fields(c2).len()) == sc_fields(c2)) implies false by {
                        match c2 {
                            ServerCommand::VehicleLuaCommand(id, x) => {
                                assert(buf@.subrange(pos as int, pos + sc_fields(c2).len()) == sc_fields(c2));
                            },
                            _ => {},
                        }
                    }
                }
                return Err(e);
            },
        }
    }
    if tag == 12 {
        match read_c4(buf, pos) {
            Ok(w) => {
                let c = ServerCommand::CouplerAttached(CouplerAttached { obj_a: w.0.0, obj_b: w.0.1, node_a_id: w.0.2, node_b_id: w.0.3 });
                let p2 = w.1;
                proof {
                    assert forall|c2: ServerCommand|
                        #![trigger sc_fields(c2)]
                        (sc_tag(c2) == tag && sc_size_ok(c2) && pos + sc_fields(c2).len() <= buf@.len()
                        && buf@.subrange(pos as int, pos + sc_fields(c2).len()) == sc_fields(c2)) implies (sc_eq(c, c2) && p2 == pos + sc_fields(c2).len()) by {
                        match c2 {
                            ServerCommand::CouplerAttached(x) => {
                                assert(buf@.subrange(pos as int, pos + sc_fields(c2).len()) == sc_fields(c2));
                            },
                            _ => {},
                        }
                    }
                }
                return Ok((c, p2));
            },
            Err(e) => {
                proof {
                    assert forall|c2: ServerCommand|
                        #![trigger sc_fields(c2)]
                        (sc_tag(c2) == tag && sc_size_ok(c2) && pos + sc_fields(c2).len() <= buf@.len()
                        && buf@.subrange(pos as int, pos + sc_fields(c2).len()) == sc_fields(c2)) implies false by {
                        match c2 {
                            ServerCommand::CouplerAttached(x) => {
                                assert(buf@.subrange(pos as int, pos + sc_fields(c2).len()) == sc_fields(c2));
                            },
                            _ => {},
                        }
                    }
                }
                return Err(e);
            },
        }
    }
    if tag == 13 {
        match read_c4(buf, pos) {
            Ok(w) => {
                let c = ServerCommand::CouplerDetached(CouplerDetached { obj_a: w.0.0, obj_b: w.0.1, node_a_id: w.0.2, node_b_id: w.0.3 });
                let p2 = w.1;
                proof {
                    assert forall|c2: ServerCommand|
                        #![trigger sc_fields(c2)]
                        (sc_tag(c2) == tag && sc_size_ok(c2) && pos + sc_fields(c2).len() <= buf@.len()
                        && buf@.subrange(pos as int, pos + sc_fields(c2).len()) == sc_fields(c2)) implies (sc_eq(c, c2) && p2 == pos + sc_fields(c2).len()) by {
                        match c2 {
                            ServerCommand::CouplerDetached(x) => {
                                assert(buf@.subrange(pos as int, pos + sc_fields(c2).len()) == sc_fields(c2));
                            },
                            _ => {},
                        }
                    }
                }
                return Ok((c, p2));
            },
            Err(e) => {
                proof {
                    assert forall|c2: ServerCommand|
                        #![trigger sc_fields(c2)]
                        (sc_tag(c2) == tag && sc_size_ok(c2) && pos + sc_fields(c2).len() <= buf@.len()
                        && buf@.subrange(pos as int, pos + sc_fields(c2).len()) == sc_fields(c2)) implies false by {
                        match c2 {
                            ServerCommand::CouplerDetached(x) => {
                                assert(buf@.subrange(pos as int, pos + sc_fields(c2).len()) == sc_fields(c2));
                            },
                            _ => {},
                        }
                    }
                }
                return Err(e);
            },
        }
    }
    if tag == 14 {
        match read_u32_pairs(buf, pos) {
            Ok(w) => {
                let c = ServerCommand::ElectricsUndefinedUpdate(w.0.0, ElectricsUndefined { diff: w.0.1 });
                let p2 = w.1;
                proof {
                    assert forall|c2: ServerCommand|
                        #![trigger sc_fields(c2)]
                        (sc_tag(c2) == tag && sc_size_ok(c2) && pos + sc_fields(c2).len() <= buf@.len()
                        && buf@.subrange(pos as int, pos + sc_fields(c2).len()) == sc_fields(c2)) implies (sc_eq(c, c2) && p2 == pos + sc_fields(c2).len()) by {
                        match c2 {
                            ServerCommand::ElectricsUndefinedUpdate(id, e) => {
                                assert(buf@.subrange(pos as int, pos + sc_fields(c2).len()) == sc_fields(c2));
                                assert(pv(w.0.1@) == pv(e.diff@));
                                assert(crate::vehicle::eu_eq(ElectricsUndefined { diff: w.0.1 }, e)) by {
                                    assert forall|i: int| 0 <= i < w.0.1@.len() implies w.0.1@[i].0@
                                        == e.diff@[i].0@ && w.0.1@[i].1 == e.diff@[i].1 by {
                                        assert(pv(w.0.1@)[i] == pv(e.diff@)[i]);
                                    }
                                }
                            },
                            _ => {},
                        }
                    }
                }
                return Ok((c, p2));
            },
            Err(e) => {
                proof {
                    assert forall|c2: ServerCommand|
                        #![trigger sc_fields(c2)]
                        (sc_tag(c2) == tag && sc_size_ok(c2) && pos + sc_fields(c2).len() <= buf@.len()
                        && buf@.subrange(pos as int, pos + sc_fields(c2).len()) == sc_fields(c2)) implies false by {
                        match c2 {
                            ServerCommand::ElectricsUndefinedUpdate(id, e) => {
                                assert(buf@.subrange(pos as int, pos + sc_fields(c2).len()) == sc_fields(c2));
                            },
                            _ => {},
                        }
                    }
                }
                return Err(e);
            },
        }
    }
    if tag == 15 {
        match read_si(buf, pos) {
            Ok(w) => {
                let c = ServerCommand::ServerInfo(w.0);
                let p2 = w.1;
                proof {
                    assert forall|c2: ServerCommand|
                        #![trigger sc_fields(c2)]
                        (sc_tag(c2) == tag && sc_size_ok(c2) && pos + sc_fields(c2).len() <= buf@.len()
                        && buf@.subrange(pos as int, pos + sc_fields(c2).len()) == sc_fields(c2)) implies (sc_eq(c, c2) && p2 == pos + sc_fields(c2).len()) by {
                        match c2 {
                            ServerCommand::ServerInfo(x) => {
                                assert(buf@.subrange(pos as int, pos + sc_fields(c2).len()) == sc_fields(c2));
                            },
                            _ => {},
                        }
                    }
                }
                return Ok((c, p2));
            },
            Err(e) => {
                proof {
                    assert forall|c2: ServerCommand|
                        #![trigger sc_fields(c2)]
                        (sc_tag(c2) == tag && sc_size_ok(c2) && pos + sc_fields(c2).len() <= buf@.len()
                        && buf@.subrange(pos as int, pos + sc_fields(c2).len()) == sc_fields(c2)) implies false by {
                        match c2 {
                            ServerCommand::ServerInfo(x) => {
                                assert(buf@.subrange(pos as int, pos + sc_fields(c2).len()) == sc_fields(c2));
                            },
                            _ => {},
                        }
                    }
                }
                return Err(e);
            },
        }
    }
    if tag == 16 {
        match read_filepart(buf, pos) {
            Ok(w) => {
                let c = ServerCommand::FilePart(w.0.0, w.0.1, w.0.2, w.0.3, w.0.4);
                let p2 = w.1;
                proof {
                    assert forall|c2: ServerCommand|
                        #![trigger sc_fields(c2)]
                        (sc_tag(c2) == tag && sc_size_ok(c2) && pos + sc_fields(c2).len() <= buf@.len()
                        && buf@.subrange(pos as int, pos + sc_fields(c2).len()) == sc_fields(c2)) implies (sc_eq(c, c2) && p2 == pos + sc_fields(c2).len()) by {
                        match c2 {
                            ServerCommand::FilePart(name, data, chunk, total, offset) => {
                                assert(buf@.subrange(pos as int, pos + sc_fields(c2).len()) == sc_fields(c2));
                            },
                            _ => {},
                        }
                    }
                }
                return Ok((c, p2));
            },
            Err(e) => {
                proof {
                    assert forall|c2: ServerCommand|
                        #![trigger sc_fields(c2)]
                        (sc_tag(c2) == tag && sc_size_ok(c2) && pos + sc_fields(c2).len() <= buf@.len()
                        && buf@.subrange(pos as int, pos + sc_fields(c2).len()) == sc_fields(c2)) implies false by {
                        match c2 {
                            ServerCommand::FilePart(name, data, chunk, total, offset) => {
                                assert(buf@.subrange(pos as int, pos + sc_fields(c2).len()) == sc_fields(c2));
                            },
                            _ => {},
                        }
                    }
                }
                return Err(e);
            },
        }
    }
    if tag == 17 {
        match read_voice(buf, pos) {
            Ok(w) => {
                let c = ServerCommand::VoiceChatPacket(w.0.0, w.0.1, w.0.2);
                let p2 = w.1;
                proof {
                    assert forall|c2: ServerCommand|
                        #![trigger sc_fields(c2)]
                        (sc_tag(c2) == tag && sc_size_ok(c2) && pos + sc_fields(c2).len() <= buf@.len()
                        && buf@.subrange(pos as int, pos + sc_fields(c2).len()) == sc_fields(c2)) implies (sc_eq(c, c2) && p2 == pos + sc_fields(c2).len()) by {
                        match c2 {
                            ServerCommand::VoiceChatPacket(id, p, x) => {
                                assert(buf@.subrange(pos as int, pos + sc_fields(c2).len()) == sc_fields(c2));
                            },
                            _ => {},
                        }
                    }
                }
                return Ok((c, p2));
            },
            Err(e) => {
                proof {
                    assert forall|c2: ServerCommand|
                        #![trigger sc_fields(c2)]
                        (sc_tag(c2) == tag && sc_size_ok(c2) && pos + sc_fields(c2).len() <= buf@.len()
                        && buf@.subrange(pos as int, pos + sc_fields(c2).len()) == sc_fields(c2)) implies false by {
                        match c2 {
                            ServerCommand::VoiceChatPacket(id, p, x) => {
                                assert(buf@.subrange(pos as int, pos + sc_fields(c2).len()) == sc_fields(c2));
                            },
                            _ => {},
                        }
                    }
                }
                return Err(e);
            },
        }
    }
    if tag == 18 {
        match read_u64(buf, pos) {
            Ok(w) => {
                let c = ServerCommand::Pong(w.0);
                let p2 = w.1;
                proof {
                    assert forall|c2: ServerCommand|
                        #![trigger sc_fields(c2)]
                        (sc_tag(c2) == tag && sc_size_ok(c2) && pos + sc_fields(c2).len() <= buf@.len()
                        && buf@.subrange(pos as int, pos + sc_fields(c2).len()) == sc_fields(c2)) implies (sc_eq(c, c2) && p2 == pos + sc_fields(c2).len()) by {
                        match c2 {
                            ServerCommand::Pong(x) => {
                                assert(buf@.subrange(pos as int, pos + sc_fields(c2).len()) == sc_fields(c2));
                            },
                            _ => {},
                        }
                    }
                }
                return Ok((c, p2));
            },
            Err(e) => {
                proof {
                    assert forall|c2: ServerCommand|
                        #![trigger sc_fields(c2)]
                        (sc_tag(c2) == tag && sc_size_ok(c2) && pos + sc_fields(c2).len() <= buf@.len()
                        && buf@.subrange(pos as int, pos + sc_fields(c2).len()) == sc_fields(c2)) implies false by {
                        match c2 {
                            ServerCommand::Pong(x) => {
                                assert(buf@.subrange(pos as int, pos + sc_fields(c2).len()) == sc_fields(c2));
                            },
                            _ => {},
                        }
                    }
                }
                return Err(e);
            },
        }
    }
    Err(DecodeError::UnknownTag(tag))
}

/// Decodes one server command from a frame payload. Both the compact and
/// the structured form are accepted; malformed or truncated input comes
/// back as a typed error, and an unknown tag is reported as such so the
/// caller can drop the frame and keep the stream aligned.
#[verifier::rlimit(100)]
#[verifier::spinoff_prover]
pub fn decode_server_command(buf: &[u8]) -> (r: Result<ServerCommand, DecodeError>)
    ensures
        match r {
            Ok(c) => sc_size_ok(c) && (buf@ == sc_compact(c) || buf@ == sc_structured(c)),
            Err(e) => true,
        },
        forall|c: ServerCommand|
            #![trigger sc_compact(c)]
            (sc_size_ok(c) && buf@ == sc_compact(c)) ==> (r matches Ok(c2) && sc_eq(c2, c)),
        forall|c: ServerCommand|
            #![trigger sc_structured(c)]
            (sc_size_ok(c) && buf@ == sc_structured(c)) ==> (r matches Ok(c2) && sc_eq(c2, c)),
        buf@.len() == 0 ==> r == Err::<ServerCommand, DecodeError>(DecodeError::Truncated),
        buf@.len() > 0 && buf@[0] != 0 && !sc_known_tag(buf@[0]) ==> r == Err::<
            ServerCommand,
            DecodeError,
        >(DecodeError::UnknownTag(buf@[0])),
{
    proof {
        vstd::bytes::lemma_auto_spec_u16_to_from_le_bytes();
        vstd::bytes::lemma_auto_spec_u32_to_from_le_bytes();
        vstd::bytes::lemma_auto_spec_u64_to_from_le_bytes();
    }
    let (t, p0) = match read_u8(buf, 0) {
        Ok(v) => v,
        Err(e) => {
            proof {
                assert forall|c: ServerCommand| #![trigger sc_compact(c)] (sc_size_ok(c) && buf@
                    == sc_compact(c)) implies false by {}
                assert forall|c: ServerCommand| #![trigger sc_structured(c)] (sc_size_ok(c) && buf@
                    == sc_structured(c)) implies false by {}
            }
            return Err(e);
        },
    };
    if t != 0 {
        let (c, p2) = match sc_parse_fields(buf, t, p0) {
            Ok(v) => v,
            Err(e) => {
                proof {
                    assert forall|c: ServerCommand| #![trigger sc_compact(c)] (sc_size_ok(c) && buf@
                        == sc_compact(c)) implies false by {
                        assert(buf@.subrange(0, 1 + sc_fields(c).len() as int) =~= buf@);
                        lemma_peel(buf@, 0, seq![sc_tag(c)], sc_fields(c));
                    }
                    assert forall|c: ServerCommand| #![trigger sc_structured(c)] (sc_size_ok(c) && buf@
                        == sc_structured(c)) implies false by {}
                }
                return Err(e);
            },
        };
        if p2 == buf.len() {
            proof {
                assert(buf@ =~= sc_compact(c));
                assert forall|c2: ServerCommand| #![trigger sc_compact(c2)] (sc_size_ok(c2) && buf@
                    == sc_compact(c2)) implies sc_eq(c, c2) by {
                    assert(buf@.subrange(0, 1 + sc_fields(c2).len() as int) =~= buf@);
                    lemma_peel(buf@, 0, seq![sc_tag(c2)], sc_fields(c2));
                }
                assert forall|c2: ServerCommand| #![trigger sc_structured(c2)] (sc_size_ok(c2) && buf@
                    == sc_structured(c2)) implies false by {}
            }
            Ok(c)
        } else {
            proof {
                assert forall|c2: ServerCommand| #![trigger sc_compact(c2)] (sc_size_ok(c2) && buf@
                    == sc_compact(c2)) implies false by {
                    assert(buf@.subrange(0, 1 + sc_fields(c2).len() as int) =~= buf@);
                    lemma_peel(buf@, 0, seq![sc_tag(c2)], sc_fields(c2));
                }
                assert forall|c2: ServerCommand| #![trigger sc_structured(c2)] (sc_size_ok(c2) && buf@
                    == sc_structured(c2)) implies false by {}
            }
            Err(DecodeError::Malformed)
        }
    } else {
        let (t2, p1) = match read_u8(buf, p0) {
            Ok(v) => v,
            Err(e) => {
                proof {
                    assert forall|c: ServerCommand| #![trigger sc_structured(c)] (sc_size_ok(c) && buf@
                        == sc_structured(c)) implies false by {}
                }
                return Err(e);
            },
        };
        let (ar, p2) = match read_u8(buf, p1) {
            Ok(v) => v,
            Err(e) => {
                proof {
                    assert forall|c: ServerCommand| #![trigger sc_structured(c)] (sc_size_ok(c) && buf@
                        == sc_structured(c)) implies false by {}
                }
                return Err(e);
            },
        };
        if ar != sc_arity_of(t2) {
            proof {
                assert forall|c: ServerCommand| #![trigger sc_structured(c)] (sc_size_ok(c) && buf@
                    == sc_structured(c)) implies false by {}
            }
            return Err(DecodeError::Malformed);
        }
        let (c, p3) = match sc_parse_fields(buf, t2, p2) {
            Ok(v) => v,
            Err(e) => {
                proof {
                    assert forall|c: ServerCommand| #![trigger sc_structured(c)] (sc_size_ok(c) && buf@
                        == sc_structured(c)) implies false by {
                        assert(buf@.subrange(0, 3 + sc_fields(c).len() as int) =~= buf@);
                        lemma_peel(buf@, 0, seq![0u8, sc_tag(c), sc_tag_arity(sc_tag(c))], sc_fields(c));
                    }
                }
                return Err(e);
            },
        };
        if p3 == buf.len() {
            proof {
                assert(buf@ =~= sc_structured(c));
                assert forall|c2: ServerCommand| #![trigger sc_structured(c2)] (sc_size_ok(c2) && buf@
                    == sc_structured(c2)) implies sc_eq(c, c2) by {
                    assert(buf@.subrange(0, 3 + sc_fields(c2).len() as int) =~= buf@);
                    lemma_peel(buf@, 0, seq![0u8, sc_tag(c2), sc_tag_arity(sc_tag(c2))], sc_fields(c2));
                }
                assert forall|c2: ServerCommand| #![trigger sc_compact(c2)] (sc_size_ok(c2) && buf@
                    == sc_compact(c2)) implies false by {}
            }
            Ok(c)
        } else {
            proof {
                assert forall|c2: ServerCommand| #![trigger sc_structured(c2)] (sc_size_ok(c2) && buf@
                    == sc_structured(c2)) implies false by {
                    assert(buf@.subrange(0, 3 + sc_fields(c2).len() as int) =~= buf@);
                    lemma_peel(buf@, 0, seq![0u8, sc_tag(c2), sc_tag_arity(sc_tag(c2))], sc_fields(c2));
                }
                assert forall|c2: ServerCommand| #![trigger sc_compact(c2)] (sc_size_ok(c2) && buf@
                    == sc_compact(c2)) implies false by {}
            }
            Err(DecodeError::Malformed)
        }
    }
}

} // verus!
