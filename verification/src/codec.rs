//! Byte-level primitives of the wire codec: little-endian integers,
//! length-prefixed byte strings, options and the shared record layouts, each
//! with an exact reading of what bytes it produces and accepts.
//!
//! Every writer appends `enc_*` of its value; every reader is sound (what it
//! accepts is exactly the encoding of what it returns) and complete (wherever
//! an encoding lies at the read position, it is accepted). Readers never
//! panic: any input that does not carry an encoding yields a typed error.
use crate::vehicle::Electrics;
use crate::vehicle::Gearbox;
use crate::vehicle::Transform;
use crate::vehicle::gb_eq;
use crate::vehicle::opt_bytes_eq;
use vstd::bytes::lemma_auto_spec_u16_to_from_le_bytes;
use vstd::bytes::lemma_auto_spec_u32_to_from_le_bytes;
use vstd::bytes::lemma_auto_spec_u64_to_from_le_bytes;
use vstd::bytes::spec_u16_to_le_bytes;
use vstd::bytes::spec_u32_to_le_bytes;
use vstd::bytes::spec_u64_to_le_bytes;
use vstd::prelude::*;
use vstd::slice::slice_subrange;
use vstd::slice::slice_to_vec;

verus! {

/// Why a frame or command failed to decode. Decoding never panics: malformed
/// or truncated input always comes back as one of these.
#[derive(Clone, Copy, Debug, PartialEq, Eq, Structural)]
pub enum DecodeError {
    /// The input ends before the layout does.
    Truncated,
    /// A field's bytes violate its shape, or the input carries bytes past the
    /// end of the command.
    Malformed,
    /// The tag selects no known command; the frame still carried its own
    /// length, so the stream stays aligned and only this frame is lost.
    UnknownTag(u8),
}

/// The bytes of one little-endian 16-bit integer.
pub open spec fn enc_u16(x: u16) -> Seq<u8> {
    spec_u16_to_le_bytes(x)
}

/// The bytes of one little-endian 32-bit integer.
pub open spec fn enc_u32(x: u32) -> Seq<u8> {
    spec_u32_to_le_bytes(x)
}

/// The bytes of one little-endian 64-bit integer.
pub open spec fn enc_u64(x: u64) -> Seq<u8> {
    spec_u64_to_le_bytes(x)
}

/// A byte string on the wire: its length as a 32-bit prefix, then its bytes.
pub open spec fn enc_bytes(v: Seq<u8>) -> Seq<u8> {
    enc_u32(v.len() as u32) + v
}

/// An optional byte string: a presence byte, then the string when present.
pub open spec fn enc_opt_bytes(o: Option<Seq<u8>>) -> Seq<u8> {
    match o {
        None => seq![0u8],
        Some(v) => seq![1u8] + enc_bytes(v),
    }
}

/// An optional 32-bit integer: a presence byte, then the value when present.
pub open spec fn enc_opt_u32(o: Option<u32>) -> Seq<u8> {
    match o {
        None => seq![0u8],
        Some(x) => seq![1u8] + enc_u32(x),
    }
}

/// A boolean: one byte, 0 or 1.
pub open spec fn enc_bool(b: bool) -> Seq<u8> {
    seq![if b { 1u8 } else { 0u8 }]
}

/// The view of an optional byte string.
pub open spec fn ob(o: Option<Vec<u8>>) -> Option<Seq<u8>> {
    match o {
        None => None,
        Some(v) => Some(v@),
    }
}

/// Three raw 32-bit words.
pub open spec fn enc_arr3(a: [u32; 3]) -> Seq<u8> {
    enc_u32(a@[0]) + enc_u32(a@[1]) + enc_u32(a@[2])
}

/// Four raw 32-bit words.
pub open spec fn enc_arr4(a: [u32; 4]) -> Seq<u8> {
    enc_u32(a@[0]) + enc_u32(a@[1]) + enc_u32(a@[2]) + enc_u32(a@[3])
}

/// A transform: position, rotation, velocity, angular velocity.
pub open spec fn enc_transform(t: Transform) -> Seq<u8> {
    enc_arr3(t.position) + enc_arr4(t.rotation) + enc_arr3(t.velocity) + enc_arr3(
        t.angular_velocity,
    )
}

/// The five fixed electrical channels.
pub open spec fn enc_electrics(e: Electrics) -> Seq<u8> {
    enc_u32(e.throttle_input) + enc_u32(e.brake_input) + enc_u32(e.clutch) + enc_u32(e.parkingbrake)
        + enc_u32(e.steering_input)
}

/// The two's-complement byte of a signed gear index.
pub open spec fn i8_byte(x: i8) -> u8 {
    if x >= 0 {
        x as u8
    } else {
        (x + 256) as u8
    }
}

/// Encodes a signed gear index as its two's-complement byte.
pub fn i8_to_byte(x: i8) -> (r: u8)
    ensures
        r == i8_byte(x),
{
    if x >= 0 {
        x as u8
    } else {
        ((x as i16) + 256) as u8
    }
}

/// Decodes a two's-complement byte back into a signed gear index.
pub fn byte_to_i8(b: u8) -> (r: i8)
    ensures
        i8_byte(r) == b,
{
    if b < 128 {
        b as i8
    } else {
        ((b as i16) - 256) as i8
    }
}

/// Two's-complement bytes determine their gear index.
pub proof fn lemma_i8_byte_inj(a: i8, b: i8)
    requires
        i8_byte(a) == i8_byte(b),
    ensures
        a == b,
{
    if a >= 0 && b >= 0 {
    } else if a < 0 && b < 0 {
    } else if a >= 0 && b < 0 {
        assert(i8_byte(a) < 128 && i8_byte(b) >= 128);
    } else {
        assert(i8_byte(b) < 128 && i8_byte(a) >= 128);
    }
}

/// A gearbox snapshot. The two gear indices travel as raw bytes.
pub open spec fn enc_gearbox(g: Gearbox) -> Seq<u8> {
    enc_bool(g.arcade) + enc_u32(g.lock_coef) + enc_opt_bytes(ob(g.mode)) + seq![
        i8_byte(g.gear_indices@[0]),
        i8_byte(g.gear_indices@[1]),
    ]
}

/// Appends the encoding of a 16-bit integer.
pub fn put_u16(out: &mut Vec<u8>, x: u16)
    ensures
        final(out)@ == old(out)@ + enc_u16(x),
{
    let mut b = vstd::bytes::u16_to_le_bytes(x);
    out.append(&mut b);
}

/// Appends the encoding of a 32-bit integer.
pub fn put_u32(out: &mut Vec<u8>, x: u32)
    ensures
        final(out)@ == old(out)@ + enc_u32(x),
{
    let mut b = vstd::bytes::u32_to_le_bytes(x);
    out.append(&mut b);
}

/// Appends the encoding of a 64-bit integer.
pub fn put_u64(out: &mut Vec<u8>, x: u64)
    ensures
        final(out)@ == old(out)@ + enc_u64(x),
{
    let mut b = vstd::bytes::u64_to_le_bytes(x);
    out.append(&mut b);
}

/// Appends a length-prefixed byte string.
pub fn put_bytes(out: &mut Vec<u8>, v: &Vec<u8>)
    requires
        v@.len() <= 0xFFFF_FFFF,
    ensures
        final(out)@ == old(out)@ + enc_bytes(v@),
{
    put_u32(out, v.len() as u32);
    let ghost mid = out@;
    let n = v.len();
    let mut i: usize = 0;
    while i < n
        invariant
            0 <= i <= n,
            n == v@.len(),
            out@ == mid + v@.take(i as int),
        decreases n - i,
    {
        out.push(v[i]);
        proof {
            assert(mid + v@.take(i as int + 1) =~= (mid + v@.take(i as int)).push(v@[i as int]));
        }
        i = i + 1;
    }
    proof {
        assert(v@.take(n as int) =~= v@);
        assert(out@ == mid + v@);
    }
}

/// Appends an optional byte string.
pub fn put_opt_bytes(out: &mut Vec<u8>, o: &Option<Vec<u8>>)
    requires
        match *o {
            Some(v) => v@.len() <= 0xFFFF_FFFF,
            None => true,
        },
    ensures
        final(out)@ == old(out)@ + enc_opt_bytes(ob(*o)),
{
    match o {
        None => {
            out.push(0u8);
            proof {
                assert(out@ =~= old(out)@ + enc_opt_bytes(ob(*o)));
            }
        },
        Some(v) => {
            out.push(1u8);
            let ghost mid = out@;
            proof {
                assert(mid =~= old(out)@ + seq![1u8]);
            }
            put_bytes(out, v);
            proof {
                assert(old(out)@ + seq![1u8] + enc_bytes(v@) =~= old(out)@ + (seq![1u8]
                    + enc_bytes(v@)));
            }
        },
    }
}

/// Appends an optional 32-bit integer.
pub fn put_opt_u32(out: &mut Vec<u8>, o: &Option<u32>)
    ensures
        final(out)@ == old(out)@ + enc_opt_u32(*o),
{
    match o {
        None => {
            out.push(0u8);
            proof {
                assert(out@ =~= old(out)@ + enc_opt_u32(*o));
            }
        },
        Some(x) => {
            out.push(1u8);
            let ghost mid = out@;
            proof {
                assert(mid =~= old(out)@ + seq![1u8]);
            }
            put_u32(out, *x);
            proof {
                assert(old(out)@ + seq![1u8] + enc_u32(*x) =~= old(out)@ + (seq![1u8] + enc_u32(
                    *x,
                )));
            }
        },
    }
}

/// Appends a boolean.
pub fn put_bool(out: &mut Vec<u8>, b: bool)
    ensures
        final(out)@ == old(out)@ + enc_bool(b),
{
    out.push(if b { 1u8 } else { 0u8 });
    proof {
        assert(out@ =~= old(out)@ + enc_bool(b));
    }
}

/// Appends three raw words.
pub fn put_arr3(out: &mut Vec<u8>, a: &[u32; 3])
    ensures
        final(out)@ == old(out)@ + enc_arr3(*a),
{
    put_u32(out, a[0]);
    put_u32(out, a[1]);
    put_u32(out, a[2]);
    proof {
        assert(out@ =~= old(out)@ + enc_arr3(*a));
    }
}

/// Appends four raw words.
pub fn put_arr4(out: &mut Vec<u8>, a: &[u32; 4])
    ensures
        final(out)@ == old(out)@ + enc_arr4(*a),
{
    put_u32(out, a[0]);
    put_u32(out, a[1]);
    put_u32(out, a[2]);
    put_u32(out, a[3]);
    proof {
        assert(out@ =~= old(out)@ + enc_arr4(*a));
    }
}

/// Appends a transform.
pub fn put_transform(out: &mut Vec<u8>, t: &Transform)
    ensures
        final(out)@ == old(out)@ + enc_transform(*t),
{
    put_arr3(out, &t.position);
    put_arr4(out, &t.rotation);
    put_arr3(out, &t.velocity);
    put_arr3(out, &t.angular_velocity);
    proof {
        assert(out@ =~= old(out)@ + enc_transform(*t));
    }
}

/// Appends the five fixed electrical channels.
pub fn put_electrics(out: &mut Vec<u8>, e: &Electrics)
    ensures
        final(out)@ == old(out)@ + enc_electrics(*e),
{
    put_u32(out, e.throttle_input);
    put_u32(out, e.brake_input);
    put_u32(out, e.clutch);
    put_u32(out, e.parkingbrake);
    put_u32(out, e.steering_input);
    proof {
        assert(out@ =~= old(out)@ + enc_electrics(*e));
    }
}

/// Appends a gearbox snapshot.
pub fn put_gearbox(out: &mut Vec<u8>, g: &Gearbox)
    requires
        match g.mode {
            Some(v) => v@.len() <= 0xFFFF_FFFF,
            None => true,
        },
    ensures
        final(out)@ == old(out)@ + enc_gearbox(*g),
{
    put_bool(out, g.arcade);
    put_u32(out, g.lock_coef);
    put_opt_bytes(out, &g.mode);
    out.push(i8_to_byte(g.gear_indices[0]));
    out.push(i8_to_byte(g.gear_indices[1]));
    proof {
        assert(out@ =~= old(out)@ + enc_gearbox(*g));
    }
}

/// Reads one byte.
pub fn read_u8(buf: &[u8], pos: usize) -> (r: Result<(u8, usize), DecodeError>)
    ensures
        match r {
            Ok((x, p2)) => pos + 1 <= buf@.len() && p2 == pos + 1 && buf@[pos as int] == x
                && buf@.subrange(pos as int, pos + 1) == enc_u8(x),
            Err(e) => pos + 1 > buf@.len() && e == DecodeError::Truncated,
        },
        forall|x: u8|
            pos + 1 <= buf@.len() && buf@.subrange(pos as int, pos + 1) == enc_u8(x) ==> r == Ok::<
                _,
                DecodeError,
            >((x, (pos + 1) as usize)),
{
    if pos < buf.len() {
        let x = *vstd::slice::slice_index_get(buf, pos);
        proof {
            assert(buf@.subrange(pos as int, pos + 1) =~= enc_u8(x));
            assert forall|x2: u8|
                pos + 1 <= buf@.len() && buf@.subrange(pos as int, pos + 1) == enc_u8(x2) implies x2
                == x by {
                assert(buf@.subrange(pos as int, pos + 1)[0] == enc_u8(x2)[0]);
            }
        }
        Ok((x, pos + 1))
    } else {
        Err(DecodeError::Truncated)
    }
}

/// Reads one little-endian 16-bit integer.
pub fn read_u16(buf: &[u8], pos: usize) -> (r: Result<(u16, usize), DecodeError>)
    ensures
        match r {
            Ok((x, p2)) => pos + 2 <= buf@.len() && p2 == pos + 2 && buf@.subrange(
                pos as int,
                pos + 2,
            ) == enc_u16(x),
            Err(e) => pos + 2 > buf@.len() && e == DecodeError::Truncated,
        },
        forall|x: u16|
            pos + 2 <= buf@.len() && buf@.subrange(pos as int, pos + 2) == enc_u16(x) ==> r == Ok::<
                _,
                DecodeError,
            >((x, (pos + 2) as usize)),
{
    proof {
        lemma_auto_spec_u16_to_from_le_bytes();
    }
    if pos <= buf.len() && buf.len() - pos >= 2 {
        let s = slice_subrange(buf, pos, pos + 2);
        let x = vstd::bytes::u16_from_le_bytes(s);
        Ok((x, pos + 2))
    } else {
        Err(DecodeError::Truncated)
    }
}

/// Reads one little-endian 32-bit integer.
pub fn read_u32(buf: &[u8], pos: usize) -> (r: Result<(u32, usize), DecodeError>)
    ensures
        match r {
            Ok((x, p2)) => pos + 4 <= buf@.len() && p2 == pos + 4 && buf@.subrange(
                pos as int,
                pos + 4,
            ) == enc_u32(x),
            Err(e) => pos + 4 > buf@.len() && e == DecodeError::Truncated,
        },
        forall|x: u32|
            pos + 4 <= buf@.len() && buf@.subrange(pos as int, pos + 4) == enc_u32(x) ==> r == Ok::<
                _,
                DecodeError,
            >((x, (pos + 4) as usize)),
{
    proof {
        lemma_auto_spec_u32_to_from_le_bytes();
    }
    if pos <= buf.len() && buf.len() - pos >= 4 {
        let s = slice_subrange(buf, pos, pos + 4);
        let x = vstd::bytes::u32_from_le_bytes(s);
        Ok((x, pos + 4))
    } else {
        Err(DecodeError::Truncated)
    }
}

/// Reads one little-endian 64-bit integer.
pub fn read_u64(buf: &[u8], pos: usize) -> (r: Result<(u64, usize), DecodeError>)
    ensures
        match r {
            Ok((x, p2)) => pos + 8 <= buf@.len() && p2 == pos + 8 && buf@.subrange(
                pos as int,
                pos + 8,
            ) == enc_u64(x),
            Err(e) => pos + 8 > buf@.len() && e == DecodeError::Truncated,
        },
        forall|x: u64|
            pos + 8 <= buf@.len() && buf@.subrange(pos as int, pos + 8) == enc_u64(x) ==> r == Ok::<
                _,
                DecodeError,
            >((x, (pos + 8) as usize)),
{
    proof {
        lemma_auto_spec_u64_to_from_le_bytes();
    }
    if pos <= buf.len() && buf.len() - pos >= 8 {
        let s = slice_subrange(buf, pos, pos + 8);
        let x = vstd::bytes::u64_from_le_bytes(s);
        Ok((x, pos + 8))
    } else {
        Err(DecodeError::Truncated)
    }
}

/// Reads a length-prefixed byte string.
pub fn read_bytes(buf: &[u8], pos: usize) -> (r: Result<(Vec<u8>, usize), DecodeError>)
    ensures
        match r {
            Ok((v, p2)) => pos <= p2 <= buf@.len() && buf@.subrange(pos as int, p2 as int)
                == enc_bytes(v@) && v@.len() <= 0xFFFF_FFFF && p2 == pos + 4 + v@.len(),
            Err(e) => true,
        },
        forall|v: Seq<u8>|
            v.len() <= 0xFFFF_FFFF && pos + 4 + v.len() <= buf@.len() && buf@.subrange(
                pos as int,
                pos + 4 + v.len(),
            ) == enc_bytes(v) ==> (r matches Ok(w) && w.0@ == v && w.1 == pos + 4 + v.len()),
{
    proof {
        lemma_auto_spec_u32_to_from_le_bytes();
    }
    let n0 = match read_u32(buf, pos) {
        Ok(x) => x,
        Err(e) => {
            proof {
                assert forall|v: Seq<u8>|
                    v.len() <= 0xFFFF_FFFF && pos + 4 + v.len() <= buf@.len() && buf@.subrange(
                        pos as int,
                        pos + 4 + v.len(),
                    ) == enc_bytes(v) implies false by {}
            }
            return Err(e);
        },
    };
    let n = n0.0 as usize;
    let p1 = n0.1;
    if buf.len() - p1 >= n {
        let s = slice_subrange(buf, p1, p1 + n);
        let v = slice_to_vec(s);
        proof {
            assert(buf@.subrange(pos as int, (p1 + n) as int) =~= enc_u32(n0.0) + v@);
            assert(v@.len() as u32 == n0.0);
            assert forall|w: Seq<u8>|
                w.len() <= 0xFFFF_FFFF && pos + 4 + w.len() <= buf@.len() && buf@.subrange(
                    pos as int,
                    pos + 4 + w.len(),
                ) == enc_bytes(w) implies v@ == w && p1 + n == pos + 4 + w.len() by {
                assert(buf@.subrange(pos as int, pos + 4) =~= enc_u32(w.len() as u32)) by {
                    assert forall|k: int| 0 <= k < 4 implies #[trigger] buf@.subrange(
                        pos as int,
                        pos + 4,
                    )[k] == enc_u32(w.len() as u32)[k] by {
                        assert(buf@.subrange(pos as int, pos + 4 + w.len())[k] == enc_bytes(w)[k]);
                    }
                }
                assert(n0.0 == w.len() as u32);
                assert(n == w.len());
                assert(v@ =~= w) by {
                    assert forall|k: int| 0 <= k < w.len() implies v@[k] == w[k] by {
                        assert(buf@.subrange(pos as int, pos + 4 + w.len())[k + 4] == enc_bytes(
                            w,
                        )[k + 4]);
                        assert(enc_bytes(w)[k + 4] == w[k]);
                        assert(v@[k] == buf@[p1 + k]);
                    }
                }
            }
        }
        Ok((v, p1 + n))
    } else {
        proof {
            assert forall|w: Seq<u8>|
                w.len() <= 0xFFFF_FFFF && pos + 4 + w.len() <= buf@.len() && buf@.subrange(
                    pos as int,
                    pos + 4 + w.len(),
                ) == enc_bytes(w) implies false by {
                assert(buf@.subrange(pos as int, pos + 4) =~= enc_u32(w.len() as u32)) by {
                    assert forall|k: int| 0 <= k < 4 implies #[trigger] buf@.subrange(
                        pos as int,
                        pos + 4,
                    )[k] == enc_u32(w.len() as u32)[k] by {
                        assert(buf@.subrange(pos as int, pos + 4 + w.len())[k] == enc_bytes(w)[k]);
                    }
                }
                assert(n0.0 == w.len() as u32);
            }
        }
        Err(DecodeError::Truncated)
    }
}

/// Reads a boolean byte: 0 or 1, anything else is malformed.
pub fn read_bool(buf: &[u8], pos: usize) -> (r: Result<(bool, usize), DecodeError>)
    ensures
        match r {
            Ok((b, p2)) => pos + 1 <= buf@.len() && p2 == pos + 1 && buf@.subrange(
                pos as int,
                pos + 1,
            ) == enc_bool(b),
            Err(e) => true,
        },
        forall|b: bool|
            pos + 1 <= buf@.len() && buf@.subrange(pos as int, pos + 1) == enc_bool(b) ==> r
                == Ok::<_, DecodeError>((b, (pos + 1) as usize)),
{
    let (x, p2) = match read_u8(buf, pos) {
        Ok(v) => v,
        Err(e) => {
            return Err(e);
        },
    };
    proof {
        assert forall|b: bool|
            pos + 1 <= buf@.len() && buf@.subrange(pos as int, pos + 1) == enc_bool(b) implies x
            == (if b {
            1u8
        } else {
            0u8
        }) by {
            assert(buf@.subrange(pos as int, pos + 1)[0] == enc_bool(b)[0]);
        }
    }
    if x == 0 {
        proof {
            assert(buf@.subrange(pos as int, pos + 1) =~= enc_bool(false));
        }
        Ok((false, p2))
    } else if x == 1 {
        proof {
            assert(buf@.subrange(pos as int, pos + 1) =~= enc_bool(true));
        }
        Ok((true, p2))
    } else {
        Err(DecodeError::Malformed)
    }
}

/// Reads an optional byte string.
pub fn read_opt_bytes(buf: &[u8], pos: usize) -> (r: Result<(Option<Vec<u8>>, usize), DecodeError>)
    ensures
        match r {
            Ok((o, p2)) => pos <= p2 <= buf@.len() && buf@.subrange(pos as int, p2 as int)
                == enc_opt_bytes(ob(o)) && (o matches Some(v) ==> v@.len() <= 0xFFFF_FFFF),
            Err(e) => true,
        },
        forall|o: Option<Seq<u8>>|
            #![trigger enc_opt_bytes(o)]
            {
                let e = enc_opt_bytes(o);
                ((o matches Some(v) ==> v.len() <= 0xFFFF_FFFF) && pos + e.len() <= buf@.len()
                    && buf@.subrange(pos as int, pos + e.len()) == e) ==> (r matches Ok(w) && ob(w.0)
                    == o && w.1 == pos + e.len())
            },
{
    proof {
        lemma_auto_spec_u32_to_from_le_bytes();
    }
    let (m, p1) = match read_u8(buf, pos) {
        Ok(v) => v,
        Err(e) => {
            return Err(e);
        },
    };
    proof {
        assert forall|o: Option<Seq<u8>>|
            #![trigger enc_opt_bytes(o)]
            pos + enc_opt_bytes(o).len() <= buf@.len() && buf@.subrange(
                pos as int,
                pos + enc_opt_bytes(o).len(),
            ) == enc_opt_bytes(o) implies m == (if o is Some {
            1u8
        } else {
            0u8
        }) by {
            assert(buf@.subrange(pos as int, pos + enc_opt_bytes(o).len())[0] == enc_opt_bytes(
                o,
            )[0]);
        }
    }
    if m == 0 {
        proof {
            assert(buf@.subrange(pos as int, pos + 1) =~= enc_opt_bytes(None));
        }
        Ok((None, p1))
    } else if m == 1 {
        let (v, p2) = match read_bytes(buf, p1) {
            Ok(w) => w,
            Err(e) => {
                proof {
                    assert forall|o: Option<Seq<u8>>|
                        #![trigger enc_opt_bytes(o)]
                        {
                            let en = enc_opt_bytes(o);
                            ((o matches Some(w2) ==> w2.len() <= 0xFFFF_FFFF) && pos + en.len()
                                <= buf@.len() && buf@.subrange(pos as int, pos + en.len()) == en)
                        } implies false by {
                        let en = enc_opt_bytes(o);
                        if o is Some {
                            let w2 = o->Some_0;
                            assert(buf@.subrange(p1 as int, pos + en.len()) =~= enc_bytes(w2)) by {
                                assert forall|k: int| 0 <= k < en.len() - 1 implies buf@.subrange(
                                    p1 as int,
                                    pos + en.len(),
                                )[k] == enc_bytes(w2)[k] by {
                                    assert(buf@.subrange(pos as int, pos + en.len())[k + 1] == en[k
                                        + 1]);
                                }
                            }
                        }
                    }
                }
                return Err(e);
            },
        };
        proof {
            assert(buf@.subrange(pos as int, p2 as int) =~= enc_opt_bytes(Some(v@))) by {
                assert(buf@.subrange(p1 as int, p2 as int) == enc_bytes(v@));
                assert forall|k: int| 0 <= k < p2 - pos implies buf@.subrange(
                    pos as int,
                    p2 as int,
                )[k] == enc_opt_bytes(Some(v@))[k] by {
                    if k >= 1 {
                        assert(buf@.subrange(p1 as int, p2 as int)[k - 1] == enc_bytes(v@)[k - 1]);
                    }
                }
            }
            assert forall|o: Option<Seq<u8>>|
                #![trigger enc_opt_bytes(o)]
                {
                    let en = enc_opt_bytes(o);
                    ((o matches Some(w2) ==> w2.len() <= 0xFFFF_FFFF) && pos + en.len()
                        <= buf@.len() && buf@.subrange(pos as int, pos + en.len()) == en)
                } implies ob(Some(v)) == o && p2 == pos + enc_opt_bytes(o).len() by {
                let en = enc_opt_bytes(o);
                if o is Some {
                    let w2 = o->Some_0;
                    assert(buf@.subrange(p1 as int, pos + en.len()) =~= enc_bytes(w2)) by {
                        assert forall|k: int| 0 <= k < en.len() - 1 implies buf@.subrange(
                            p1 as int,
                            pos + en.len(),
                        )[k] == enc_bytes(w2)[k] by {
                            assert(buf@.subrange(pos as int, pos + en.len())[k + 1] == en[k + 1]);
                        }
                    }
                    assert(v@ == w2 && p2 == p1 + 4 + w2.len());
                }
            }
        }
        Ok((Some(v), p2))
    } else {
        Err(DecodeError::Malformed)
    }
}

/// Reads an optional 32-bit integer.
pub fn read_opt_u32(buf: &[u8], pos: usize) -> (r: Result<(Option<u32>, usize), DecodeError>)
    ensures
        match r {
            Ok((o, p2)) => pos <= p2 <= buf@.len() && buf@.subrange(pos as int, p2 as int)
                == enc_opt_u32(o),
            Err(e) => true,
        },
        forall|o: Option<u32>|
            #![trigger enc_opt_u32(o)]
            {
                let e = enc_opt_u32(o);
                (pos + e.len() <= buf@.len() && buf@.subrange(pos as int, pos + e.len()) == e) ==> r
                    == Ok::<_, DecodeError>((o, (pos + e.len()) as usize))
            },
{
    proof {
        lemma_auto_spec_u32_to_from_le_bytes();
    }
    let (m, p1) = match read_u8(buf, pos) {
        Ok(v) => v,
        Err(e) => {
            return Err(e);
        },
    };
    proof {
        assert forall|o: Option<u32>|
            #![trigger enc_opt_u32(o)]
            pos + enc_opt_u32(o).len() <= buf@.len() && buf@.subrange(
                pos as int,
                pos + enc_opt_u32(o).len(),
            ) == enc_opt_u32(o) implies m == (if o is Some {
            1u8
        } else {
            0u8
        }) by {
            assert(buf@.subrange(pos as int, pos + enc_opt_u32(o).len())[0] == enc_opt_u32(o)[0]);
        }
    }
    if m == 0 {
        proof {
            assert(buf@.subrange(pos as int, pos + 1) =~= enc_opt_u32(None));
        }
        Ok((None, p1))
    } else if m == 1 {
        let (x, p2) = match read_u32(buf, p1) {
            Ok(w) => w,
            Err(e) => {
                proof {
                    assert forall|o: Option<u32>|
                        #![trigger enc_opt_u32(o)]
                        pos + enc_opt_u32(o).len() <= buf@.len() && buf@.subrange(
                            pos as int,
                            pos + enc_opt_u32(o).len(),
                        ) == enc_opt_u32(o) implies false by {
                        let en = enc_opt_u32(o);
                        if o is Some {
                            assert(en.len() == 5);
                        }
                    }
                }
                return Err(e);
            },
        };
        proof {
            assert(buf@.subrange(pos as int, p2 as int) =~= enc_opt_u32(Some(x))) by {
                assert forall|k: int| 0 <= k < 5 implies buf@.subrange(pos as int, p2 as int)[k]
                    == enc_opt_u32(Some(x))[k] by {
                    if k >= 1 {
                        assert(buf@.subrange(p1 as int, p2 as int)[k - 1] == enc_u32(x)[k - 1]);
                    }
                }
            }
            assert forall|o: Option<u32>|
                #![trigger enc_opt_u32(o)]
                {
                    let en = enc_opt_u32(o);
                    (pos + en.len() <= buf@.len() && buf@.subrange(pos as int, pos + en.len())
                        == en)
                } implies Some(x) == o && p2 == pos + enc_opt_u32(o).len() by {
                let en = enc_opt_u32(o);
                if o is Some {
                    let w2 = o->Some_0;
                    assert(buf@.subrange(p1 as int, pos + en.len()) =~= enc_u32(w2)) by {
                        assert forall|k: int| 0 <= k < 4 implies buf@.subrange(
                            p1 as int,
                            pos + en.len(),
                        )[k] == enc_u32(w2)[k] by {
                            assert(buf@.subrange(pos as int, pos + en.len())[k + 1] == en[k + 1]);
                        }
                    }
                    assert(x == w2);
                }
            }
        }
        Ok((Some(x), p2))
    } else {
        Err(DecodeError::Malformed)
    }
}

/// One raw byte on the wire.
pub open spec fn enc_u8(x: u8) -> Seq<u8> {
    seq![x]
}

/// Appends one raw byte.
pub fn put_u8(out: &mut Vec<u8>, x: u8)
    ensures
        final(out)@ == old(out)@ + enc_u8(x),
{
    out.push(x);
    proof {
        assert(out@ =~= old(out)@ + enc_u8(x));
    }
}

/// Splitting a known concatenation: when the bytes from `pos` are `a`
/// followed by `rest`, each part lies at its own subrange.
pub proof fn lemma_peel(buf: Seq<u8>, pos: int, a: Seq<u8>, rest: Seq<u8>)
    requires
        0 <= pos,
        pos + a.len() + rest.len() <= buf.len(),
        buf.subrange(pos, pos + a.len() + rest.len()) == a + rest,
    ensures
        buf.subrange(pos, pos + a.len()) == a,
        buf.subrange(pos + a.len(), pos + a.len() + rest.len()) == rest,
{
    assert(buf.subrange(pos, pos + a.len()) =~= a) by {
        assert forall|k: int| 0 <= k < a.len() implies #[trigger] buf.subrange(
            pos,
            pos + a.len(),
        )[k] == a[k] by {
            assert(buf.subrange(pos, pos + a.len() + rest.len())[k] == (a + rest)[k]);
        }
    }
    assert(buf.subrange(pos + a.len(), pos + a.len() + rest.len()) =~= rest) by {
        assert forall|k: int| 0 <= k < rest.len() implies #[trigger] buf.subrange(
            pos + a.len(),
            pos + a.len() + rest.len(),
        )[k] == rest[k] by {
            assert(buf.subrange(pos, pos + a.len() + rest.len())[k + a.len()] == (a + rest)[k
                + a.len()]);
            assert((a + rest)[k + a.len()] == rest[k]);
            assert(buf.subrange(pos + a.len(), pos + a.len() + rest.len())[k] == buf[pos + a.len()
                + k]);
            assert(buf.subrange(pos, pos + a.len() + rest.len())[k + a.len()] == buf[pos + a.len()
                + k]);
        }
    }
}

/// Joining adjacent subranges into one.
pub proof fn lemma_join(buf: Seq<u8>, pos: int, mid: int, end: int)
    requires
        0 <= pos <= mid <= end <= buf.len(),
    ensures
        buf.subrange(pos, end) == buf.subrange(pos, mid) + buf.subrange(mid, end),
{
    assert(buf.subrange(pos, end) =~= buf.subrange(pos, mid) + buf.subrange(mid, end));
}

/// Reads three raw words.
pub fn read_arr3(buf: &[u8], pos: usize) -> (r: Result<([u32; 3], usize), DecodeError>)
    ensures
        match r {
            Ok((a, p2)) => pos + 12 <= buf@.len() && p2 == pos + 12 && buf@.subrange(
                pos as int,
                pos + 12,
            ) == enc_arr3(a),
            Err(e) => pos + 12 > buf@.len() && e == DecodeError::Truncated,
        },
        forall|a: [u32; 3]|
            pos + 12 <= buf@.len() && buf@.subrange(pos as int, pos + 12) == enc_arr3(a) ==> r
                == Ok::<_, DecodeError>((a, (pos + 12) as usize)),
{
    proof {
        lemma_auto_spec_u32_to_from_le_bytes();
    }
    let (x0, p0) = match read_u32(buf, pos) {
        Ok(v) => v,
        Err(e) => {
            proof {
                assert forall|a: [u32; 3]|
                    pos + 12 <= buf@.len() && buf@.subrange(pos as int, pos + 12) == enc_arr3(
                        a,
                    ) implies false by {}
            }
            return Err(DecodeError::Truncated);
        },
    };
    let (x1, p1) = match read_u32(buf, p0) {
        Ok(v) => v,
        Err(e) => {
            return Err(DecodeError::Truncated);
        },
    };
    let (x2, p2) = match read_u32(buf, p1) {
        Ok(v) => v,
        Err(e) => {
            return Err(DecodeError::Truncated);
        },
    };
    let a: [u32; 3] = [x0, x1, x2];
    proof {
        assert(a@[0] == x0 && a@[1] == x1 && a@[2] == x2);
        lemma_join(buf@, pos as int, p0 as int, p1 as int);
        lemma_join(buf@, pos as int, p1 as int, p2 as int);
        assert(buf@.subrange(pos as int, p2 as int) == enc_arr3(a));
        assert forall|b: [u32; 3]|
            pos + 12 <= buf@.len() && buf@.subrange(pos as int, pos + 12) == enc_arr3(b) implies a
            == b by {
            assert(enc_arr3(b) =~= enc_u32(b@[0]) + (enc_u32(b@[1]) + enc_u32(b@[2])));
            lemma_peel(buf@, pos as int, enc_u32(b@[0]), enc_u32(b@[1]) + enc_u32(b@[2]));
            lemma_peel(buf@, pos as int + 4, enc_u32(b@[1]), enc_u32(b@[2]));
            assert(a@ =~= b@);
        }
    }
    Ok((a, p2))
}

/// Reads four raw words.
pub fn read_arr4(buf: &[u8], pos: usize) -> (r: Result<([u32; 4], usize), DecodeError>)
    ensures
        match r {
            Ok((a, p2)) => pos + 16 <= buf@.len() && p2 == pos + 16 && buf@.subrange(
                pos as int,
                pos + 16,
            ) == enc_arr4(a),
            Err(e) => pos + 16 > buf@.len() && e == DecodeError::Truncated,
        },
        forall|a: [u32; 4]|
            pos + 16 <= buf@.len() && buf@.subrange(pos as int, pos + 16) == enc_arr4(a) ==> r
                == Ok::<_, DecodeError>((a, (pos + 16) as usize)),
{
    proof {
        lemma_auto_spec_u32_to_from_le_bytes();
    }
    let (x0, p0) = match read_u32(buf, pos) {
        Ok(v) => v,
        Err(e) => {
            return Err(DecodeError::Truncated);
        },
    };
    let (x1, p1) = match read_u32(buf, p0) {
        Ok(v) => v,
        Err(e) => {
            return Err(DecodeError::Truncated);
        },
    };
    let (x2, p2) = match read_u32(buf, p1) {
        Ok(v) => v,
        Err(e) => {
            return Err(DecodeError::Truncated);
        },
    };
    let (x3, p3) = match read_u32(buf, p2) {
        Ok(v) => v,
        Err(e) => {
            return Err(DecodeError::Truncated);
        },
    };
    let a: [u32; 4] = [x0, x1, x2, x3];
    proof {
        assert(a@[0] == x0 && a@[1] == x1 && a@[2] == x2 && a@[3] == x3);
        lemma_join(buf@, pos as int, p0 as int, p1 as int);
        lemma_join(buf@, pos as int, p1 as int, p2 as int);
        lemma_join(buf@, pos as int, p2 as int, p3 as int);
        assert(buf@.subrange(pos as int, p3 as int) == enc_arr4(a));
        assert forall|b: [u32; 4]|
            pos + 16 <= buf@.len() && buf@.subrange(pos as int, pos + 16) == enc_arr4(b) implies a
            == b by {
            assert(enc_arr4(b) =~= enc_u32(b@[0]) + (enc_u32(b@[1]) + enc_u32(b@[2]) + enc_u32(
                b@[3],
            )));
            lemma_peel(
                buf@,
                pos as int,
                enc_u32(b@[0]),
                enc_u32(b@[1]) + enc_u32(b@[2]) + enc_u32(b@[3]),
            );
            assert(enc_u32(b@[1]) + enc_u32(b@[2]) + enc_u32(b@[3]) =~= enc_u32(b@[1]) + (enc_u32(
                b@[2],
            ) + enc_u32(b@[3])));
            lemma_peel(buf@, pos as int + 4, enc_u32(b@[1]), enc_u32(b@[2]) + enc_u32(b@[3]));
            lemma_peel(buf@, pos as int + 8, enc_u32(b@[2]), enc_u32(b@[3]));
            assert(a@ =~= b@);
        }
    }
    Ok((a, p3))
}

/// Reads a transform.
pub fn read_transform(buf: &[u8], pos: usize) -> (r: Result<(Transform, usize), DecodeError>)
    ensures
        match r {
            Ok((t, p2)) => pos + 52 <= buf@.len() && p2 == pos + 52 && buf@.subrange(
                pos as int,
                pos + 52,
            ) == enc_transform(t),
            Err(e) => pos + 52 > buf@.len() && e == DecodeError::Truncated,
        },
        forall|t: Transform|
            pos + 52 <= buf@.len() && buf@.subrange(pos as int, pos + 52) == enc_transform(t) ==> (r
                matches Ok(w) && w.0 == t && w.1 == pos + 52),
{
    proof {
        lemma_auto_spec_u32_to_from_le_bytes();
    }
    let (position, p0) = match read_arr3(buf, pos) {
        Ok(v) => v,
        Err(e) => {
            proof {
                assert forall|t: Transform|
                    pos + 52 <= buf@.len() && buf@.subrange(pos as int, pos + 52) == enc_transform(
                        t,
                    ) implies false by {
                    lemma_transform_fields(buf@, pos as int, t);
                }
            }
            return Err(DecodeError::Truncated);
        },
    };
    let (rotation, p1) = match read_arr4(buf, p0) {
        Ok(v) => v,
        Err(e) => {
            proof {
                assert forall|t: Transform|
                    pos + 52 <= buf@.len() && buf@.subrange(pos as int, pos + 52) == enc_transform(
                        t,
                    ) implies false by {
                    lemma_transform_fields(buf@, pos as int, t);
                }
            }
            return Err(DecodeError::Truncated);
        },
    };
    let (velocity, p2) = match read_arr3(buf, p1) {
        Ok(v) => v,
        Err(e) => {
            return Err(DecodeError::Truncated);
        },
    };
    let (angular_velocity, p3) = match read_arr3(buf, p2) {
        Ok(v) => v,
        Err(e) => {
            return Err(DecodeError::Truncated);
        },
    };
    let t = Transform { position, rotation, velocity, angular_velocity };
    proof {
        lemma_join(buf@, pos as int, p0 as int, p1 as int);
        lemma_join(buf@, pos as int, p1 as int, p2 as int);
        lemma_join(buf@, pos as int, p2 as int, p3 as int);
        assert(buf@.subrange(pos as int, p3 as int) == enc_transform(t));
        assert forall|t2: Transform|
            pos + 52 <= buf@.len() && buf@.subrange(pos as int, pos + 52) == enc_transform(
                t2,
            ) implies t == t2 && p3 == pos + 52 by {
            lemma_transform_fields(buf@, pos as int, t2);
        }
    }
    Ok((t, p3))
}

/// Where each part of an encoded transform lies.
proof fn lemma_transform_fields(buf: Seq<u8>, pos: int, t: Transform)
    requires
        0 <= pos,
        pos + 52 <= buf.len(),
        buf.subrange(pos, pos + 52) == enc_transform(t),
    ensures
        buf.subrange(pos, pos + 12) == enc_arr3(t.position),
        buf.subrange(pos + 12, pos + 28) == enc_arr4(t.rotation),
        buf.subrange(pos + 28, pos + 40) == enc_arr3(t.velocity),
        buf.subrange(pos + 40, pos + 52) == enc_arr3(t.angular_velocity),
{
    lemma_auto_spec_u32_to_from_le_bytes();
    assert(enc_transform(t) =~= enc_arr3(t.position) + (enc_arr4(t.rotation) + (enc_arr3(
        t.velocity,
    ) + enc_arr3(t.angular_velocity))));
    lemma_peel(
        buf,
        pos,
        enc_arr3(t.position),
        enc_arr4(t.rotation) + (enc_arr3(t.velocity) + enc_arr3(t.angular_velocity)),
    );
    lemma_peel(
        buf,
        pos + 12,
        enc_arr4(t.rotation),
        enc_arr3(t.velocity) + enc_arr3(t.angular_velocity),
    );
    lemma_peel(buf, pos + 28, enc_arr3(t.velocity), enc_arr3(t.angular_velocity));
}

/// Reads the five fixed electrical channels.
pub fn read_electrics(buf: &[u8], pos: usize) -> (r: Result<(Electrics, usize), DecodeError>)
    ensures
        match r {
            Ok((e, p2)) => pos + 20 <= buf@.len() && p2 == pos + 20 && buf@.subrange(
                pos as int,
                pos + 20,
            ) == enc_electrics(e),
            Err(e) => pos + 20 > buf@.len() && e == DecodeError::Truncated,
        },
        forall|e: Electrics|
            pos + 20 <= buf@.len() && buf@.subrange(pos as int, pos + 20) == enc_electrics(e) ==> (r
                matches Ok(w) && w.0 == e && w.1 == pos + 20),
{
    proof {
        lemma_auto_spec_u32_to_from_le_bytes();
    }
    let (throttle_input, p0) = match read_u32(buf, pos) {
        Ok(v) => v,
        Err(e) => {
            proof {
                assert forall|e2: Electrics|
                    pos + 20 <= buf@.len() && buf@.subrange(pos as int, pos + 20) == enc_electrics(
                        e2,
                    ) implies false by {
                    lemma_electrics_fields(buf@, pos as int, e2);
                }
            }
            return Err(DecodeError::Truncated);
        },
    };
    let (brake_input, p1) = match read_u32(buf, p0) {
        Ok(v) => v,
        Err(e) => {
            return Err(DecodeError::Truncated);
        },
    };
    let (clutch, p2) = match read_u32(buf, p1) {
        Ok(v) => v,
        Err(e) => {
            return Err(DecodeError::Truncated);
        },
    };
    let (parkingbrake, p3) = match read_u32(buf, p2) {
        Ok(v) => v,
        Err(e) => {
            return Err(DecodeError::Truncated);
        },
    };
    let (steering_input, p4) = match read_u32(buf, p3) {
        Ok(v) => v,
        Err(e) => {
            return Err(DecodeError::Truncated);
        },
    };
    let e = Electrics { throttle_input, brake_input, clutch, parkingbrake, steering_input };
    proof {
        lemma_join(buf@, pos as int, p0 as int, p1 as int);
        lemma_join(buf@, pos as int, p1 as int, p2 as int);
        lemma_join(buf@, pos as int, p2 as int, p3 as int);
        lemma_join(buf@, pos as int, p3 as int, p4 as int);
        assert(buf@.subrange(pos as int, p4 as int) == enc_electrics(e));
        assert forall|e2: Electrics|
            pos + 20 <= buf@.len() && buf@.subrange(pos as int, pos + 20) == enc_electrics(
                e2,
            ) implies e == e2 && p4 == pos + 20 by {
            lemma_electrics_fields(buf@, pos as int, e2);
        }
    }
    Ok((e, p4))
}

/// Where each channel of an encoded electrics record lies.
proof fn lemma_electrics_fields(buf: Seq<u8>, pos: int, e: Electrics)
    requires
        0 <= pos,
        pos + 20 <= buf.len(),
        buf.subrange(pos, pos + 20) == enc_electrics(e),
    ensures
        buf.subrange(pos, pos + 4) == enc_u32(e.throttle_input),
        buf.subrange(pos + 4, pos + 8) == enc_u32(e.brake_input),
        buf.subrange(pos + 8, pos + 12) == enc_u32(e.clutch),
        buf.subrange(pos + 12, pos + 16) == enc_u32(e.parkingbrake),
        buf.subrange(pos + 16, pos + 20) == enc_u32(e.steering_input),
{
    lemma_auto_spec_u32_to_from_le_bytes();
    assert(enc_electrics(e) =~= enc_u32(e.throttle_input) + (enc_u32(e.brake_input) + (enc_u32(
        e.clutch,
    ) + (enc_u32(e.parkingbrake) + enc_u32(e.steering_input)))));
    lemma_peel(
        buf,
        pos,
        enc_u32(e.throttle_input),
        enc_u32(e.brake_input) + (enc_u32(e.clutch) + (enc_u32(e.parkingbrake) + enc_u32(
            e.steering_input,
        ))),
    );
    lemma_peel(
        buf,
        pos + 4,
        enc_u32(e.brake_input),
        enc_u32(e.clutch) + (enc_u32(e.parkingbrake) + enc_u32(e.steering_input)),
    );
    lemma_peel(
        buf,
        pos + 8,
        enc_u32(e.clutch),
        enc_u32(e.parkingbrake) + enc_u32(e.steering_input),
    );
    lemma_peel(buf, pos + 12, enc_u32(e.parkingbrake), enc_u32(e.steering_input));
}

/// Where each part of an encoded gearbox lies.
proof fn lemma_gearbox_fields(buf: Seq<u8>, pos: int, g: Gearbox)
    requires
        0 <= pos,
        pos + enc_gearbox(g).len() <= buf.len(),
        buf.subrange(pos, pos + enc_gearbox(g).len()) == enc_gearbox(g),
    ensures
        buf.subrange(pos, pos + 1) == enc_bool(g.arcade),
        buf.subrange(pos + 1, pos + 5) == enc_u32(g.lock_coef),
        buf.subrange(pos + 5, pos + 5 + enc_opt_bytes(ob(g.mode)).len()) == enc_opt_bytes(
            ob(g.mode),
        ),
        buf.subrange(
            pos + 5 + enc_opt_bytes(ob(g.mode)).len(),
            pos + 7 + enc_opt_bytes(ob(g.mode)).len(),
        ) == seq![i8_byte(g.gear_indices@[0]), i8_byte(g.gear_indices@[1])],
        enc_gearbox(g).len() == 7 + enc_opt_bytes(ob(g.mode)).len(),
{
    lemma_auto_spec_u32_to_from_le_bytes();
    let tail = seq![i8_byte(g.gear_indices@[0]), i8_byte(g.gear_indices@[1])];
    assert(enc_gearbox(g) =~= enc_bool(g.arcade) + (enc_u32(g.lock_coef) + (enc_opt_bytes(
        ob(g.mode),
    ) + tail)));
    lemma_peel(
        buf,
        pos,
        enc_bool(g.arcade),
        enc_u32(g.lock_coef) + (enc_opt_bytes(ob(g.mode)) + tail),
    );
    lemma_peel(buf, pos + 1, enc_u32(g.lock_coef), enc_opt_bytes(ob(g.mode)) + tail);
    lemma_peel(buf, pos + 5, enc_opt_bytes(ob(g.mode)), tail);
}

/// Reads a gearbox snapshot.
pub fn read_gearbox(buf: &[u8], pos: usize) -> (r: Result<(Gearbox, usize), DecodeError>)
    ensures
        match r {
            Ok((g, p2)) => pos <= p2 <= buf@.len() && buf@.subrange(pos as int, p2 as int)
                == enc_gearbox(g) && p2 == pos + enc_gearbox(g).len() && (g.mode matches Some(v)
                ==> v@.len() <= 0xFFFF_FFFF),
            Err(e) => true,
        },
        forall|g: Gearbox|
            #![trigger enc_gearbox(g)]
            ((g.mode matches Some(v) ==> v@.len() <= 0xFFFF_FFFF) && pos + enc_gearbox(g).len()
                <= buf@.len() && buf@.subrange(pos as int, pos + enc_gearbox(g).len())
                == enc_gearbox(g)) ==> (r matches Ok(w) && gb_eq(w.0, g) && w.1 == pos
                + enc_gearbox(g).len()),
{
    proof {
        lemma_auto_spec_u32_to_from_le_bytes();
    }
    let (arcade, p0) = match read_bool(buf, pos) {
        Ok(v) => v,
        Err(e) => {
            proof {
                assert forall|g: Gearbox|
                    #![trigger enc_gearbox(g)]
                    ((g.mode matches Some(v) ==> v@.len() <= 0xFFFF_FFFF) && pos + enc_gearbox(
                        g,
                    ).len() <= buf@.len() && buf@.subrange(pos as int, pos + enc_gearbox(g).len())
                        == enc_gearbox(g)) implies false by {
                    lemma_gearbox_fields(buf@, pos as int, g);
                }
            }
            return Err(e);
        },
    };
    let (lock_coef, p1) = match read_u32(buf, p0) {
        Ok(v) => v,
        Err(e) => {
            proof {
                assert forall|g: Gearbox|
                    #![trigger enc_gearbox(g)]
                    ((g.mode matches Some(v) ==> v@.len() <= 0xFFFF_FFFF) && pos + enc_gearbox(
                        g,
                    ).len() <= buf@.len() && buf@.subrange(pos as int, pos + enc_gearbox(g).len())
                        == enc_gearbox(g)) implies false by {
                    lemma_gearbox_fields(buf@, pos as int, g);
                }
            }
            return Err(e);
        },
    };
    let (mode, p2) = match read_opt_bytes(buf, p1) {
        Ok(v) => v,
        Err(e) => {
            proof {
                assert forall|g: Gearbox|
                    #![trigger enc_gearbox(g)]
                    ((g.mode matches Some(v) ==> v@.len() <= 0xFFFF_FFFF) && pos + enc_gearbox(
                        g,
                    ).len() <= buf@.len() && buf@.subrange(pos as int, pos + enc_gearbox(g).len())
                        == enc_gearbox(g)) implies false by {
                    lemma_gearbox_fields(buf@, pos as int, g);
                }
            }
            return Err(e);
        },
    };
    let (b0, p3) = match read_u8(buf, p2) {
        Ok(v) => v,
        Err(e) => {
            proof {
                assert forall|g: Gearbox|
                    #![trigger enc_gearbox(g)]
                    ((g.mode matches Some(v) ==> v@.len() <= 0xFFFF_FFFF) && pos + enc_gearbox(
                        g,
                    ).len() <= buf@.len() && buf@.subrange(pos as int, pos + enc_gearbox(g).len())
                        == enc_gearbox(g)) implies false by {
                    lemma_gearbox_fields(buf@, pos as int, g);
                }
            }
            return Err(e);
        },
    };
    let (b1, p4) = match read_u8(buf, p3) {
        Ok(v) => v,
        Err(e) => {
            proof {
                assert forall|g: Gearbox|
                    #![trigger enc_gearbox(g)]
                    ((g.mode matches Some(v) ==> v@.len() <= 0xFFFF_FFFF) && pos + enc_gearbox(
                        g,
                    ).len() <= buf@.len() && buf@.subrange(pos as int, pos + enc_gearbox(g).len())
                        == enc_gearbox(g)) implies false by {
                    lemma_gearbox_fields(buf@, pos as int, g);
                }
            }
            return Err(e);
        },
    };
    let i0 = byte_to_i8(b0);
    let i1 = byte_to_i8(b1);
    let gear_indices: [i8; 2] = [i0, i1];
    let g = Gearbox { arcade, lock_coef, mode, gear_indices };
    proof {
        assert(g.gear_indices@[0] == i0 && g.gear_indices@[1] == i1);
        lemma_join(buf@, pos as int, p0 as int, p1 as int);
        lemma_join(buf@, pos as int, p1 as int, p2 as int);
        lemma_join(buf@, pos as int, p2 as int, p3 as int);
        lemma_join(buf@, pos as int, p3 as int, p4 as int);
        assert(buf@.subrange(p2 as int, p4 as int) =~= seq![
            i8_byte(g.gear_indices@[0]),
            i8_byte(g.gear_indices@[1]),
        ]);
        assert(buf@.subrange(pos as int, p4 as int) == enc_gearbox(g));
        assert(p4 == pos + enc_gearbox(g).len());
        assert forall|g2: Gearbox|
            #![trigger enc_gearbox(g2)]
            ((g2.mode matches Some(v) ==> v@.len() <= 0xFFFF_FFFF) && pos + enc_gearbox(g2).len()
                <= buf@.len() && buf@.subrange(pos as int, pos + enc_gearbox(g2).len())
                == enc_gearbox(g2)) implies gb_eq(g, g2) && p4 == pos + enc_gearbox(g2).len() by {
            lemma_gearbox_fields(buf@, pos as int, g2);
            assert(ob(mode) == ob(g2.mode));
            assert(buf@.subrange(
                pos + 5 + enc_opt_bytes(ob(g2.mode)).len(),
                pos + 7 + enc_opt_bytes(ob(g2.mode)).len(),
            )[0] == i8_byte(g2.gear_indices@[0]));
            assert(buf@.subrange(
                pos + 5 + enc_opt_bytes(ob(g2.mode)).len(),
                pos + 7 + enc_opt_bytes(ob(g2.mode)).len(),
            )[1] == i8_byte(g2.gear_indices@[1]));
            assert(b0 == i8_byte(g2.gear_indices@[0]) && b1 == i8_byte(g2.gear_indices@[1]));
            lemma_i8_byte_inj(i0, g2.gear_indices@[0]);
            lemma_i8_byte_inj(i1, g2.gear_indices@[1]);
            assert(i0 == g2.gear_indices@[0] && i1 == g2.gear_indices@[1]);
            assert(g.gear_indices@ =~= g2.gear_indices@);
            assert(g.gear_indices == g2.gear_indices);
            assert(opt_bytes_eq(g.mode, g2.mode));
            assert(gb_eq(g, g2));
            assert(p4 == pos + enc_gearbox(g2).len());
        }
    }
    Ok((g, p4))
}

/// Four raw words in a row: the layout both coupler events share.
pub open spec fn enc_c4(a: u32, b: u32, c: u32, d: u32) -> Seq<u8> {
    enc_u32(a) + enc_u32(b) + enc_u32(c) + enc_u32(d)
}

/// Appends four raw words.
pub fn put_c4(out: &mut Vec<u8>, a: u32, b: u32, c: u32, d: u32)
    ensures
        final(out)@ == old(out)@ + enc_c4(a, b, c, d),
{
    put_u32(out, a);
    put_u32(out, b);
    put_u32(out, c);
    put_u32(out, d);
    proof {
        assert(out@ =~= old(out)@ + enc_c4(a, b, c, d));
    }
}

/// Reads four raw words.
pub fn read_c4(buf: &[u8], pos: usize) -> (r: Result<((u32, u32, u32, u32), usize), DecodeError>)
    ensures
        match r {
            Ok((q, p2)) => pos + 16 <= buf@.len() && p2 == pos + 16 && buf@.subrange(
                pos as int,
                pos + 16,
            ) == enc_c4(q.0, q.1, q.2, q.3),
            Err(e) => pos + 16 > buf@.len() && e == DecodeError::Truncated,
        },
        forall|a: u32, b: u32, c: u32, d: u32|
            pos + 16 <= buf@.len() && buf@.subrange(pos as int, pos + 16) == #[trigger] enc_c4(
                a,
                b,
                c,
                d,
            ) ==> (r matches Ok(w) && w.0 == (a, b, c, d) && w.1 == pos + 16),
{
    proof {
        lemma_auto_spec_u32_to_from_le_bytes();
    }
    let (a4, p3) = match read_arr4(buf, pos) {
        Ok(v) => v,
        Err(e) => {
            proof {
                assert forall|a: u32, b: u32, c: u32, d: u32|
                    pos + 16 <= buf@.len() && buf@.subrange(pos as int, pos + 16)
                        == #[trigger] enc_c4(a, b, c, d) implies false by {}
            }
            return Err(DecodeError::Truncated);
        },
    };
    proof {
        assert(enc_arr4(a4) == enc_c4(a4@[0], a4@[1], a4@[2], a4@[3]));
        assert forall|a: u32, b: u32, c: u32, d: u32|
            pos + 16 <= buf@.len() && buf@.subrange(pos as int, pos + 16) == #[trigger] enc_c4(
                a,
                b,
                c,
                d,
            ) implies a4@[0] == a && a4@[1] == b && a4@[2] == c && a4@[3] == d by {
            assert(enc_c4(a, b, c, d) =~= enc_u32(a) + (enc_u32(b) + (enc_u32(c) + enc_u32(d))));
            lemma_peel(buf@, pos as int, enc_u32(a), enc_u32(b) + (enc_u32(c) + enc_u32(d)));
            lemma_peel(buf@, pos as int + 4, enc_u32(b), enc_u32(c) + enc_u32(d));
            lemma_peel(buf@, pos as int + 8, enc_u32(c), enc_u32(d));
            assert(enc_arr4(a4) =~= enc_u32(a4@[0]) + (enc_u32(a4@[1]) + (enc_u32(a4@[2]) + enc_u32(
                a4@[3],
            ))));
            lemma_peel(
                buf@,
                pos as int,
                enc_u32(a4@[0]),
                enc_u32(a4@[1]) + (enc_u32(a4@[2]) + enc_u32(a4@[3])),
            );
            lemma_peel(buf@, pos as int + 4, enc_u32(a4@[1]), enc_u32(a4@[2]) + enc_u32(a4@[3]));
            lemma_peel(buf@, pos as int + 8, enc_u32(a4@[2]), enc_u32(a4@[3]));
        }
    }
    let (a, b, c, d) = (a4[0], a4[1], a4[2], a4[3]);
    Ok(((a, b, c, d), p3))
}

/// A reset request: vehicle, then placement.
pub open spec fn enc_reset(v: crate::vehicle::VehicleReset) -> Seq<u8> {
    enc_u32(v.vehicle_id) + enc_arr3(v.position) + enc_arr4(v.rotation)
}

/// Appends a reset request.
pub fn put_reset(out: &mut Vec<u8>, v: &crate::vehicle::VehicleReset)
    ensures
        final(out)@ == old(out)@ + enc_reset(*v),
{
    put_u32(out, v.vehicle_id);
    put_arr3(out, &v.position);
    put_arr4(out, &v.rotation);
    proof {
        assert(out@ =~= old(out)@ + enc_reset(*v));
    }
}

/// Reads a reset request.
pub fn read_reset(buf: &[u8], pos: usize) -> (r: Result<
    (crate::vehicle::VehicleReset, usize),
    DecodeError,
>)
    ensures
        match r {
            Ok((v, p2)) => pos + 32 <= buf@.len() && p2 == pos + 32 && buf@.subrange(
                pos as int,
                pos + 32,
            ) == enc_reset(v),
            Err(e) => pos + 32 > buf@.len() && e == DecodeError::Truncated,
        },
        forall|v: crate::vehicle::VehicleReset|
            pos + 32 <= buf@.len() && buf@.subrange(pos as int, pos + 32) == enc_reset(v) ==> (r
                matches Ok(w) && w.0 == v && w.1 == pos + 32),
{
    proof {
        lemma_auto_spec_u32_to_from_le_bytes();
    }
    let (vehicle_id, p0) = match read_u32(buf, pos) {
        Ok(v) => v,
        Err(e) => {
            proof {
                assert forall|v: crate::vehicle::VehicleReset|
                    pos + 32 <= buf@.len() && buf@.subrange(pos as int, pos + 32) == enc_reset(
                        v,
                    ) implies false by {}
            }
            return Err(DecodeError::Truncated);
        },
    };
    let (position, p1) = match read_arr3(buf, p0) {
        Ok(v) => v,
        Err(e) => {
            return Err(DecodeError::Truncated);
        },
    };
    let (rotation, p2) = match read_arr4(buf, p1) {
        Ok(v) => v,
        Err(e) => {
            return Err(DecodeError::Truncated);
        },
    };
    let v = crate::vehicle::VehicleReset { vehicle_id, position, rotation };
    proof {
        lemma_join(buf@, pos as int, p0 as int, p1 as int);
        lemma_join(buf@, pos as int, p1 as int, p2 as int);
        assert(buf@.subrange(pos as int, p2 as int) == enc_reset(v));
        assert forall|v2: crate::vehicle::VehicleReset|
            pos + 32 <= buf@.len() && buf@.subrange(pos as int, pos + 32) == enc_reset(
                v2,
            ) implies v == v2 && p2 == pos + 32 by {
            assert(enc_reset(v2) =~= enc_u32(v2.vehicle_id) + (enc_arr3(v2.position) + enc_arr4(
                v2.rotation,
            )));
            lemma_peel(
                buf@,
                pos as int,
                enc_u32(v2.vehicle_id),
                enc_arr3(v2.position) + enc_arr4(v2.rotation),
            );
            lemma_peel(buf@, pos as int + 4, enc_arr3(v2.position), enc_arr4(v2.rotation));
            assert(position == v2.position && rotation == v2.rotation);
        }
    }
    Ok((v, p2))
}

/// A bundled vehicle update: the three snapshots, the vehicle's id, the
/// generation counter that orders unordered delivery, and the send stamp.
pub open spec fn enc_vu(u: crate::vehicle::VehicleUpdate) -> Seq<u8> {
    enc_transform(u.transform) + enc_electrics(u.electrics) + enc_gearbox(u.gearbox) + enc_u32(
        u.vehicle_id,
    ) + enc_u64(u.generation) + enc_u64(u.sent_at)
}

/// Appends a bundled vehicle update.
pub fn put_vu(out: &mut Vec<u8>, u: &crate::vehicle::VehicleUpdate)
    requires
        match u.gearbox.mode {
            Some(v) => v@.len() <= 0xFFFF_FFFF,
            None => true,
        },
    ensures
        final(out)@ == old(out)@ + enc_vu(*u),
{
    put_transform(out, &u.transform);
    put_electrics(out, &u.electrics);
    put_gearbox(out, &u.gearbox);
    put_u32(out, u.vehicle_id);
    put_u64(out, u.generation);
    put_u64(out, u.sent_at);
    proof {
        assert(out@ =~= old(out)@ + enc_vu(*u));
    }
}

/// Where each part of an encoded bundled update lies.
proof fn lemma_vu_fields(buf: Seq<u8>, pos: int, u: crate::vehicle::VehicleUpdate)
    requires
        0 <= pos,
        pos + enc_vu(u).len() <= buf.len(),
        buf.subrange(pos, pos + enc_vu(u).len()) == enc_vu(u),
    ensures
        buf.subrange(pos, pos + 52) == enc_transform(u.transform),
        buf.subrange(pos + 52, pos + 72) == enc_electrics(u.electrics),
        buf.subrange(pos + 72, pos + 72 + enc_gearbox(u.gearbox).len()) == enc_gearbox(u.gearbox),
        buf.subrange(
            pos + 72 + enc_gearbox(u.gearbox).len(),
            pos + 76 + enc_gearbox(u.gearbox).len(),
        ) == enc_u32(u.vehicle_id),
        buf.subrange(
            pos + 76 + enc_gearbox(u.gearbox).len(),
            pos + 84 + enc_gearbox(u.gearbox).len(),
        ) == enc_u64(u.generation),
        buf.subrange(
            pos + 84 + enc_gearbox(u.gearbox).len(),
            pos + 92 + enc_gearbox(u.gearbox).len(),
        ) == enc_u64(u.sent_at),
        enc_vu(u).len() == 92 + enc_gearbox(u.gearbox).len(),
{
    lemma_auto_spec_u32_to_from_le_bytes();
    lemma_auto_spec_u64_to_from_le_bytes();
    let e0 = enc_transform(u.transform);
    let e1 = enc_electrics(u.electrics);
    let e2 = enc_gearbox(u.gearbox);
    let e3 = enc_u32(u.vehicle_id);
    let e4 = enc_u64(u.generation);
    let e5 = enc_u64(u.sent_at);
    assert(enc_vu(u) =~= e0 + (e1 + (e2 + (e3 + (e4 + e5)))));
    lemma_peel(buf, pos, e0, e1 + (e2 + (e3 + (e4 + e5))));
    lemma_peel(buf, pos + 52, e1, e2 + (e3 + (e4 + e5)));
    lemma_peel(buf, pos + 72, e2, e3 + (e4 + e5));
    lemma_peel(buf, pos + 72 + e2.len(), e3, e4 + e5);
    lemma_peel(buf, pos + 76 + e2.len(), e4, e5);
}

/// Reads a bundled vehicle update.
pub fn read_vu(buf: &[u8], pos: usize) -> (r: Result<
    (crate::vehicle::VehicleUpdate, usize),
    DecodeError,
>)
    ensures
        match r {
            Ok((u, p2)) => pos <= p2 <= buf@.len() && buf@.subrange(pos as int, p2 as int)
                == enc_vu(u) && p2 == pos + enc_vu(u).len() && (u.gearbox.mode matches Some(v)
                ==> v@.len() <= 0xFFFF_FFFF),
            Err(e) => true,
        },
        forall|u: crate::vehicle::VehicleUpdate|
            #![trigger enc_vu(u)]
            ((u.gearbox.mode matches Some(v) ==> v@.len() <= 0xFFFF_FFFF) && pos + enc_vu(u).len()
                <= buf@.len() && buf@.subrange(pos as int, pos + enc_vu(u).len()) == enc_vu(u))
                ==> (r matches Ok(w) && crate::vehicle::vu_eq(w.0, u) && w.1 == pos + enc_vu(
                u,
            ).len()),
{
    proof {
        lemma_auto_spec_u32_to_from_le_bytes();
        lemma_auto_spec_u64_to_from_le_bytes();
    }
    let (transform, p0) = match read_transform(buf, pos) {
        Ok(v) => v,
        Err(e) => {
            proof {
                assert forall|u: crate::vehicle::VehicleUpdate|
                    #![trigger enc_vu(u)]
                    ((u.gearbox.mode matches Some(v) ==> v@.len() <= 0xFFFF_FFFF) && pos + enc_vu(
                        u,
                    ).len() <= buf@.len() && buf@.subrange(pos as int, pos + enc_vu(u).len())
                        == enc_vu(u)) implies false by {
                    lemma_vu_fields(buf@, pos as int, u);
                }
            }
            return Err(e);
        },
    };
    let (electrics, p1) = match read_electrics(buf, p0) {
        Ok(v) => v,
        Err(e) => {
            proof {
                assert forall|u: crate::vehicle::VehicleUpdate|
                    #![trigger enc_vu(u)]
                    ((u.gearbox.mode matches Some(v) ==> v@.len() <= 0xFFFF_FFFF) && pos + enc_vu(
                        u,
                    ).len() <= buf@.len() && buf@.subrange(pos as int, pos + enc_vu(u).len())
                        == enc_vu(u)) implies false by {
                    lemma_vu_fields(buf@, pos as int, u);
                }
            }
            return Err(e);
        },
    };
    let (gearbox, p2) = match read_gearbox(buf, p1) {
        Ok(v) => v,
        Err(e) => {
            proof {
                assert forall|u: crate::vehicle::VehicleUpdate|
                    #![trigger enc_vu(u)]
                    ((u.gearbox.mode matches Some(v) ==> v@.len() <= 0xFFFF_FFFF) && pos + enc_vu(
                        u,
                    ).len() <= buf@.len() && buf@.subrange(pos as int, pos + enc_vu(u).len())
                        == enc_vu(u)) implies false by {
                    lemma_vu_fields(buf@, pos as int, u);
                }
            }
            return Err(e);
        },
    };
    let (vehicle_id, p3) = match read_u32(buf, p2) {
        Ok(v) => v,
        Err(e) => {
            proof {
                assert forall|u: crate::vehicle::VehicleUpdate|
                    #![trigger enc_vu(u)]
                    ((u.gearbox.mode matches Some(v) ==> v@.len() <= 0xFFFF_FFFF) && pos + enc_vu(
                        u,
                    ).len() <= buf@.len() && buf@.subrange(pos as int, pos + enc_vu(u).len())
                        == enc_vu(u)) implies false by {
                    lemma_vu_fields(buf@, pos as int, u);
                    assert(crate::vehicle::gb_eq(gearbox, u.gearbox));
                    assert(enc_gearbox(gearbox) == enc_gearbox(u.gearbox)) by {
                        lemma_gb_eq_enc(gearbox, u.gearbox);
                    }
                }
            }
            return Err(e);
        },
    };
    let (generation, p4) = match read_u64(buf, p3) {
        Ok(v) => v,
        Err(e) => {
            proof {
                assert forall|u: crate::vehicle::VehicleUpdate|
                    #![trigger enc_vu(u)]
                    ((u.gearbox.mode matches Some(v) ==> v@.len() <= 0xFFFF_FFFF) && pos + enc_vu(
                        u,
                    ).len() <= buf@.len() && buf@.subrange(pos as int, pos + enc_vu(u).len())
                        == enc_vu(u)) implies false by {
                    lemma_vu_fields(buf@, pos as int, u);
                    lemma_gb_eq_enc(gearbox, u.gearbox);
                }
            }
            return Err(e);
        },
    };
    let (sent_at, p5) = match read_u64(buf, p4) {
        Ok(v) => v,
        Err(e) => {
            proof {
                assert forall|u: crate::vehicle::VehicleUpdate|
                    #![trigger enc_vu(u)]
                    ((u.gearbox.mode matches Some(v) ==> v@.len() <= 0xFFFF_FFFF) && pos + enc_vu(
                        u,
                    ).len() <= buf@.len() && buf@.subrange(pos as int, pos + enc_vu(u).len())
                        == enc_vu(u)) implies false by {
                    lemma_vu_fields(buf@, pos as int, u);
                    lemma_gb_eq_enc(gearbox, u.gearbox);
                }
            }
            return Err(e);
        },
    };
    let u = crate::vehicle::VehicleUpdate {
        transform,
        electrics,
        gearbox,
        vehicle_id,
        generation,
        sent_at,
    };
    proof {
        lemma_join(buf@, pos as int, p0 as int, p1 as int);
        lemma_join(buf@, pos as int, p1 as int, p2 as int);
        lemma_join(buf@, pos as int, p2 as int, p3 as int);
        lemma_join(buf@, pos as int, p3 as int, p4 as int);
        lemma_join(buf@, pos as int, p4 as int, p5 as int);
        assert(buf@.subrange(pos as int, p5 as int) == enc_vu(u));
        assert(p5 == pos + enc_vu(u).len());
        assert forall|u2: crate::vehicle::VehicleUpdate|
            #![trigger enc_vu(u2)]
            ((u2.gearbox.mode matches Some(v) ==> v@.len() <= 0xFFFF_FFFF) && pos + enc_vu(
                u2,
            ).len() <= buf@.len() && buf@.subrange(pos as int, pos + enc_vu(u2).len()) == enc_vu(
                u2,
            )) implies crate::vehicle::vu_eq(u, u2) && p5 == pos + enc_vu(u2).len() by {
            lemma_vu_fields(buf@, pos as int, u2);
            assert(crate::vehicle::gb_eq(gearbox, u2.gearbox));
            lemma_gb_eq_enc(gearbox, u2.gearbox);
            assert(crate::vehicle::vu_eq(u, u2));
        }
    }
    Ok((u, p5))
}

/// Gearbox snapshots that agree fieldwise have the same encoding.
pub proof fn lemma_gb_eq_enc(a: Gearbox, b: Gearbox)
    requires
        gb_eq(a, b),
    ensures
        enc_gearbox(a) == enc_gearbox(b),
{
    assert(ob(a.mode) == ob(b.mode));
    assert(a.gear_indices@ =~= b.gear_indices@);
    assert(a.gear_indices@[0] == b.gear_indices@[0] && a.gear_indices@[1] == b.gear_indices@[1]);
}

/// A vehicle description: configuration payload, local id, colours, plate,
/// name, global id, owner, and placement.
pub open spec fn enc_vd(d: crate::vehicle::VehicleData) -> Seq<u8> {
    enc_bytes(d.parts_config@) + enc_u32(d.in_game_id) + enc_arr4(d.color) + enc_arr4(d.palete_0)
        + enc_arr4(d.palete_1) + enc_opt_bytes(ob(d.plate)) + enc_bytes(d.name@) + enc_u32(
        d.server_id,
    ) + enc_opt_u32(d.owner) + enc_arr3(d.position) + enc_arr4(d.rotation)
}

/// A vehicle description's byte strings all fit their length prefixes.
pub open spec fn vd_size_ok(d: crate::vehicle::VehicleData) -> bool {
    &&& d.parts_config@.len() <= 0xFFFF_FFFF
    &&& (d.plate matches Some(v) ==> v@.len() <= 0xFFFF_FFFF)
    &&& d.name@.len() <= 0xFFFF_FFFF
}

/// Appends a vehicle description.
pub fn put_vd(out: &mut Vec<u8>, d: &crate::vehicle::VehicleData)
    requires
        vd_size_ok(*d),
    ensures
        final(out)@ == old(out)@ + enc_vd(*d),
{
    put_bytes(out, &d.parts_config);
    put_u32(out, d.in_game_id);
    put_arr4(out, &d.color);
    put_arr4(out, &d.palete_0);
    put_arr4(out, &d.palete_1);
    put_opt_bytes(out, &d.plate);
    put_bytes(out, &d.name);
    put_u32(out, d.server_id);
    put_opt_u32(out, &d.owner);
    put_arr3(out, &d.position);
    put_arr4(out, &d.rotation);
    proof {
        assert(out@ =~= old(out)@ + enc_vd(*d));
    }
}

/// Where each part of an encoded vehicle description lies.
proof fn lemma_vd_fields(buf: Seq<u8>, pos: int, d: crate::vehicle::VehicleData)
    requires
        0 <= pos,
        pos + enc_vd(d).len() <= buf.len(),
        buf.subrange(pos, pos + enc_vd(d).len()) == enc_vd(d),
    ensures
        ({
            let o1 = pos + 4 + d.parts_config@.len();
            let o5 = o1 + 52;
            let o6 = o5 + enc_opt_bytes(ob(d.plate)).len();
            let o7 = o6 + 4 + d.name@.len();
            let o8 = o7 + 4;
            let o9 = o8 + enc_opt_u32(d.owner).len();
            &&& buf.subrange(pos, o1) == enc_bytes(d.parts_config@)
            &&& buf.subrange(o1, o1 + 4) == enc_u32(d.in_game_id)
            &&& buf.subrange(o1 + 4, o1 + 20) == enc_arr4(d.color)
            &&& buf.subrange(o1 + 20, o1 + 36) == enc_arr4(d.palete_0)
            &&& buf.subrange(o1 + 36, o1 + 52) == enc_arr4(d.palete_1)
            &&& buf.subrange(o5, o6) == enc_opt_bytes(ob(d.plate))
            &&& buf.subrange(o6, o7) == enc_bytes(d.name@)
            &&& buf.subrange(o7, o7 + 4) == enc_u32(d.server_id)
            &&& buf.subrange(o8, o9) == enc_opt_u32(d.owner)
            &&& buf.subrange(o9, o9 + 12) == enc_arr3(d.position)
            &&& buf.subrange(o9 + 12, o9 + 28) == enc_arr4(d.rotation)
            &&& enc_vd(d).len() == o9 + 28 - pos
        }),
{
    lemma_auto_spec_u32_to_from_le_bytes();
    let e0 = enc_bytes(d.parts_config@);
    let e1 = enc_u32(d.in_game_id);
    let e2 = enc_arr4(d.color);
    let e3 = enc_arr4(d.palete_0);
    let e4 = enc_arr4(d.palete_1);
    let e5 = enc_opt_bytes(ob(d.plate));
    let e6 = enc_bytes(d.name@);
    let e7 = enc_u32(d.server_id);
    let e8 = enc_opt_u32(d.owner);
    let e9 = enc_arr3(d.position);
    let e10 = enc_arr4(d.rotation);
    assert(enc_vd(d) =~= e0 + (e1 + (e2 + (e3 + (e4 + (e5 + (e6 + (e7 + (e8 + (e9 + e10))))))))));
    let o0 = pos + e0.len();
    lemma_peel(buf, pos, e0, e1 + (e2 + (e3 + (e4 + (e5 + (e6 + (e7 + (e8 + (e9 + e10)))))))));
    lemma_peel(buf, o0, e1, e2 + (e3 + (e4 + (e5 + (e6 + (e7 + (e8 + (e9 + e10))))))));
    lemma_peel(buf, o0 + 4, e2, e3 + (e4 + (e5 + (e6 + (e7 + (e8 + (e9 + e10)))))));
    lemma_peel(buf, o0 + 20, e3, e4 + (e5 + (e6 + (e7 + (e8 + (e9 + e10))))));
    lemma_peel(buf, o0 + 36, e4, e5 + (e6 + (e7 + (e8 + (e9 + e10)))));
    lemma_peel(buf, o0 + 52, e5, e6 + (e7 + (e8 + (e9 + e10))));
    lemma_peel(buf, o0 + 52 + e5.len(), e6, e7 + (e8 + (e9 + e10)));
    lemma_peel(buf, o0 + 52 + e5.len() + e6.len(), e7, e8 + (e9 + e10));
    lemma_peel(buf, o0 + 56 + e5.len() + e6.len(), e8, e9 + e10);
    lemma_peel(buf, o0 + 56 + e5.len() + e6.len() + e8.len(), e9, e10);
}

/// The first half of a vehicle description: configuration payload, local id
/// and colours.
pub open spec fn enc_vdh(parts: Seq<u8>, igid: u32, color: [u32; 4], p0: [u32; 4], p1: [u32; 4]) -> Seq<
    u8,
> {
    enc_bytes(parts) + enc_u32(igid) + enc_arr4(color) + enc_arr4(p0) + enc_arr4(p1)
}

/// The second half of a vehicle description: plate, name, ids and placement.
pub open spec fn enc_vdt(
    plate: Option<Seq<u8>>,
    name: Seq<u8>,
    sid: u32,
    owner: Option<u32>,
    pos3: [u32; 3],
    rot: [u32; 4],
) -> Seq<u8> {
    enc_opt_bytes(plate) + enc_bytes(name) + enc_u32(sid) + enc_opt_u32(owner) + enc_arr3(pos3)
        + enc_arr4(rot)
}

/// A vehicle description is its two halves in a row.
pub proof fn lemma_vd_halves(d: crate::vehicle::VehicleData)
    ensures
        enc_vd(d) == enc_vdh(d.parts_config@, d.in_game_id, d.color, d.palete_0, d.palete_1)
            + enc_vdt(ob(d.plate), d.name@, d.server_id, d.owner, d.position, d.rotation),
{
    assert(enc_vd(d) =~= enc_vdh(d.parts_config@, d.in_game_id, d.color, d.palete_0, d.palete_1)
        + enc_vdt(ob(d.plate), d.name@, d.server_id, d.owner, d.position, d.rotation));
}

/// Where each part of an encoded description head lies.
proof fn lemma_vdh_fields(
    buf: Seq<u8>,
    pos: int,
    parts: Seq<u8>,
    igid: u32,
    color: [u32; 4],
    p0: [u32; 4],
    p1: [u32; 4],
)
    requires
        0 <= pos,
        pos + enc_vdh(parts, igid, color, p0, p1).len() <= buf.len(),
        buf.subrange(pos, pos + enc_vdh(parts, igid, color, p0, p1).len()) == enc_vdh(
            parts,
            igid,
            color,
            p0,
            p1,
        ),
    ensures
        ({
            let o1 = pos + 4 + parts.len();
            &&& buf.subrange(pos, o1) == enc_bytes(parts)
            &&& buf.subrange(o1, o1 + 4) == enc_u32(igid)
            &&& buf.subrange(o1 + 4, o1 + 20) == enc_arr4(color)
            &&& buf.subrange(o1 + 20, o1 + 36) == enc_arr4(p0)
            &&& buf.subrange(o1 + 36, o1 + 52) == enc_arr4(p1)
            &&& enc_vdh(parts, igid, color, p0, p1).len() == o1 + 52 - pos
        }),
{
    lemma_auto_spec_u32_to_from_le_bytes();
    let e0 = enc_bytes(parts);
    let e1 = enc_u32(igid);
    let e2 = enc_arr4(color);
    let e3 = enc_arr4(p0);
    let e4 = enc_arr4(p1);
    assert(enc_vdh(parts, igid, color, p0, p1) =~= e0 + (e1 + (e2 + (e3 + e4))));
    lemma_peel(buf, pos, e0, e1 + (e2 + (e3 + e4)));
    lemma_peel(buf, pos + e0.len(), e1, e2 + (e3 + e4));
    lemma_peel(buf, pos + e0.len() + 4, e2, e3 + e4);
    lemma_peel(buf, pos + e0.len() + 20, e3, e4);
}

/// Reads the first half of a vehicle description.
fn read_vdh(buf: &[u8], pos: usize) -> (r: Result<
    ((Vec<u8>, u32, [u32; 4], [u32; 4], [u32; 4]), usize),
    DecodeError,
>)
    ensures
        match r {
            Ok((h, p2)) => pos <= p2 <= buf@.len() && buf@.subrange(pos as int, p2 as int)
                == enc_vdh(h.0@, h.1, h.2, h.3, h.4) && p2 == pos + enc_vdh(
                h.0@,
                h.1,
                h.2,
                h.3,
                h.4,
            ).len() && h.0@.len() <= 0xFFFF_FFFF,
            Err(e) => true,
        },
        forall|parts: Seq<u8>, igid: u32, color: [u32; 4], p0a: [u32; 4], p1a: [u32; 4]|
            #![trigger enc_vdh(parts, igid, color, p0a, p1a)]
            (parts.len() <= 0xFFFF_FFFF && pos + enc_vdh(parts, igid, color, p0a, p1a).len()
                <= buf@.len() && buf@.subrange(
                pos as int,
                pos + enc_vdh(parts, igid, color, p0a, p1a).len(),
            ) == enc_vdh(parts, igid, color, p0a, p1a)) ==> (r matches Ok(w) && w.0.0@ == parts
                && w.0.1 == igid && w.0.2 == color && w.0.3 == p0a && w.0.4 == p1a && w.1 == pos
                + enc_vdh(parts, igid, color, p0a, p1a).len()),
{
    proof {
        lemma_auto_spec_u32_to_from_le_bytes();
    }
    let (parts_config, q0) = match read_bytes(buf, pos) {
        Ok(v) => v,
        Err(e) => {
            proof {
                assert forall|parts: Seq<u8>, igid: u32, color: [u32; 4], p0a: [u32; 4], p1a: [u32;
                    4]|
                    #![trigger enc_vdh(parts, igid, color, p0a, p1a)]
                    (parts.len() <= 0xFFFF_FFFF && pos + enc_vdh(
                        parts,
                        igid,
                        color,
                        p0a,
                        p1a,
                    ).len() <= buf@.len() && buf@.subrange(
                        pos as int,
                        pos + enc_vdh(parts, igid, color, p0a, p1a).len(),
                    ) == enc_vdh(parts, igid, color, p0a, p1a)) implies false by {
                    lemma_vdh_fields(buf@, pos as int, parts, igid, color, p0a, p1a);
                }
            }
            return Err(e);
        },
    };
    let (in_game_id, q1) = match read_u32(buf, q0) {
        Ok(v) => v,
        Err(e) => {
            proof {
                assert forall|parts: Seq<u8>, igid: u32, color: [u32; 4], p0a: [u32; 4], p1a: [u32;
                    4]|
                    #![trigger enc_vdh(parts, igid, color, p0a, p1a)]
                    (parts.len() <= 0xFFFF_FFFF && pos + enc_vdh(
                        parts,
                        igid,
                        color,
                        p0a,
                        p1a,
                    ).len() <= buf@.len() && buf@.subrange(
                        pos as int,
                        pos + enc_vdh(parts, igid, color, p0a, p1a).len(),
                    ) == enc_vdh(parts, igid, color, p0a, p1a)) implies false by {
                    lemma_vdh_fields(buf@, pos as int, parts, igid, color, p0a, p1a);
                }
            }
            return Err(e);
        },
    };
    let (color, q2) = match read_arr4(buf, q1) {
        Ok(v) => v,
        Err(e) => {
            proof {
                assert forall|parts: Seq<u8>, igid: u32, color: [u32; 4], p0a: [u32; 4], p1a: [u32;
                    4]|
                    #![trigger enc_vdh(parts, igid, color, p0a, p1a)]
                    (parts.len() <= 0xFFFF_FFFF && pos + enc_vdh(
                        parts,
                        igid,
                        color,
                        p0a,
                        p1a,
                    ).len() <= buf@.len() && buf@.subrange(
                        pos as int,
                        pos + enc_vdh(parts, igid, color, p0a, p1a).len(),
                    ) == enc_vdh(parts, igid, color, p0a, p1a)) implies false by {
                    lemma_vdh_fields(buf@, pos as int, parts, igid, color, p0a, p1a);
                }
            }
            return Err(e);
        },
    };
    let (palete_0, q3) = match read_arr4(buf, q2) {
        Ok(v) => v,
        Err(e) => {
            proof {
                assert forall|parts: Seq<u8>, igid: u32, color: [u32; 4], p0a: [u32; 4], p1a: [u32;
                    4]|
                    #![trigger enc_vdh(parts, igid, color, p0a, p1a)]
                    (parts.len() <= 0xFFFF_FFFF && pos + enc_vdh(
                        parts,
                        igid,
                        color,
                        p0a,
                        p1a,
                    ).len() <= buf@.len() && buf@.subrange(
                        pos as int,
                        pos + enc_vdh(parts, igid, color, p0a, p1a).len(),
                    ) == enc_vdh(parts, igid, color, p0a, p1a)) implies false by {
                    lemma_vdh_fields(buf@, pos as int, parts, igid, color, p0a, p1a);
                }
            }
            return Err(e);
        },
    };
    let (palete_1, q4) = match read_arr4(buf, q3) {
        Ok(v) => v,
        Err(e) => {
            proof {
                assert forall|parts: Seq<u8>, igid: u32, color: [u32; 4], p0a: [u32; 4], p1a: [u32;
                    4]|
                    #![trigger enc_vdh(parts, igid, color, p0a, p1a)]
                    (parts.len() <= 0xFFFF_FFFF && pos + enc_vdh(
                        parts,
                        igid,
                        color,
                        p0a,
                        p1a,
                    ).len() <= buf@.len() && buf@.subrange(
                        pos as int,
                        pos + enc_vdh(parts, igid, color, p0a, p1a).len(),
                    ) == enc_vdh(parts, igid, color, p0a, p1a)) implies false by {
                    lemma_vdh_fields(buf@, pos as int, parts, igid, color, p0a, p1a);
                }
            }
            return Err(e);
        },
    };
    proof {
        lemma_join(buf@, pos as int, q0 as int, q1 as int);
        lemma_join(buf@, pos as int, q1 as int, q2 as int);
        lemma_join(buf@, pos as int, q2 as int, q3 as int);
        lemma_join(buf@, pos as int, q3 as int, q4 as int);
        assert(buf@.subrange(pos as int, q4 as int) == enc_vdh(
            parts_config@,
            in_game_id,
            color,
            palete_0,
            palete_1,
        ));
        assert forall|parts: Seq<u8>, igid: u32, c2: [u32; 4], p0a: [u32; 4], p1a: [u32; 4]|
            #![trigger enc_vdh(parts, igid, c2, p0a, p1a)]
            (parts.len() <= 0xFFFF_FFFF && pos + enc_vdh(parts, igid, c2, p0a, p1a).len()
                <= buf@.len() && buf@.subrange(
                pos as int,
                pos + enc_vdh(parts, igid, c2, p0a, p1a).len(),
            ) == enc_vdh(parts, igid, c2, p0a, p1a)) implies parts_config@ == parts && in_game_id
            == igid && color == c2 && palete_0 == p0a && palete_1 == p1a && q4 == pos + enc_vdh(
            parts,
            igid,
            c2,
            p0a,
            p1a,
        ).len() by {
            lemma_vdh_fields(buf@, pos as int, parts, igid, c2, p0a, p1a);
        }
    }
    Ok(((parts_config, in_game_id, color, palete_0, palete_1), q4))
}

/// Where each part of an encoded description tail lies.
proof fn lemma_vdt_fields(
    buf: Seq<u8>,
    pos: int,
    plate: Option<Seq<u8>>,
    name: Seq<u8>,
    sid: u32,
    owner: Option<u32>,
    pos3: [u32; 3],
    rot: [u32; 4],
)
    requires
        0 <= pos,
        pos + enc_vdt(plate, name, sid, owner, pos3, rot).len() <= buf.len(),
        buf.subrange(pos, pos + enc_vdt(plate, name, sid, owner, pos3, rot).len()) == enc_vdt(
            plate,
            name,
            sid,
            owner,
            pos3,
            rot,
        ),
    ensures
        ({
            let o1 = pos + enc_opt_bytes(plate).len();
            let o2 = o1 + 4 + name.len();
            let o3 = o2 + 4;
            let o4 = o3 + enc_opt_u32(owner).len();
            &&& buf.subrange(pos, o1) == enc_opt_bytes(plate)
            &&& buf.subrange(o1, o2) == enc_bytes(name)
            &&& buf.subrange(o2, o2 + 4) == enc_u32(sid)
            &&& buf.subrange(o3, o4) == enc_opt_u32(owner)
            &&& buf.subrange(o4, o4 + 12) == enc_arr3(pos3)
            &&& buf.subrange(o4 + 12, o4 + 28) == enc_arr4(rot)
            &&& enc_vdt(plate, name, sid, owner, pos3, rot).len() == o4 + 28 - pos
        }),
{
    lemma_auto_spec_u32_to_from_le_bytes();
    let e0 = enc_opt_bytes(plate);
    let e1 = enc_bytes(name);
    let e2 = enc_u32(sid);
    let e3 = enc_opt_u32(owner);
    let e4 = enc_arr3(pos3);
    let e5 = enc_arr4(rot);
    assert(enc_vdt(plate, name, sid, owner, pos3, rot) =~= e0 + (e1 + (e2 + (e3 + (e4 + e5)))));
    lemma_peel(buf, pos, e0, e1 + (e2 + (e3 + (e4 + e5))));
    lemma_peel(buf, pos + e0.len(), e1, e2 + (e3 + (e4 + e5)));
    lemma_peel(buf, pos + e0.len() + e1.len(), e2, e3 + (e4 + e5));
    lemma_peel(buf, pos + e0.len() + e1.len() + 4, e3, e4 + e5);
    lemma_peel(buf, pos + e0.len() + e1.len() + 4 + e3.len(), e4, e5);
}

/// Reads the second half of a vehicle description.
fn read_vdt(buf: &[u8], pos: usize) -> (r: Result<
    ((Option<Vec<u8>>, Vec<u8>, u32, Option<u32>, [u32; 3], [u32; 4]), usize),
    DecodeError,
>)
    ensures
        match r {
            Ok((h, p2)) => pos <= p2 <= buf@.len() && buf@.subrange(pos as int, p2 as int)
                == enc_vdt(ob(h.0), h.1@, h.2, h.3, h.4, h.5) && p2 == pos + enc_vdt(
                ob(h.0),
                h.1@,
                h.2,
                h.3,
                h.4,
                h.5,
            ).len() && (h.0 matches Some(v) ==> v@.len() <= 0xFFFF_FFFF) && h.1@.len()
                <= 0xFFFF_FFFF,
            Err(e) => true,
        },
        forall|
            plate: Option<Seq<u8>>,
            name: Seq<u8>,
            sid: u32,
            owner: Option<u32>,
            pos3: [u32; 3],
            rot: [u32; 4],
        |
            #![trigger enc_vdt(plate, name, sid, owner, pos3, rot)]
            ((plate matches Some(v) ==> v.len() <= 0xFFFF_FFFF) && name.len() <= 0xFFFF_FFFF && pos
                + enc_vdt(plate, name, sid, owner, pos3, rot).len() <= buf@.len() && buf@.subrange(
                pos as int,
                pos + enc_vdt(plate, name, sid, owner, pos3, rot).len(),
            ) == enc_vdt(plate, name, sid, owner, pos3, rot)) ==> (r matches Ok(w) && ob(w.0.0)
                == plate && w.0.1@ == name && w.0.2 == sid && w.0.3 == owner && w.0.4 == pos3
                && w.0.5 == rot && w.1 == pos + enc_vdt(plate, name, sid, owner, pos3, rot).len()),
{
    proof {
        lemma_auto_spec_u32_to_from_le_bytes();
    }
    let (plate, q0) = match read_opt_bytes(buf, pos) {
        Ok(v) => v,
        Err(e) => {
            proof {
                assert forall|
                    plate: Option<Seq<u8>>,
                    name: Seq<u8>,
                    sid: u32,
                    owner: Option<u32>,
                    pos3: [u32; 3],
                    rot: [u32; 4],
                |
                    #![trigger enc_vdt(plate, name, sid, owner, pos3, rot)]
                    ((plate matches Some(v) ==> v.len() <= 0xFFFF_FFFF) && name.len()
                        <= 0xFFFF_FFFF && pos + enc_vdt(plate, name, sid, owner, pos3, rot).len()
                        <= buf@.len() && buf@.subrange(
                        pos as int,
                        pos + enc_vdt(plate, name, sid, owner, pos3, rot).len(),
                    ) == enc_vdt(plate, name, sid, owner, pos3, rot)) implies false by {
                    lemma_vdt_fields(buf@, pos as int, plate, name, sid, owner, pos3, rot);
                }
            }
            return Err(e);
        },
    };
    let (name, q1) = match read_bytes(buf, q0) {
        Ok(v) => v,
        Err(e) => {
            proof {
                assert forall|
                    plate: Option<Seq<u8>>,
                    name: Seq<u8>,
                    sid: u32,
                    owner: Option<u32>,
                    pos3: [u32; 3],
                    rot: [u32; 4],
                |
                    #![trigger enc_vdt(plate, name, sid, owner, pos3, rot)]
                    ((plate matches Some(v) ==> v.len() <= 0xFFFF_FFFF) && name.len()
                        <= 0xFFFF_FFFF && pos + enc_vdt(plate, name, sid, owner, pos3, rot).len()
                        <= buf@.len() && buf@.subrange(
                        pos as int,
                        pos + enc_vdt(plate, name, sid, owner, pos3, rot).len(),
                    ) == enc_vdt(plate, name, sid, owner, pos3, rot)) implies false by {
                    lemma_vdt_fields(buf@, pos as int, plate, name, sid, owner, pos3, rot);
                }
            }
            return Err(e);
        },
    };
    let (server_id, q2) = match read_u32(buf, q1) {
        Ok(v) => v,
        Err(e) => {
            proof {
                assert forall|
                    plate: Option<Seq<u8>>,
                    name: Seq<u8>,
                    sid: u32,
                    owner: Option<u32>,
                    pos3: [u32; 3],
                    rot: [u32; 4],
                |
                    #![trigger enc_vdt(plate, name, sid, owner, pos3, rot)]
                    ((plate matches Some(v) ==> v.len() <= 0xFFFF_FFFF) && name.len()
                        <= 0xFFFF_FFFF && pos + enc_vdt(plate, name, sid, owner, pos3, rot).len()
                        <= buf@.len() && buf@.subrange(
                        pos as int,
                        pos + enc_vdt(plate, name, sid, owner, pos3, rot).len(),
                    ) == enc_vdt(plate, name, sid, owner, pos3, rot)) implies false by {
                    lemma_vdt_fields(buf@, pos as int, plate, name, sid, owner, pos3, rot);
                }
            }
            return Err(e);
        },
    };
    let (owner, q3) = match read_opt_u32(buf, q2) {
        Ok(v) => v,
        Err(e) => {
            proof {
                assert forall|
                    plate: Option<Seq<u8>>,
                    name: Seq<u8>,
                    sid: u32,
                    owner: Option<u32>,
                    pos3: [u32; 3],
                    rot: [u32; 4],
                |
                    #![trigger enc_vdt(plate, name, sid, owner, pos3, rot)]
                    ((plate matches Some(v) ==> v.len() <= 0xFFFF_FFFF) && name.len()
                        <= 0xFFFF_FFFF && pos + enc_vdt(plate, name, sid, owner, pos3, rot).len()
                        <= buf@.len() && buf@.subrange(
                        pos as int,
                        pos + enc_vdt(plate, name, sid, owner, pos3, rot).len(),
                    ) == enc_vdt(plate, name, sid, owner, pos3, rot)) implies false by {
                    lemma_vdt_fields(buf@, pos as int, plate, name, sid, owner, pos3, rot);
                }
            }
            return Err(e);
        },
    };
    let (position, q4) = match read_arr3(buf, q3) {
        Ok(v) => v,
        Err(e) => {
            proof {
                assert forall|
                    plate: Option<Seq<u8>>,
                    name: Seq<u8>,
                    sid: u32,
                    owner: Option<u32>,
                    pos3: [u32; 3],
                    rot: [u32; 4],
                |
                    #![trigger enc_vdt(plate, name, sid, owner, pos3, rot)]
                    ((plate matches Some(v) ==> v.len() <= 0xFFFF_FFFF) && name.len()
                        <= 0xFFFF_FFFF && pos + enc_vdt(plate, name, sid, owner, pos3, rot).len()
                        <= buf@.len() && buf@.subrange(
                        pos as int,
                        pos + enc_vdt(plate, name, sid, owner, pos3, rot).len(),
                    ) == enc_vdt(plate, name, sid, owner, pos3, rot)) implies false by {
                    lemma_vdt_fields(buf@, pos as int, plate, name, sid, owner, pos3, rot);
                }
            }
            return Err(DecodeError::Truncated);
        },
    };
    let (rotation, q5) = match read_arr4(buf, q4) {
        Ok(v) => v,
        Err(e) => {
            proof {
                assert forall|
                    plate: Option<Seq<u8>>,
                    name: Seq<u8>,
                    sid: u32,
                    owner: Option<u32>,
                    pos3: [u32; 3],
                    rot: [u32; 4],
                |
                    #![trigger enc_vdt(plate, name, sid, owner, pos3, rot)]
                    ((plate matches Some(v) ==> v.len() <= 0xFFFF_FFFF) && name.len()
                        <= 0xFFFF_FFFF && pos + enc_vdt(plate, name, sid, owner, pos3, rot).len()
                        <= buf@.len() && buf@.subrange(
                        pos as int,
                        pos + enc_vdt(plate, name, sid, owner, pos3, rot).len(),
                    ) == enc_vdt(plate, name, sid, owner, pos3, rot)) implies false by {
                    lemma_vdt_fields(buf@, pos as int, plate, name, sid, owner, pos3, rot);
                }
            }
            return Err(DecodeError::Truncated);
        },
    };
    proof {
        lemma_join(buf@, pos as int, q0 as int, q1 as int);
        lemma_join(buf@, pos as int, q1 as int, q2 as int);
        lemma_join(buf@, pos as int, q2 as int, q3 as int);
        lemma_join(buf@, pos as int, q3 as int, q4 as int);
        lemma_join(buf@, pos as int, q4 as int, q5 as int);
        assert(buf@.subrange(pos as int, q5 as int) == enc_vdt(
            ob(plate),
            name@,
            server_id,
            owner,
            position,
            rotation,
        ));
        assert forall|
            plate2: Option<Seq<u8>>,
            name2: Seq<u8>,
            sid2: u32,
            owner2: Option<u32>,
            pos32: [u32; 3],
            rot2: [u32; 4],
        |
            #![trigger enc_vdt(plate2, name2, sid2, owner2, pos32, rot2)]
            ((plate2 matches Some(v) ==> v.len() <= 0xFFFF_FFFF) && name2.len() <= 0xFFFF_FFFF
                && pos + enc_vdt(plate2, name2, sid2, owner2, pos32, rot2).len() <= buf@.len()
                && buf@.subrange(
                pos as int,
                pos + enc_vdt(plate2, name2, sid2, owner2, pos32, rot2).len(),
            ) == enc_vdt(plate2, name2, sid2, owner2, pos32, rot2)) implies ob(plate) == plate2
            && name@ == name2 && server_id == sid2 && owner == owner2 && position == pos32
            && rotation == rot2 && q5 == pos + enc_vdt(
            plate2,
            name2,
            sid2,
            owner2,
            pos32,
            rot2,
        ).len() by {
            lemma_vdt_fields(buf@, pos as int, plate2, name2, sid2, owner2, pos32, rot2);
        }
    }
    Ok(((plate, name, server_id, owner, position, rotation), q5))
}

/// Reads a vehicle description.
pub fn read_vd(buf: &[u8], pos: usize) -> (r: Result<
    (crate::vehicle::VehicleData, usize),
    DecodeError,
>)
    ensures
        match r {
            Ok((d, p2)) => pos <= p2 <= buf@.len() && buf@.subrange(pos as int, p2 as int)
                == enc_vd(d) && p2 == pos + enc_vd(d).len() && vd_size_ok(d),
            Err(e) => true,
        },
        forall|d: crate::vehicle::VehicleData|
            #![trigger enc_vd(d)]
            (vd_size_ok(d) && pos + enc_vd(d).len() <= buf@.len() && buf@.subrange(
                pos as int,
                pos + enc_vd(d).len(),
            ) == enc_vd(d)) ==> (r matches Ok(w) && crate::vehicle::vd_eq(w.0, d) && w.1 == pos
                + enc_vd(d).len()),
{
    let (head, q0) = match read_vdh(buf, pos) {
        Ok(v) => v,
        Err(e) => {
            proof {
                assert forall|d: crate::vehicle::VehicleData|
                    #![trigger enc_vd(d)]
                    (vd_size_ok(d) && pos + enc_vd(d).len() <= buf@.len() && buf@.subrange(
                        pos as int,
                        pos + enc_vd(d).len(),
                    ) == enc_vd(d)) implies false by {
                    lemma_vd_halves(d);
                    lemma_peel(
                        buf@,
                        pos as int,
                        enc_vdh(d.parts_config@, d.in_game_id, d.color, d.palete_0, d.palete_1),
                        enc_vdt(ob(d.plate), d.name@, d.server_id, d.owner, d.position, d.rotation),
                    );
                }
            }
            return Err(e);
        },
    };
    let (parts_config, in_game_id, color, palete_0, palete_1) = head;
    let (tail, q1) = match read_vdt(buf, q0) {
        Ok(v) => v,
        Err(e) => {
            proof {
                assert forall|d: crate::vehicle::VehicleData|
                    #![trigger enc_vd(d)]
                    (vd_size_ok(d) && pos + enc_vd(d).len() <= buf@.len() && buf@.subrange(
                        pos as int,
                        pos + enc_vd(d).len(),
                    ) == enc_vd(d)) implies false by {
                    lemma_vd_halves(d);
                    lemma_peel(
                        buf@,
                        pos as int,
                        enc_vdh(d.parts_config@, d.in_game_id, d.color, d.palete_0, d.palete_1),
                        enc_vdt(ob(d.plate), d.name@, d.server_id, d.owner, d.position, d.rotation),
                    );
                }
            }
            return Err(e);
        },
    };
    let (plate, name, server_id, owner, position, rotation) = tail;
    let d = crate::vehicle::VehicleData {
        parts_config,
        in_game_id,
        color,
        palete_0,
        palete_1,
        plate,
        name,
        server_id,
        owner,
        position,
        rotation,
    };
    proof {
        lemma_vd_halves(d);
        lemma_join(buf@, pos as int, q0 as int, q1 as int);
        assert(buf@.subrange(pos as int, q1 as int) == enc_vd(d));
        assert(q1 == pos + enc_vd(d).len());
        assert forall|d2: crate::vehicle::VehicleData|
            #![trigger enc_vd(d2)]
            (vd_size_ok(d2) && pos + enc_vd(d2).len() <= buf@.len() && buf@.subrange(
                pos as int,
                pos + enc_vd(d2).len(),
            ) == enc_vd(d2)) implies crate::vehicle::vd_eq(d, d2) && q1 == pos + enc_vd(
            d2,
        ).len() by {
            lemma_vd_halves(d2);
            lemma_peel(
                buf@,
                pos as int,
                enc_vdh(d2.parts_config@, d2.in_game_id, d2.color, d2.palete_0, d2.palete_1),
                enc_vdt(ob(d2.plate), d2.name@, d2.server_id, d2.owner, d2.position, d2.rotation),
            );
            assert(parts_config@ == d2.parts_config@ && name@ == d2.name@);
            assert(ob(plate) == ob(d2.plate));
            assert(crate::vehicle::opt_bytes_eq(d.plate, d2.plate));
            assert(crate::vehicle::vd_eq(d, d2));
        }
    }
    Ok((d, q1))
}

/// A meta record: vehicle, plate, three colour tables.
pub open spec fn enc_vm(m: crate::vehicle::VehicleMeta) -> Seq<u8> {
    enc_u32(m.vehicle_id) + enc_opt_bytes(ob(m.plate)) + enc_arr4(m.colors_table@[0]) + enc_arr4(
        m.colors_table@[1],
    ) + enc_arr4(m.colors_table@[2])
}

/// Appends a meta record.
pub fn put_vm(out: &mut Vec<u8>, m: &crate::vehicle::VehicleMeta)
    requires
        m.plate matches Some(v) ==> v@.len() <= 0xFFFF_FFFF,
    ensures
        final(out)@ == old(out)@ + enc_vm(*m),
{
    put_u32(out, m.vehicle_id);
    put_opt_bytes(out, &m.plate);
    put_arr4(out, &m.colors_table[0]);
    put_arr4(out, &m.colors_table[1]);
    put_arr4(out, &m.colors_table[2]);
    proof {
        assert(out@ =~= old(out)@ + enc_vm(*m));
    }
}

/// Where each part of an encoded meta record lies.
proof fn lemma_vm_fields(buf: Seq<u8>, pos: int, m: crate::vehicle::VehicleMeta)
    requires
        0 <= pos,
        pos + enc_vm(m).len() <= buf.len(),
        buf.subrange(pos, pos + enc_vm(m).len()) == enc_vm(m),
    ensures
        ({
            let o1 = pos + 4 + enc_opt_bytes(ob(m.plate)).len();
            &&& buf.subrange(pos, pos + 4) == enc_u32(m.vehicle_id)
            &&& buf.subrange(pos + 4, o1) == enc_opt_bytes(ob(m.plate))
            &&& buf.subrange(o1, o1 + 16) == enc_arr4(m.colors_table@[0])
            &&& buf.subrange(o1 + 16, o1 + 32) == enc_arr4(m.colors_table@[1])
            &&& buf.subrange(o1 + 32, o1 + 48) == enc_arr4(m.colors_table@[2])
            &&& enc_vm(m).len() == o1 + 48 - pos
        }),
{
    lemma_auto_spec_u32_to_from_le_bytes();
    let e0 = enc_u32(m.vehicle_id);
    let e1 = enc_opt_bytes(ob(m.plate));
    let e2 = enc_arr4(m.colors_table@[0]);
    let e3 = enc_arr4(m.colors_table@[1]);
    let e4 = enc_arr4(m.colors_table@[2]);
    assert(enc_vm(m) =~= e0 + (e1 + (e2 + (e3 + e4))));
    lemma_peel(buf, pos, e0, e1 + (e2 + (e3 + e4)));
    lemma_peel(buf, pos + 4, e1, e2 + (e3 + e4));
    lemma_peel(buf, pos + 4 + e1.len(), e2, e3 + e4);
    lemma_peel(buf, pos + 20 + e1.len(), e3, e4);
}

/// Reads a meta record.
pub fn read_vm(buf: &[u8], pos: usize) -> (r: Result<
    (crate::vehicle::VehicleMeta, usize),
    DecodeError,
>)
    ensures
        match r {
            Ok((m, p2)) => pos <= p2 <= buf@.len() && buf@.subrange(pos as int, p2 as int)
                == enc_vm(m) && p2 == pos + enc_vm(m).len() && (m.plate matches Some(v) ==> v@.len()
                <= 0xFFFF_FFFF),
            Err(e) => true,
        },
        forall|m: crate::vehicle::VehicleMeta|
            #![trigger enc_vm(m)]
            ((m.plate matches Some(v) ==> v@.len() <= 0xFFFF_FFFF) && pos + enc_vm(m).len()
                <= buf@.len() && buf@.subrange(pos as int, pos + enc_vm(m).len()) == enc_vm(m))
                ==> (r matches Ok(w) && crate::vehicle::vm_eq(w.0, m) && w.1 == pos + enc_vm(
                m,
            ).len()),
{
    proof {
        lemma_auto_spec_u32_to_from_le_bytes();
    }
    let (vehicle_id, p0) = match read_u32(buf, pos) {
        Ok(v) => v,
        Err(e) => {
            proof {
                assert forall|m: crate::vehicle::VehicleMeta|
                    #![trigger enc_vm(m)]
                    ((m.plate matches Some(v) ==> v@.len() <= 0xFFFF_FFFF) && pos + enc_vm(m).len()
                        <= buf@.len() && buf@.subrange(pos as int, pos + enc_vm(m).len()) == enc_vm(
                        m,
                    )) implies false by {
                    lemma_vm_fields(buf@, pos as int, m);
                }
            }
            return Err(e);
        },
    };
    let (plate, p1) = match read_opt_bytes(buf, p0) {
        Ok(v) => v,
        Err(e) => {
            proof {
                assert forall|m: crate::vehicle::VehicleMeta|
                    #![trigger enc_vm(m)]
                    ((m.plate matches Some(v) ==> v@.len() <= 0xFFFF_FFFF) && pos + enc_vm(m).len()
                        <= buf@.len() && buf@.subrange(pos as int, pos + enc_vm(m).len()) == enc_vm(
                        m,
                    )) implies false by {
                    lemma_vm_fields(buf@, pos as int, m);
                }
            }
            return Err(e);
        },
    };
    let (c0, p2) = match read_arr4(buf, p1) {
        Ok(v) => v,
        Err(e) => {
            proof {
                assert forall|m: crate::vehicle::VehicleMeta|
                    #![trigger enc_vm(m)]
                    ((m.plate matches Some(v) ==> v@.len() <= 0xFFFF_FFFF) && pos + enc_vm(m).len()
                        <= buf@.len() && buf@.subrange(pos as int, pos + enc_vm(m).len()) == enc_vm(
                        m,
                    )) implies false by {
                    lemma_vm_fields(buf@, pos as int, m);
                }
            }
            return Err(e);
        },
    };
    let (c1, p3) = match read_arr4(buf, p2) {
        Ok(v) => v,
        Err(e) => {
            proof {
                assert forall|m: crate::vehicle::VehicleMeta|
                    #![trigger enc_vm(m)]
                    ((m.plate matches Some(v) ==> v@.len() <= 0xFFFF_FFFF) && pos + enc_vm(m).len()
                        <= buf@.len() && buf@.subrange(pos as int, pos + enc_vm(m).len()) == enc_vm(
                        m,
                    )) implies false by {
                    lemma_vm_fields(buf@, pos as int, m);
                }
            }
            return Err(e);
        },
    };
    let (c2, p4) = match read_arr4(buf, p3) {
        Ok(v) => v,
        Err(e) => {
            proof {
                assert forall|m: crate::vehicle::VehicleMeta|
                    #![trigger enc_vm(m)]
                    ((m.plate matches Some(v) ==> v@.len() <= 0xFFFF_FFFF) && pos + enc_vm(m).len()
                        <= buf@.len() && buf@.subrange(pos as int, pos + enc_vm(m).len()) == enc_vm(
                        m,
                    )) implies false by {
                    lemma_vm_fields(buf@, pos as int, m);
                }
            }
            return Err(e);
        },
    };
    let colors_table: [[u32; 4]; 3] = [c0, c1, c2];
    let m = crate::vehicle::VehicleMeta { vehicle_id, plate, colors_table };
    proof {
        assert(m.colors_table@[0] == c0 && m.colors_table@[1] == c1 && m.colors_table@[2] == c2);
        lemma_join(buf@, pos as int, p0 as int, p1 as int);
        lemma_join(buf@, pos as int, p1 as int, p2 as int);
        lemma_join(buf@, pos as int, p2 as int, p3 as int);
        lemma_join(buf@, pos as int, p3 as int, p4 as int);
        assert(buf@.subrange(pos as int, p4 as int) == enc_vm(m));
        assert(p4 == pos + enc_vm(m).len());
        assert forall|m2: crate::vehicle::VehicleMeta|
            #![trigger enc_vm(m2)]
            ((m2.plate matches Some(v) ==> v@.len() <= 0xFFFF_FFFF) && pos + enc_vm(m2).len()
                <= buf@.len() && buf@.subrange(pos as int, pos + enc_vm(m2).len()) == enc_vm(
                m2,
            )) implies crate::vehicle::vm_eq(m, m2) && p4 == pos + enc_vm(m2).len() by {
            lemma_vm_fields(buf@, pos as int, m2);
            assert(ob(plate) == ob(m2.plate));
            assert(c0 == m2.colors_table@[0] && c1 == m2.colors_table@[1] && c2
                == m2.colors_table@[2]);
            assert(m.colors_table@ =~= m2.colors_table@);
            assert(m.colors_table == m2.colors_table);
            assert(crate::vehicle::opt_bytes_eq(m.plate, m2.plate));
            assert(crate::vehicle::vm_eq(m, m2));
        }
    }
    Ok((m, p4))
}

/// A private identity record: name, secret, optional platform id, version.
pub open spec fn enc_cip(c: crate::commands::ClientInfoPrivate) -> Seq<u8> {
    enc_bytes(c.name@) + enc_bytes(c.secret@) + enc_opt_bytes(ob(c.steamid64)) + enc_u32(
        c.client_version.0,
    ) + enc_u32(c.client_version.1)
}

/// A private identity record's byte strings fit their length prefixes.
pub open spec fn cip_size_ok(c: crate::commands::ClientInfoPrivate) -> bool {
    &&& c.name@.len() <= 0xFFFF_FFFF
    &&& c.secret@.len() <= 0xFFFF_FFFF
    &&& (c.steamid64 matches Some(v) ==> v@.len() <= 0xFFFF_FFFF)
}

/// Appends a private identity record.
pub fn put_cip(out: &mut Vec<u8>, c: &crate::commands::ClientInfoPrivate)
    requires
        cip_size_ok(*c),
    ensures
        final(out)@ == old(out)@ + enc_cip(*c),
{
    put_bytes(out, &c.name);
    put_bytes(out, &c.secret);
    put_opt_bytes(out, &c.steamid64);
    put_u32(out, c.client_version.0);
    put_u32(out, c.client_version.1);
    proof {
        assert(out@ =~= old(out)@ + enc_cip(*c));
    }
}

/// Where each part of an encoded private identity record lies.
proof fn lemma_cip_fields(buf: Seq<u8>, pos: int, c: crate::commands::ClientInfoPrivate)
    requires
        0 <= pos,
        pos + enc_cip(c).len() <= buf.len(),
        buf.subrange(pos, pos + enc_cip(c).len()) == enc_cip(c),
    ensures
        ({
            let o1 = pos + 4 + c.name@.len();
            let o2 = o1 + 4 + c.secret@.len();
            let o3 = o2 + enc_opt_bytes(ob(c.steamid64)).len();
            &&& buf.subrange(pos, o1) == enc_bytes(c.name@)
            &&& buf.subrange(o1, o2) == enc_bytes(c.secret@)
            &&& buf.subrange(o2, o3) == enc_opt_bytes(ob(c.steamid64))
            &&& buf.subrange(o3, o3 + 4) == enc_u32(c.client_version.0)
            &&& buf.subrange(o3 + 4, o3 + 8) == enc_u32(c.client_version.1)
            &&& enc_cip(c).len() == o3 + 8 - pos
        }),
{
    lemma_auto_spec_u32_to_from_le_bytes();
    let e0 = enc_bytes(c.name@);
    let e1 = enc_bytes(c.secret@);
    let e2 = enc_opt_bytes(ob(c.steamid64));
    let e3 = enc_u32(c.client_version.0);
    let e4 = enc_u32(c.client_version.1);
    assert(enc_cip(c) =~= e0 + (e1 + (e2 + (e3 + e4))));
    lemma_peel(buf, pos, e0, e1 + (e2 + (e3 + e4)));
    lemma_peel(buf, pos + e0.len(), e1, e2 + (e3 + e4));
    lemma_peel(buf, pos + e0.len() + e1.len(), e2, e3 + e4);
    lemma_peel(buf, pos + e0.len() + e1.len() + e2.len(), e3, e4);
}

/// Reads a private identity record.
pub fn read_cip(buf: &[u8], pos: usize) -> (r: Result<
    (crate::commands::ClientInfoPrivate, usize),
    DecodeError,
>)
    ensures
        match r {
            Ok((c, p2)) => pos <= p2 <= buf@.len() && buf@.subrange(pos as int, p2 as int)
                == enc_cip(c) && p2 == pos + enc_cip(c).len() && cip_size_ok(c),
            Err(e) => true,
        },
        forall|c: crate::commands::ClientInfoPrivate|
            #![trigger enc_cip(c)]
            (cip_size_ok(c) && pos + enc_cip(c).len() <= buf@.len() && buf@.subrange(
                pos as int,
                pos + enc_cip(c).len(),
            ) == enc_cip(c)) ==> (r matches Ok(w) && crate::commands::cip_eq(w.0, c) && w.1 == pos
                + enc_cip(c).len()),
{
    proof {
        lemma_auto_spec_u32_to_from_le_bytes();
    }
    let (name, q0) = match read_bytes(buf, pos) {
        Ok(v) => v,
        Err(e) => {
            proof {
                assert forall|c: crate::commands::ClientInfoPrivate|
                    #![trigger enc_cip(c)]
                    (cip_size_ok(c) && pos + enc_cip(c).len() <= buf@.len() && buf@.subrange(
                        pos as int,
                        pos + enc_cip(c).len(),
                    ) == enc_cip(c)) implies false by {
                    lemma_cip_fields(buf@, pos as int, c);
                }
            }
            return Err(e);
        },
    };
    let (secret, q1) = match read_bytes(buf, q0) {
        Ok(v) => v,
        Err(e) => {
            proof {
                assert forall|c: crate::commands::ClientInfoPrivate|
                    #![trigger enc_cip(c)]
                    (cip_size_ok(c) && pos + enc_cip(c).len() <= buf@.len() && buf@.subrange(
                        pos as int,
                        pos + enc_cip(c).len(),
                    ) == enc_cip(c)) implies false by {
                    lemma_cip_fields(buf@, pos as int, c);
                }
            }
            return Err(e);
        },
    };
    let (steamid64, q2) = match read_opt_bytes(buf, q1) {
        Ok(v) => v,
        Err(e) => {
            proof {
                assert forall|c: crate::commands::ClientInfoPrivate|
                    #![trigger enc_cip(c)]
                    (cip_size_ok(c) && pos + enc_cip(c).len() <= buf@.len() && buf@.subrange(
                        pos as int,
                        pos + enc_cip(c).len(),
                    ) == enc_cip(c)) implies false by {
                    lemma_cip_fields(buf@, pos as int, c);
                }
            }
            return Err(e);
        },
    };
    let (v0, q3) = match read_u32(buf, q2) {
        Ok(v) => v,
        Err(e) => {
            proof {
                assert forall|c: crate::commands::ClientInfoPrivate|
                    #![trigger enc_cip(c)]
                    (cip_size_ok(c) && pos + enc_cip(c).len() <= buf@.len() && buf@.subrange(
                        pos as int,
                        pos + enc_cip(c).len(),
                    ) == enc_cip(c)) implies false by {
                    lemma_cip_fields(buf@, pos as int, c);
                }
            }
            return Err(e);
        },
    };
    let (v1, q4) = match read_u32(buf, q3) {
        Ok(v) => v,
        Err(e) => {
            proof {
                assert forall|c: crate::commands::ClientInfoPrivate|
                    #![trigger enc_cip(c)]
                    (cip_size_ok(c) && pos + enc_cip(c).len() <= buf@.len() && buf@.subrange(
                        pos as int,
                        pos + enc_cip(c).len(),
                    ) == enc_cip(c)) implies false by {
                    lemma_cip_fields(buf@, pos as int, c);
                }
            }
            return Err(e);
        },
    };
    let c = crate::commands::ClientInfoPrivate { name, secret, steamid64, client_version: (v0, v1) };
    proof {
        lemma_join(buf@, pos as int, q0 as int, q1 as int);
        lemma_join(buf@, pos as int, q1 as int, q2 as int);
        lemma_join(buf@, pos as int, q2 as int, q3 as int);
        lemma_join(buf@, pos as int, q3 as int, q4 as int);
        assert(buf@.subrange(pos as int, q4 as int) == enc_cip(c));
        assert(q4 == pos + enc_cip(c).len());
        assert forall|c2: crate::commands::ClientInfoPrivate|
            #![trigger enc_cip(c2)]
            (cip_size_ok(c2) && pos + enc_cip(c2).len() <= buf@.len() && buf@.subrange(
                pos as int,
                pos + enc_cip(c2).len(),
            ) == enc_cip(c2)) implies crate::commands::cip_eq(c, c2) && q4 == pos + enc_cip(
            c2,
        ).len() by {
            lemma_cip_fields(buf@, pos as int, c2);
            assert(ob(steamid64) == ob(c2.steamid64));
            assert(crate::vehicle::opt_bytes_eq(c.steamid64, c2.steamid64));
            assert(crate::commands::cip_eq(c, c2));
        }
    }
    Ok((c, q4))
}

/// A public identity record: name, session id, current vehicle, latency,
/// visibility.
pub open spec fn enc_cipub(c: crate::commands::ClientInfoPublic) -> Seq<u8> {
    enc_bytes(c.name@) + enc_u32(c.id) + enc_opt_u32(c.current_vehicle) + enc_u32(c.ping)
        + enc_bool(c.hide_nametag)
}

/// Appends a public identity record.
pub fn put_cipub(out: &mut Vec<u8>, c: &crate::commands::ClientInfoPublic)
    requires
        c.name@.len() <= 0xFFFF_FFFF,
    ensures
        final(out)@ == old(out)@ + enc_cipub(*c),
{
    put_bytes(out, &c.name);
    put_u32(out, c.id);
    put_opt_u32(out, &c.current_vehicle);
    put_u32(out, c.ping);
    put_bool(out, c.hide_nametag);
    proof {
        assert(out@ =~= old(out)@ + enc_cipub(*c));
    }
}

/// Where each part of an encoded public identity record lies.
proof fn lemma_cipub_fields(buf: Seq<u8>, pos: int, c: crate::commands::ClientInfoPublic)
    requires
        0 <= pos,
        pos + enc_cipub(c).len() <= buf.len(),
        buf.subrange(pos, pos + enc_cipub(c).len()) == enc_cipub(c),
    ensures
        ({
            let o1 = pos + 4 + c.name@.len();
            let o2 = o1 + 4;
            let o3 = o2 + enc_opt_u32(c.current_vehicle).len();
            &&& buf.subrange(pos, o1) == enc_bytes(c.name@)
            &&& buf.subrange(o1, o2) == enc_u32(c.id)
            &&& buf.subrange(o2, o3) == enc_opt_u32(c.current_vehicle)
            &&& buf.subrange(o3, o3 + 4) == enc_u32(c.ping)
            &&& buf.subrange(o3 + 4, o3 + 5) == enc_bool(c.hide_nametag)
            &&& enc_cipub(c).len() == o3 + 5 - pos
        }),
{
    lemma_auto_spec_u32_to_from_le_bytes();
    let e0 = enc_bytes(c.name@);
    let e1 = enc_u32(c.id);
    let e2 = enc_opt_u32(c.current_vehicle);
    let e3 = enc_u32(c.ping);
    let e4 = enc_bool(c.hide_nametag);
    assert(enc_cipub(c) =~= e0 + (e1 + (e2 + (e3 + e4))));
    lemma_peel(buf, pos, e0, e1 + (e2 + (e3 + e4)));
    lemma_peel(buf, pos + e0.len(), e1, e2 + (e3 + e4));
    lemma_peel(buf, pos + e0.len() + 4, e2, e3 + e4);
    lemma_peel(buf, pos + e0.len() + 4 + e2.len(), e3, e4);
}

/// Reads a public identity record.
pub fn read_cipub(buf: &[u8], pos: usize) -> (r: Result<
    (crate::commands::ClientInfoPublic, usize),
    DecodeError,
>)
    ensures
        match r {
            Ok((c, p2)) => pos <= p2 <= buf@.len() && buf@.subrange(pos as int, p2 as int)
                == enc_cipub(c) && p2 == pos + enc_cipub(c).len() && c.name@.len() <= 0xFFFF_FFFF,
            Err(e) => true,
        },
        forall|c: crate::commands::ClientInfoPublic|
            #![trigger enc_cipub(c)]
            (c.name@.len() <= 0xFFFF_FFFF && pos + enc_cipub(c).len() <= buf@.len()
                && buf@.subrange(pos as int, pos + enc_cipub(c).len()) == enc_cipub(c)) ==> (r
                matches Ok(w) && crate::commands::cipub_eq(w.0, c) && w.1 == pos + enc_cipub(
                c,
            ).len()),
{
    proof {
        lemma_auto_spec_u32_to_from_le_bytes();
    }
    let (name, q0) = match read_bytes(buf, pos) {
        Ok(v) => v,
        Err(e) => {
            proof {
                assert forall|c: crate::commands::ClientInfoPublic|
                    #![trigger enc_cipub(c)]
                    (c.name@.len() <= 0xFFFF_FFFF && pos + enc_cipub(c).len() <= buf@.len()
                        && buf@.subrange(pos as int, pos + enc_cipub(c).len()) == enc_cipub(
                        c,
                    )) implies false by {
                    lemma_cipub_fields(buf@, pos as int, c);
                }
            }
            return Err(e);
        },
    };
    let (id, q1) = match read_u32(buf, q0) {
        Ok(v) => v,
        Err(e) => {
            proof {
                assert forall|c: crate::commands::ClientInfoPublic|
                    #![trigger enc_cipub(c)]
                    (c.name@.len() <= 0xFFFF_FFFF && pos + enc_cipub(c).len() <= buf@.len()
                        && buf@.subrange(pos as int, pos + enc_cipub(c).len()) == enc_cipub(
                        c,
                    )) implies false by {
                    lemma_cipub_fields(buf@, pos as int, c);
                }
            }
            return Err(e);
        },
    };
    let (current_vehicle, q2) = match read_opt_u32(buf, q1) {
        Ok(v) => v,
        Err(e) => {
            proof {
                assert forall|c: crate::commands::ClientInfoPublic|
                    #![trigger enc_cipub(c)]
                    (c.name@.len() <= 0xFFFF_FFFF && pos + enc_cipub(c).len() <= buf@.len()
                        && buf@.subrange(pos as int, pos + enc_cipub(c).len()) == enc_cipub(
                        c,
                    )) implies false by {
                    lemma_cipub_fields(buf@, pos as int, c);
                }
            }
            return Err(e);
        },
    };
    let (ping, q3) = match read_u32(buf, q2) {
        Ok(v) => v,
        Err(e) => {
            proof {
                assert forall|c: crate::commands::ClientInfoPublic|
                    #![trigger enc_cipub(c)]
                    (c.name@.len() <= 0xFFFF_FFFF && pos + enc_cipub(c).len() <= buf@.len()
                        && buf@.subrange(pos as int, pos + enc_cipub(c).len()) == enc_cipub(
                        c,
                    )) implies false by {
                    lemma_cipub_fields(buf@, pos as int, c);
                }
            }
            return Err(e);
        },
    };
    let (hide_nametag, q4) = match read_bool(buf, q3) {
        Ok(v) => v,
        Err(e) => {
            proof {
                assert forall|c: crate::commands::ClientInfoPublic|
                    #![trigger enc_cipub(c)]
                    (c.name@.len() <= 0xFFFF_FFFF && pos + enc_cipub(c).len() <= buf@.len()
                        && buf@.subrange(pos as int, pos + enc_cipub(c).len()) == enc_cipub(
                        c,
                    )) implies false by {
                    lemma_cipub_fields(buf@, pos as int, c);
                }
            }
            return Err(e);
        },
    };
    let c = crate::commands::ClientInfoPublic { name, id, current_vehicle, ping, hide_nametag };
    proof {
        lemma_join(buf@, pos as int, q0 as int, q1 as int);
        lemma_join(buf@, pos as int, q1 as int, q2 as int);
        lemma_join(buf@, pos as int, q2 as int, q3 as int);
        lemma_join(buf@, pos as int, q3 as int, q4 as int);
        assert(buf@.subrange(pos as int, q4 as int) == enc_cipub(c));
        assert(q4 == pos + enc_cipub(c).len());
        assert forall|c2: crate::commands::ClientInfoPublic|
            #![trigger enc_cipub(c2)]
            (c2.name@.len() <= 0xFFFF_FFFF && pos + enc_cipub(c2).len() <= buf@.len()
                && buf@.subrange(pos as int, pos + enc_cipub(c2).len()) == enc_cipub(
                c2,
            )) implies crate::commands::cipub_eq(c, c2) && q4 == pos + enc_cipub(c2).len() by {
            lemma_cipub_fields(buf@, pos as int, c2);
            assert(crate::commands::cipub_eq(c, c2));
        }
    }
    Ok((c, q4))
}

/// The elements of a list of named 32-bit values, one after another.
pub open spec fn enc_pairs_rec(s: Seq<(Seq<u8>, u32)>) -> Seq<u8>
    decreases s.len(),
{
    if s.len() == 0 {
        Seq::<u8>::empty()
    } else {
        enc_bytes(s[0].0) + enc_u32(s[0].1) + enc_pairs_rec(s.drop_first())
    }
}

/// A list of named 32-bit values: a count, then the elements.
pub open spec fn enc_pairs(s: Seq<(Seq<u8>, u32)>) -> Seq<u8> {
    enc_u32(s.len() as u32) + enc_pairs_rec(s)
}

/// The view of a list of named 32-bit values.
pub open spec fn pv(s: Seq<(Vec<u8>, u32)>) -> Seq<(Seq<u8>, u32)> {
    s.map_values(|p: (Vec<u8>, u32)| (p.0@, p.1))
}

/// Every name in the list, and the list itself, fits a 32-bit length.
pub open spec fn pairs_size_ok(s: Seq<(Seq<u8>, u32)>) -> bool {
    &&& s.len() <= 0xFFFF_FFFF
    &&& forall|i: int| 0 <= i < s.len() ==> (#[trigger] s[i]).0.len() <= 0xFFFF_FFFF
}

/// Appending an element extends the encoding at the end.
pub proof fn lemma_pairs_rec_snoc(s: Seq<(Seq<u8>, u32)>, x: (Seq<u8>, u32))
    ensures
        enc_pairs_rec(s.push(x)) == enc_pairs_rec(s) + (enc_bytes(x.0) + enc_u32(x.1)),
    decreases s.len(),
{
    if s.len() == 0 {
        assert(s.push(x)[0] == x);
        assert(s.push(x).drop_first() =~= s);
        assert(enc_pairs_rec(s.push(x)) =~= enc_pairs_rec(s) + (enc_bytes(x.0) + enc_u32(x.1)));
    } else {
        assert(s.push(x).drop_first() =~= s.drop_first().push(x));
        lemma_pairs_rec_snoc(s.drop_first(), x);
        assert(s.push(x)[0] == s[0]);
        assert(enc_pairs_rec(s.push(x)) == enc_bytes(s[0].0) + enc_u32(s[0].1) + enc_pairs_rec(
            s.drop_first().push(x),
        ));
        assert(enc_bytes(s[0].0) + enc_u32(s[0].1) + (enc_pairs_rec(s.drop_first()) + (enc_bytes(
            x.0,
        ) + enc_u32(x.1))) =~= enc_pairs_rec(s) + (enc_bytes(x.0) + enc_u32(x.1)));
    }
}

/// Appends a list of named 32-bit values.
pub fn put_pairs(out: &mut Vec<u8>, v: &Vec<(Vec<u8>, u32)>)
    requires
        pairs_size_ok(pv(v@)),
    ensures
        final(out)@ == old(out)@ + enc_pairs(pv(v@)),
{
    put_u32(out, v.len() as u32);
    let ghost mid = out@;
    let n = v.len();
    let mut i: usize = 0;
    while i < n
        invariant
            0 <= i <= n,
            n == v@.len(),
            pairs_size_ok(pv(v@)),
            out@ == mid + enc_pairs_rec(pv(v@).take(i as int)),
        decreases n - i,
    {
        let ghost before = out@;
        proof {
            assert((#[trigger] pv(v@)[i as int]).0.len() <= 0xFFFF_FFFF);
            assert(pv(v@)[i as int].0 == v@[i as int].0@);
        }
        put_bytes(out, &v[i].0);
        put_u32(out, v[i].1);
        proof {
            assert(pv(v@)[i as int] == (v@[i as int].0@, v@[i as int].1));
            assert(pv(v@).take(i as int + 1) =~= pv(v@).take(i as int).push(pv(v@)[i as int]));
            lemma_pairs_rec_snoc(pv(v@).take(i as int), pv(v@)[i as int]);
            assert(out@ =~= mid + enc_pairs_rec(pv(v@).take(i as int + 1)));
        }
        i = i + 1;
    }
    proof {
        assert(pv(v@).take(n as int) =~= pv(v@));
        assert(out@ =~= old(out)@ + enc_pairs(pv(v@)));
    }
}

/// Reads `n` named 32-bit values.
fn read_pairs_rec(buf: &[u8], pos: usize, n: u32) -> (r: Result<
    (Vec<(Vec<u8>, u32)>, usize),
    DecodeError,
>)
    requires
        pos <= buf@.len(),
    ensures
        match r {
            Ok((v, p2)) => pos <= p2 <= buf@.len() && v@.len() == n && buf@.subrange(
                pos as int,
                p2 as int,
            ) == enc_pairs_rec(pv(v@)) && p2 == pos + enc_pairs_rec(pv(v@)).len() && pairs_size_ok(
                pv(v@),
            ),
            Err(e) => true,
        },
        forall|s: Seq<(Seq<u8>, u32)>|
            #![trigger enc_pairs_rec(s)]
            (s.len() == n && pairs_size_ok(s) && pos + enc_pairs_rec(s).len() <= buf@.len()
                && buf@.subrange(pos as int, pos + enc_pairs_rec(s).len()) == enc_pairs_rec(s))
                ==> (r matches Ok(w) && pv(w.0@) == s && w.1 == pos + enc_pairs_rec(s).len()),
    decreases n,
{
    if n == 0 {
        let v: Vec<(Vec<u8>, u32)> = Vec::new();
        proof {
            assert(pv(v@) =~= Seq::<(Seq<u8>, u32)>::empty());
            assert(buf@.subrange(pos as int, pos as int) =~= enc_pairs_rec(pv(v@)));
            assert forall|s: Seq<(Seq<u8>, u32)>|
                #![trigger enc_pairs_rec(s)]
                (s.len() == n && pairs_size_ok(s) && pos + enc_pairs_rec(s).len() <= buf@.len()
                    && buf@.subrange(pos as int, pos + enc_pairs_rec(s).len()) == enc_pairs_rec(
                    s,
                )) implies pv(v@) == s by {
                assert(s =~= pv(v@));
            }
        }
        return Ok((v, pos));
    }
    let (key, q0) = match read_bytes(buf, pos) {
        Ok(v) => v,
        Err(e) => {
            proof {
                assert forall|s: Seq<(Seq<u8>, u32)>|
                    #![trigger enc_pairs_rec(s)]
                    (s.len() == n && pairs_size_ok(s) && pos + enc_pairs_rec(s).len() <= buf@.len()
                        && buf@.subrange(pos as int, pos + enc_pairs_rec(s).len())
                        == enc_pairs_rec(s)) implies false by {
                    lemma_pairs_head(buf@, pos as int, s);
                }
            }
            return Err(e);
        },
    };
    let (val, q1) = match read_u32(buf, q0) {
        Ok(v) => v,
        Err(e) => {
            proof {
                assert forall|s: Seq<(Seq<u8>, u32)>|
                    #![trigger enc_pairs_rec(s)]
                    (s.len() == n && pairs_size_ok(s) && pos + enc_pairs_rec(s).len() <= buf@.len()
                        && buf@.subrange(pos as int, pos + enc_pairs_rec(s).len())
                        == enc_pairs_rec(s)) implies false by {
                    lemma_pairs_head(buf@, pos as int, s);
                }
            }
            return Err(e);
        },
    };
    let (mut rest, q2) = match read_pairs_rec(buf, q1, n - 1) {
        Ok(v) => v,
        Err(e) => {
            proof {
                assert forall|s: Seq<(Seq<u8>, u32)>|
                    #![trigger enc_pairs_rec(s)]
                    (s.len() == n && pairs_size_ok(s) && pos + enc_pairs_rec(s).len() <= buf@.len()
                        && buf@.subrange(pos as int, pos + enc_pairs_rec(s).len())
                        == enc_pairs_rec(s)) implies false by {
                    lemma_pairs_head(buf@, pos as int, s);
                    assert(s.drop_first().len() == n - 1);
                    assert(pairs_size_ok(s.drop_first())) by {
                        assert forall|i: int| 0 <= i < s.drop_first().len() implies (
                        #[trigger] s.drop_first()[i]).0.len() <= 0xFFFF_FFFF by {
                            assert(s.drop_first()[i] == s[i + 1]);
                        }
                    }
                }
            }
            return Err(e);
        },
    };
    let ghost rest0 = rest@;
    rest.insert(0, (key, val));
    let ghost out_view = pv(rest@);
    proof {
        assert(rest@.len() == rest0.len() + 1);
        assert(out_view.len() == n);
        assert(rest@[0] == ((key, val)));
        assert(out_view[0].0 == key@ && out_view[0].1 == val);
        assert forall|i: int| 0 <= i < rest0.len() implies rest@[i + 1] == rest0[i] by {}
        assert(out_view.drop_first() =~= pv(rest0)) by {
            assert forall|i: int| 0 <= i < rest0.len() implies out_view.drop_first()[i] == pv(
                rest0,
            )[i] by {
                assert(rest@[i + 1] == rest0[i]);
            }
        }
        lemma_join(buf@, pos as int, q0 as int, q1 as int);
        lemma_join(buf@, pos as int, q1 as int, q2 as int);
        assert(enc_pairs_rec(out_view) == enc_bytes(out_view[0].0) + enc_u32(out_view[0].1)
            + enc_pairs_rec(out_view.drop_first()));
        assert(buf@.subrange(pos as int, q2 as int) =~= enc_pairs_rec(out_view));
        assert(pairs_size_ok(out_view)) by {
            assert forall|i: int| 0 <= i < out_view.len() implies (#[trigger] out_view[i]).0.len()
                <= 0xFFFF_FFFF by {
                if i > 0 {
                    assert(out_view[i] == out_view.drop_first()[i - 1]);
                    assert(out_view.drop_first()[i - 1] == pv(rest0)[i - 1]);
                    assert(pv(rest0)[i - 1].0.len() <= 0xFFFF_FFFF);
                }
            }
        }
        assert forall|s: Seq<(Seq<u8>, u32)>|
            #![trigger enc_pairs_rec(s)]
            (s.len() == n && pairs_size_ok(s) && pos + enc_pairs_rec(s).len() <= buf@.len()
                && buf@.subrange(pos as int, pos + enc_pairs_rec(s).len()) == enc_pairs_rec(
                s,
            )) implies pv(rest@) == s && q2 == pos + enc_pairs_rec(s).len() by {
            lemma_pairs_head(buf@, pos as int, s);
            assert(s.drop_first().len() == n - 1);
            assert(pairs_size_ok(s.drop_first())) by {
                assert forall|i: int| 0 <= i < s.drop_first().len() implies (
                #[trigger] s.drop_first()[i]).0.len() <= 0xFFFF_FFFF by {
                    assert(s.drop_first()[i] == s[i + 1]);
                }
            }
            assert(key@ == s[0].0 && val == s[0].1);
            assert(pv(rest0) == s.drop_first());
            assert(out_view =~= s) by {
                assert forall|i: int| 0 <= i < out_view.len() implies out_view[i] == s[i] by {
                    if i > 0 {
                        assert(out_view[i] == out_view.drop_first()[i - 1]);
                        assert(s[i] == s.drop_first()[i - 1]);
                    }
                }
            }
        }
    }
    Ok((rest, q2))
}

/// Where the head element of a non-empty encoded list lies.
proof fn lemma_pairs_head(buf: Seq<u8>, pos: int, s: Seq<(Seq<u8>, u32)>)
    requires
        0 <= pos,
        s.len() > 0,
        pos + enc_pairs_rec(s).len() <= buf.len(),
        buf.subrange(pos, pos + enc_pairs_rec(s).len()) == enc_pairs_rec(s),
    ensures
        ({
            let o1 = pos + 4 + s[0].0.len();
            &&& buf.subrange(pos, o1) == enc_bytes(s[0].0)
            &&& buf.subrange(o1, o1 + 4) == enc_u32(s[0].1)
            &&& buf.subrange(o1 + 4, pos + enc_pairs_rec(s).len()) == enc_pairs_rec(s.drop_first())
            &&& enc_pairs_rec(s).len() == 8 + s[0].0.len() + enc_pairs_rec(s.drop_first()).len()
        }),
{
    lemma_auto_spec_u32_to_from_le_bytes();
    let e0 = enc_bytes(s[0].0);
    let e1 = enc_u32(s[0].1);
    let e2 = enc_pairs_rec(s.drop_first());
    assert(enc_pairs_rec(s) =~= e0 + (e1 + e2));
    lemma_peel(buf, pos, e0, e1 + e2);
    lemma_peel(buf, pos + e0.len(), e1, e2);
}

/// Reads a counted list of named 32-bit values.
pub fn read_pairs(buf: &[u8], pos: usize) -> (r: Result<(Vec<(Vec<u8>, u32)>, usize), DecodeError>)
    ensures
        match r {
            Ok((v, p2)) => pos <= p2 <= buf@.len() && buf@.subrange(pos as int, p2 as int)
                == enc_pairs(pv(v@)) && p2 == pos + enc_pairs(pv(v@)).len() && pairs_size_ok(
                pv(v@),
            ),
            Err(e) => true,
        },
        forall|s: Seq<(Seq<u8>, u32)>|
            #![trigger enc_pairs(s)]
            (pairs_size_ok(s) && pos + enc_pairs(s).len() <= buf@.len() && buf@.subrange(
                pos as int,
                pos + enc_pairs(s).len(),
            ) == enc_pairs(s)) ==> (r matches Ok(w) && pv(w.0@) == s && w.1 == pos + enc_pairs(
                s,
            ).len()),
{
    proof {
        lemma_auto_spec_u32_to_from_le_bytes();
    }
    let (n, q0) = match read_u32(buf, pos) {
        Ok(v) => v,
        Err(e) => {
            proof {
                assert forall|s: Seq<(Seq<u8>, u32)>|
                    #![trigger enc_pairs(s)]
                    (pairs_size_ok(s) && pos + enc_pairs(s).len() <= buf@.len() && buf@.subrange(
                        pos as int,
                        pos + enc_pairs(s).len(),
                    ) == enc_pairs(s)) implies false by {
                    lemma_peel(buf@, pos as int, enc_u32(s.len() as u32), enc_pairs_rec(s));
                }
            }
            return Err(e);
        },
    };
    let (v, q1) = match read_pairs_rec(buf, q0, n) {
        Ok(v) => v,
        Err(e) => {
            proof {
                assert forall|s: Seq<(Seq<u8>, u32)>|
                    #![trigger enc_pairs(s)]
                    (pairs_size_ok(s) && pos + enc_pairs(s).len() <= buf@.len() && buf@.subrange(
                        pos as int,
                        pos + enc_pairs(s).len(),
                    ) == enc_pairs(s)) implies false by {
                    assert(enc_pairs(s) =~= enc_u32(s.len() as u32) + enc_pairs_rec(s));
                    lemma_peel(buf@, pos as int, enc_u32(s.len() as u32), enc_pairs_rec(s));
                    assert(n == s.len() as u32);
                }
            }
            return Err(e);
        },
    };
    proof {
        lemma_join(buf@, pos as int, q0 as int, q1 as int);
        assert(buf@.subrange(pos as int, q1 as int) =~= enc_pairs(pv(v@)));
        assert forall|s: Seq<(Seq<u8>, u32)>|
            #![trigger enc_pairs(s)]
            (pairs_size_ok(s) && pos + enc_pairs(s).len() <= buf@.len() && buf@.subrange(
                pos as int,
                pos + enc_pairs(s).len(),
            ) == enc_pairs(s)) implies pv(v@) == s && q1 == pos + enc_pairs(s).len() by {
            assert(enc_pairs(s) =~= enc_u32(s.len() as u32) + enc_pairs_rec(s));
            lemma_peel(buf@, pos as int, enc_u32(s.len() as u32), enc_pairs_rec(s));
            assert(n == s.len() as u32);
            assert(s.len() == n);
        }
    }
    Ok((v, q1))
}

/// The elements of a list of byte strings, one after another.
pub open spec fn enc_names_rec(s: Seq<Seq<u8>>) -> Seq<u8>
    decreases s.len(),
{
    if s.len() == 0 {
        Seq::<u8>::empty()
    } else {
        enc_bytes(s[0]) + enc_names_rec(s.drop_first())
    }
}

/// A list of byte strings: a count, then the strings.
pub open spec fn enc_names(s: Seq<Seq<u8>>) -> Seq<u8> {
    enc_u32(s.len() as u32) + enc_names_rec(s)
}

/// The view of a list of byte strings.
pub open spec fn nv(s: Seq<Vec<u8>>) -> Seq<Seq<u8>> {
    s.map_values(|p: Vec<u8>| p@)
}

/// Every string in the list, and the list itself, fits a 32-bit length.
pub open spec fn names_size_ok(s: Seq<Seq<u8>>) -> bool {
    &&& s.len() <= 0xFFFF_FFFF
    &&& forall|i: int| 0 <= i < s.len() ==> (#[trigger] s[i]).len() <= 0xFFFF_FFFF
}

/// Appending a string extends the encoding at the end.
pub proof fn lemma_names_rec_snoc(s: Seq<Seq<u8>>, x: Seq<u8>)
    ensures
        enc_names_rec(s.push(x)) == enc_names_rec(s) + enc_bytes(x),
    decreases s.len(),
{
    if s.len() == 0 {
        assert(s.push(x)[0] == x);
        assert(s.push(x).drop_first() =~= s);
        assert(enc_names_rec(s.push(x)) =~= enc_names_rec(s) + enc_bytes(x));
    } else {
        assert(s.push(x).drop_first() =~= s.drop_first().push(x));
        lemma_names_rec_snoc(s.drop_first(), x);
        assert(s.push(x)[0] == s[0]);
        assert(enc_bytes(s[0]) + (enc_names_rec(s.drop_first()) + enc_bytes(x)) =~= enc_names_rec(
            s,
        ) + enc_bytes(x));
    }
}

/// Appends a list of byte strings.
pub fn put_names(out: &mut Vec<u8>, v: &Vec<Vec<u8>>)
    requires
        names_size_ok(nv(v@)),
    ensures
        final(out)@ == old(out)@ + enc_names(nv(v@)),
{
    put_u32(out, v.len() as u32);
    let ghost mid = out@;
    let n = v.len();
    let mut i: usize = 0;
    while i < n
        invariant
            0 <= i <= n,
            n == v@.len(),
            names_size_ok(nv(v@)),
            out@ == mid + enc_names_rec(nv(v@).take(i as int)),
        decreases n - i,
    {
        proof {
            assert((#[trigger] nv(v@)[i as int]).len() <= 0xFFFF_FFFF);
            assert(nv(v@)[i as int] == v@[i as int]@);
        }
        put_bytes(out, &v[i]);
        proof {
            assert(nv(v@).take(i as int + 1) =~= nv(v@).take(i as int).push(nv(v@)[i as int]));
            lemma_names_rec_snoc(nv(v@).take(i as int), nv(v@)[i as int]);
            assert(out@ =~= mid + enc_names_rec(nv(v@).take(i as int + 1)));
        }
        i = i + 1;
    }
    proof {
        assert(nv(v@).take(n as int) =~= nv(v@));
        assert(out@ =~= old(out)@ + enc_names(nv(v@)));
    }
}

/// Where the head string of a non-empty encoded list lies.
proof fn lemma_names_head(buf: Seq<u8>, pos: int, s: Seq<Seq<u8>>)
    requires
        0 <= pos,
        s.len() > 0,
        pos + enc_names_rec(s).len() <= buf.len(),
        buf.subrange(pos, pos + enc_names_rec(s).len()) == enc_names_rec(s),
    ensures
        ({
            let o1 = pos + 4 + s[0].len();
            &&& buf.subrange(pos, o1) == enc_bytes(s[0])
            &&& buf.subrange(o1, pos + enc_names_rec(s).len()) == enc_names_rec(s.drop_first())
            &&& enc_names_rec(s).len() == 4 + s[0].len() + enc_names_rec(s.drop_first()).len()
        }),
{
    lemma_auto_spec_u32_to_from_le_bytes();
    let e0 = enc_bytes(s[0]);
    let e1 = enc_names_rec(s.drop_first());
    assert(enc_names_rec(s) =~= e0 + e1);
    lemma_peel(buf, pos, e0, e1);
}

/// Reads `n` byte strings.
fn read_names_rec(buf: &[u8], pos: usize, n: u32) -> (r: Result<(Vec<Vec<u8>>, usize), DecodeError>)
    requires
        pos <= buf@.len(),
    ensures
        match r {
            Ok((v, p2)) => pos <= p2 <= buf@.len() && v@.len() == n && buf@.subrange(
                pos as int,
                p2 as int,
            ) == enc_names_rec(nv(v@)) && p2 == pos + enc_names_rec(nv(v@)).len() && names_size_ok(
                nv(v@),
            ),
            Err(e) => true,
        },
        forall|s: Seq<Seq<u8>>|
            #![trigger enc_names_rec(s)]
            (s.len() == n && names_size_ok(s) && pos + enc_names_rec(s).len() <= buf@.len()
                && buf@.subrange(pos as int, pos + enc_names_rec(s).len()) == enc_names_rec(s))
                ==> (r matches Ok(w) && nv(w.0@) == s && w.1 == pos + enc_names_rec(s).len()),
    decreases n,
{
    if n == 0 {
        let v: Vec<Vec<u8>> = Vec::new();
        proof {
            assert(nv(v@) =~= Seq::<Seq<u8>>::empty());
            assert(buf@.subrange(pos as int, pos as int) =~= enc_names_rec(nv(v@)));
            assert forall|s: Seq<Seq<u8>>|
                #![trigger enc_names_rec(s)]
                (s.len() == n && names_size_ok(s) && pos + enc_names_rec(s).len() <= buf@.len()
                    && buf@.subrange(pos as int, pos + enc_names_rec(s).len()) == enc_names_rec(
                    s,
                )) implies nv(v@) == s by {
                assert(s =~= nv(v@));
            }
        }
        return Ok((v, pos));
    }
    let (head, q0) = match read_bytes(buf, pos) {
        Ok(v) => v,
        Err(e) => {
            proof {
                assert forall|s: Seq<Seq<u8>>|
                    #![trigger enc_names_rec(s)]
                    (s.len() == n && names_size_ok(s) && pos + enc_names_rec(s).len() <= buf@.len()
                        && buf@.subrange(pos as int, pos + enc_names_rec(s).len())
                        == enc_names_rec(s)) implies false by {
                    lemma_names_head(buf@, pos as int, s);
                }
            }
            return Err(e);
        },
    };
    let (mut rest, q1) = match read_names_rec(buf, q0, n - 1) {
        Ok(v) => v,
        Err(e) => {
            proof {
                assert forall|s: Seq<Seq<u8>>|
                    #![trigger enc_names_rec(s)]
                    (s.len() == n && names_size_ok(s) && pos + enc_names_rec(s).len() <= buf@.len()
                        && buf@.subrange(pos as int, pos + enc_names_rec(s).len())
                        == enc_names_rec(s)) implies false by {
                    lemma_names_head(buf@, pos as int, s);
                    assert(s.drop_first().len() == n - 1);
                    assert(names_size_ok(s.drop_first())) by {
                        assert forall|i: int| 0 <= i < s.drop_first().len() implies (
                        #[trigger] s.drop_first()[i]).len() <= 0xFFFF_FFFF by {
                            assert(s.drop_first()[i] == s[i + 1]);
                        }
                    }
                }
            }
            return Err(e);
        },
    };
    let ghost rest0 = rest@;
    rest.insert(0, head);
    let ghost out_view = nv(rest@);
    proof {
        assert(rest@.len() == rest0.len() + 1);
        assert(out_view.len() == n);
        assert(out_view[0] == rest@[0]@);
        assert forall|i: int| 0 <= i < rest0.len() implies rest@[i + 1] == rest0[i] by {}
        assert(out_view.drop_first() =~= nv(rest0)) by {
            assert forall|i: int| 0 <= i < rest0.len() implies out_view.drop_first()[i] == nv(
                rest0,
            )[i] by {
                assert(rest@[i + 1] == rest0[i]);
            }
        }
        lemma_join(buf@, pos as int, q0 as int, q1 as int);
        assert(enc_names_rec(out_view) == enc_bytes(out_view[0]) + enc_names_rec(
            out_view.drop_first(),
        ));
        assert(buf@.subrange(pos as int, q1 as int) =~= enc_names_rec(out_view));
        assert(names_size_ok(out_view)) by {
            assert forall|i: int| 0 <= i < out_view.len() implies (#[trigger] out_view[i]).len()
                <= 0xFFFF_FFFF by {
                if i > 0 {
                    assert(out_view[i] == out_view.drop_first()[i - 1]);
                    assert(out_view.drop_first()[i - 1] == nv(rest0)[i - 1]);
                    assert(nv(rest0)[i - 1].len() <= 0xFFFF_FFFF);
                }
            }
        }
        assert forall|s: Seq<Seq<u8>>|
            #![trigger enc_names_rec(s)]
            (s.len() == n && names_size_ok(s) && pos + enc_names_rec(s).len() <= buf@.len()
                && buf@.subrange(pos as int, pos + enc_names_rec(s).len()) == enc_names_rec(
                s,
            )) implies nv(rest@) == s && q1 == pos + enc_names_rec(s).len() by {
            lemma_names_head(buf@, pos as int, s);
            assert(s.drop_first().len() == n - 1);
            assert(names_size_ok(s.drop_first())) by {
                assert forall|i: int| 0 <= i < s.drop_first().len() implies (
                #[trigger] s.drop_first()[i]).len() <= 0xFFFF_FFFF by {
                    assert(s.drop_first()[i] == s[i + 1]);
                }
            }
            assert(head@ == s[0]);
            assert(nv(rest0) == s.drop_first());
            assert(out_view =~= s) by {
                assert forall|i: int| 0 <= i < out_view.len() implies out_view[i] == s[i] by {
                    if i > 0 {
                        assert(out_view[i] == out_view.drop_first()[i - 1]);
                        assert(s[i] == s.drop_first()[i - 1]);
                    }
                }
            }
        }
    }
    Ok((rest, q1))
}

/// Reads a counted list of byte strings.
pub fn read_names(buf: &[u8], pos: usize) -> (r: Result<(Vec<Vec<u8>>, usize), DecodeError>)
    ensures
        match r {
            Ok((v, p2)) => pos <= p2 <= buf@.len() && buf@.subrange(pos as int, p2 as int)
                == enc_names(nv(v@)) && p2 == pos + enc_names(nv(v@)).len() && names_size_ok(
                nv(v@),
            ),
            Err(e) => true,
        },
        forall|s: Seq<Seq<u8>>|
            #![trigger enc_names(s)]
            (names_size_ok(s) && pos + enc_names(s).len() <= buf@.len() && buf@.subrange(
                pos as int,
                pos + enc_names(s).len(),
            ) == enc_names(s)) ==> (r matches Ok(w) && nv(w.0@) == s && w.1 == pos + enc_names(
                s,
            ).len()),
{
    proof {
        lemma_auto_spec_u32_to_from_le_bytes();
    }
    let (n, q0) = match read_u32(buf, pos) {
        Ok(v) => v,
        Err(e) => {
            proof {
                assert forall|s: Seq<Seq<u8>>|
                    #![trigger enc_names(s)]
                    (names_size_ok(s) && pos + enc_names(s).len() <= buf@.len() && buf@.subrange(
                        pos as int,
                        pos + enc_names(s).len(),
                    ) == enc_names(s)) implies false by {
                    lemma_peel(buf@, pos as int, enc_u32(s.len() as u32), enc_names_rec(s));
                }
            }
            return Err(e);
        },
    };
    let (v, q1) = match read_names_rec(buf, q0, n) {
        Ok(v) => v,
        Err(e) => {
            proof {
                assert forall|s: Seq<Seq<u8>>|
                    #![trigger enc_names(s)]
                    (names_size_ok(s) && pos + enc_names(s).len() <= buf@.len() && buf@.subrange(
                        pos as int,
                        pos + enc_names(s).len(),
                    ) == enc_names(s)) implies false by {
                    assert(enc_names(s) =~= enc_u32(s.len() as u32) + enc_names_rec(s));
                    lemma_peel(buf@, pos as int, enc_u32(s.len() as u32), enc_names_rec(s));
                    assert(n == s.len() as u32);
                }
            }
            return Err(e);
        },
    };
    proof {
        lemma_join(buf@, pos as int, q0 as int, q1 as int);
        assert(buf@.subrange(pos as int, q1 as int) =~= enc_names(nv(v@)));
        assert forall|s: Seq<Seq<u8>>|
            #![trigger enc_names(s)]
            (names_size_ok(s) && pos + enc_names(s).len() <= buf@.len() && buf@.subrange(
                pos as int,
                pos + enc_names(s).len(),
            ) == enc_names(s)) implies nv(v@) == s && q1 == pos + enc_names(s).len() by {
            assert(enc_names(s) =~= enc_u32(s.len() as u32) + enc_names_rec(s));
            lemma_peel(buf@, pos as int, enc_u32(s.len() as u32), enc_names_rec(s));
            assert(n == s.len() as u32);
            assert(s.len() == n);
        }
    }
    Ok((v, q1))
}

/// A handshake reply: server name, player count, the assigned session id, the
/// map, the tick rate, the per-client vehicle cap, the mod manifest, and the
/// server identifier.
pub open spec fn enc_si(c: crate::commands::ServerInfo) -> Seq<u8> {
    enc_bytes(c.name@) + enc_u8(c.player_count) + enc_u32(c.client_id) + enc_bytes(c.map@) + enc_u8(
        c.tickrate,
    ) + enc_u8(c.max_vehicles_per_client) + enc_pairs(pv(c.mods@)) + enc_bytes(c.server_identifier@)
}

/// A handshake reply's byte strings and manifest fit their length prefixes.
pub open spec fn si_size_ok(c: crate::commands::ServerInfo) -> bool {
    &&& c.name@.len() <= 0xFFFF_FFFF
    &&& c.map@.len() <= 0xFFFF_FFFF
    &&& pairs_size_ok(pv(c.mods@))
    &&& c.server_identifier@.len() <= 0xFFFF_FFFF
}

/// Appends a handshake reply.
pub fn put_si(out: &mut Vec<u8>, c: &crate::commands::ServerInfo)
    requires
        si_size_ok(*c),
    ensures
        final(out)@ == old(out)@ + enc_si(*c),
{
    put_bytes(out, &c.name);
    put_u8(out, c.player_count);
    put_u32(out, c.client_id);
    put_bytes(out, &c.map);
    put_u8(out, c.tickrate);
    put_u8(out, c.max_vehicles_per_client);
    put_pairs(out, &c.mods);
    put_bytes(out, &c.server_identifier);
    proof {
        assert(out@ =~= old(out)@ + enc_si(*c));
    }
}

/// Where each part of an encoded handshake reply lies.
proof fn lemma_si_fields(buf: Seq<u8>, pos: int, c: crate::commands::ServerInfo)
    requires
        0 <= pos,
        pos + enc_si(c).len() <= buf.len(),
        buf.subrange(pos, pos + enc_si(c).len()) == enc_si(c),
    ensures
        ({
            let o1 = pos + 4 + c.name@.len();
            let o2 = o1 + 5;
            let o3 = o2 + 4 + c.map@.len();
            let o4 = o3 + 2;
            let o5 = o4 + enc_pairs(pv(c.mods@)).len();
            let o6 = o5 + 4 + c.server_identifier@.len();
            &&& buf.subrange(pos, o1) == enc_bytes(c.name@)
            &&& buf.subrange(o1, o1 + 1) == enc_u8(c.player_count)
            &&& buf.subrange(o1 + 1, o2) == enc_u32(c.client_id)
            &&& buf.subrange(o2, o3) == enc_bytes(c.map@)
            &&& buf.subrange(o3, o3 + 1) == enc_u8(c.tickrate)
            &&& buf.subrange(o3 + 1, o4) == enc_u8(c.max_vehicles_per_client)
            &&& buf.subrange(o4, o5) == enc_pairs(pv(c.mods@))
            &&& buf.subrange(o5, o6) == enc_bytes(c.server_identifier@)
            &&& enc_si(c).len() == o6 - pos
        }),
{
    lemma_auto_spec_u32_to_from_le_bytes();
    let e0 = enc_bytes(c.name@);
    let e1 = enc_u8(c.player_count);
    let e2 = enc_u32(c.client_id);
    let e3 = enc_bytes(c.map@);
    let e4 = enc_u8(c.tickrate);
    let e5 = enc_u8(c.max_vehicles_per_client);
    let e6 = enc_pairs(pv(c.mods@));
    let e7 = enc_bytes(c.server_identifier@);
    assert(enc_si(c) =~= e0 + (e1 + (e2 + (e3 + (e4 + (e5 + (e6 + e7)))))));
    lemma_peel(buf, pos, e0, e1 + (e2 + (e3 + (e4 + (e5 + (e6 + e7))))));
    lemma_peel(buf, pos + e0.len(), e1, e2 + (e3 + (e4 + (e5 + (e6 + e7)))));
    lemma_peel(buf, pos + e0.len() + 1, e2, e3 + (e4 + (e5 + (e6 + e7))));
    lemma_peel(buf, pos + e0.len() + 5, e3, e4 + (e5 + (e6 + e7)));
    lemma_peel(buf, pos + e0.len() + 5 + e3.len(), e4, e5 + (e6 + e7));
    lemma_peel(buf, pos + e0.len() + 6 + e3.len(), e5, e6 + e7);
    lemma_peel(buf, pos + e0.len() + 7 + e3.len(), e6, e7);
}

/// Reads a handshake reply.
#[verifier::rlimit(100)]
#[verifier::spinoff_prover]
pub fn read_si(buf: &[u8], pos: usize) -> (r: Result<
    (crate::commands::ServerInfo, usize),
    DecodeError,
>)
    ensures
        match r {
            Ok((c, p2)) => pos <= p2 <= buf@.len() && buf@.subrange(pos as int, p2 as int)
                == enc_si(c) && p2 == pos + enc_si(c).len() && si_size_ok(c),
            Err(e) => true,
        },
        forall|c: crate::commands::ServerInfo|
            #![trigger enc_si(c)]
            (si_size_ok(c) && pos + enc_si(c).len() <= buf@.len() && buf@.subrange(
                pos as int,
                pos + enc_si(c).len(),
            ) == enc_si(c)) ==> (r matches Ok(w) && crate::commands::si_eq(w.0, c) && w.1 == pos
                + enc_si(c).len()),
{
    proof {
        lemma_auto_spec_u32_to_from_le_bytes();
    }
    let (name, q0) = match read_bytes(buf, pos) {
        Ok(v) => v,
        Err(e) => {
            proof {
                assert forall|c: crate::commands::ServerInfo|
                    #![trigger enc_si(c)]
                    (si_size_ok(c) && pos + enc_si(c).len() <= buf@.len() && buf@.subrange(
                        pos as int,
                        pos + enc_si(c).len(),
                    ) == enc_si(c)) implies false by {
                    lemma_si_fields(buf@, pos as int, c);
                }
            }
            return Err(e);
        },
    };
    let (player_count, q1) = match read_u8(buf, q0) {
        Ok(v) => v,
        Err(e) => {
            proof {
                assert forall|c: crate::commands::ServerInfo|
                    #![trigger enc_si(c)]
                    (si_size_ok(c) && pos + enc_si(c).len() <= buf@.len() && buf@.subrange(
                        pos as int,
                        pos + enc_si(c).len(),
                    ) == enc_si(c)) implies false by {
                    lemma_si_fields(buf@, pos as int, c);
                }
            }
            return Err(e);
        },
    };
    let (client_id, q2) = match read_u32(buf, q1) {
        Ok(v) => v,
        Err(e) => {
            proof {
                assert forall|c: crate::commands::ServerInfo|
                    #![trigger enc_si(c)]
                    (si_size_ok(c) && pos + enc_si(c).len() <= buf@.len() && buf@.subrange(
                        pos as int,
                        pos + enc_si(c).len(),
                    ) == enc_si(c)) implies false by {
                    lemma_si_fields(buf@, pos as int, c);
                }
            }
            return Err(e);
        },
    };
    let (map, q3) = match read_bytes(buf, q2) {
        Ok(v) => v,
        Err(e) => {
            proof {
                assert forall|c: crate::commands::ServerInfo|
                    #![trigger enc_si(c)]
                    (si_size_ok(c) && pos + enc_si(c).len() <= buf@.len() && buf@.subrange(
                        pos as int,
                        pos + enc_si(c).len(),
                    ) == enc_si(c)) implies false by {
                    lemma_si_fields(buf@, pos as int, c);
                }
            }
            return Err(e);
        },
    };
    let (tickrate, q4) = match read_u8(buf, q3) {
        Ok(v) => v,
        Err(e) => {
            proof {
                assert forall|c: crate::commands::ServerInfo|
                    #![trigger enc_si(c)]
                    (si_size_ok(c) && pos + enc_si(c).len() <= buf@.len() && buf@.subrange(
                        pos as int,
                        pos + enc_si(c).len(),
                    ) == enc_si(c)) implies false by {
                    lemma_si_fields(buf@, pos as int, c);
                }
            }
            return Err(e);
        },
    };
    let (max_vehicles_per_client, q5) = match read_u8(buf, q4) {
        Ok(v) => v,
        Err(e) => {
            proof {
                assert forall|c: crate::commands::ServerInfo|
                    #![trigger enc_si(c)]
                    (si_size_ok(c) && pos + enc_si(c).len() <= buf@.len() && buf@.subrange(
                        pos as int,
                        pos + enc_si(c).len(),
                    ) == enc_si(c)) implies false by {
                    lemma_si_fields(buf@, pos as int, c);
                }
            }
            return Err(e);
        },
    };
    let (mods, q6) = match read_pairs(buf, q5) {
        Ok(v) => v,
        Err(e) => {
            proof {
                assert forall|c: crate::commands::ServerInfo|
                    #![trigger enc_si(c)]
                    (si_size_ok(c) && pos + enc_si(c).len() <= buf@.len() && buf@.subrange(
                        pos as int,
                        pos + enc_si(c).len(),
                    ) == enc_si(c)) implies false by {
                    lemma_si_fields(buf@, pos as int, c);
                }
            }
            return Err(e);
        },
    };
    let (server_identifier, q7) = match read_bytes(buf, q6) {
        Ok(v) => v,
        Err(e) => {
            proof {
                assert forall|c: crate::commands::ServerInfo|
                    #![trigger enc_si(c)]
                    (si_size_ok(c) && pos + enc_si(c).len() <= buf@.len() && buf@.subrange(
                        pos as int,
                        pos + enc_si(c).len(),
                    ) == enc_si(c)) implies false by {
                    lemma_si_fields(buf@, pos as int, c);
                }
            }
            return Err(e);
        },
    };
    let c = crate::commands::ServerInfo {
        name,
        player_count,
        client_id,
        map,
        tickrate,
        max_vehicles_per_client,
        mods,
        server_identifier,
    };
    proof {
        lemma_join(buf@, pos as int, q0 as int, q1 as int);
        lemma_join(buf@, pos as int, q1 as int, q2 as int);
        lemma_join(buf@, pos as int, q2 as int, q3 as int);
        lemma_join(buf@, pos as int, q3 as int, q4 as int);
        lemma_join(buf@, pos as int, q4 as int, q5 as int);
        lemma_join(buf@, pos as int, q5 as int, q6 as int);
        lemma_join(buf@, pos as int, q6 as int, q7 as int);
        assert(buf@.subrange(pos as int, q7 as int) == enc_si(c));
        assert(q7 == pos + enc_si(c).len());
        assert forall|c2: crate::commands::ServerInfo|
            #![trigger enc_si(c2)]
            (si_size_ok(c2) && pos + enc_si(c2).len() <= buf@.len() && buf@.subrange(
                pos as int,
                pos + enc_si(c2).len(),
            ) == enc_si(c2)) implies crate::commands::si_eq(c, c2) && q7 == pos + enc_si(
            c2,
        ).len() by {
            lemma_si_fields(buf@, pos as int, c2);
            assert(pv(mods@) == pv(c2.mods@));
            assert(crate::commands::mods_eq(c.mods@, c2.mods@)) by {
                assert forall|i: int| 0 <= i < c.mods@.len() implies c.mods@[i].0@ == c2.mods@[i].0@
                    && c.mods@[i].1 == c2.mods@[i].1 by {
                    assert(pv(mods@)[i] == pv(c2.mods@)[i]);
                }
            }
            assert(crate::commands::si_eq(c, c2));
        }
    }
    Ok((c, q7))
}

/// A word followed by a byte string.
pub open spec fn enc_u32_bytes(x: u32, v: Seq<u8>) -> Seq<u8> {
    enc_u32(x) + enc_bytes(v)
}

/// Reads a word followed by a byte string.
pub fn read_u32_bytes(buf: &[u8], pos: usize) -> (r: Result<((u32, Vec<u8>), usize), DecodeError>)
    ensures
        match r {
            Ok((w, p2)) => pos <= p2 <= buf@.len() && buf@.subrange(pos as int, p2 as int)
                == enc_u32_bytes(w.0, w.1@) && p2 == pos + enc_u32_bytes(w.0, w.1@).len()
                && w.1@.len() <= 0xFFFF_FFFF,
            Err(e) => true,
        },
        forall|x: u32, v: Seq<u8>|
            #![trigger enc_u32_bytes(x, v)]
            (v.len() <= 0xFFFF_FFFF && pos + enc_u32_bytes(x, v).len() <= buf@.len()
                && buf@.subrange(pos as int, pos + enc_u32_bytes(x, v).len()) == enc_u32_bytes(
                x,
                v,
            )) ==> (r matches Ok(w) && w.0.0 == x && w.0.1@ == v && w.1 == pos + enc_u32_bytes(
                x,
                v,
            ).len()),
{
    proof {
        lemma_auto_spec_u32_to_from_le_bytes();
    }
    let (x, q0) = match read_u32(buf, pos) {
        Ok(v) => v,
        Err(e) => {
            proof {
                assert forall|x: u32, v: Seq<u8>|
                    #![trigger enc_u32_bytes(x, v)]
                    (v.len() <= 0xFFFF_FFFF && pos + enc_u32_bytes(x, v).len() <= buf@.len()
                        && buf@.subrange(pos as int, pos + enc_u32_bytes(x, v).len())
                        == enc_u32_bytes(x, v)) implies false by {
                    lemma_peel(buf@, pos as int, enc_u32(x), enc_bytes(v));
                }
            }
            return Err(e);
        },
    };
    let (v, q1) = match read_bytes(buf, q0) {
        Ok(v) => v,
        Err(e) => {
            proof {
                assert forall|x: u32, v: Seq<u8>|
                    #![trigger enc_u32_bytes(x, v)]
                    (v.len() <= 0xFFFF_FFFF && pos + enc_u32_bytes(x, v).len() <= buf@.len()
                        && buf@.subrange(pos as int, pos + enc_u32_bytes(x, v).len())
                        == enc_u32_bytes(x, v)) implies false by {
                    lemma_peel(buf@, pos as int, enc_u32(x), enc_bytes(v));
                }
            }
            return Err(e);
        },
    };
    proof {
        lemma_join(buf@, pos as int, q0 as int, q1 as int);
        assert forall|x2: u32, v2: Seq<u8>|
            #![trigger enc_u32_bytes(x2, v2)]
            (v2.len() <= 0xFFFF_FFFF && pos + enc_u32_bytes(x2, v2).len() <= buf@.len()
                && buf@.subrange(pos as int, pos + enc_u32_bytes(x2, v2).len()) == enc_u32_bytes(
                x2,
                v2,
            )) implies x == x2 && v@ == v2 && q1 == pos + enc_u32_bytes(x2, v2).len() by {
            lemma_peel(buf@, pos as int, enc_u32(x2), enc_bytes(v2));
        }
    }
    Ok(((x, v), q1))
}

/// A word followed by a channel list.
pub open spec fn enc_u32_pairs(x: u32, s: Seq<(Seq<u8>, u32)>) -> Seq<u8> {
    enc_u32(x) + enc_pairs(s)
}

/// Reads a word followed by a channel list.
pub fn read_u32_pairs(buf: &[u8], pos: usize) -> (r: Result<
    ((u32, Vec<(Vec<u8>, u32)>), usize),
    DecodeError,
>)
    ensures
        match r {
            Ok((w, p2)) => pos <= p2 <= buf@.len() && buf@.subrange(pos as int, p2 as int)
                == enc_u32_pairs(w.0, pv(w.1@)) && p2 == pos + enc_u32_pairs(w.0, pv(w.1@)).len()
                && pairs_size_ok(pv(w.1@)),
            Err(e) => true,
        },
        forall|x: u32, s: Seq<(Seq<u8>, u32)>|
            #![trigger enc_u32_pairs(x, s)]
            (pairs_size_ok(s) && pos + enc_u32_pairs(x, s).len() <= buf@.len() && buf@.subrange(
                pos as int,
                pos + enc_u32_pairs(x, s).len(),
            ) == enc_u32_pairs(x, s)) ==> (r matches Ok(w) && w.0.0 == x && pv(w.0.1@) == s && w.1
                == pos + enc_u32_pairs(x, s).len()),
{
    proof {
        lemma_auto_spec_u32_to_from_le_bytes();
    }
    let (x, q0) = match read_u32(buf, pos) {
        Ok(v) => v,
        Err(e) => {
            proof {
                assert forall|x: u32, s: Seq<(Seq<u8>, u32)>|
                    #![trigger enc_u32_pairs(x, s)]
                    (pairs_size_ok(s) && pos + enc_u32_pairs(x, s).len() <= buf@.len()
                        && buf@.subrange(pos as int, pos + enc_u32_pairs(x, s).len())
                        == enc_u32_pairs(x, s)) implies false by {
                    lemma_peel(buf@, pos as int, enc_u32(x), enc_pairs(s));
                }
            }
            return Err(e);
        },
    };
    let (v, q1) = match read_pairs(buf, q0) {
        Ok(v) => v,
        Err(e) => {
            proof {
                assert forall|x: u32, s: Seq<(Seq<u8>, u32)>|
                    #![trigger enc_u32_pairs(x, s)]
                    (pairs_size_ok(s) && pos + enc_u32_pairs(x, s).len() <= buf@.len()
                        && buf@.subrange(pos as int, pos + enc_u32_pairs(x, s).len())
                        == enc_u32_pairs(x, s)) implies false by {
                    lemma_peel(buf@, pos as int, enc_u32(x), enc_pairs(s));
                }
            }
            return Err(e);
        },
    };
    proof {
        lemma_join(buf@, pos as int, q0 as int, q1 as int);
        assert forall|x2: u32, s2: Seq<(Seq<u8>, u32)>|
            #![trigger enc_u32_pairs(x2, s2)]
            (pairs_size_ok(s2) && pos + enc_u32_pairs(x2, s2).len() <= buf@.len() && buf@.subrange(
                pos as int,
                pos + enc_u32_pairs(x2, s2).len(),
            ) == enc_u32_pairs(x2, s2)) implies x == x2 && pv(v@) == s2 && q1 == pos
            + enc_u32_pairs(x2, s2).len() by {
            lemma_peel(buf@, pos as int, enc_u32(x2), enc_pairs(s2));
        }
    }
    Ok(((x, v), q1))
}

/// A reassembly chunk: its index, the total chunk count, its bytes.
pub open spec fn enc_chunk(ci: u32, tc: u32, data: Seq<u8>) -> Seq<u8> {
    enc_u32(ci) + enc_u32(tc) + enc_bytes(data)
}

/// Reads a reassembly chunk.
pub fn read_chunk(buf: &[u8], pos: usize) -> (r: Result<((u32, u32, Vec<u8>), usize), DecodeError>)
    ensures
        match r {
            Ok((w, p2)) => pos <= p2 <= buf@.len() && buf@.subrange(pos as int, p2 as int)
                == enc_chunk(w.0, w.1, w.2@) && p2 == pos + enc_chunk(w.0, w.1, w.2@).len()
                && w.2@.len() <= 0xFFFF_FFFF,
            Err(e) => true,
        },
        forall|ci: u32, tc: u32, data: Seq<u8>|
            #![trigger enc_chunk(ci, tc, data)]
            (data.len() <= 0xFFFF_FFFF && pos + enc_chunk(ci, tc, data).len() <= buf@.len()
                && buf@.subrange(pos as int, pos + enc_chunk(ci, tc, data).len()) == enc_chunk(
                ci,
                tc,
                data,
            )) ==> (r matches Ok(w) && w.0.0 == ci && w.0.1 == tc && w.0.2@ == data && w.1 == pos
                + enc_chunk(ci, tc, data).len()),
{
    proof {
        lemma_auto_spec_u32_to_from_le_bytes();
    }
    let (ci, q0) = match read_u32(buf, pos) {
        Ok(v) => v,
        Err(e) => {
            proof {
                assert forall|ci: u32, tc: u32, data: Seq<u8>|
                    #![trigger enc_chunk(ci, tc, data)]
                    (data.len() <= 0xFFFF_FFFF && pos + enc_chunk(ci, tc, data).len() <= buf@.len()
                        && buf@.subrange(pos as int, pos + enc_chunk(ci, tc, data).len())
                        == enc_chunk(ci, tc, data)) implies false by {
                    assert(enc_chunk(ci, tc, data) =~= enc_u32(ci) + (enc_u32(tc) + enc_bytes(
                        data,
                    )));
                    lemma_peel(buf@, pos as int, enc_u32(ci), enc_u32(tc) + enc_bytes(data));
                }
            }
            return Err(e);
        },
    };
    let (tc, q1) = match read_u32(buf, q0) {
        Ok(v) => v,
        Err(e) => {
            proof {
                assert forall|ci: u32, tc: u32, data: Seq<u8>|
                    #![trigger enc_chunk(ci, tc, data)]
                    (data.len() <= 0xFFFF_FFFF && pos + enc_chunk(ci, tc, data).len() <= buf@.len()
                        && buf@.subrange(pos as int, pos + enc_chunk(ci, tc, data).len())
                        == enc_chunk(ci, tc, data)) implies false by {
                    assert(enc_chunk(ci, tc, data) =~= enc_u32(ci) + (enc_u32(tc) + enc_bytes(
                        data,
                    )));
                    lemma_peel(buf@, pos as int, enc_u32(ci), enc_u32(tc) + enc_bytes(data));
                    lemma_peel(buf@, pos as int + 4, enc_u32(tc), enc_bytes(data));
                }
            }
            return Err(e);
        },
    };
    let (data, q2) = match read_bytes(buf, q1) {
        Ok(v) => v,
        Err(e) => {
            proof {
                assert forall|ci: u32, tc: u32, data: Seq<u8>|
                    #![trigger enc_chunk(ci, tc, data)]
                    (data.len() <= 0xFFFF_FFFF && pos + enc_chunk(ci, tc, data).len() <= buf@.len()
                        && buf@.subrange(pos as int, pos + enc_chunk(ci, tc, data).len())
                        == enc_chunk(ci, tc, data)) implies false by {
                    assert(enc_chunk(ci, tc, data) =~= enc_u32(ci) + (enc_u32(tc) + enc_bytes(
                        data,
                    )));
                    lemma_peel(buf@, pos as int, enc_u32(ci), enc_u32(tc) + enc_bytes(data));
                    lemma_peel(buf@, pos as int + 4, enc_u32(tc), enc_bytes(data));
                }
            }
            return Err(e);
        },
    };
    proof {
        lemma_join(buf@, pos as int, q0 as int, q1 as int);
        lemma_join(buf@, pos as int, q1 as int, q2 as int);
        assert forall|ci2: u32, tc2: u32, data2: Seq<u8>|
            #![trigger enc_chunk(ci2, tc2, data2)]
            (data2.len() <= 0xFFFF_FFFF && pos + enc_chunk(ci2, tc2, data2).len() <= buf@.len()
                && buf@.subrange(pos as int, pos + enc_chunk(ci2, tc2, data2).len()) == enc_chunk(
                ci2,
                tc2,
                data2,
            )) implies ci == ci2 && tc == tc2 && data@ == data2 && q2 == pos + enc_chunk(
            ci2,
            tc2,
            data2,
        ).len() by {
            assert(enc_chunk(ci2, tc2, data2) =~= enc_u32(ci2) + (enc_u32(tc2) + enc_bytes(
                data2,
            )));
            lemma_peel(buf@, pos as int, enc_u32(ci2), enc_u32(tc2) + enc_bytes(data2));
            lemma_peel(buf@, pos as int + 4, enc_u32(tc2), enc_bytes(data2));
        }
    }
    Ok(((ci, tc, data), q2))
}

/// A chat line addressed to everyone or attributed to one player.
pub open spec fn enc_chat(msg: Seq<u8>, from: Option<u32>) -> Seq<u8> {
    enc_bytes(msg) + enc_opt_u32(from)
}

/// Reads a chat line.
pub fn read_chat(buf: &[u8], pos: usize) -> (r: Result<
    ((Vec<u8>, Option<u32>), usize),
    DecodeError,
>)
    ensures
        match r {
            Ok((w, p2)) => pos <= p2 <= buf@.len() && buf@.subrange(pos as int, p2 as int)
                == enc_chat(w.0@, w.1) && p2 == pos + enc_chat(w.0@, w.1).len() && w.0@.len()
                <= 0xFFFF_FFFF,
            Err(e) => true,
        },
        forall|msg: Seq<u8>, from: Option<u32>|
            #![trigger enc_chat(msg, from)]
            (msg.len() <= 0xFFFF_FFFF && pos + enc_chat(msg, from).len() <= buf@.len()
                && buf@.subrange(pos as int, pos + enc_chat(msg, from).len()) == enc_chat(
                msg,
                from,
            )) ==> (r matches Ok(w) && w.0.0@ == msg && w.0.1 == from && w.1 == pos + enc_chat(
                msg,
                from,
            ).len()),
{
    proof {
        lemma_auto_spec_u32_to_from_le_bytes();
    }
    let (msg, q0) = match read_bytes(buf, pos) {
        Ok(v) => v,
        Err(e) => {
            proof {
                assert forall|msg: Seq<u8>, from: Option<u32>|
                    #![trigger enc_chat(msg, from)]
                    (msg.len() <= 0xFFFF_FFFF && pos + enc_chat(msg, from).len() <= buf@.len()
                        && buf@.subrange(pos as int, pos + enc_chat(msg, from).len()) == enc_chat(
                        msg,
                        from,
                    )) implies false by {
                    lemma_peel(buf@, pos as int, enc_bytes(msg), enc_opt_u32(from));
                }
            }
            return Err(e);
        },
    };
    let (from, q1) = match read_opt_u32(buf, q0) {
        Ok(v) => v,
        Err(e) => {
            proof {
                assert forall|msg: Seq<u8>, from: Option<u32>|
                    #![trigger enc_chat(msg, from)]
                    (msg.len() <= 0xFFFF_FFFF && pos + enc_chat(msg, from).len() <= buf@.len()
                        && buf@.subrange(pos as int, pos + enc_chat(msg, from).len()) == enc_chat(
                        msg,
                        from,
                    )) implies false by {
                    lemma_peel(buf@, pos as int, enc_bytes(msg), enc_opt_u32(from));
                }
            }
            return Err(e);
        },
    };
    proof {
        lemma_join(buf@, pos as int, q0 as int, q1 as int);
        assert forall|msg2: Seq<u8>, from2: Option<u32>|
            #![trigger enc_chat(msg2, from2)]
            (msg2.len() <= 0xFFFF_FFFF && pos + enc_chat(msg2, from2).len() <= buf@.len()
                && buf@.subrange(pos as int, pos + enc_chat(msg2, from2).len()) == enc_chat(
                msg2,
                from2,
            )) implies msg@ == msg2 && from == from2 && q1 == pos + enc_chat(msg2, from2).len() by {
            lemma_peel(buf@, pos as int, enc_bytes(msg2), enc_opt_u32(from2));
        }
    }
    Ok(((msg, from), q1))
}

/// One file-transfer part: file name, chunk bytes, chunk index, total file
/// size, and the progress offset the chunk is written at.
pub open spec fn enc_filepart(
    name: Seq<u8>,
    data: Seq<u8>,
    chunk: u32,
    total: u32,
    offset: u32,
) -> Seq<u8> {
    enc_bytes(name) + enc_bytes(data) + enc_u32(chunk) + enc_u32(total) + enc_u32(offset)
}

/// Reads one file-transfer part.
pub fn read_filepart(buf: &[u8], pos: usize) -> (r: Result<
    ((Vec<u8>, Vec<u8>, u32, u32, u32), usize),
    DecodeError,
>)
    ensures
        match r {
            Ok((w, p2)) => pos <= p2 <= buf@.len() && buf@.subrange(pos as int, p2 as int)
                == enc_filepart(w.0@, w.1@, w.2, w.3, w.4) && p2 == pos + enc_filepart(
                w.0@,
                w.1@,
                w.2,
                w.3,
                w.4,
            ).len() && w.0@.len() <= 0xFFFF_FFFF && w.1@.len() <= 0xFFFF_FFFF,
            Err(e) => true,
        },
        forall|name: Seq<u8>, data: Seq<u8>, chunk: u32, total: u32, offset: u32|
            #![trigger enc_filepart(name, data, chunk, total, offset)]
            (name.len() <= 0xFFFF_FFFF && data.len() <= 0xFFFF_FFFF && pos + enc_filepart(
                name,
                data,
                chunk,
                total,
                offset,
            ).len() <= buf@.len() && buf@.subrange(
                pos as int,
                pos + enc_filepart(name, data, chunk, total, offset).len(),
            ) == enc_filepart(name, data, chunk, total, offset)) ==> (r matches Ok(w) && w.0.0@
                == name && w.0.1@ == data && w.0.2 == chunk && w.0.3 == total && w.0.4 == offset
                && w.1 == pos + enc_filepart(name, data, chunk, total, offset).len()),
{
    proof {
        lemma_auto_spec_u32_to_from_le_bytes();
    }
    let (name, q0) = match read_bytes(buf, pos) {
        Ok(v) => v,
        Err(e) => {
            proof {
                assert forall|nm: Seq<u8>, dt: Seq<u8>, ck: u32, tt: u32, of: u32|
                    #![trigger enc_filepart(nm, dt, ck, tt, of)]
                    (nm.len() <= 0xFFFF_FFFF && dt.len() <= 0xFFFF_FFFF && pos + enc_filepart(
                        nm,
                        dt,
                        ck,
                        tt,
                        of,
                    ).len() <= buf@.len() && buf@.subrange(
                        pos as int,
                        pos + enc_filepart(nm, dt, ck, tt, of).len(),
                    ) == enc_filepart(nm, dt, ck, tt, of)) implies false by {
                    lemma_filepart_fields(buf@, pos as int, nm, dt, ck, tt, of);
                }
            }
            return Err(e);
        },
    };
    let (data, q1) = match read_bytes(buf, q0) {
        Ok(v) => v,
        Err(e) => {
            proof {
                assert forall|nm: Seq<u8>, dt: Seq<u8>, ck: u32, tt: u32, of: u32|
                    #![trigger enc_filepart(nm, dt, ck, tt, of)]
                    (nm.len() <= 0xFFFF_FFFF && dt.len() <= 0xFFFF_FFFF && pos + enc_filepart(
                        nm,
                        dt,
                        ck,
                        tt,
                        of,
                    ).len() <= buf@.len() && buf@.subrange(
                        pos as int,
                        pos + enc_filepart(nm, dt, ck, tt, of).len(),
                    ) == enc_filepart(nm, dt, ck, tt, of)) implies false by {
                    lemma_filepart_fields(buf@, pos as int, nm, dt, ck, tt, of);
                }
            }
            return Err(e);
        },
    };
    let (chunk, q2) = match read_u32(buf, q1) {
        Ok(v) => v,
        Err(e) => {
            proof {
                assert forall|nm: Seq<u8>, dt: Seq<u8>, ck: u32, tt: u32, of: u32|
                    #![trigger enc_filepart(nm, dt, ck, tt, of)]
                    (nm.len() <= 0xFFFF_FFFF && dt.len() <= 0xFFFF_FFFF && pos + enc_filepart(
                        nm,
                        dt,
                        ck,
                        tt,
                        of,
                    ).len() <= buf@.len() && buf@.subrange(
                        pos as int,
                        pos + enc_filepart(nm, dt, ck, tt, of).len(),
                    ) == enc_filepart(nm, dt, ck, tt, of)) implies false by {
                    lemma_filepart_fields(buf@, pos as int, nm, dt, ck, tt, of);
                }
            }
            return Err(e);
        },
    };
    let (total, q3) = match read_u32(buf, q2) {
        Ok(v) => v,
        Err(e) => {
            proof {
                assert forall|nm: Seq<u8>, dt: Seq<u8>, ck: u32, tt: u32, of: u32|
                    #![trigger enc_filepart(nm, dt, ck, tt, of)]
                    (nm.len() <= 0xFFFF_FFFF && dt.len() <= 0xFFFF_FFFF && pos + enc_filepart(
                        nm,
                        dt,
                        ck,
                        tt,
                        of,
                    ).len() <= buf@.len() && buf@.subrange(
                        pos as int,
                        pos + enc_filepart(nm, dt, ck, tt, of).len(),
                    ) == enc_filepart(nm, dt, ck, tt, of)) implies false by {
                    lemma_filepart_fields(buf@, pos as int, nm, dt, ck, tt, of);
                }
            }
            return Err(e);
        },
    };
    let (offset, q4) = match read_u32(buf, q3) {
        Ok(v) => v,
        Err(e) => {
            proof {
                assert forall|nm: Seq<u8>, dt: Seq<u8>, ck: u32, tt: u32, of: u32|
                    #![trigger enc_filepart(nm, dt, ck, tt, of)]
                    (nm.len() <= 0xFFFF_FFFF && dt.len() <= 0xFFFF_FFFF && pos + enc_filepart(
                        nm,
                        dt,
                        ck,
                        tt,
                        of,
                    ).len() <= buf@.len() && buf@.subrange(
                        pos as int,
                        pos + enc_filepart(nm, dt, ck, tt, of).len(),
                    ) == enc_filepart(nm, dt, ck, tt, of)) implies false by {
                    lemma_filepart_fields(buf@, pos as int, nm, dt, ck, tt, of);
                }
            }
            return Err(e);
        },
    };
    proof {
        lemma_join(buf@, pos as int, q0 as int, q1 as int);
        lemma_join(buf@, pos as int, q1 as int, q2 as int);
        lemma_join(buf@, pos as int, q2 as int, q3 as int);
        lemma_join(buf@, pos as int, q3 as int, q4 as int);
        assert(buf@.subrange(pos as int, q4 as int) == enc_filepart(
            name@,
            data@,
            chunk,
            total,
            offset,
        ));
        assert forall|nm: Seq<u8>, dt: Seq<u8>, ck: u32, tt: u32, of: u32|
            #![trigger enc_filepart(nm, dt, ck, tt, of)]
            (nm.len() <= 0xFFFF_FFFF && dt.len() <= 0xFFFF_FFFF && pos + enc_filepart(
                nm,
                dt,
                ck,
                tt,
                of,
            ).len() <= buf@.len() && buf@.subrange(
                pos as int,
                pos + enc_filepart(nm, dt, ck, tt, of).len(),
            ) == enc_filepart(nm, dt, ck, tt, of)) implies name@ == nm && data@ == dt && chunk == ck
            && total == tt && offset == of && q4 == pos + enc_filepart(nm, dt, ck, tt, of).len() by {
            lemma_filepart_fields(buf@, pos as int, nm, dt, ck, tt, of);
        }
    }
    Ok(((name, data, chunk, total, offset), q4))
}

/// Where each part of an encoded file-transfer part lies.
proof fn lemma_filepart_fields(
    buf: Seq<u8>,
    pos: int,
    name: Seq<u8>,
    data: Seq<u8>,
    chunk: u32,
    total: u32,
    offset: u32,
)
    requires
        0 <= pos,
        pos + enc_filepart(name, data, chunk, total, offset).len() <= buf.len(),
        buf.subrange(pos, pos + enc_filepart(name, data, chunk, total, offset).len())
            == enc_filepart(name, data, chunk, total, offset),
    ensures
        ({
            let o1 = pos + 4 + name.len();
            let o2 = o1 + 4 + data.len();
            &&& buf.subrange(pos, o1) == enc_bytes(name)
            &&& buf.subrange(o1, o2) == enc_bytes(data)
            &&& buf.subrange(o2, o2 + 4) == enc_u32(chunk)
            &&& buf.subrange(o2 + 4, o2 + 8) == enc_u32(total)
            &&& buf.subrange(o2 + 8, o2 + 12) == enc_u32(offset)
            &&& enc_filepart(name, data, chunk, total, offset).len() == o2 + 12 - pos
        }),
{
    lemma_auto_spec_u32_to_from_le_bytes();
    let e0 = enc_bytes(name);
    let e1 = enc_bytes(data);
    let e2 = enc_u32(chunk);
    let e3 = enc_u32(total);
    let e4 = enc_u32(offset);
    assert(enc_filepart(name, data, chunk, total, offset) =~= e0 + (e1 + (e2 + (e3 + e4))));
    lemma_peel(buf, pos, e0, e1 + (e2 + (e3 + e4)));
    lemma_peel(buf, pos + e0.len(), e1, e2 + (e3 + e4));
    lemma_peel(buf, pos + e0.len() + e1.len(), e2, e3 + e4);
    lemma_peel(buf, pos + e0.len() + e1.len() + 4, e3, e4);
}

/// A relayed voice packet: the speaker, its vehicle's position, the audio.
pub open spec fn enc_voice(id: u32, p: [u32; 3], data: Seq<u8>) -> Seq<u8> {
    enc_u32(id) + enc_arr3(p) + enc_bytes(data)
}

/// Reads a relayed voice packet.
pub fn read_voice(buf: &[u8], pos: usize) -> (r: Result<
    ((u32, [u32; 3], Vec<u8>), usize),
    DecodeError,
>)
    ensures
        match r {
            Ok((w, p2)) => pos <= p2 <= buf@.len() && buf@.subrange(pos as int, p2 as int)
                == enc_voice(w.0, w.1, w.2@) && p2 == pos + enc_voice(w.0, w.1, w.2@).len()
                && w.2@.len() <= 0xFFFF_FFFF,
            Err(e) => true,
        },
        forall|id: u32, p: [u32; 3], data: Seq<u8>|
            #![trigger enc_voice(id, p, data)]
            (data.len() <= 0xFFFF_FFFF && pos + enc_voice(id, p, data).len() <= buf@.len()
                && buf@.subrange(pos as int, pos + enc_voice(id, p, data).len()) == enc_voice(
                id,
                p,
                data,
            )) ==> (r matches Ok(w) && w.0.0 == id && w.0.1 == p && w.0.2@ == data && w.1 == pos
                + enc_voice(id, p, data).len()),
{
    proof {
        lemma_auto_spec_u32_to_from_le_bytes();
    }
    let (id, q0) = match read_u32(buf, pos) {
        Ok(v) => v,
        Err(e) => {
            proof {
                assert forall|id: u32, p: [u32; 3], data: Seq<u8>|
                    #![trigger enc_voice(id, p, data)]
                    (data.len() <= 0xFFFF_FFFF && pos + enc_voice(id, p, data).len() <= buf@.len()
                        && buf@.subrange(pos as int, pos + enc_voice(id, p, data).len())
                        == enc_voice(id, p, data)) implies false by {
                    assert(enc_voice(id, p, data) =~= enc_u32(id) + (enc_arr3(p) + enc_bytes(
                        data,
                    )));
                    lemma_peel(buf@, pos as int, enc_u32(id), enc_arr3(p) + enc_bytes(data));
                }
            }
            return Err(e);
        },
    };
    let (p3, q1) = match read_arr3(buf, q0) {
        Ok(v) => v,
        Err(e) => {
            proof {
                assert forall|id: u32, p: [u32; 3], data: Seq<u8>|
                    #![trigger enc_voice(id, p, data)]
                    (data.len() <= 0xFFFF_FFFF && pos + enc_voice(id, p, data).len() <= buf@.len()
                        && buf@.subrange(pos as int, pos + enc_voice(id, p, data).len())
                        == enc_voice(id, p, data)) implies false by {
                    assert(enc_voice(id, p, data) =~= enc_u32(id) + (enc_arr3(p) + enc_bytes(
                        data,
                    )));
                    lemma_peel(buf@, pos as int, enc_u32(id), enc_arr3(p) + enc_bytes(data));
                    lemma_peel(buf@, pos as int + 4, enc_arr3(p), enc_bytes(data));
                }
            }
            return Err(e);
        },
    };
    let (data, q2) = match read_bytes(buf, q1) {
        Ok(v) => v,
        Err(e) => {
            proof {
                assert forall|id: u32, p: [u32; 3], data: Seq<u8>|
                    #![trigger enc_voice(id, p, data)]
                    (data.len() <= 0xFFFF_FFFF && pos + enc_voice(id, p, data).len() <= buf@.len()
                        && buf@.subrange(pos as int, pos + enc_voice(id, p, data).len())
                        == enc_voice(id, p, data)) implies false by {
                    assert(enc_voice(id, p, data) =~= enc_u32(id) + (enc_arr3(p) + enc_bytes(
                        data,
                    )));
                    lemma_peel(buf@, pos as int, enc_u32(id), enc_arr3(p) + enc_bytes(data));
                    lemma_peel(buf@, pos as int + 4, enc_arr3(p), enc_bytes(data));
                }
            }
            return Err(e);
        },
    };
    proof {
        lemma_join(buf@, pos as int, q0 as int, q1 as int);
        lemma_join(buf@, pos as int, q1 as int, q2 as int);
        assert forall|id2: u32, p2a: [u32; 3], data2: Seq<u8>|
            #![trigger enc_voice(id2, p2a, data2)]
            (data2.len() <= 0xFFFF_FFFF && pos + enc_voice(id2, p2a, data2).len() <= buf@.len()
                && buf@.subrange(pos as int, pos + enc_voice(id2, p2a, data2).len()) == enc_voice(
                id2,
                p2a,
                data2,
            )) implies id == id2 && p3 == p2a && data@ == data2 && q2 == pos + enc_voice(
            id2,
            p2a,
            data2,
        ).len() by {
            assert(enc_voice(id2, p2a, data2) =~= enc_u32(id2) + (enc_arr3(p2a) + enc_bytes(
                data2,
            )));
            lemma_peel(buf@, pos as int, enc_u32(id2), enc_arr3(p2a) + enc_bytes(data2));
            lemma_peel(buf@, pos as int + 4, enc_arr3(p2a), enc_bytes(data2));
        }
    }
    Ok(((id, p3, data), q2))
}

} // verus!
