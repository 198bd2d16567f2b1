//! The wire codec: self-describing, length-prefixed binary records over a
//! byte stream. A record is a 4-byte little-endian payload length followed
//! by the payload; the payload's leading tag distinguishes the message
//! kinds. Reads are non-blocking: arriving bytes are buffered and a
//! message is surfaced only once it is complete; a malformed length or
//! tag is a fatal decode error for that connection.

use vstd::prelude::*;
use crate::geometry::{Color, Pos, Rect, TextureId};
use crate::input::{
    EventModel, InputDelta, InputEvent, InputModel, Modifiers, event_model, events_model,
    input_model,
};
use crate::messages::{
    ClientMsgModel, ClientToServerMessage, ClippedNetMesh, ClippedNetMeshModel, NetMesh,
    NetMeshModel, ServerMsgModel, ServerToClientMessage, client_msg_model,
    clipped_net_mesh_model, clipped_net_meshes_model, net_mesh_model, server_msg_model,
};

verus! {

/// Upper bound on one record's payload, in bytes. A length prefix of zero
/// or above this bound is malformed.
pub const MAX_PAYLOAD_LEN: u32 = 0x0100_0000;

/// A malformed record: bad length prefix, unknown tag, or a payload whose
/// contents do not match its declared length.
#[derive(Clone, Copy, Debug, PartialEq, Eq, Structural)]
pub struct DecodeError;

/// A message too large for the wire format's length fields.
#[derive(Clone, Copy, Debug, PartialEq, Eq, Structural)]
pub struct EncodeError;

// ---------------------------------------------------------------------------
// Primitive encodings, little endian.

pub open spec fn enc_u32(x: u32) -> Seq<u8> {
    seq![
        (x & 0xff) as u8,
        ((x >> 8) & 0xff) as u8,
        ((x >> 16) & 0xff) as u8,
        ((x >> 24) & 0xff) as u8,
    ]
}

pub open spec fn u32_le(b0: u8, b1: u8, b2: u8, b3: u8) -> u32 {
    (b0 as u32) | ((b1 as u32) << 8) | ((b2 as u32) << 16) | ((b3 as u32) << 24)
}

pub open spec fn enc_u64(x: u64) -> Seq<u8> {
    seq![
        (x & 0xff) as u8,
        ((x >> 8) & 0xff) as u8,
        ((x >> 16) & 0xff) as u8,
        ((x >> 24) & 0xff) as u8,
        ((x >> 32) & 0xff) as u8,
        ((x >> 40) & 0xff) as u8,
        ((x >> 48) & 0xff) as u8,
        ((x >> 56) & 0xff) as u8,
    ]
}

pub open spec fn u64_le(b: Seq<u8>) -> u64
    recommends
        b.len() == 8,
{
    (b[0] as u64) | ((b[1] as u64) << 8) | ((b[2] as u64) << 16) | ((b[3] as u64) << 24)
        | ((b[4] as u64) << 32) | ((b[5] as u64) << 40) | ((b[6] as u64) << 48)
        | ((b[7] as u64) << 56)
}

pub open spec fn enc_bool(b: bool) -> Seq<u8> {
    seq![if b { 1u8 } else { 0u8 }]
}

pub open spec fn enc_pos(p: Pos) -> Seq<u8> {
    enc_u32(p.x) + enc_u32(p.y)
}

pub open spec fn enc_rect(r: Rect) -> Seq<u8> {
    enc_pos(r.min) + enc_pos(r.max)
}

pub open spec fn enc_color(c: Color) -> Seq<u8> {
    seq![c.r, c.g, c.b, c.a]
}

pub open spec fn enc_texture_id(t: TextureId) -> Seq<u8> {
    match t {
        TextureId::Managed(x) => seq![0u8] + enc_u64(x),
        TextureId::User(x) => seq![1u8] + enc_u64(x),
    }
}

pub open spec fn enc_modifiers(m: Modifiers) -> Seq<u8> {
    enc_bool(m.alt) + enc_bool(m.ctrl) + enc_bool(m.shift) + enc_bool(m.mac_cmd)
        + enc_bool(m.command)
}

pub open spec fn enc_opt_u32(o: Option<u32>) -> Seq<u8> {
    match o {
        Option::None => seq![0u8],
        Option::Some(x) => seq![1u8] + enc_u32(x),
    }
}

pub open spec fn enc_opt_u64(o: Option<u64>) -> Seq<u8> {
    match o {
        Option::None => seq![0u8],
        Option::Some(x) => seq![1u8] + enc_u64(x),
    }
}

pub open spec fn enc_opt_pos(o: Option<Pos>) -> Seq<u8> {
    match o {
        Option::None => seq![0u8],
        Option::Some(p) => seq![1u8] + enc_pos(p),
    }
}

pub open spec fn enc_opt_rect(o: Option<Rect>) -> Seq<u8> {
    match o {
        Option::None => seq![0u8],
        Option::Some(r) => seq![1u8] + enc_rect(r),
    }
}

/// A counted byte string: 4-byte length, then the bytes themselves.
pub open spec fn enc_bytes(s: Seq<u8>) -> Seq<u8>
    recommends
        s.len() <= u32::MAX,
{
    enc_u32(s.len() as u32) + s
}

// ---------------------------------------------------------------------------
// Primitive decoders. Each consumes from the front of `s` and yields the
// value with the number of bytes consumed, or nothing if `s` is malformed
// or too short for the field.

pub open spec fn dec_u8(s: Seq<u8>) -> Option<(u8, int)> {
    if s.len() >= 1 {
        Option::Some((s[0], 1))
    } else {
        Option::None
    }
}

pub open spec fn dec_u32(s: Seq<u8>) -> Option<(u32, int)> {
    if s.len() >= 4 {
        Option::Some((u32_le(s[0], s[1], s[2], s[3]), 4))
    } else {
        Option::None
    }
}

pub open spec fn dec_u64(s: Seq<u8>) -> Option<(u64, int)> {
    if s.len() >= 8 {
        Option::Some((u64_le(s.take(8)), 8))
    } else {
        Option::None
    }
}

pub open spec fn dec_bool(s: Seq<u8>) -> Option<(bool, int)> {
    if s.len() >= 1 {
        if s[0] == 0u8 {
            Option::Some((false, 1))
        } else if s[0] == 1u8 {
            Option::Some((true, 1))
        } else {
            Option::None
        }
    } else {
        Option::None
    }
}

pub open spec fn dec_pos(s: Seq<u8>) -> Option<(Pos, int)> {
    match dec_u32(s) {
        Option::Some((x, c1)) => match dec_u32(s.skip(c1)) {
            Option::Some((y, c2)) => Option::Some((Pos { x, y }, c1 + c2)),
            Option::None => Option::None,
        },
        Option::None => Option::None,
    }
}

pub open spec fn dec_rect(s: Seq<u8>) -> Option<(Rect, int)> {
    match dec_pos(s) {
        Option::Some((mn, c1)) => match dec_pos(s.skip(c1)) {
            Option::Some((mx, c2)) => Option::Some((Rect { min: mn, max: mx }, c1 + c2)),
            Option::None => Option::None,
        },
        Option::None => Option::None,
    }
}

pub open spec fn dec_color(s: Seq<u8>) -> Option<(Color, int)> {
    if s.len() >= 4 {
        Option::Some((Color { r: s[0], g: s[1], b: s[2], a: s[3] }, 4))
    } else {
        Option::None
    }
}

pub open spec fn dec_texture_id(s: Seq<u8>) -> Option<(TextureId, int)> {
    match dec_u8(s) {
        Option::Some((tag, c1)) => match dec_u64(s.skip(c1)) {
            Option::Some((x, c2)) => {
                if tag == 0u8 {
                    Option::Some((TextureId::Managed(x), c1 + c2))
                } else if tag == 1u8 {
                    Option::Some((TextureId::User(x), c1 + c2))
                } else {
                    Option::None
                }
            },
            Option::None => Option::None,
        },
        Option::None => Option::None,
    }
}

pub open spec fn dec_modifiers(s: Seq<u8>) -> Option<(Modifiers, int)> {
    if s.len() >= 5 {
        match (dec_bool(s), dec_bool(s.skip(1)), dec_bool(s.skip(2)), dec_bool(s.skip(3)),
            dec_bool(s.skip(4))) {
            (Option::Some((alt, _)), Option::Some((ctrl, _)), Option::Some((shift, _)),
                Option::Some((mac_cmd, _)), Option::Some((command, _))) =>
                Option::Some((Modifiers { alt, ctrl, shift, mac_cmd, command }, 5)),
            _ => Option::None,
        }
    } else {
        Option::None
    }
}

pub open spec fn dec_opt_u32(s: Seq<u8>) -> Option<(Option<u32>, int)> {
    match dec_u8(s) {
        Option::Some((tag, c1)) => {
            if tag == 0u8 {
                Option::Some((Option::None, c1))
            } else if tag == 1u8 {
                match dec_u32(s.skip(c1)) {
                    Option::Some((x, c2)) => Option::Some((Option::Some(x), c1 + c2)),
                    Option::None => Option::None,
                }
            } else {
                Option::None
            }
        },
        Option::None => Option::None,
    }
}

pub open spec fn dec_opt_u64(s: Seq<u8>) -> Option<(Option<u64>, int)> {
    match dec_u8(s) {
        Option::Some((tag, c1)) => {
            if tag == 0u8 {
                Option::Some((Option::None, c1))
            } else if tag == 1u8 {
                match dec_u64(s.skip(c1)) {
                    Option::Some((x, c2)) => Option::Some((Option::Some(x), c1 + c2)),
                    Option::None => Option::None,
                }
            } else {
                Option::None
            }
        },
        Option::None => Option::None,
    }
}

pub open spec fn dec_opt_pos(s: Seq<u8>) -> Option<(Option<Pos>, int)> {
    match dec_u8(s) {
        Option::Some((tag, c1)) => {
            if tag == 0u8 {
                Option::Some((Option::None, c1))
            } else if tag == 1u8 {
                match dec_pos(s.skip(c1)) {
                    Option::Some((p, c2)) => Option::Some((Option::Some(p), c1 + c2)),
                    Option::None => Option::None,
                }
            } else {
                Option::None
            }
        },
        Option::None => Option::None,
    }
}

pub open spec fn dec_opt_rect(s: Seq<u8>) -> Option<(Option<Rect>, int)> {
    match dec_u8(s) {
        Option::Some((tag, c1)) => {
            if tag == 0u8 {
                Option::Some((Option::None, c1))
            } else if tag == 1u8 {
                match dec_rect(s.skip(c1)) {
                    Option::Some((r, c2)) => Option::Some((Option::Some(r), c1 + c2)),
                    Option::None => Option::None,
                }
            } else {
                Option::None
            }
        },
        Option::None => Option::None,
    }
}

pub open spec fn dec_byte_string(s: Seq<u8>) -> Option<(Seq<u8>, int)> {
    match dec_u32(s) {
        Option::Some((n, c1)) => {
            if s.len() >= c1 + n {
                Option::Some((s.subrange(c1, c1 + n), c1 + n))
            } else {
                Option::None
            }
        },
        Option::None => Option::None,
    }
}

// ---------------------------------------------------------------------------
// Composite encodings. A list is encoded as its elements in order; the
// element count travels just before it as a 4-byte field.

pub open spec fn enc_list<T>(s: Seq<T>, f: spec_fn(T) -> Seq<u8>) -> Seq<u8>
    decreases s.len(),
{
    if s.len() == 0 {
        Seq::empty()
    } else {
        enc_list(s.drop_last(), f) + f(s.last())
    }
}

pub open spec fn dec_list<T>(s: Seq<u8>, n: nat, f: spec_fn(Seq<u8>) -> Option<(T, int)>) -> Option<(Seq<T>, int)>
    decreases n,
{
    if n == 0 {
        Option::Some((Seq::empty(), 0))
    } else {
        match f(s) {
            Option::Some((e, c)) => match dec_list(s.skip(c), (n - 1) as nat, f) {
                Option::Some((rest, c2)) => Option::Some((seq![e] + rest, c + c2)),
                Option::None => Option::None,
            },
            Option::None => Option::None,
        }
    }
}

/// Appending one element extends a list encoding on the right.
pub proof fn lemma_enc_list_push<T>(s: Seq<T>, f: spec_fn(T) -> Seq<u8>, e: T)
    ensures
        enc_list(s.push(e), f) == enc_list(s, f) + f(e),
{
    assert(s.push(e).drop_last() =~= s);
    assert(s.push(e).last() == e);
}

/// A decode result consumes within the bytes it was given.
pub open spec fn dec_consumes_within<T>(r: Option<(T, int)>, t: Seq<u8>) -> bool {
    r matches Option::Some(p) ==> 0 <= p.1 <= t.len()
}

/// An element decoder is well behaved when it always consumes within the
/// bytes it was given.
pub open spec fn dec_wb<T>(f: spec_fn(Seq<u8>) -> Option<(T, int)>) -> bool {
    forall|t: Seq<u8>| dec_consumes_within(#[trigger] f(t), t)
}

/// A list decode of a well-behaved element decoder consumes within its
/// bytes and yields exactly the asked-for element count.
pub proof fn lemma_dec_list_bounds<T>(s: Seq<u8>, n: nat, f: spec_fn(Seq<u8>) -> Option<(T, int)>)
    requires
        dec_wb(f),
    ensures
        dec_list(s, n, f) matches Option::Some(p) ==> 0 <= p.1 <= s.len() && p.0.len() == n,
    decreases n,
{
    if n > 0 {
        match f(s) {
            Option::Some((e, c)) => {
                lemma_dec_list_bounds(s.skip(c), (n - 1) as nat, f);
            },
            Option::None => {},
        }
    }
}

/// Decoding `a + b` elements is decoding `a`, then `b` more where the
/// first decode stopped.
pub proof fn lemma_dec_list_split<T>(s: Seq<u8>, a: nat, b: nat, f: spec_fn(Seq<u8>) -> Option<(T, int)>)
    requires
        dec_wb(f),
    ensures
        dec_list(s, a + b, f) == match dec_list(s, a, f) {
            Option::Some((e1, c1)) => match dec_list(s.skip(c1), b, f) {
                Option::Some((e2, c2)) => Option::Some((e1 + e2, c1 + c2)),
                Option::None => Option::None::<(Seq<T>, int)>,
            },
            Option::None => Option::None::<(Seq<T>, int)>,
        },
    decreases a,
{
    if a == 0 {
        assert(dec_list(s, 0, f) == Option::Some((Seq::<T>::empty(), 0int)));
        assert(s.skip(0) =~= s);
        match dec_list(s, b, f) {
            Option::Some((e2, c2)) => {
                assert(Seq::<T>::empty() + e2 =~= e2);
            },
            Option::None => {},
        }
    } else {
        match f(s) {
            Option::Some((e, c)) => {
                lemma_dec_list_split(s.skip(c), (a - 1) as nat, b, f);
                match dec_list(s.skip(c), (a - 1) as nat, f) {
                    Option::Some((e1, c1)) => {
                        lemma_dec_list_bounds(s.skip(c), (a - 1) as nat, f);
                        assert(s.skip(c).skip(c1) =~= s.skip(c + c1));
                        match dec_list(s.skip(c + c1), b, f) {
                            Option::Some((e2, c2)) => {
                                assert(seq![e] + (e1 + e2) =~= (seq![e] + e1) + e2);
                            },
                            Option::None => {},
                        }
                    },
                    Option::None => {},
                }
            },
            Option::None => {},
        }
    }
}

/// One discrete input event on the wire: a tag byte, then its fields.
pub open spec fn enc_event(e: EventModel) -> Seq<u8> {
    match e {
        EventModel::Key { key, pressed, modifiers } =>
            seq![0u8] + enc_u32(key) + enc_bool(pressed) + enc_modifiers(modifiers),
        EventModel::Text(bytes) => seq![1u8] + enc_bytes(bytes),
        EventModel::PointerButton { pos, button, pressed, modifiers } =>
            seq![2u8] + enc_pos(pos) + seq![button] + enc_bool(pressed) + enc_modifiers(modifiers),
        EventModel::Scroll { dx, dy } => seq![3u8] + enc_u32(dx) + enc_u32(dy),
    }
}

pub open spec fn dec_event(s: Seq<u8>) -> Option<(EventModel, int)> {
    match dec_u8(s) {
        Option::Some((tag, c0)) => {
            if tag == 0u8 {
                match dec_u32(s.skip(c0)) {
                    Option::Some((key, c1)) => match dec_bool(s.skip(c0 + c1)) {
                        Option::Some((pressed, c2)) => match dec_modifiers(s.skip(c0 + c1 + c2)) {
                            Option::Some((modifiers, c3)) => Option::Some((
                                EventModel::Key { key, pressed, modifiers },
                                c0 + c1 + c2 + c3,
                            )),
                            Option::None => Option::None,
                        },
                        Option::None => Option::None,
                    },
                    Option::None => Option::None,
                }
            } else if tag == 1u8 {
                match dec_byte_string(s.skip(c0)) {
                    Option::Some((bytes, c1)) => Option::Some((
                        EventModel::Text(bytes),
                        c0 + c1,
                    )),
                    Option::None => Option::None,
                }
            } else if tag == 2u8 {
                match dec_pos(s.skip(c0)) {
                    Option::Some((pos, c1)) => match dec_u8(s.skip(c0 + c1)) {
                        Option::Some((button, c2)) => match dec_bool(s.skip(c0 + c1 + c2)) {
                            Option::Some((pressed, c3)) => match dec_modifiers(
                                s.skip(c0 + c1 + c2 + c3),
                            ) {
                                Option::Some((modifiers, c4)) => Option::Some((
                                    EventModel::PointerButton { pos, button, pressed, modifiers },
                                    c0 + c1 + c2 + c3 + c4,
                                )),
                                Option::None => Option::None,
                            },
                            Option::None => Option::None,
                        },
                        Option::None => Option::None,
                    },
                    Option::None => Option::None,
                }
            } else if tag == 3u8 {
                match dec_u32(s.skip(c0)) {
                    Option::Some((dx, c1)) => match dec_u32(s.skip(c0 + c1)) {
                        Option::Some((dy, c2)) => Option::Some((
                            EventModel::Scroll { dx, dy },
                            c0 + c1 + c2,
                        )),
                        Option::None => Option::None,
                    },
                    Option::None => Option::None,
                }
            } else {
                Option::None
            }
        },
        Option::None => Option::None,
    }
}

pub open spec fn dec_event_fn() -> spec_fn(Seq<u8>) -> Option<(EventModel, int)> {
    |t: Seq<u8>| dec_event(t)
}

/// One coalesced input batch on the wire.
pub open spec fn enc_input(d: InputModel) -> Seq<u8> {
    enc_u32(d.events.len() as u32)
        + enc_list(d.events, |e: EventModel| enc_event(e))
        + enc_opt_pos(d.pointer_pos)
        + enc_modifiers(d.modifiers)
        + enc_opt_rect(d.screen_rect)
        + enc_opt_u32(d.pixels_per_point)
        + enc_opt_u64(d.time)
}

/// The last three scalar fields of an input batch.
pub open spec fn dec_scalars_tail(s: Seq<u8>) -> Option<
    ((Option<Rect>, Option<u32>, Option<u64>), int),
> {
    match dec_opt_rect(s) {
        Option::Some((screen_rect, c0)) => match dec_opt_u32(s.skip(c0)) {
            Option::Some((pixels_per_point, c1)) => match dec_opt_u64(s.skip(c0 + c1)) {
                Option::Some((time, c2)) => Option::Some((
                    (screen_rect, pixels_per_point, time),
                    c0 + c1 + c2,
                )),
                Option::None => Option::None,
            },
            Option::None => Option::None,
        },
        Option::None => Option::None,
    }
}

/// The scalar tail of an input batch: pointer position, modifier state,
/// screen rectangle, scale factor, capture time.
pub open spec fn dec_input_scalars(s: Seq<u8>) -> Option<
    ((Option<Pos>, Modifiers, Option<Rect>, Option<u32>, Option<u64>), int),
> {
    match dec_opt_pos(s) {
        Option::Some((pointer_pos, c0)) => match dec_modifiers(s.skip(c0)) {
            Option::Some((modifiers, c1)) => match dec_scalars_tail(s.skip(c0 + c1)) {
                Option::Some((tail, c2)) => Option::Some((
                    (pointer_pos, modifiers, tail.0, tail.1, tail.2),
                    c0 + c1 + c2,
                )),
                Option::None => Option::None,
            },
            Option::None => Option::None,
        },
        Option::None => Option::None,
    }
}

#[verifier::opaque]
pub open spec fn dec_input(s: Seq<u8>) -> Option<(InputModel, int)> {
    match dec_u32(s) {
        Option::Some((n, c0)) => match dec_list(s.skip(c0), n as nat, dec_event_fn()) {
            Option::Some((events, c1)) => match dec_input_scalars(s.skip(c0 + c1)) {
                Option::Some((sc, c2)) => Option::Some((
                    InputModel {
                        events,
                        pointer_pos: sc.0,
                        modifiers: sc.1,
                        screen_rect: sc.2,
                        pixels_per_point: sc.3,
                        time: sc.4,
                    },
                    c0 + c1 + c2,
                )),
                Option::None => Option::None,
            },
            Option::None => Option::None,
        },
        Option::None => Option::None,
    }
}

/// One projected mesh on the wire: texture id, then the four arrays,
/// each with its own count.
pub open spec fn enc_net_mesh(m: NetMeshModel) -> Seq<u8> {
    enc_texture_id(m.texture_id)
        + enc_u32(m.indices.len() as u32) + enc_list(m.indices, |x: u32| enc_u32(x))
        + enc_u32(m.pos.len() as u32) + enc_list(m.pos, |p: Pos| enc_pos(p))
        + enc_u32(m.uv.len() as u32) + enc_list(m.uv, |p: Pos| enc_pos(p))
        + enc_u32(m.color.len() as u32) + enc_list(m.color, |c: Color| enc_color(c))
}

pub open spec fn dec_u32_fn() -> spec_fn(Seq<u8>) -> Option<(u32, int)> {
    |t: Seq<u8>| dec_u32(t)
}

pub open spec fn dec_pos_fn() -> spec_fn(Seq<u8>) -> Option<(Pos, int)> {
    |t: Seq<u8>| dec_pos(t)
}

pub open spec fn dec_color_fn() -> spec_fn(Seq<u8>) -> Option<(Color, int)> {
    |t: Seq<u8>| dec_color(t)
}

/// A counted list segment: a 4-byte element count, then the elements.
pub open spec fn dec_counted_u32s(s: Seq<u8>) -> Option<(Seq<u32>, int)> {
    match dec_u32(s) {
        Option::Some((n, c0)) => match dec_list(s.skip(c0), n as nat, dec_u32_fn()) {
            Option::Some((v, c1)) => Option::Some((v, c0 + c1)),
            Option::None => Option::None,
        },
        Option::None => Option::None,
    }
}

pub open spec fn dec_counted_poss(s: Seq<u8>) -> Option<(Seq<Pos>, int)> {
    match dec_u32(s) {
        Option::Some((n, c0)) => match dec_list(s.skip(c0), n as nat, dec_pos_fn()) {
            Option::Some((v, c1)) => Option::Some((v, c0 + c1)),
            Option::None => Option::None,
        },
        Option::None => Option::None,
    }
}

pub open spec fn dec_counted_colors(s: Seq<u8>) -> Option<(Seq<Color>, int)> {
    match dec_u32(s) {
        Option::Some((n, c0)) => match dec_list(s.skip(c0), n as nat, dec_color_fn()) {
            Option::Some((v, c1)) => Option::Some((v, c0 + c1)),
            Option::None => Option::None,
        },
        Option::None => Option::None,
    }
}

/// The two texture-coordinate and color arrays of a mesh.
pub open spec fn dec_mesh_tail(s: Seq<u8>) -> Option<((Seq<Pos>, Seq<Color>), int)> {
    match dec_counted_poss(s) {
        Option::Some((uv, c0)) => match dec_counted_colors(s.skip(c0)) {
            Option::Some((color, c1)) => Option::Some(((uv, color), c0 + c1)),
            Option::None => Option::None,
        },
        Option::None => Option::None,
    }
}

#[verifier::opaque]
pub open spec fn dec_net_mesh(s: Seq<u8>) -> Option<(NetMeshModel, int)> {
    match dec_texture_id(s) {
        Option::Some((texture_id, c0)) => match dec_counted_u32s(s.skip(c0)) {
            Option::Some((indices, c1)) => match dec_counted_poss(s.skip(c0 + c1)) {
                Option::Some((pos, c2)) => match dec_mesh_tail(s.skip(c0 + c1 + c2)) {
                    Option::Some((tail, c3)) => Option::Some((
                        NetMeshModel { texture_id, indices, pos, uv: tail.0, color: tail.1 },
                        c0 + c1 + c2 + c3,
                    )),
                    Option::None => Option::None,
                },
                Option::None => Option::None,
            },
            Option::None => Option::None,
        },
        Option::None => Option::None,
    }
}

pub open spec fn enc_clipped(c: ClippedNetMeshModel) -> Seq<u8> {
    enc_rect(c.clip_rect) + enc_net_mesh(c.mesh)
}

#[verifier::opaque]
pub open spec fn dec_clipped(s: Seq<u8>) -> Option<(ClippedNetMeshModel, int)> {
    match dec_rect(s) {
        Option::Some((clip_rect, c0)) => match dec_net_mesh(s.skip(c0)) {
            Option::Some((mesh, c1)) => Option::Some((
                ClippedNetMeshModel { clip_rect, mesh },
                c0 + c1,
            )),
            Option::None => Option::None,
        },
        Option::None => Option::None,
    }
}

pub open spec fn dec_clipped_fn() -> spec_fn(Seq<u8>) -> Option<(ClippedNetMeshModel, int)> {
    |t: Seq<u8>| dec_clipped(t)
}

// ---------------------------------------------------------------------------
// Message payloads. The leading tag distinguishes the kinds; a payload
// must be consumed exactly, or it is malformed.

pub const TAG_INPUT: u8 = 1;
pub const TAG_GOODBYE: u8 = 2;
pub const TAG_FRAME: u8 = 3;

pub open spec fn enc_client_payload(m: ClientMsgModel) -> Seq<u8> {
    match m {
        ClientMsgModel::Input { raw_input, client_time } =>
            seq![TAG_INPUT] + enc_input(raw_input) + enc_u64(client_time),
        ClientMsgModel::Goodbye => seq![TAG_GOODBYE],
    }
}

pub open spec fn enc_server_payload(m: ServerMsgModel) -> Seq<u8> {
    match m {
        ServerMsgModel::Frame {
            frame_index, platform_output, clipped_net_mesh, textures_delta, client_time,
        } => seq![TAG_FRAME]
            + enc_u64(frame_index)
            + enc_bytes(platform_output)
            + enc_u32(clipped_net_mesh.len() as u32)
            + enc_list(clipped_net_mesh, |c: ClippedNetMeshModel| enc_clipped(c))
            + enc_bytes(textures_delta)
            + enc_opt_u64(client_time),
    }
}

pub open spec fn dec_client_payload(s: Seq<u8>) -> Option<ClientMsgModel> {
    match dec_u8(s) {
        Option::Some((tag, c0)) => {
            if tag == TAG_INPUT {
                match dec_input(s.skip(c0)) {
                    Option::Some((raw_input, c1)) => match dec_u64(s.skip(c0 + c1)) {
                        Option::Some((client_time, c2)) => {
                            if c0 + c1 + c2 == s.len() {
                                Option::Some(ClientMsgModel::Input { raw_input, client_time })
                            } else {
                                Option::None
                            }
                        },
                        Option::None => Option::None,
                    },
                    Option::None => Option::None,
                }
            } else if tag == TAG_GOODBYE {
                if s.len() == 1 {
                    Option::Some(ClientMsgModel::Goodbye)
                } else {
                    Option::None
                }
            } else {
                Option::None
            }
        },
        Option::None => Option::None,
    }
}

/// The last two fields of a frame payload: the atlas delta and the echo
/// of the viewer's clock.
#[verifier::opaque]
pub open spec fn dec_frame_close(s: Seq<u8>) -> Option<((Seq<u8>, Option<u64>), int)> {
    match dec_byte_string(s) {
        Option::Some((textures_delta, c0)) => match dec_opt_u64(s.skip(c0)) {
            Option::Some((client_time, c1)) => Option::Some((
                (textures_delta, client_time),
                c0 + c1,
            )),
            Option::None => Option::None,
        },
        Option::None => Option::None,
    }
}

/// The fields of a frame payload after the tag and frame index: the
/// platform effects, the mesh list, the atlas delta, the time echo.
pub open spec fn dec_frame_fields(s: Seq<u8>) -> Option<
    ((Seq<u8>, Seq<ClippedNetMeshModel>, Seq<u8>, Option<u64>), int),
> {
    match dec_byte_string(s) {
        Option::Some((platform_output, c0)) => match dec_u32(s.skip(c0)) {
            Option::Some((n, c1)) => match dec_list(s.skip(c0 + c1), n as nat, dec_clipped_fn()) {
                Option::Some((clipped_net_mesh, c2)) => match dec_frame_close(
                    s.skip(c0 + c1 + c2),
                ) {
                    Option::Some((close, c3)) => Option::Some((
                        (platform_output, clipped_net_mesh, close.0, close.1),
                        c0 + c1 + c2 + c3,
                    )),
                    Option::None => Option::None,
                },
                Option::None => Option::None,
            },
            Option::None => Option::None,
        },
        Option::None => Option::None,
    }
}

#[verifier::opaque]
pub open spec fn dec_server_payload(s: Seq<u8>) -> Option<ServerMsgModel> {
    match dec_u8(s) {
        Option::Some((tag, c0)) => {
            if tag == TAG_FRAME {
                match dec_u64(s.skip(c0)) {
                    Option::Some((frame_index, c1)) => match dec_frame_fields(s.skip(c0 + c1)) {
                        Option::Some((fields, c2)) => {
                            if c0 + c1 + c2 == s.len() {
                                Option::Some(ServerMsgModel::Frame {
                                    frame_index,
                                    platform_output: fields.0,
                                    clipped_net_mesh: fields.1,
                                    textures_delta: fields.2,
                                    client_time: fields.3,
                                })
                            } else {
                                Option::None
                            }
                        },
                        Option::None => Option::None,
                    },
                    Option::None => Option::None,
                }
            } else {
                Option::None
            }
        },
        Option::None => Option::None,
    }
}

// ---------------------------------------------------------------------------
// Encodability: every count must fit its 4-byte field, and the payload
// the frame's length prefix.

pub open spec fn event_encodable(e: EventModel) -> bool {
    match e {
        EventModel::Text(bytes) => bytes.len() <= u32::MAX,
        _ => true,
    }
}

pub open spec fn input_encodable(d: InputModel) -> bool {
    &&& d.events.len() <= u32::MAX
    &&& forall|i: int| 0 <= i < d.events.len() ==> #[trigger] event_encodable(d.events[i])
}

pub open spec fn net_mesh_encodable(m: NetMeshModel) -> bool {
    &&& m.indices.len() <= u32::MAX
    &&& m.pos.len() <= u32::MAX
    &&& m.uv.len() <= u32::MAX
    &&& m.color.len() <= u32::MAX
}

pub open spec fn client_msg_counts_ok(m: ClientMsgModel) -> bool {
    match m {
        ClientMsgModel::Input { raw_input, client_time } => input_encodable(raw_input),
        ClientMsgModel::Goodbye => true,
    }
}

pub open spec fn client_msg_encodable(m: ClientMsgModel) -> bool {
    client_msg_counts_ok(m) && enc_client_payload(m).len() <= MAX_PAYLOAD_LEN
}

pub open spec fn server_msg_counts_ok(m: ServerMsgModel) -> bool {
    match m {
        ServerMsgModel::Frame {
            frame_index, platform_output, clipped_net_mesh, textures_delta, client_time,
        } => {
            &&& platform_output.len() <= u32::MAX
            &&& textures_delta.len() <= u32::MAX
            &&& clipped_net_mesh.len() <= u32::MAX
            &&& forall|i: int| 0 <= i < clipped_net_mesh.len()
                ==> #[trigger] net_mesh_encodable(clipped_net_mesh[i].mesh)
        },
    }
}

pub open spec fn server_msg_encodable(m: ServerMsgModel) -> bool {
    server_msg_counts_ok(m) && enc_server_payload(m).len() <= MAX_PAYLOAD_LEN
}

/// A full wire record: 4-byte little-endian payload length, then payload.
pub open spec fn enc_record(payload: Seq<u8>) -> Seq<u8>
    recommends
        payload.len() <= MAX_PAYLOAD_LEN,
{
    enc_u32(payload.len() as u32) + payload
}

// ---------------------------------------------------------------------------
// Executable writers. Each appends exactly the encoding of its value.

fn put_u8(out: &mut Vec<u8>, x: u8)
    ensures
        final(out)@ == old(out)@ + seq![x],
{
    out.push(x);
    proof {
        assert(out@ =~= old(out)@ + seq![x]);
    }
}

fn put_u32(out: &mut Vec<u8>, x: u32)
    ensures
        final(out)@ == old(out)@ + enc_u32(x),
{
    proof {
        assert((x & 0xff) < 256 && ((x >> 8) & 0xff) < 256 && ((x >> 16) & 0xff) < 256
            && ((x >> 24) & 0xff) < 256) by (bit_vector);
    }
    out.push((x & 0xff) as u8);
    out.push(((x >> 8) & 0xff) as u8);
    out.push(((x >> 16) & 0xff) as u8);
    out.push(((x >> 24) & 0xff) as u8);
    proof {
        assert(out@ =~= old(out)@ + enc_u32(x));
    }
}

fn put_u64(out: &mut Vec<u8>, x: u64)
    ensures
        final(out)@ == old(out)@ + enc_u64(x),
{
    proof {
        assert((x & 0xff) < 256 && ((x >> 8) & 0xff) < 256 && ((x >> 16) & 0xff) < 256
            && ((x >> 24) & 0xff) < 256 && ((x >> 32) & 0xff) < 256 && ((x >> 40) & 0xff) < 256
            && ((x >> 48) & 0xff) < 256 && ((x >> 56) & 0xff) < 256) by (bit_vector);
    }
    out.push((x & 0xff) as u8);
    out.push(((x >> 8) & 0xff) as u8);
    out.push(((x >> 16) & 0xff) as u8);
    out.push(((x >> 24) & 0xff) as u8);
    out.push(((x >> 32) & 0xff) as u8);
    out.push(((x >> 40) & 0xff) as u8);
    out.push(((x >> 48) & 0xff) as u8);
    out.push(((x >> 56) & 0xff) as u8);
    proof {
        assert(out@ =~= old(out)@ + enc_u64(x));
    }
}

fn put_bool(out: &mut Vec<u8>, b: bool)
    ensures
        final(out)@ == old(out)@ + enc_bool(b),
{
    if b {
        put_u8(out, 1);
    } else {
        put_u8(out, 0);
    }
}

fn put_pos(out: &mut Vec<u8>, p: Pos)
    ensures
        final(out)@ == old(out)@ + enc_pos(p),
{
    put_u32(out, p.x);
    put_u32(out, p.y);
    proof {
        assert(out@ =~= old(out)@ + enc_pos(p));
    }
}

fn put_rect(out: &mut Vec<u8>, r: Rect)
    ensures
        final(out)@ == old(out)@ + enc_rect(r),
{
    put_pos(out, r.min);
    put_pos(out, r.max);
    proof {
        assert(out@ =~= old(out)@ + enc_rect(r));
    }
}

fn put_color(out: &mut Vec<u8>, c: Color)
    ensures
        final(out)@ == old(out)@ + enc_color(c),
{
    put_u8(out, c.r);
    put_u8(out, c.g);
    put_u8(out, c.b);
    put_u8(out, c.a);
    proof {
        assert(out@ =~= old(out)@ + enc_color(c));
    }
}

fn put_texture_id(out: &mut Vec<u8>, t: TextureId)
    ensures
        final(out)@ == old(out)@ + enc_texture_id(t),
{
    match t {
        TextureId::Managed(x) => {
            put_u8(out, 0);
            put_u64(out, x);
        },
        TextureId::User(x) => {
            put_u8(out, 1);
            put_u64(out, x);
        },
    }
    proof {
        assert(out@ =~= old(out)@ + enc_texture_id(t));
    }
}

fn put_modifiers(out: &mut Vec<u8>, m: Modifiers)
    ensures
        final(out)@ == old(out)@ + enc_modifiers(m),
{
    put_bool(out, m.alt);
    put_bool(out, m.ctrl);
    put_bool(out, m.shift);
    put_bool(out, m.mac_cmd);
    put_bool(out, m.command);
    proof {
        assert(out@ =~= old(out)@ + enc_modifiers(m));
    }
}

fn put_opt_u32(out: &mut Vec<u8>, o: Option<u32>)
    ensures
        final(out)@ == old(out)@ + enc_opt_u32(o),
{
    match o {
        Option::None => put_u8(out, 0),
        Option::Some(x) => {
            put_u8(out, 1);
            put_u32(out, x);
        },
    }
    proof {
        assert(out@ =~= old(out)@ + enc_opt_u32(o));
    }
}

fn put_opt_u64(out: &mut Vec<u8>, o: Option<u64>)
    ensures
        final(out)@ == old(out)@ + enc_opt_u64(o),
{
    match o {
        Option::None => put_u8(out, 0),
        Option::Some(x) => {
            put_u8(out, 1);
            put_u64(out, x);
        },
    }
    proof {
        assert(out@ =~= old(out)@ + enc_opt_u64(o));
    }
}

fn put_opt_pos(out: &mut Vec<u8>, o: Option<Pos>)
    ensures
        final(out)@ == old(out)@ + enc_opt_pos(o),
{
    match o {
        Option::None => put_u8(out, 0),
        Option::Some(p) => {
            put_u8(out, 1);
            put_pos(out, p);
        },
    }
    proof {
        assert(out@ =~= old(out)@ + enc_opt_pos(o));
    }
}

fn put_opt_rect(out: &mut Vec<u8>, o: Option<Rect>)
    ensures
        final(out)@ == old(out)@ + enc_opt_rect(o),
{
    match o {
        Option::None => put_u8(out, 0),
        Option::Some(r) => {
            put_u8(out, 1);
            put_rect(out, r);
        },
    }
    proof {
        assert(out@ =~= old(out)@ + enc_opt_rect(o));
    }
}

fn put_byte_string(out: &mut Vec<u8>, s: &Vec<u8>)
    requires
        s@.len() <= u32::MAX,
    ensures
        final(out)@ == old(out)@ + enc_bytes(s@),
{
    put_u32(out, s.len() as u32);
    let ghost mid = out@;
    let n = s.len();
    let mut i: usize = 0;
    while i < n
        invariant
            n == s@.len(),
            i <= n,
            out@ =~= mid + s@.subrange(0, i as int),
        decreases n - i,
    {
        out.push(s[i]);
        i += 1;
        proof {
            assert(s@.subrange(0, i as int) =~= s@.subrange(0, i - 1).push(s@[i - 1]));
            assert(out@ =~= mid + s@.subrange(0, i as int));
        }
    }
    proof {
        assert(s@.subrange(0, n as int) =~= s@);
        assert(out@ =~= old(out)@ + enc_bytes(s@));
    }
}

fn put_event(out: &mut Vec<u8>, e: &InputEvent)
    requires
        event_encodable(event_model(*e)),
    ensures
        final(out)@ == old(out)@ + enc_event(event_model(*e)),
{
    match e {
        InputEvent::Key { key, pressed, modifiers } => {
            put_u8(out, 0);
            put_u32(out, *key);
            put_bool(out, *pressed);
            put_modifiers(out, *modifiers);
        },
        InputEvent::Text(bytes) => {
            put_u8(out, 1);
            put_byte_string(out, bytes);
        },
        InputEvent::PointerButton { pos, button, pressed, modifiers } => {
            put_u8(out, 2);
            put_pos(out, *pos);
            put_u8(out, *button);
            put_bool(out, *pressed);
            put_modifiers(out, *modifiers);
        },
        InputEvent::Scroll { dx, dy } => {
            put_u8(out, 3);
            put_u32(out, *dx);
            put_u32(out, *dy);
        },
    }
    proof {
        assert(out@ =~= old(out)@ + enc_event(event_model(*e)));
    }
}

#[verifier::rlimit(60)]
fn put_input(out: &mut Vec<u8>, d: &InputDelta)
    requires
        input_encodable(input_model(*d)),
    ensures
        final(out)@ == old(out)@ + enc_input(input_model(*d)),
{
    let ghost f = |e: EventModel| enc_event(e);
    put_u32(out, d.events.len() as u32);
    let ghost mid = out@;
    let n = d.events.len();
    let mut i: usize = 0;
    while i < n
        invariant
            n == d.events@.len(),
            i <= n,
            input_encodable(input_model(*d)),
            f == (|e: EventModel| enc_event(e)),
            out@ =~= mid + enc_list(events_model(d.events@.subrange(0, i as int)), f),
        decreases n - i,
    {
        let ghost prefix = events_model(d.events@.subrange(0, i as int));
        proof {
            assert(input_model(*d).events[i as int] == event_model(d.events@[i as int]));
            assert(event_encodable(input_model(*d).events[i as int]));
        }
        put_event(out, &d.events[i]);
        i += 1;
        proof {
            assert(d.events@.subrange(0, i as int)
                =~= d.events@.subrange(0, i - 1).push(d.events@[i - 1]));
            assert(events_model(d.events@.subrange(0, i as int))
                =~= prefix.push(event_model(d.events@[i - 1])));
            lemma_enc_list_push(prefix, f, event_model(d.events@[i - 1]));
            assert(out@ =~= mid + enc_list(events_model(d.events@.subrange(0, i as int)), f));
        }
    }
    proof {
        assert(d.events@.subrange(0, n as int) =~= d.events@);
    }
    put_opt_pos(out, d.pointer_pos);
    put_modifiers(out, d.modifiers);
    put_opt_rect(out, d.screen_rect);
    put_opt_u32(out, d.pixels_per_point);
    put_opt_u64(out, d.time);
    proof {
        assert(out@ =~= old(out)@ + enc_input(input_model(*d)));
    }
}

fn put_u32_list(out: &mut Vec<u8>, v: &Vec<u32>)
    requires
        v@.len() <= u32::MAX,
    ensures
        final(out)@ == old(out)@ + enc_u32(v@.len() as u32)
            + enc_list(v@, |x: u32| enc_u32(x)),
{
    let ghost f = |x: u32| enc_u32(x);
    put_u32(out, v.len() as u32);
    let ghost mid = out@;
    let n = v.len();
    let mut i: usize = 0;
    while i < n
        invariant
            n == v@.len(),
            i <= n,
            f == (|x: u32| enc_u32(x)),
            out@ =~= mid + enc_list(v@.subrange(0, i as int), f),
        decreases n - i,
    {
        let ghost prefix = v@.subrange(0, i as int);
        put_u32(out, v[i]);
        i += 1;
        proof {
            assert(v@.subrange(0, i as int) =~= prefix.push(v@[i - 1]));
            lemma_enc_list_push(prefix, f, v@[i - 1]);
            assert(out@ =~= mid + enc_list(v@.subrange(0, i as int), f));
        }
    }
    proof {
        assert(v@.subrange(0, n as int) =~= v@);
    }
}

fn put_pos_list(out: &mut Vec<u8>, v: &Vec<Pos>)
    requires
        v@.len() <= u32::MAX,
    ensures
        final(out)@ == old(out)@ + enc_u32(v@.len() as u32)
            + enc_list(v@, |p: Pos| enc_pos(p)),
{
    let ghost f = |p: Pos| enc_pos(p);
    put_u32(out, v.len() as u32);
    let ghost mid = out@;
    let n = v.len();
    let mut i: usize = 0;
    while i < n
        invariant
            n == v@.len(),
            i <= n,
            f == (|p: Pos| enc_pos(p)),
            out@ =~= mid + enc_list(v@.subrange(0, i as int), f),
        decreases n - i,
    {
        let ghost prefix = v@.subrange(0, i as int);
        put_pos(out, v[i]);
        i += 1;
        proof {
            assert(v@.subrange(0, i as int) =~= prefix.push(v@[i - 1]));
            lemma_enc_list_push(prefix, f, v@[i - 1]);
            assert(out@ =~= mid + enc_list(v@.subrange(0, i as int), f));
        }
    }
    proof {
        assert(v@.subrange(0, n as int) =~= v@);
    }
}

fn put_color_list(out: &mut Vec<u8>, v: &Vec<Color>)
    requires
        v@.len() <= u32::MAX,
    ensures
        final(out)@ == old(out)@ + enc_u32(v@.len() as u32)
            + enc_list(v@, |c: Color| enc_color(c)),
{
    let ghost f = |c: Color| enc_color(c);
    put_u32(out, v.len() as u32);
    let ghost mid = out@;
    let n = v.len();
    let mut i: usize = 0;
    while i < n
        invariant
            n == v@.len(),
            i <= n,
            f == (|c: Color| enc_color(c)),
            out@ =~= mid + enc_list(v@.subrange(0, i as int), f),
        decreases n - i,
    {
        let ghost prefix = v@.subrange(0, i as int);
        put_color(out, v[i]);
        i += 1;
        proof {
            assert(v@.subrange(0, i as int) =~= prefix.push(v@[i - 1]));
            lemma_enc_list_push(prefix, f, v@[i - 1]);
            assert(out@ =~= mid + enc_list(v@.subrange(0, i as int), f));
        }
    }
    proof {
        assert(v@.subrange(0, n as int) =~= v@);
    }
}

fn put_net_mesh(out: &mut Vec<u8>, m: &NetMesh)
    requires
        net_mesh_encodable(net_mesh_model(*m)),
    ensures
        final(out)@ == old(out)@ + enc_net_mesh(net_mesh_model(*m)),
{
    put_texture_id(out, m.texture_id);
    put_u32_list(out, &m.indices);
    put_pos_list(out, &m.pos);
    put_pos_list(out, &m.uv);
    put_color_list(out, &m.color);
    proof {
        assert(out@ =~= old(out)@ + enc_net_mesh(net_mesh_model(*m)));
    }
}

fn put_clipped(out: &mut Vec<u8>, c: &ClippedNetMesh)
    requires
        net_mesh_encodable(net_mesh_model(c.mesh)),
    ensures
        final(out)@ == old(out)@ + enc_clipped(clipped_net_mesh_model(*c)),
{
    put_rect(out, c.clip_rect);
    put_net_mesh(out, &c.mesh);
    proof {
        assert(out@ =~= old(out)@ + enc_clipped(clipped_net_mesh_model(*c)));
    }
}

fn put_clipped_list(out: &mut Vec<u8>, v: &Vec<ClippedNetMesh>)
    requires
        v@.len() <= u32::MAX,
        forall|i: int| 0 <= i < v@.len()
            ==> net_mesh_encodable(net_mesh_model((#[trigger] v@[i]).mesh)),
    ensures
        final(out)@ == old(out)@ + enc_u32(v@.len() as u32)
            + enc_list(clipped_net_meshes_model(v@), |c: ClippedNetMeshModel| enc_clipped(c)),
{
    let ghost f = |c: ClippedNetMeshModel| enc_clipped(c);
    put_u32(out, v.len() as u32);
    let ghost mid = out@;
    let n = v.len();
    let mut i: usize = 0;
    while i < n
        invariant
            n == v@.len(),
            i <= n,
            forall|j: int| 0 <= j < v@.len()
                ==> net_mesh_encodable(net_mesh_model((#[trigger] v@[j]).mesh)),
            f == (|c: ClippedNetMeshModel| enc_clipped(c)),
            out@ =~= mid + enc_list(clipped_net_meshes_model(v@.subrange(0, i as int)), f),
        decreases n - i,
    {
        let ghost prefix = clipped_net_meshes_model(v@.subrange(0, i as int));
        put_clipped(out, &v[i]);
        i += 1;
        proof {
            assert(v@.subrange(0, i as int) =~= v@.subrange(0, i - 1).push(v@[i - 1]));
            assert(clipped_net_meshes_model(v@.subrange(0, i as int))
                =~= prefix.push(clipped_net_mesh_model(v@[i - 1])));
            lemma_enc_list_push(prefix, f, clipped_net_mesh_model(v@[i - 1]));
            assert(out@ =~= mid
                + enc_list(clipped_net_meshes_model(v@.subrange(0, i as int)), f));
        }
    }
    proof {
        assert(v@.subrange(0, n as int) =~= v@);
    }
}

/// Whether an input batch fits the wire format's count fields.
fn check_input_encodable(d: &InputDelta) -> (b: bool)
    ensures
        b == input_encodable(input_model(*d)),
{
    if d.events.len() > u32::MAX as usize {
        return false;
    }
    let n = d.events.len();
    let mut i: usize = 0;
    while i < n
        invariant
            n == d.events@.len(),
            i <= n,
            forall|j: int| 0 <= j < i ==> event_encodable(event_model(#[trigger] d.events@[j])),
        decreases n - i,
    {
        let ok = match &d.events[i] {
            InputEvent::Text(bytes) => bytes.len() <= u32::MAX as usize,
            _ => true,
        };
        if !ok {
            proof {
                assert(input_model(*d).events[i as int] == event_model(d.events@[i as int]));
                assert(!event_encodable(input_model(*d).events[i as int]));
            }
            return false;
        }
        assert(event_encodable(event_model(d.events@[i as int])));
        i += 1;
    }
    proof {
        assert forall|j: int| 0 <= j < input_model(*d).events.len()
            implies event_encodable(#[trigger] input_model(*d).events[j]) by {
            assert(input_model(*d).events[j] == event_model(d.events@[j]));
        }
    }
    true
}

/// Build the payload of a viewer-to-server message.
#[verifier::rlimit(60)]
fn build_client_payload(msg: &ClientToServerMessage) -> (r: Result<Vec<u8>, EncodeError>)
    ensures
        match r {
            Ok(v) => client_msg_counts_ok(client_msg_model(*msg))
                && v@ == enc_client_payload(client_msg_model(*msg)),
            Err(_) => !client_msg_counts_ok(client_msg_model(*msg)),
        },
{
    let mut out: Vec<u8> = Vec::new();
    match msg {
        ClientToServerMessage::Input { raw_input, client_time } => {
            if !check_input_encodable(raw_input) {
                return Err(EncodeError);
            }
            put_u8(&mut out, TAG_INPUT);
            put_input(&mut out, raw_input);
            put_u64(&mut out, *client_time);
            proof {
                assert(out@ =~= enc_client_payload(client_msg_model(*msg)));
            }
            Ok(out)
        },
        ClientToServerMessage::Goodbye => {
            put_u8(&mut out, TAG_GOODBYE);
            proof {
                assert(out@ =~= enc_client_payload(client_msg_model(*msg)));
            }
            Ok(out)
        },
    }
}

/// Whether a frame fits the wire format's count fields.
#[verifier::loop_isolation(false)]
#[verifier::rlimit(100)]
fn check_server_encodable(msg: &ServerToClientMessage) -> (b: bool)
    ensures
        b == server_msg_counts_ok(server_msg_model(*msg)),
{
    match msg {
        ServerToClientMessage::Frame {
            frame_index, platform_output, clipped_net_mesh, textures_delta, client_time,
        } => {
            if platform_output.len() > u32::MAX as usize
                || textures_delta.len() > u32::MAX as usize
                || clipped_net_mesh.len() > u32::MAX as usize {
                return false;
            }
            let n = clipped_net_mesh.len();
            let mut i: usize = 0;
            while i < n
                invariant
                    n == clipped_net_mesh@.len(),
                    i <= n,
                    forall|j: int| 0 <= j < i ==> net_mesh_encodable(
                        net_mesh_model((#[trigger] clipped_net_mesh@[j]).mesh),
                    ),
                decreases n - i,
            {
                let c = &clipped_net_mesh[i];
                let ok = c.mesh.indices.len() <= u32::MAX as usize
                    && c.mesh.pos.len() <= u32::MAX as usize
                    && c.mesh.uv.len() <= u32::MAX as usize
                    && c.mesh.color.len() <= u32::MAX as usize;
                if !ok {
                    proof {
                        let ms = clipped_net_meshes_model(clipped_net_mesh@);
                        assert(ms.len() == clipped_net_mesh@.len());
                        assert(ms[i as int] == clipped_net_mesh_model(clipped_net_mesh@[i as int]));
                        assert(!net_mesh_encodable(ms[i as int].mesh));
                        assert(server_msg_model(*msg) matches ServerMsgModel::Frame {
                            clipped_net_mesh: gcs, ..
                        } && gcs == ms);
                        assert(!server_msg_counts_ok(server_msg_model(*msg)));
                    }
                    return false;
                }
                assert(net_mesh_encodable(net_mesh_model(clipped_net_mesh@[i as int].mesh)));
                i += 1;
            }
            assert forall|i: int| 0 <= i < clipped_net_meshes_model(clipped_net_mesh@).len()
                implies net_mesh_encodable(
                    (#[trigger] clipped_net_meshes_model(clipped_net_mesh@)[i]).mesh,
                ) by {
                assert(clipped_net_meshes_model(clipped_net_mesh@)[i]
                    == clipped_net_mesh_model(clipped_net_mesh@[i]));
            }
            true
        },
    }
}

/// Build the payload of a server-to-viewer message.
#[verifier::rlimit(60)]
fn build_server_payload(msg: &ServerToClientMessage) -> (r: Result<Vec<u8>, EncodeError>)
    ensures
        match r {
            Ok(v) => server_msg_counts_ok(server_msg_model(*msg))
                && v@ == enc_server_payload(server_msg_model(*msg)),
            Err(_) => !server_msg_counts_ok(server_msg_model(*msg)),
        },
{
    if !check_server_encodable(msg) {
        return Err(EncodeError);
    }
    let mut out: Vec<u8> = Vec::new();
    match msg {
        ServerToClientMessage::Frame {
            frame_index, platform_output, clipped_net_mesh, textures_delta, client_time,
        } => {
            put_u8(&mut out, TAG_FRAME);
            put_u64(&mut out, *frame_index);
            put_byte_string(&mut out, platform_output);
            proof {
                let ms = clipped_net_meshes_model(clipped_net_mesh@);
                assert forall|i: int| 0 <= i < clipped_net_mesh@.len()
                    implies net_mesh_encodable(
                        net_mesh_model((#[trigger] clipped_net_mesh@[i]).mesh),
                    ) by {
                    assert(ms[i] == clipped_net_mesh_model(clipped_net_mesh@[i]));
                    assert(net_mesh_encodable(ms[i].mesh));
                }
            }
            put_clipped_list(&mut out, clipped_net_mesh);
            put_byte_string(&mut out, textures_delta);
            put_opt_u64(&mut out, *client_time);
            proof {
                assert(out@ =~= enc_server_payload(server_msg_model(*msg)));
            }
            Ok(out)
        },
    }
}

/// Wrap a payload in a length-prefixed record.
fn finish_record(payload: Vec<u8>) -> (r: Result<Vec<u8>, EncodeError>)
    ensures
        match r {
            Ok(v) => payload@.len() <= MAX_PAYLOAD_LEN && v@ == enc_record(payload@),
            Err(_) => payload@.len() > MAX_PAYLOAD_LEN,
        },
{
    if payload.len() > MAX_PAYLOAD_LEN as usize {
        return Err(EncodeError);
    }
    let ghost pv = payload@;
    let mut rec: Vec<u8> = Vec::new();
    put_u32(&mut rec, payload.len() as u32);
    let mut payload = payload;
    rec.append(&mut payload);
    proof {
        assert(rec@ =~= enc_record(pv));
    }
    Ok(rec)
}

/// Encode one viewer-to-server message as a complete wire record.
pub fn encode_client_message(msg: &ClientToServerMessage) -> (r: Result<Vec<u8>, EncodeError>)
    ensures
        match r {
            Ok(v) => client_msg_encodable(client_msg_model(*msg))
                && v@ == enc_record(enc_client_payload(client_msg_model(*msg))),
            Err(_) => !client_msg_encodable(client_msg_model(*msg)),
        },
{
    let payload = build_client_payload(msg)?;
    finish_record(payload)
}

/// Encode one server-to-viewer message as a complete wire record.
pub fn encode_server_message(msg: &ServerToClientMessage) -> (r: Result<Vec<u8>, EncodeError>)
    ensures
        match r {
            Ok(v) => server_msg_encodable(server_msg_model(*msg))
                && v@ == enc_record(enc_server_payload(server_msg_model(*msg))),
            Err(_) => !server_msg_encodable(server_msg_model(*msg)),
        },
{
    let payload = build_server_payload(msg)?;
    finish_record(payload)
}

// ---------------------------------------------------------------------------
// Executable readers. Each mirrors its front-of-sequence decoder exactly:
// it yields the decoded value and the new cursor, or fails exactly where
// the decoder yields nothing.

fn get_u8(bytes: &Vec<u8>, pos: usize) -> (r: Result<(u8, usize), DecodeError>)
    requires
        pos <= bytes@.len(),
    ensures
        match dec_u8(bytes@.skip(pos as int)) {
            Option::Some(p) => r matches Ok(q) && q.0 == p.0 && q.1 == pos + p.1,
            Option::None => r is Err,
        },
        r matches Ok(q) ==> pos < q.1 <= bytes@.len(),
{
    if bytes.len() - pos >= 1 {
        proof {
            assert(bytes@.skip(pos as int)[0] == bytes@[pos as int]);
        }
        Ok((bytes[pos], pos + 1))
    } else {
        Err(DecodeError)
    }
}

fn get_u32(bytes: &Vec<u8>, pos: usize) -> (r: Result<(u32, usize), DecodeError>)
    requires
        pos <= bytes@.len(),
    ensures
        match dec_u32(bytes@.skip(pos as int)) {
            Option::Some(p) => r matches Ok(q) && q.0 == p.0 && q.1 == pos + p.1,
            Option::None => r is Err,
        },
        r matches Ok(q) ==> pos < q.1 <= bytes@.len(),
{
    if bytes.len() - pos >= 4 {
        proof {
            let s = bytes@.skip(pos as int);
            assert(s[0] == bytes@[pos as int]);
            assert(s[1] == bytes@[pos + 1]);
            assert(s[2] == bytes@[pos + 2]);
            assert(s[3] == bytes@[pos + 3]);
        }
        let b0 = bytes[pos];
        let b1 = bytes[pos + 1];
        let b2 = bytes[pos + 2];
        let b3 = bytes[pos + 3];
        let x = (b0 as u32) | ((b1 as u32) << 8) | ((b2 as u32) << 16) | ((b3 as u32) << 24);
        Ok((x, pos + 4))
    } else {
        Err(DecodeError)
    }
}

fn get_u64(bytes: &Vec<u8>, pos: usize) -> (r: Result<(u64, usize), DecodeError>)
    requires
        pos <= bytes@.len(),
    ensures
        match dec_u64(bytes@.skip(pos as int)) {
            Option::Some(p) => r matches Ok(q) && q.0 == p.0 && q.1 == pos + p.1,
            Option::None => r is Err,
        },
        r matches Ok(q) ==> pos < q.1 <= bytes@.len(),
{
    if bytes.len() - pos >= 8 {
        proof {
            let s = bytes@.skip(pos as int);
            let t = s.take(8);
            assert forall|i: int| 0 <= i < 8 implies t[i] == bytes@[pos + i] by {
                assert(t[i] == s[i]);
            }
        }
        let b0 = bytes[pos];
        let b1 = bytes[pos + 1];
        let b2 = bytes[pos + 2];
        let b3 = bytes[pos + 3];
        let b4 = bytes[pos + 4];
        let b5 = bytes[pos + 5];
        let b6 = bytes[pos + 6];
        let b7 = bytes[pos + 7];
        let x = (b0 as u64) | ((b1 as u64) << 8) | ((b2 as u64) << 16) | ((b3 as u64) << 24)
            | ((b4 as u64) << 32) | ((b5 as u64) << 40) | ((b6 as u64) << 48)
            | ((b7 as u64) << 56);
        Ok((x, pos + 8))
    } else {
        Err(DecodeError)
    }
}

fn get_bool(bytes: &Vec<u8>, pos: usize) -> (r: Result<(bool, usize), DecodeError>)
    requires
        pos <= bytes@.len(),
    ensures
        match dec_bool(bytes@.skip(pos as int)) {
            Option::Some(p) => r matches Ok(q) && q.0 == p.0 && q.1 == pos + p.1,
            Option::None => r is Err,
        },
        r matches Ok(q) ==> pos < q.1 <= bytes@.len(),
{
    let (b, np) = get_u8(bytes, pos)?;
    if b == 0 {
        Ok((false, np))
    } else if b == 1 {
        Ok((true, np))
    } else {
        Err(DecodeError)
    }
}

fn get_pos(bytes: &Vec<u8>, pos: usize) -> (r: Result<(Pos, usize), DecodeError>)
    requires
        pos <= bytes@.len(),
    ensures
        match dec_pos(bytes@.skip(pos as int)) {
            Option::Some(p) => r matches Ok(q) && q.0 == p.0 && q.1 == pos + p.1,
            Option::None => r is Err,
        },
        r matches Ok(q) ==> pos < q.1 <= bytes@.len(),
{
    let (x, p1) = get_u32(bytes, pos)?;
    proof {
        assert(bytes@.skip(pos as int).skip(4) =~= bytes@.skip(p1 as int));
    }
    let (y, p2) = get_u32(bytes, p1)?;
    Ok((Pos { x, y }, p2))
}

fn get_rect(bytes: &Vec<u8>, pos: usize) -> (r: Result<(Rect, usize), DecodeError>)
    requires
        pos <= bytes@.len(),
    ensures
        match dec_rect(bytes@.skip(pos as int)) {
            Option::Some(p) => r matches Ok(q) && q.0 == p.0 && q.1 == pos + p.1,
            Option::None => r is Err,
        },
        r matches Ok(q) ==> pos < q.1 <= bytes@.len(),
{
    let (mn, p1) = get_pos(bytes, pos)?;
    proof {
        assert(bytes@.skip(pos as int).skip(p1 - pos) =~= bytes@.skip(p1 as int));
    }
    let (mx, p2) = get_pos(bytes, p1)?;
    Ok((Rect { min: mn, max: mx }, p2))
}

fn get_color(bytes: &Vec<u8>, pos: usize) -> (r: Result<(Color, usize), DecodeError>)
    requires
        pos <= bytes@.len(),
    ensures
        match dec_color(bytes@.skip(pos as int)) {
            Option::Some(p) => r matches Ok(q) && q.0 == p.0 && q.1 == pos + p.1,
            Option::None => r is Err,
        },
        r matches Ok(q) ==> pos < q.1 <= bytes@.len(),
{
    if bytes.len() - pos >= 4 {
        proof {
            let s = bytes@.skip(pos as int);
            assert(s[0] == bytes@[pos as int]);
            assert(s[1] == bytes@[pos + 1]);
            assert(s[2] == bytes@[pos + 2]);
            assert(s[3] == bytes@[pos + 3]);
        }
        let c = Color {
            r: bytes[pos],
            g: bytes[pos + 1],
            b: bytes[pos + 2],
            a: bytes[pos + 3],
        };
        Ok((c, pos + 4))
    } else {
        Err(DecodeError)
    }
}

fn get_texture_id(bytes: &Vec<u8>, pos: usize) -> (r: Result<(TextureId, usize), DecodeError>)
    requires
        pos <= bytes@.len(),
    ensures
        match dec_texture_id(bytes@.skip(pos as int)) {
            Option::Some(p) => r matches Ok(q) && q.0 == p.0 && q.1 == pos + p.1,
            Option::None => r is Err,
        },
        r matches Ok(q) ==> pos < q.1 <= bytes@.len(),
{
    let (tag, p1) = get_u8(bytes, pos)?;
    proof {
        assert(bytes@.skip(pos as int).skip(1) =~= bytes@.skip(p1 as int));
    }
    let (x, p2) = get_u64(bytes, p1)?;
    if tag == 0 {
        Ok((TextureId::Managed(x), p2))
    } else if tag == 1 {
        Ok((TextureId::User(x), p2))
    } else {
        Err(DecodeError)
    }
}

fn get_modifiers(bytes: &Vec<u8>, pos: usize) -> (r: Result<(Modifiers, usize), DecodeError>)
    requires
        pos <= bytes@.len(),
    ensures
        match dec_modifiers(bytes@.skip(pos as int)) {
            Option::Some(p) => r matches Ok(q) && q.0 == p.0 && q.1 == pos + p.1,
            Option::None => r is Err,
        },
        r matches Ok(q) ==> pos < q.1 <= bytes@.len(),
{
    let ghost s = bytes@.skip(pos as int);
    let (alt, p1) = get_bool(bytes, pos)?;
    proof {
        assert(s.skip(1) =~= bytes@.skip(pos + 1));
    }
    let (ctrl, p2) = get_bool(bytes, p1)?;
    proof {
        assert(s.skip(2) =~= bytes@.skip(pos + 2));
    }
    let (shift, p3) = get_bool(bytes, p2)?;
    proof {
        assert(s.skip(3) =~= bytes@.skip(pos + 3));
    }
    let (mac_cmd, p4) = get_bool(bytes, p3)?;
    proof {
        assert(s.skip(4) =~= bytes@.skip(pos + 4));
    }
    let (command, p5) = get_bool(bytes, p4)?;
    Ok((Modifiers { alt, ctrl, shift, mac_cmd, command }, p5))
}

fn get_opt_u32(bytes: &Vec<u8>, pos: usize) -> (r: Result<(Option<u32>, usize), DecodeError>)
    requires
        pos <= bytes@.len(),
    ensures
        match dec_opt_u32(bytes@.skip(pos as int)) {
            Option::Some(p) => r matches Ok(q) && q.0 == p.0 && q.1 == pos + p.1,
            Option::None => r is Err,
        },
        r matches Ok(q) ==> pos < q.1 <= bytes@.len(),
{
    let (tag, p1) = get_u8(bytes, pos)?;
    proof {
        assert(bytes@.skip(pos as int).skip(1) =~= bytes@.skip(p1 as int));
    }
    if tag == 0 {
        Ok((None, p1))
    } else if tag == 1 {
        let (x, p2) = get_u32(bytes, p1)?;
        Ok((Some(x), p2))
    } else {
        Err(DecodeError)
    }
}

fn get_opt_u64(bytes: &Vec<u8>, pos: usize) -> (r: Result<(Option<u64>, usize), DecodeError>)
    requires
        pos <= bytes@.len(),
    ensures
        match dec_opt_u64(bytes@.skip(pos as int)) {
            Option::Some(p) => r matches Ok(q) && q.0 == p.0 && q.1 == pos + p.1,
            Option::None => r is Err,
        },
        r matches Ok(q) ==> pos < q.1 <= bytes@.len(),
{
    let (tag, p1) = get_u8(bytes, pos)?;
    proof {
        assert(bytes@.skip(pos as int).skip(1) =~= bytes@.skip(p1 as int));
    }
    if tag == 0 {
        Ok((None, p1))
    } else if tag == 1 {
        let (x, p2) = get_u64(bytes, p1)?;
        Ok((Some(x), p2))
    } else {
        Err(DecodeError)
    }
}

fn get_opt_pos(bytes: &Vec<u8>, pos: usize) -> (r: Result<(Option<Pos>, usize), DecodeError>)
    requires
        pos <= bytes@.len(),
    ensures
        match dec_opt_pos(bytes@.skip(pos as int)) {
            Option::Some(p) => r matches Ok(q) && q.0 == p.0 && q.1 == pos + p.1,
            Option::None => r is Err,
        },
        r matches Ok(q) ==> pos < q.1 <= bytes@.len(),
{
    let (tag, p1) = get_u8(bytes, pos)?;
    proof {
        assert(bytes@.skip(pos as int).skip(1) =~= bytes@.skip(p1 as int));
    }
    if tag == 0 {
        Ok((None, p1))
    } else if tag == 1 {
        let (p, p2) = get_pos(bytes, p1)?;
        Ok((Some(p), p2))
    } else {
        Err(DecodeError)
    }
}

fn get_opt_rect(bytes: &Vec<u8>, pos: usize) -> (r: Result<(Option<Rect>, usize), DecodeError>)
    requires
        pos <= bytes@.len(),
    ensures
        match dec_opt_rect(bytes@.skip(pos as int)) {
            Option::Some(p) => r matches Ok(q) && q.0 == p.0 && q.1 == pos + p.1,
            Option::None => r is Err,
        },
        r matches Ok(q) ==> pos < q.1 <= bytes@.len(),
{
    let (tag, p1) = get_u8(bytes, pos)?;
    proof {
        assert(bytes@.skip(pos as int).skip(1) =~= bytes@.skip(p1 as int));
    }
    if tag == 0 {
        Ok((None, p1))
    } else if tag == 1 {
        let (rc, p2) = get_rect(bytes, p1)?;
        Ok((Some(rc), p2))
    } else {
        Err(DecodeError)
    }
}

fn get_byte_string(bytes: &Vec<u8>, pos: usize) -> (r: Result<(Vec<u8>, usize), DecodeError>)
    requires
        pos <= bytes@.len(),
    ensures
        match dec_byte_string(bytes@.skip(pos as int)) {
            Option::Some(p) => r matches Ok(q) && q.0@ == p.0 && q.1 == pos + p.1,
            Option::None => r is Err,
        },
        r matches Ok(q) ==> pos <= q.1 <= bytes@.len(),
{
    let ghost s = bytes@.skip(pos as int);
    let (n, p1) = get_u32(bytes, pos)?;
    if bytes.len() - p1 >= n as usize {
        let count = n as usize;
        let end: usize = p1 + count;
        let mut v: Vec<u8> = Vec::new();
        let mut k: usize = p1;
        while k < end
            invariant
                p1 <= k <= end,
                end <= bytes@.len(),
                v@ =~= bytes@.subrange(p1 as int, k as int),
            decreases end - k,
        {
            v.push(bytes[k]);
            k += 1;
            proof {
                assert(bytes@.subrange(p1 as int, k as int)
                    =~= bytes@.subrange(p1 as int, k - 1).push(bytes@[k - 1]));
            }
        }
        proof {
            assert(s.subrange(4, 4 + n as int) =~= bytes@.subrange(p1 as int, end as int));
        }
        Ok((v, end))
    } else {
        Err(DecodeError)
    }
}

// ---------------------------------------------------------------------------
// Well-behavedness of the decoders: whatever they decode, they consume
// within the bytes they were given.

pub proof fn lemma_dec_u32_wb()
    ensures
        dec_wb(dec_u32_fn()),
{
    assert forall|t: Seq<u8>| dec_consumes_within(#[trigger] dec_u32_fn()(t), t) by {
        assert(dec_u32_fn()(t) == dec_u32(t));
    }
}

pub proof fn lemma_dec_pos_wb()
    ensures
        dec_wb(dec_pos_fn()),
{
    assert forall|t: Seq<u8>| dec_consumes_within(#[trigger] dec_pos_fn()(t), t) by {
        assert(dec_pos_fn()(t) == dec_pos(t));
    }
}

pub proof fn lemma_dec_color_wb()
    ensures
        dec_wb(dec_color_fn()),
{
    assert forall|t: Seq<u8>| dec_consumes_within(#[trigger] dec_color_fn()(t), t) by {
        assert(dec_color_fn()(t) == dec_color(t));
    }
}

pub proof fn lemma_dec_event_wb()
    ensures
        dec_wb(dec_event_fn()),
{
    assert forall|t: Seq<u8>| dec_consumes_within(#[trigger] dec_event_fn()(t), t) by {
        assert(dec_event_fn()(t) == dec_event(t));
    }
}

pub proof fn lemma_dec_counted_bounds(s: Seq<u8>)
    ensures
        dec_counted_u32s(s) matches Option::Some(p) ==> 0 <= p.1 <= s.len(),
        dec_counted_poss(s) matches Option::Some(p) ==> 0 <= p.1 <= s.len(),
        dec_counted_colors(s) matches Option::Some(p) ==> 0 <= p.1 <= s.len(),
{
    lemma_dec_u32_wb();
    lemma_dec_pos_wb();
    lemma_dec_color_wb();
    match dec_u32(s) {
        Option::Some((n, c0)) => {
            lemma_dec_list_bounds(s.skip(c0), n as nat, dec_u32_fn());
            lemma_dec_list_bounds(s.skip(c0), n as nat, dec_pos_fn());
            lemma_dec_list_bounds(s.skip(c0), n as nat, dec_color_fn());
        },
        Option::None => {},
    }
}

pub proof fn lemma_dec_net_mesh_bounds(s: Seq<u8>)
    ensures
        dec_net_mesh(s) matches Option::Some(p) ==> 0 <= p.1 <= s.len(),
{
    reveal(dec_net_mesh);
    if dec_net_mesh(s) is Some {
        match dec_texture_id(s) {
            Option::Some((texture_id, c0)) => {
                lemma_dec_counted_bounds(s.skip(c0));
                match dec_counted_u32s(s.skip(c0)) {
                    Option::Some((indices, c1)) => {
                        lemma_dec_counted_bounds(s.skip(c0 + c1));
                        match dec_counted_poss(s.skip(c0 + c1)) {
                            Option::Some((pos, c2)) => {
                                lemma_dec_counted_bounds(s.skip(c0 + c1 + c2));
                                match dec_counted_poss(s.skip(c0 + c1 + c2)) {
                                    Option::Some((uv, c3)) => {
                                        assert(s.skip(c0 + c1 + c2).skip(c3)
                                            =~= s.skip(c0 + c1 + c2 + c3));
                                        lemma_dec_counted_bounds(s.skip(c0 + c1 + c2 + c3));
                                    },
                                    Option::None => {},
                                }
                            },
                            Option::None => {},
                        }
                    },
                    Option::None => {},
                }
            },
            Option::None => {},
        }
    }
}

pub proof fn lemma_dec_clipped_wb()
    ensures
        dec_wb(dec_clipped_fn()),
{
    assert forall|t: Seq<u8>| dec_consumes_within(#[trigger] dec_clipped_fn()(t), t) by {
        reveal(dec_clipped);
        assert(dec_clipped_fn()(t) == dec_clipped(t));
        match dec_rect(t) {
            Option::Some((clip_rect, c0)) => {
                lemma_dec_net_mesh_bounds(t.skip(c0));
            },
            Option::None => {},
        }
    }
}

fn get_event(bytes: &Vec<u8>, pos: usize) -> (r: Result<(InputEvent, usize), DecodeError>)
    requires
        pos <= bytes@.len(),
    ensures
        match dec_event(bytes@.skip(pos as int)) {
            Option::Some(p) => r matches Ok(q) && event_model(q.0) == p.0 && q.1 == pos + p.1,
            Option::None => r is Err,
        },
        r matches Ok(q) ==> pos < q.1 <= bytes@.len(),
{
    let ghost s = bytes@.skip(pos as int);
    let (tag, p0) = get_u8(bytes, pos)?;
    proof {
        assert(s.skip(1) =~= bytes@.skip(p0 as int));
    }
    if tag == 0 {
        let (key, p1) = get_u32(bytes, p0)?;
        proof {
            assert(s.skip((p1 - pos) as int) =~= bytes@.skip(p1 as int));
        }
        let (pressed, p2) = get_bool(bytes, p1)?;
        proof {
            assert(s.skip((p2 - pos) as int) =~= bytes@.skip(p2 as int));
        }
        let (modifiers, p3) = get_modifiers(bytes, p2)?;
        Ok((InputEvent::Key { key, pressed, modifiers }, p3))
    } else if tag == 1 {
        let (text, p1) = get_byte_string(bytes, p0)?;
        Ok((InputEvent::Text(text), p1))
    } else if tag == 2 {
        let (ppos, p1) = get_pos(bytes, p0)?;
        proof {
            assert(s.skip((p1 - pos) as int) =~= bytes@.skip(p1 as int));
        }
        let (button, p2) = get_u8(bytes, p1)?;
        proof {
            assert(s.skip((p2 - pos) as int) =~= bytes@.skip(p2 as int));
        }
        let (pressed, p3) = get_bool(bytes, p2)?;
        proof {
            assert(s.skip((p3 - pos) as int) =~= bytes@.skip(p3 as int));
        }
        let (modifiers, p4) = get_modifiers(bytes, p3)?;
        Ok((InputEvent::PointerButton { pos: ppos, button, pressed, modifiers }, p4))
    } else if tag == 3 {
        let (dx, p1) = get_u32(bytes, p0)?;
        proof {
            assert(s.skip((p1 - pos) as int) =~= bytes@.skip(p1 as int));
        }
        let (dy, p2) = get_u32(bytes, p1)?;
        Ok((InputEvent::Scroll { dx, dy }, p2))
    } else {
        Err(DecodeError)
    }
}

#[verifier::rlimit(100)]
fn get_event_list(bytes: &Vec<u8>, pos: usize, n: u32) -> (r: Result<
    (Vec<InputEvent>, usize),
    DecodeError,
>)
    requires
        pos <= bytes@.len(),
    ensures
        match dec_list(bytes@.skip(pos as int), n as nat, dec_event_fn()) {
            Option::Some(p) => r matches Ok(q) && events_model(q.0@) == p.0 && q.1 == pos + p.1,
            Option::None => r is Err,
        },
        r matches Ok(q) ==> pos <= q.1 <= bytes@.len(),
{
    let ghost s0 = bytes@.skip(pos as int);
    let ghost f = dec_event_fn();
    proof {
        lemma_dec_event_wb();
    }
    let mut acc: Vec<InputEvent> = Vec::new();
    let mut p: usize = pos;
    let mut j: u32 = 0;
    while j < n
        invariant
            pos <= p <= bytes@.len(),
            j <= n,
            f == dec_event_fn(),
            dec_wb(f),
            s0 == bytes@.skip(pos as int),
            acc@.len() == j,
            dec_list(s0, j as nat, f) == Option::Some((events_model(acc@), (p - pos) as int)),
        decreases n - j,
    {
        let ghost sp = bytes@.skip(p as int);
        proof {
            assert(s0.skip((p - pos) as int) =~= sp);
        }
        let res = get_event(bytes, p);
        match res {
            Err(e) => {
                proof {
                    lemma_dec_list_split(s0, j as nat, (n - j) as nat, f);
                    assert(f(sp) == dec_event(sp));
                    assert(dec_list(sp, (n - j) as nat, f) is None);
                    assert(dec_list(s0, n as nat, f) is None);
                }
                return Err(e);
            },
            Ok((ev, p2)) => {
                let ghost accv = acc@;
                proof {
                    lemma_dec_list_split(s0, j as nat, 1nat, f);
                    assert(f(sp) == dec_event(sp));
                    let c = (p2 - p) as int;
                    assert(dec_list(sp.skip(c), 0nat, f)
                        == Option::Some((Seq::<EventModel>::empty(), 0int)));
                    assert(seq![event_model(ev)] + Seq::<EventModel>::empty()
                        =~= seq![event_model(ev)]);
                    assert(dec_list(sp, 1nat, f)
                        == Option::Some((seq![event_model(ev)], c)));
                }
                acc.push(ev);
                j += 1;
                p = p2;
                proof {
                    assert(events_model(acc@)
                        =~= events_model(accv) + seq![event_model(ev)]);
                    assert(dec_list(s0, j as nat, f)
                        == Option::Some((events_model(acc@), (p - pos) as int)));
                }
            },
        }
    }
    Ok((acc, p))
}

fn get_u32_list(bytes: &Vec<u8>, pos: usize, n: u32) -> (r: Result<
    (Vec<u32>, usize),
    DecodeError,
>)
    requires
        pos <= bytes@.len(),
    ensures
        match dec_list(bytes@.skip(pos as int), n as nat, dec_u32_fn()) {
            Option::Some(p) => r matches Ok(q) && q.0@ == p.0 && q.1 == pos + p.1,
            Option::None => r is Err,
        },
        r matches Ok(q) ==> pos <= q.1 <= bytes@.len(),
{
    let ghost s0 = bytes@.skip(pos as int);
    let ghost f = dec_u32_fn();
    proof {
        lemma_dec_u32_wb();
    }
    let mut acc: Vec<u32> = Vec::new();
    let mut p: usize = pos;
    let mut j: u32 = 0;
    while j < n
        invariant
            pos <= p <= bytes@.len(),
            j <= n,
            f == dec_u32_fn(),
            dec_wb(f),
            s0 == bytes@.skip(pos as int),
            acc@.len() == j,
            dec_list(s0, j as nat, f) == Option::Some((acc@, (p - pos) as int)),
        decreases n - j,
    {
        let ghost sp = bytes@.skip(p as int);
        proof {
            assert(s0.skip((p - pos) as int) =~= sp);
        }
        let res = get_u32(bytes, p);
        match res {
            Err(e) => {
                proof {
                    lemma_dec_list_split(s0, j as nat, (n - j) as nat, f);
                    assert(f(sp) == dec_u32(sp));
                    assert(dec_list(sp, (n - j) as nat, f) is None);
                    assert(dec_list(s0, n as nat, f) is None);
                }
                return Err(e);
            },
            Ok((x, p2)) => {
                let ghost accv = acc@;
                proof {
                    lemma_dec_list_split(s0, j as nat, 1nat, f);
                    assert(f(sp) == dec_u32(sp));
                    let c = (p2 - p) as int;
                    assert(dec_list(sp.skip(c), 0nat, f)
                        == Option::Some((Seq::<u32>::empty(), 0int)));
                    assert(seq![x] + Seq::<u32>::empty() =~= seq![x]);
                    assert(dec_list(sp, 1nat, f) == Option::Some((seq![x], c)));
                }
                acc.push(x);
                j += 1;
                p = p2;
                proof {
                    assert(acc@ =~= accv + seq![x]);
                    assert(dec_list(s0, j as nat, f)
                        == Option::Some((acc@, (p - pos) as int)));
                }
            },
        }
    }
    Ok((acc, p))
}

fn get_pos_list(bytes: &Vec<u8>, pos: usize, n: u32) -> (r: Result<
    (Vec<Pos>, usize),
    DecodeError,
>)
    requires
        pos <= bytes@.len(),
    ensures
        match dec_list(bytes@.skip(pos as int), n as nat, dec_pos_fn()) {
            Option::Some(p) => r matches Ok(q) && q.0@ == p.0 && q.1 == pos + p.1,
            Option::None => r is Err,
        },
        r matches Ok(q) ==> pos <= q.1 <= bytes@.len(),
{
    let ghost s0 = bytes@.skip(pos as int);
    let ghost f = dec_pos_fn();
    proof {
        lemma_dec_pos_wb();
    }
    let mut acc: Vec<Pos> = Vec::new();
    let mut p: usize = pos;
    let mut j: u32 = 0;
    while j < n
        invariant
            pos <= p <= bytes@.len(),
            j <= n,
            f == dec_pos_fn(),
            dec_wb(f),
            s0 == bytes@.skip(pos as int),
            acc@.len() == j,
            dec_list(s0, j as nat, f) == Option::Some((acc@, (p - pos) as int)),
        decreases n - j,
    {
        let ghost sp = bytes@.skip(p as int);
        proof {
            assert(s0.skip((p - pos) as int) =~= sp);
        }
        let res = get_pos(bytes, p);
        match res {
            Err(e) => {
                proof {
                    lemma_dec_list_split(s0, j as nat, (n - j) as nat, f);
                    assert(f(sp) == dec_pos(sp));
                    assert(dec_list(sp, (n - j) as nat, f) is None);
                    assert(dec_list(s0, n as nat, f) is None);
                }
                return Err(e);
            },
            Ok((x, p2)) => {
                let ghost accv = acc@;
                proof {
                    lemma_dec_list_split(s0, j as nat, 1nat, f);
                    assert(f(sp) == dec_pos(sp));
                    let c = (p2 - p) as int;
                    assert(dec_list(sp.skip(c), 0nat, f)
                        == Option::Some((Seq::<Pos>::empty(), 0int)));
                    assert(seq![x] + Seq::<Pos>::empty() =~= seq![x]);
                    assert(dec_list(sp, 1nat, f) == Option::Some((seq![x], c)));
                }
                acc.push(x);
                j += 1;
                p = p2;
                proof {
                    assert(acc@ =~= accv + seq![x]);
                    assert(dec_list(s0, j as nat, f)
                        == Option::Some((acc@, (p - pos) as int)));
                }
            },
        }
    }
    Ok((acc, p))
}

fn get_color_list(bytes: &Vec<u8>, pos: usize, n: u32) -> (r: Result<
    (Vec<Color>, usize),
    DecodeError,
>)
    requires
        pos <= bytes@.len(),
    ensures
        match dec_list(bytes@.skip(pos as int), n as nat, dec_color_fn()) {
            Option::Some(p) => r matches Ok(q) && q.0@ == p.0 && q.1 == pos + p.1,
            Option::None => r is Err,
        },
        r matches Ok(q) ==> pos <= q.1 <= bytes@.len(),
{
    let ghost s0 = bytes@.skip(pos as int);
    let ghost f = dec_color_fn();
    proof {
        lemma_dec_color_wb();
    }
    let mut acc: Vec<Color> = Vec::new();
    let mut p: usize = pos;
    let mut j: u32 = 0;
    while j < n
        invariant
            pos <= p <= bytes@.len(),
            j <= n,
            f == dec_color_fn(),
            dec_wb(f),
            s0 == bytes@.skip(pos as int),
            acc@.len() == j,
            dec_list(s0, j as nat, f) == Option::Some((acc@, (p - pos) as int)),
        decreases n - j,
    {
        let ghost sp = bytes@.skip(p as int);
        proof {
            assert(s0.skip((p - pos) as int) =~= sp);
        }
        let res = get_color(bytes, p);
        match res {
            Err(e) => {
                proof {
                    lemma_dec_list_split(s0, j as nat, (n - j) as nat, f);
                    assert(f(sp) == dec_color(sp));
                    assert(dec_list(sp, (n - j) as nat, f) is None);
                    assert(dec_list(s0, n as nat, f) is None);
                }
                return Err(e);
            },
            Ok((x, p2)) => {
                let ghost accv = acc@;
                proof {
                    lemma_dec_list_split(s0, j as nat, 1nat, f);
                    assert(f(sp) == dec_color(sp));
                    let c = (p2 - p) as int;
                    assert(dec_list(sp.skip(c), 0nat, f)
                        == Option::Some((Seq::<Color>::empty(), 0int)));
                    assert(seq![x] + Seq::<Color>::empty() =~= seq![x]);
                    assert(dec_list(sp, 1nat, f) == Option::Some((seq![x], c)));
                }
                acc.push(x);
                j += 1;
                p = p2;
                proof {
                    assert(acc@ =~= accv + seq![x]);
                    assert(dec_list(s0, j as nat, f)
                        == Option::Some((acc@, (p - pos) as int)));
                }
            },
        }
    }
    Ok((acc, p))
}

fn get_scalars_tail(bytes: &Vec<u8>, pos: usize) -> (r: Result<
    ((Option<Rect>, Option<u32>, Option<u64>), usize),
    DecodeError,
>)
    requires
        pos <= bytes@.len(),
    ensures
        match dec_scalars_tail(bytes@.skip(pos as int)) {
            Option::Some(p) => r matches Ok(q) && q.0 == p.0 && q.1 == pos + p.1,
            Option::None => r is Err,
        },
        r matches Ok(q) ==> pos <= q.1 <= bytes@.len(),
{
    let ghost s = bytes@.skip(pos as int);
    let (screen_rect, p0) = get_opt_rect(bytes, pos)?;
    proof {
        assert(s.skip((p0 - pos) as int) =~= bytes@.skip(p0 as int));
    }
    let (pixels_per_point, p1) = get_opt_u32(bytes, p0)?;
    proof {
        assert(s.skip((p1 - pos) as int) =~= bytes@.skip(p1 as int));
    }
    let (time, p2) = get_opt_u64(bytes, p1)?;
    Ok(((screen_rect, pixels_per_point, time), p2))
}

fn get_input_scalars(bytes: &Vec<u8>, pos: usize) -> (r: Result<
    ((Option<Pos>, Modifiers, Option<Rect>, Option<u32>, Option<u64>), usize),
    DecodeError,
>)
    requires
        pos <= bytes@.len(),
    ensures
        match dec_input_scalars(bytes@.skip(pos as int)) {
            Option::Some(p) => r matches Ok(q) && q.0 == p.0 && q.1 == pos + p.1,
            Option::None => r is Err,
        },
        r matches Ok(q) ==> pos <= q.1 <= bytes@.len(),
{
    let ghost s = bytes@.skip(pos as int);
    let (pointer_pos, p0) = get_opt_pos(bytes, pos)?;
    proof {
        assert(s.skip((p0 - pos) as int) =~= bytes@.skip(p0 as int));
    }
    let (modifiers, p1) = get_modifiers(bytes, p0)?;
    proof {
        assert(s.skip((p1 - pos) as int) =~= bytes@.skip(p1 as int));
    }
    let (tail, p2) = get_scalars_tail(bytes, p1)?;
    let (screen_rect, pixels_per_point, time) = tail;
    Ok(((pointer_pos, modifiers, screen_rect, pixels_per_point, time), p2))
}

#[verifier::rlimit(100)]
fn get_input(bytes: &Vec<u8>, pos: usize) -> (r: Result<(InputDelta, usize), DecodeError>)
    requires
        pos <= bytes@.len(),
    ensures
        match dec_input(bytes@.skip(pos as int)) {
            Option::Some(p) => r matches Ok(q) && input_model(q.0) == p.0 && q.1 == pos + p.1,
            Option::None => r is Err,
        },
        r matches Ok(q) ==> pos <= q.1 <= bytes@.len(),
{
    proof {
        reveal(dec_input);
    }
    let ghost s = bytes@.skip(pos as int);
    let (n, p0) = get_u32(bytes, pos)?;
    proof {
        assert(s.skip((p0 - pos) as int) =~= bytes@.skip(p0 as int));
    }
    let (events, p1) = get_event_list(bytes, p0, n)?;
    proof {
        assert(s.skip((p1 - pos) as int) =~= bytes@.skip(p1 as int));
    }
    let (sc, p2) = get_input_scalars(bytes, p1)?;
    let (pointer_pos, modifiers, screen_rect, pixels_per_point, time) = sc;
    let d = InputDelta { events, pointer_pos, modifiers, screen_rect, pixels_per_point, time };
    proof {
        assert(input_model(d) =~= dec_input(s)->Some_0.0);
    }
    Ok((d, p2))
}

fn get_counted_u32s(bytes: &Vec<u8>, pos: usize) -> (r: Result<(Vec<u32>, usize), DecodeError>)
    requires
        pos <= bytes@.len(),
    ensures
        match dec_counted_u32s(bytes@.skip(pos as int)) {
            Option::Some(p) => r matches Ok(q) && q.0@ == p.0 && q.1 == pos + p.1,
            Option::None => r is Err,
        },
        r matches Ok(q) ==> pos <= q.1 <= bytes@.len(),
{
    let ghost s = bytes@.skip(pos as int);
    let (n, p0) = get_u32(bytes, pos)?;
    proof {
        assert(s.skip((p0 - pos) as int) =~= bytes@.skip(p0 as int));
    }
    let (v, p1) = get_u32_list(bytes, p0, n)?;
    Ok((v, p1))
}

fn get_counted_poss(bytes: &Vec<u8>, pos: usize) -> (r: Result<(Vec<Pos>, usize), DecodeError>)
    requires
        pos <= bytes@.len(),
    ensures
        match dec_counted_poss(bytes@.skip(pos as int)) {
            Option::Some(p) => r matches Ok(q) && q.0@ == p.0 && q.1 == pos + p.1,
            Option::None => r is Err,
        },
        r matches Ok(q) ==> pos <= q.1 <= bytes@.len(),
{
    let ghost s = bytes@.skip(pos as int);
    let (n, p0) = get_u32(bytes, pos)?;
    proof {
        assert(s.skip((p0 - pos) as int) =~= bytes@.skip(p0 as int));
    }
    let (v, p1) = get_pos_list(bytes, p0, n)?;
    Ok((v, p1))
}

fn get_counted_colors(bytes: &Vec<u8>, pos: usize) -> (r: Result<
    (Vec<Color>, usize),
    DecodeError,
>)
    requires
        pos <= bytes@.len(),
    ensures
        match dec_counted_colors(bytes@.skip(pos as int)) {
            Option::Some(p) => r matches Ok(q) && q.0@ == p.0 && q.1 == pos + p.1,
            Option::None => r is Err,
        },
        r matches Ok(q) ==> pos <= q.1 <= bytes@.len(),
{
    let ghost s = bytes@.skip(pos as int);
    let (n, p0) = get_u32(bytes, pos)?;
    proof {
        assert(s.skip((p0 - pos) as int) =~= bytes@.skip(p0 as int));
    }
    let (v, p1) = get_color_list(bytes, p0, n)?;
    Ok((v, p1))
}

fn get_mesh_tail(bytes: &Vec<u8>, pos: usize) -> (r: Result<
    ((Vec<Pos>, Vec<Color>), usize),
    DecodeError,
>)
    requires
        pos <= bytes@.len(),
    ensures
        match dec_mesh_tail(bytes@.skip(pos as int)) {
            Option::Some(p) => r matches Ok(q) && q.0.0@ == p.0.0 && q.0.1@ == p.0.1
                && q.1 == pos + p.1,
            Option::None => r is Err,
        },
        r matches Ok(q) ==> pos <= q.1 <= bytes@.len(),
{
    let ghost s = bytes@.skip(pos as int);
    let (uv, p0) = get_counted_poss(bytes, pos)?;
    proof {
        assert(s.skip((p0 - pos) as int) =~= bytes@.skip(p0 as int));
    }
    let (color, p1) = get_counted_colors(bytes, p0)?;
    Ok(((uv, color), p1))
}

#[verifier::rlimit(100)]
fn get_net_mesh(bytes: &Vec<u8>, pos: usize) -> (r: Result<(NetMesh, usize), DecodeError>)
    requires
        pos <= bytes@.len(),
    ensures
        match dec_net_mesh(bytes@.skip(pos as int)) {
            Option::Some(p) => r matches Ok(q) && net_mesh_model(q.0) == p.0 && q.1 == pos + p.1,
            Option::None => r is Err,
        },
        r matches Ok(q) ==> pos <= q.1 <= bytes@.len(),
{
    proof {
        reveal(dec_net_mesh);
    }
    let ghost s = bytes@.skip(pos as int);
    let (texture_id, p0) = get_texture_id(bytes, pos)?;
    proof {
        assert(s.skip((p0 - pos) as int) =~= bytes@.skip(p0 as int));
    }
    let (indices, p1) = get_counted_u32s(bytes, p0)?;
    proof {
        assert(s.skip((p1 - pos) as int) =~= bytes@.skip(p1 as int));
    }
    let (pos_arr, p2) = get_counted_poss(bytes, p1)?;
    proof {
        assert(s.skip((p2 - pos) as int) =~= bytes@.skip(p2 as int));
    }
    let (tail, p3) = get_mesh_tail(bytes, p2)?;
    let (uv, color) = tail;
    let m = NetMesh { texture_id, indices, pos: pos_arr, uv, color };
    proof {
        assert(net_mesh_model(m) =~= dec_net_mesh(s)->Some_0.0);
    }
    Ok((m, p3))
}

fn get_clipped(bytes: &Vec<u8>, pos: usize) -> (r: Result<(ClippedNetMesh, usize), DecodeError>)
    requires
        pos <= bytes@.len(),
    ensures
        match dec_clipped(bytes@.skip(pos as int)) {
            Option::Some(p) => r matches Ok(q) && clipped_net_mesh_model(q.0) == p.0
                && q.1 == pos + p.1,
            Option::None => r is Err,
        },
        r matches Ok(q) ==> pos <= q.1 <= bytes@.len(),
{
    proof {
        reveal(dec_clipped);
    }
    let ghost s = bytes@.skip(pos as int);
    let (clip_rect, p0) = get_rect(bytes, pos)?;
    proof {
        assert(s.skip((p0 - pos) as int) =~= bytes@.skip(p0 as int));
    }
    let (mesh, p1) = get_net_mesh(bytes, p0)?;
    let c = ClippedNetMesh { clip_rect, mesh };
    proof {
        assert(clipped_net_mesh_model(c) =~= dec_clipped(s)->Some_0.0);
    }
    Ok((c, p1))
}

#[verifier::rlimit(100)]
fn get_clipped_list(bytes: &Vec<u8>, pos: usize, n: u32) -> (r: Result<
    (Vec<ClippedNetMesh>, usize),
    DecodeError,
>)
    requires
        pos <= bytes@.len(),
    ensures
        match dec_list(bytes@.skip(pos as int), n as nat, dec_clipped_fn()) {
            Option::Some(p) => r matches Ok(q) && clipped_net_meshes_model(q.0@) == p.0
                && q.1 == pos + p.1,
            Option::None => r is Err,
        },
        r matches Ok(q) ==> pos <= q.1 <= bytes@.len(),
{
    let ghost s0 = bytes@.skip(pos as int);
    let ghost f = dec_clipped_fn();
    proof {
        lemma_dec_clipped_wb();
    }
    let mut acc: Vec<ClippedNetMesh> = Vec::new();
    let mut p: usize = pos;
    let mut j: u32 = 0;
    while j < n
        invariant
            pos <= p <= bytes@.len(),
            j <= n,
            f == dec_clipped_fn(),
            dec_wb(f),
            s0 == bytes@.skip(pos as int),
            acc@.len() == j,
            dec_list(s0, j as nat, f)
                == Option::Some((clipped_net_meshes_model(acc@), (p - pos) as int)),
        decreases n - j,
    {
        let ghost sp = bytes@.skip(p as int);
        proof {
            assert(s0.skip((p - pos) as int) =~= sp);
        }
        let res = get_clipped(bytes, p);
        match res {
            Err(e) => {
                proof {
                    lemma_dec_list_split(s0, j as nat, (n - j) as nat, f);
                    assert(f(sp) == dec_clipped(sp));
                    assert(dec_list(sp, (n - j) as nat, f) is None);
                    assert(dec_list(s0, n as nat, f) is None);
                }
                return Err(e);
            },
            Ok((c, p2)) => {
                let ghost accv = acc@;
                proof {
                    lemma_dec_list_split(s0, j as nat, 1nat, f);
                    assert(f(sp) == dec_clipped(sp));
                    let cc = (p2 - p) as int;
                    assert(dec_list(sp.skip(cc), 0nat, f)
                        == Option::Some((Seq::<ClippedNetMeshModel>::empty(), 0int)));
                    assert(seq![clipped_net_mesh_model(c)] + Seq::<ClippedNetMeshModel>::empty()
                        =~= seq![clipped_net_mesh_model(c)]);
                    assert(dec_list(sp, 1nat, f)
                        == Option::Some((seq![clipped_net_mesh_model(c)], cc)));
                }
                acc.push(c);
                j += 1;
                p = p2;
                proof {
                    assert(clipped_net_meshes_model(acc@)
                        =~= clipped_net_meshes_model(accv) + seq![clipped_net_mesh_model(c)]);
                    assert(dec_list(s0, j as nat, f)
                        == Option::Some((clipped_net_meshes_model(acc@), (p - pos) as int)));
                }
            },
        }
    }
    Ok((acc, p))
}

/// Parse one complete viewer-to-server payload. The payload must be
/// consumed exactly; an unknown tag or trailing bytes are malformed.
pub fn parse_client_payload(payload: &Vec<u8>) -> (r: Result<ClientToServerMessage, DecodeError>)
    ensures
        match dec_client_payload(payload@) {
            Option::Some(m) => r matches Ok(v) && client_msg_model(v) == m,
            Option::None => r is Err,
        },
{
    proof {
        assert(payload@.skip(0) =~= payload@);
    }
    let (tag, p0) = get_u8(payload, 0)?;
    if tag == TAG_INPUT {
        let (raw_input, p1) = get_input(payload, p0)?;
        proof {
            assert(payload@.skip(1).skip((p1 - p0) as int) =~= payload@.skip(p1 as int));
        }
        let (client_time, p2) = get_u64(payload, p1)?;
        if p2 == payload.len() {
            Ok(ClientToServerMessage::Input { raw_input, client_time })
        } else {
            Err(DecodeError)
        }
    } else if tag == TAG_GOODBYE {
        if payload.len() == 1 {
            Ok(ClientToServerMessage::Goodbye)
        } else {
            Err(DecodeError)
        }
    } else {
        Err(DecodeError)
    }
}

fn get_frame_close(bytes: &Vec<u8>, pos: usize) -> (r: Result<
    ((Vec<u8>, Option<u64>), usize),
    DecodeError,
>)
    requires
        pos <= bytes@.len(),
    ensures
        match dec_frame_close(bytes@.skip(pos as int)) {
            Option::Some(p) => r matches Ok(q) && q.0.0@ == p.0.0 && q.0.1 == p.0.1
                && q.1 == pos + p.1,
            Option::None => r is Err,
        },
        r matches Ok(q) ==> pos <= q.1 <= bytes@.len(),
{
    proof {
        reveal(dec_frame_close);
    }
    let ghost s = bytes@.skip(pos as int);
    let (textures_delta, p0) = get_byte_string(bytes, pos)?;
    proof {
        assert(s.skip((p0 - pos) as int) =~= bytes@.skip(p0 as int));
    }
    let (client_time, p1) = get_opt_u64(bytes, p0)?;
    Ok(((textures_delta, client_time), p1))
}

#[verifier::rlimit(100)]
fn get_frame_fields(bytes: &Vec<u8>, pos: usize) -> (r: Result<
    ((Vec<u8>, Vec<ClippedNetMesh>, Vec<u8>, Option<u64>), usize),
    DecodeError,
>)
    requires
        pos <= bytes@.len(),
    ensures
        match dec_frame_fields(bytes@.skip(pos as int)) {
            Option::Some(p) => r matches Ok(q) && q.0.0@ == p.0.0
                && clipped_net_meshes_model(q.0.1@) == p.0.1 && q.0.2@ == p.0.2
                && q.0.3 == p.0.3 && q.1 == pos + p.1,
            Option::None => r is Err,
        },
        r matches Ok(q) ==> pos <= q.1 <= bytes@.len(),
{
    let ghost s = bytes@.skip(pos as int);
    let (platform_output, p0) = get_byte_string(bytes, pos)?;
    proof {
        assert(s.skip((p0 - pos) as int) =~= bytes@.skip(p0 as int));
    }
    let (n, p1) = get_u32(bytes, p0)?;
    proof {
        assert(s.skip((p1 - pos) as int) =~= bytes@.skip(p1 as int));
    }
    let (clipped_net_mesh, p2) = get_clipped_list(bytes, p1, n)?;
    proof {
        assert(s.skip((p2 - pos) as int) =~= bytes@.skip(p2 as int));
    }
    let (close, p3) = get_frame_close(bytes, p2)?;
    let (textures_delta, client_time) = close;
    Ok(((platform_output, clipped_net_mesh, textures_delta, client_time), p3))
}

/// Parse one complete server-to-viewer payload.
#[verifier::rlimit(100)]
pub fn parse_server_payload(payload: &Vec<u8>) -> (r: Result<ServerToClientMessage, DecodeError>)
    ensures
        match dec_server_payload(payload@) {
            Option::Some(m) => r matches Ok(v) && server_msg_model(v) == m,
            Option::None => r is Err,
        },
{
    proof {
        reveal(dec_server_payload);
    }
    let ghost s = payload@;
    proof {
        assert(s.skip(0) =~= s);
    }
    let (tag, p0) = get_u8(payload, 0)?;
    if tag == TAG_FRAME {
        let (frame_index, p1) = get_u64(payload, p0)?;
        proof {
            assert(s.skip(1).skip((p1 - p0) as int) =~= payload@.skip(p1 as int));
        }
        let (fields, p2) = get_frame_fields(payload, p1)?;
        if p2 == payload.len() {
            let (platform_output, clipped_net_mesh, textures_delta, client_time) = fields;
            let m = ServerToClientMessage::Frame {
                frame_index, platform_output, clipped_net_mesh, textures_delta, client_time,
            };
            proof {
                assert(server_msg_model(m) =~= dec_server_payload(s)->Some_0);
            }
            Ok(m)
        } else {
            Err(DecodeError)
        }
    } else {
        Err(DecodeError)
    }
}

// ---------------------------------------------------------------------------
// Stream reassembly: bytes arrive in arbitrary pieces; a record is lifted
// out only once its declared length has fully arrived.

/// What one attempt to lift a record out of buffered bytes yields.
#[verifier::ext_equal]
pub enum StepModel<M> {
    /// Fewer bytes than a complete record: wait, consume nothing.
    NeedBytes,
    /// A malformed length prefix or payload: fatal for the connection.
    Bad,
    /// One complete message, and how many bytes it occupied.
    Got(M, int),
}

pub open spec fn record_step<M>(s: Seq<u8>, parse: spec_fn(Seq<u8>) -> Option<M>) -> StepModel<M> {
    if s.len() < 4 {
        StepModel::NeedBytes
    } else {
        let n = u32_le(s[0], s[1], s[2], s[3]);
        if n == 0 || n > MAX_PAYLOAD_LEN {
            StepModel::Bad
        } else if s.len() < 4 + n {
            StepModel::NeedBytes
        } else {
            match parse(s.subrange(4, 4 + n)) {
                Option::Some(m) => StepModel::Got(m, 4 + n),
                Option::None => StepModel::Bad,
            }
        }
    }
}

pub open spec fn client_step(s: Seq<u8>) -> StepModel<ClientMsgModel> {
    record_step(s, |p: Seq<u8>| dec_client_payload(p))
}

pub open spec fn server_step(s: Seq<u8>) -> StepModel<ServerMsgModel> {
    record_step(s, |p: Seq<u8>| dec_server_payload(p))
}

/// Reassembles length-prefixed records from a non-blocking byte stream.
/// Bytes fed in are kept until a complete record has arrived; partial
/// reads across many feeds are reassembled losslessly.
pub struct ReadBuffer {
    data: Vec<u8>,
}

impl ReadBuffer {
    /// The bytes currently buffered, oldest first.
    pub closed spec fn model(&self) -> Seq<u8> {
        self.data@
    }

    pub fn new() -> (r: ReadBuffer)
        ensures
            r.model() == Seq::<u8>::empty(),
    {
        ReadBuffer { data: Vec::new() }
    }

    /// Drop everything buffered (used when a connection is abandoned).
    pub fn clear(&mut self)
        ensures
            final(self).model() == Seq::<u8>::empty(),
    {
        self.data = Vec::new();
    }

    /// Append newly received bytes.
    pub fn feed(&mut self, bytes: &Vec<u8>)
        ensures
            final(self).model() == old(self).model() + bytes@,
    {
        let n = bytes.len();
        let mut i: usize = 0;
        while i < n
            invariant
                n == bytes@.len(),
                i <= n,
                self.data@ =~= old(self).data@ + bytes@.subrange(0, i as int),
            decreases n - i,
        {
            self.data.push(bytes[i]);
            i += 1;
            proof {
                assert(bytes@.subrange(0, i as int)
                    =~= bytes@.subrange(0, i - 1).push(bytes@[i - 1]));
            }
        }
        proof {
            assert(bytes@.subrange(0, n as int) =~= bytes@);
        }
    }

    /// Drop the first `k` buffered bytes.
    fn consume(&mut self, k: usize)
        requires
            k <= old(self).model().len(),
        ensures
            final(self).model() == old(self).model().skip(k as int),
    {
        let n = self.data.len();
        let mut rest: Vec<u8> = Vec::new();
        let mut i: usize = k;
        while i < n
            invariant
                k <= i <= n,
                n == self.data@.len(),
                self.data@ == old(self).data@,
                rest@ =~= self.data@.subrange(k as int, i as int),
            decreases n - i,
        {
            rest.push(self.data[i]);
            i += 1;
            proof {
                assert(self.data@.subrange(k as int, i as int)
                    =~= self.data@.subrange(k as int, i - 1).push(self.data@[i - 1]));
            }
        }
        self.data = rest;
        proof {
            assert(self.data@ =~= old(self).data@.skip(k as int));
        }
    }

    /// Copy the payload of the first record, which must be complete.
    fn payload_bytes(&self, n: u32) -> (r: Vec<u8>)
        requires
            4 + n <= self.model().len(),
        ensures
            r@ == self.model().subrange(4, 4 + n as int),
    {
        let count = n as usize;
        let total = self.data.len();
        proof {
            assert(4 + count <= total);
        }
        let end: usize = 4 + count;
        let mut v: Vec<u8> = Vec::new();
        let mut k: usize = 4;
        while k < end
            invariant
                end <= total,
                total == self.data@.len(),
                4 <= k <= end,
                v@ =~= self.data@.subrange(4, k as int),
            decreases end - k,
        {
            v.push(self.data[k]);
            k += 1;
            proof {
                assert(self.data@.subrange(4, k as int)
                    =~= self.data@.subrange(4, k - 1).push(self.data@[k - 1]));
            }
        }
        v
    }

    /// Non-blocking read of one viewer-to-server message. Returns no
    /// message until a full record has arrived; consumes exactly the
    /// record it returns; fails exactly on a malformed record, leaving
    /// the buffer as it was.
    pub fn try_extract_client(&mut self) -> (r: Result<Option<ClientToServerMessage>, DecodeError>)
        ensures
            match client_step(old(self).model()) {
                StepModel::NeedBytes => r matches Ok(q) && q is None
                    && final(self).model() == old(self).model(),
                StepModel::Bad => r is Err && final(self).model() == old(self).model(),
                StepModel::Got(m, c) => r matches Ok(q) && q matches Some(v)
                    && client_msg_model(v) == m
                    && final(self).model() == old(self).model().skip(c),
            },
    {
        proof {
            assert(client_step(old(self).model())
                == record_step(old(self).model(), |p: Seq<u8>| dec_client_payload(p)));
        }
        if self.data.len() < 4 {
            return Ok(None);
        }
        proof {
            assert(self.data@.skip(0) =~= self.data@);
        }
        let header = get_u32(&self.data, 0);
        let n = match header {
            Ok((n, _)) => n,
            Err(_) => {
                proof {
                    assert(false);
                }
                return Err(DecodeError);
            },
        };
        if n == 0 || n > MAX_PAYLOAD_LEN {
            return Err(DecodeError);
        }
        if self.data.len() - 4 < n as usize {
            return Ok(None);
        }
        let payload = self.payload_bytes(n);
        let parsed = parse_client_payload(&payload);
        match parsed {
            Ok(v) => {
                self.consume(4 + n as usize);
                Ok(Some(v))
            },
            Err(e) => Err(e),
        }
    }

    /// Non-blocking read of one server-to-viewer message; as
    /// [`Self::try_extract_client`], for the other direction.
    pub fn try_extract_server(&mut self) -> (r: Result<Option<ServerToClientMessage>, DecodeError>)
        ensures
            match server_step(old(self).model()) {
                StepModel::NeedBytes => r matches Ok(q) && q is None
                    && final(self).model() == old(self).model(),
                StepModel::Bad => r is Err && final(self).model() == old(self).model(),
                StepModel::Got(m, c) => r matches Ok(q) && q matches Some(v)
                    && server_msg_model(v) == m
                    && final(self).model() == old(self).model().skip(c),
            },
    {
        proof {
            assert(server_step(old(self).model())
                == record_step(old(self).model(), |p: Seq<u8>| dec_server_payload(p)));
        }
        if self.data.len() < 4 {
            return Ok(None);
        }
        proof {
            assert(self.data@.skip(0) =~= self.data@);
        }
        let header = get_u32(&self.data, 0);
        let n = match header {
            Ok((n, _)) => n,
            Err(_) => {
                proof {
                    assert(false);
                }
                return Err(DecodeError);
            },
        };
        if n == 0 || n > MAX_PAYLOAD_LEN {
            return Err(DecodeError);
        }
        if self.data.len() - 4 < n as usize {
            return Ok(None);
        }
        let payload = self.payload_bytes(n);
        let parsed = parse_server_payload(&payload);
        match parsed {
            Ok(v) => {
                self.consume(4 + n as usize);
                Ok(Some(v))
            },
            Err(e) => Err(e),
        }
    }
}

// ---------------------------------------------------------------------------
// Bounded drain: one call lifts at most `max` messages out of the buffer,
// so no tick hides unbounded iteration.

/// Why a drain stopped.
#[derive(Clone, Copy, Debug, PartialEq, Eq, Structural)]
pub enum DrainStop {
    /// The buffer holds no further complete record.
    NoMore,
    /// The viewer said goodbye; anything after it is dropped.
    SawGoodbye,
    /// A malformed record; the connection must be abandoned.
    Malformed,
    /// The per-call bound was reached; more may be waiting.
    Limit,
}

/// Mathematical model of one drain call.
#[verifier::ext_equal]
pub struct DrainModel {
    pub inputs: Seq<(InputModel, u64)>,
    pub rest: Seq<u8>,
    pub stop: DrainStop,
}

pub open spec fn drain_model(s: Seq<u8>, max: nat) -> DrainModel
    decreases max,
{
    if max == 0 {
        DrainModel { inputs: Seq::empty(), rest: s, stop: DrainStop::Limit }
    } else {
        match client_step(s) {
            StepModel::NeedBytes => DrainModel {
                inputs: Seq::empty(),
                rest: s,
                stop: DrainStop::NoMore,
            },
            StepModel::Bad => DrainModel {
                inputs: Seq::empty(),
                rest: s,
                stop: DrainStop::Malformed,
            },
            StepModel::Got(m, c) => match m {
                ClientMsgModel::Goodbye => DrainModel {
                    inputs: Seq::empty(),
                    rest: s.skip(c),
                    stop: DrainStop::SawGoodbye,
                },
                ClientMsgModel::Input { raw_input, client_time } => {
                    let rec = drain_model(s.skip(c), (max - 1) as nat);
                    DrainModel {
                        inputs: seq![(raw_input, client_time)] + rec.inputs,
                        rest: rec.rest,
                        stop: rec.stop,
                    }
                },
            },
        }
    }
}

pub open spec fn inputs_model(s: Seq<(InputDelta, u64)>) -> Seq<(InputModel, u64)> {
    s.map_values(|p: (InputDelta, u64)| (input_model(p.0), p.1))
}

/// Drain up to `max` complete messages from a connection's buffer: the
/// input batches in arrival order, and why the drain stopped. Stops at a
/// goodbye or a malformed record; never blocks, never loops unboundedly.
#[verifier::rlimit(100)]
#[verifier::loop_isolation(false)]
pub fn drain_client_messages(buf: &mut ReadBuffer, max: usize) -> (r: (
    Vec<(InputDelta, u64)>,
    DrainStop,
))
    ensures
        ({
            let dm = drain_model(old(buf).model(), max as nat);
            &&& inputs_model(r.0@) == dm.inputs
            &&& r.1 == dm.stop
            &&& final(buf).model() == dm.rest
        }),
{
    let ghost s_orig = buf.model();
    let mut acc: Vec<(InputDelta, u64)> = Vec::new();
    let mut count: usize = 0;
    while count < max
        invariant
            count <= max,
            ({
                let rem = drain_model(buf.model(), (max - count) as nat);
                let dm = drain_model(s_orig, max as nat);
                &&& dm.inputs =~= inputs_model(acc@) + rem.inputs
                &&& dm.rest == rem.rest
                &&& dm.stop == rem.stop
            }),
        decreases max - count,
    {
        let ghost cur = buf.model();
        let ghost rem = drain_model(cur, (max - count) as nat);
        let step = buf.try_extract_client();
        match step {
            Ok(opt) => match opt {
                Option::None => {
                    proof {
                        assert(rem.stop == DrainStop::NoMore && rem.rest == cur
                            && rem.inputs =~= Seq::<(InputModel, u64)>::empty());
                        assert(inputs_model(acc@) + rem.inputs =~= inputs_model(acc@));
                    }
                    return (acc, DrainStop::NoMore);
                },
                Option::Some(msg) => match msg {
                    ClientToServerMessage::Goodbye => {
                        proof {
                            assert(rem.stop == DrainStop::SawGoodbye
                                && rem.inputs =~= Seq::<(InputModel, u64)>::empty());
                            assert(inputs_model(acc@) + rem.inputs =~= inputs_model(acc@));
                        }
                        return (acc, DrainStop::SawGoodbye);
                    },
                    ClientToServerMessage::Input { raw_input, client_time } => {
                        let ghost accv = acc@;
                        acc.push((raw_input, client_time));
                        count += 1;
                        proof {
                            let rem2 = drain_model(buf.model(), (max - count) as nat);
                            assert(rem.inputs
                                =~= seq![(input_model(raw_input), client_time)] + rem2.inputs);
                            assert(inputs_model(acc@)
                                =~= inputs_model(accv) + seq![(input_model(raw_input), client_time)]);
                            assert(inputs_model(accv) + rem.inputs
                                =~= inputs_model(acc@) + rem2.inputs);
                        }
                    },
                },
            },
            Err(_) => {
                proof {
                    assert(rem.stop == DrainStop::Malformed && rem.rest == cur
                        && rem.inputs =~= Seq::<(InputModel, u64)>::empty());
                    assert(inputs_model(acc@) + rem.inputs =~= inputs_model(acc@));
                }
                return (acc, DrainStop::Malformed);
            },
        }
    }
    proof {
        let rem = drain_model(buf.model(), 0nat);
        assert(rem.stop == DrainStop::Limit && rem.rest == buf.model()
            && rem.inputs =~= Seq::<(InputModel, u64)>::empty());
        assert(inputs_model(acc@) + rem.inputs =~= inputs_model(acc@));
    }
    (acc, DrainStop::Limit)
}

} // verus!
