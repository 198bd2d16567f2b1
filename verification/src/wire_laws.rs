//! The wire format's losslessness, proved: decoding an encoding yields
//! the encoded value back exactly, whatever bytes follow it in the
//! stream — so records survive transport, partial reads and reassembly
//! unchanged.

use vstd::prelude::*;
use crate::geometry::{Color, Pos, Rect, TextureId};
use crate::input::{EventModel, InputModel, Modifiers};
use crate::messages::{ClientMsgModel, ClippedNetMeshModel, NetMeshModel, ServerMsgModel};
use crate::codec::{
    MAX_PAYLOAD_LEN, StepModel, TAG_FRAME, TAG_GOODBYE, TAG_INPUT, client_msg_counts_ok,
    client_msg_encodable, client_step, dec_bool, dec_byte_string, dec_client_payload,
    dec_clipped, dec_clipped_fn, dec_color, dec_color_fn, dec_counted_colors, dec_counted_poss,
    dec_counted_u32s, dec_event, dec_event_fn, dec_input, dec_input_scalars, dec_list,
    dec_frame_close, dec_frame_fields, dec_mesh_tail, dec_modifiers, dec_net_mesh, dec_opt_pos, dec_opt_rect, dec_opt_u32,
    dec_opt_u64, dec_pos, dec_pos_fn, dec_rect, dec_scalars_tail, dec_server_payload,
    dec_texture_id, dec_u32, dec_u32_fn, dec_u64, dec_u8, enc_bool, enc_bytes,
    enc_client_payload, enc_clipped, enc_color, enc_event, enc_input, enc_list, enc_modifiers,
    enc_net_mesh, enc_opt_pos, enc_opt_rect, enc_opt_u32, enc_opt_u64, enc_pos, enc_record,
    enc_rect, enc_server_payload, enc_texture_id, enc_u32, enc_u64, event_encodable,
    input_encodable, lemma_enc_list_push, net_mesh_encodable, server_msg_counts_ok,
    server_msg_encodable, server_step, u32_le, u64_le,
};

verus! {

// ---------------------------------------------------------------------------
// Round trip: decoding an encoding yields the encoded value exactly,
// whatever bytes follow it in the stream.

pub proof fn lemma_rt_u32(x: u32, rest: Seq<u8>)
    ensures
        dec_u32(enc_u32(x) + rest) == Option::Some((x, 4int)),
{
    let s = enc_u32(x) + rest;
    assert(s[0] == (x & 0xff) as u8);
    assert(s[1] == ((x >> 8) & 0xff) as u8);
    assert(s[2] == ((x >> 16) & 0xff) as u8);
    assert(s[3] == ((x >> 24) & 0xff) as u8);
    assert(u32_le(
        (x & 0xff) as u8,
        ((x >> 8) & 0xff) as u8,
        ((x >> 16) & 0xff) as u8,
        ((x >> 24) & 0xff) as u8,
    ) == x) by (bit_vector);
}

pub proof fn lemma_rt_u64(x: u64, rest: Seq<u8>)
    ensures
        dec_u64(enc_u64(x) + rest) == Option::Some((x, 8int)),
{
    let s = enc_u64(x) + rest;
    let t = s.take(8);
    assert(t =~= enc_u64(x));
    assert(u64_le(enc_u64(x)) == x) by {
        assert(enc_u64(x)[0] == (x & 0xff) as u8);
        assert(((x & 0xff) as u8 as u64)
            | ((((x >> 8) & 0xff) as u8 as u64) << 8)
            | ((((x >> 16) & 0xff) as u8 as u64) << 16)
            | ((((x >> 24) & 0xff) as u8 as u64) << 24)
            | ((((x >> 32) & 0xff) as u8 as u64) << 32)
            | ((((x >> 40) & 0xff) as u8 as u64) << 40)
            | ((((x >> 48) & 0xff) as u8 as u64) << 48)
            | ((((x >> 56) & 0xff) as u8 as u64) << 56) == x) by (bit_vector);
    }
}

pub proof fn lemma_rt_bool(b: bool, rest: Seq<u8>)
    ensures
        dec_bool(enc_bool(b) + rest) == Option::Some((b, 1int)),
{
}

pub proof fn lemma_rt_pos(p: Pos, rest: Seq<u8>)
    ensures
        dec_pos(enc_pos(p) + rest) == Option::Some((p, 8int)),
{
    let s = enc_pos(p) + rest;
    assert(s =~= enc_u32(p.x) + (enc_u32(p.y) + rest));
    lemma_rt_u32(p.x, enc_u32(p.y) + rest);
    assert(s.skip(4) =~= enc_u32(p.y) + rest);
    lemma_rt_u32(p.y, rest);
}

pub proof fn lemma_rt_rect(r: Rect, rest: Seq<u8>)
    ensures
        dec_rect(enc_rect(r) + rest) == Option::Some((r, 16int)),
{
    let s = enc_rect(r) + rest;
    assert(s =~= enc_pos(r.min) + (enc_pos(r.max) + rest));
    lemma_rt_pos(r.min, enc_pos(r.max) + rest);
    assert(s.skip(8) =~= enc_pos(r.max) + rest);
    lemma_rt_pos(r.max, rest);
}

pub proof fn lemma_rt_color(c: Color, rest: Seq<u8>)
    ensures
        dec_color(enc_color(c) + rest) == Option::Some((c, 4int)),
{
    let s = enc_color(c) + rest;
    assert(s[0] == c.r && s[1] == c.g && s[2] == c.b && s[3] == c.a);
}

pub proof fn lemma_rt_texture_id(t: TextureId, rest: Seq<u8>)
    ensures
        dec_texture_id(enc_texture_id(t) + rest) == Option::Some((t, 9int)),
{
    let s = enc_texture_id(t) + rest;
    match t {
        TextureId::Managed(x) => {
            assert(s.skip(1) =~= enc_u64(x) + rest);
            lemma_rt_u64(x, rest);
        },
        TextureId::User(x) => {
            assert(s.skip(1) =~= enc_u64(x) + rest);
            lemma_rt_u64(x, rest);
        },
    }
}

pub proof fn lemma_rt_modifiers(m: Modifiers, rest: Seq<u8>)
    ensures
        dec_modifiers(enc_modifiers(m) + rest) == Option::Some((m, 5int)),
{
    let s = enc_modifiers(m) + rest;
    assert(s[0] == if m.alt { 1u8 } else { 0u8 });
    assert(s[1] == if m.ctrl { 1u8 } else { 0u8 });
    assert(s[2] == if m.shift { 1u8 } else { 0u8 });
    assert(s[3] == if m.mac_cmd { 1u8 } else { 0u8 });
    assert(s[4] == if m.command { 1u8 } else { 0u8 });
    assert(s.skip(1)[0] == s[1] && s.skip(2)[0] == s[2] && s.skip(3)[0] == s[3]
        && s.skip(4)[0] == s[4]);
}

pub proof fn lemma_rt_opt_u32(o: Option<u32>, rest: Seq<u8>)
    ensures
        dec_opt_u32(enc_opt_u32(o) + rest)
            == Option::Some((o, enc_opt_u32(o).len() as int)),
{
    let s = enc_opt_u32(o) + rest;
    match o {
        Option::None => {},
        Option::Some(x) => {
            assert(s.skip(1) =~= enc_u32(x) + rest);
            lemma_rt_u32(x, rest);
        },
    }
}

pub proof fn lemma_rt_opt_u64(o: Option<u64>, rest: Seq<u8>)
    ensures
        dec_opt_u64(enc_opt_u64(o) + rest)
            == Option::Some((o, enc_opt_u64(o).len() as int)),
{
    let s = enc_opt_u64(o) + rest;
    match o {
        Option::None => {},
        Option::Some(x) => {
            assert(s.skip(1) =~= enc_u64(x) + rest);
            lemma_rt_u64(x, rest);
        },
    }
}

pub proof fn lemma_rt_opt_pos(o: Option<Pos>, rest: Seq<u8>)
    ensures
        dec_opt_pos(enc_opt_pos(o) + rest)
            == Option::Some((o, enc_opt_pos(o).len() as int)),
{
    let s = enc_opt_pos(o) + rest;
    match o {
        Option::None => {},
        Option::Some(p) => {
            assert(s.skip(1) =~= enc_pos(p) + rest);
            lemma_rt_pos(p, rest);
        },
    }
}

pub proof fn lemma_rt_opt_rect(o: Option<Rect>, rest: Seq<u8>)
    ensures
        dec_opt_rect(enc_opt_rect(o) + rest)
            == Option::Some((o, enc_opt_rect(o).len() as int)),
{
    let s = enc_opt_rect(o) + rest;
    match o {
        Option::None => {},
        Option::Some(rc) => {
            assert(s.skip(1) =~= enc_rect(rc) + rest);
            lemma_rt_rect(rc, rest);
        },
    }
}

pub proof fn lemma_rt_byte_string(b: Seq<u8>, rest: Seq<u8>)
    requires
        b.len() <= u32::MAX,
    ensures
        dec_byte_string(enc_bytes(b) + rest)
            == Option::Some((b, 4 + b.len() as int)),
{
    let s = enc_bytes(b) + rest;
    assert(s =~= enc_u32(b.len() as u32) + (b + rest));
    lemma_rt_u32(b.len() as u32, b + rest);
    assert(s.subrange(4, 4 + b.len() as int) =~= b);
}

/// A list encoding read from the front: the first element, then the rest.
pub proof fn lemma_enc_list_first<T>(s: Seq<T>, f: spec_fn(T) -> Seq<u8>)
    requires
        s.len() > 0,
    ensures
        enc_list(s, f) == f(s.first()) + enc_list(s.drop_first(), f),
    decreases s.len(),
{
    if s.len() == 1 {
        assert(s.drop_last() =~= Seq::<T>::empty());
        assert(s.drop_first() =~= Seq::<T>::empty());
        assert(enc_list(s, f) =~= f(s.first()) + enc_list(s.drop_first(), f));
    } else {
        lemma_enc_list_first(s.drop_last(), f);
        assert(s.drop_last().first() == s.first());
        assert(s.drop_last().drop_first() =~= s.drop_first().drop_last());
        assert(s.drop_first().last() == s.last());
        lemma_enc_list_push(s.drop_first().drop_last(), f, s.last());
        assert(s.drop_first().drop_last().push(s.last()) =~= s.drop_first());
        assert(enc_list(s, f) =~= f(s.first()) + enc_list(s.drop_first(), f));
    }
}

/// Elementwise round trip lifted to whole lists: if each element of the
/// list decodes back from its own encoding, the list does.
pub proof fn lemma_rt_list<T>(
    s: Seq<T>,
    fe: spec_fn(T) -> Seq<u8>,
    fd: spec_fn(Seq<u8>) -> Option<(T, int)>,
    rest: Seq<u8>,
)
    requires
        forall|i: int, r2: Seq<u8>| 0 <= i < s.len()
            ==> #[trigger] fd(fe(s[i]) + r2) == Option::Some((s[i], fe(s[i]).len() as int)),
    ensures
        dec_list(enc_list(s, fe) + rest, s.len(), fd)
            == Option::Some((s, enc_list(s, fe).len() as int)),
    decreases s.len(),
{
    if s.len() == 0 {
        assert(enc_list(s, fe) =~= Seq::<u8>::empty());
        assert(dec_list(enc_list(s, fe) + rest, 0, fd)
            == Option::Some((Seq::<T>::empty(), 0int)));
        assert(Seq::<T>::empty() =~= s);
    } else {
        lemma_enc_list_first(s, fe);
        let e0 = fe(s.first());
        let tail = enc_list(s.drop_first(), fe);
        let whole = enc_list(s, fe) + rest;
        assert(whole =~= e0 + (tail + rest));
        assert(fd(e0 + (tail + rest)) == Option::Some((s.first(), e0.len() as int)));
        assert(whole.skip(e0.len() as int) =~= tail + rest);
        assert forall|i: int, r2: Seq<u8>| 0 <= i < s.drop_first().len()
            implies #[trigger] fd(fe(s.drop_first()[i]) + r2)
                == Option::Some((s.drop_first()[i], fe(s.drop_first()[i]).len() as int)) by {
            assert(s.drop_first()[i] == s[i + 1]);
        }
        lemma_rt_list(s.drop_first(), fe, fd, rest);
        assert(seq![s.first()] + s.drop_first() =~= s);
    }
}

proof fn lemma_rt_event_key(key: u32, pressed: bool, modifiers: Modifiers, rest: Seq<u8>)
    ensures
        ({
            let e = EventModel::Key { key, pressed, modifiers };
            dec_event(enc_event(e) + rest) == Option::Some((e, enc_event(e).len() as int))
        }),
{
    let e = EventModel::Key { key, pressed, modifiers };
    let s2 = enc_modifiers(modifiers) + rest;
    let s1 = enc_bool(pressed) + s2;
    let s0 = enc_u32(key) + s1;
    let s = enc_event(e) + rest;
    assert(s =~= seq![0u8] + s0);
    assert(s.skip(1) =~= s0);
    lemma_rt_u32(key, s1);
    assert(s0.skip(4) =~= s1);
    lemma_rt_bool(pressed, s2);
    assert(s1.skip(1) =~= s2);
    lemma_rt_modifiers(modifiers, rest);
    assert(s0.skip(4).skip(1) =~= s2);
}

proof fn lemma_rt_event_text(bytes: Seq<u8>, rest: Seq<u8>)
    requires
        bytes.len() <= u32::MAX,
    ensures
        ({
            let e = EventModel::Text(bytes);
            dec_event(enc_event(e) + rest) == Option::Some((e, enc_event(e).len() as int))
        }),
{
    let e = EventModel::Text(bytes);
    let s0 = enc_bytes(bytes) + rest;
    let s = enc_event(e) + rest;
    assert(s =~= seq![1u8] + s0);
    assert(s.skip(1) =~= s0);
    lemma_rt_byte_string(bytes, rest);
}

proof fn lemma_rt_event_button(
    pos: Pos,
    button: u8,
    pressed: bool,
    modifiers: Modifiers,
    rest: Seq<u8>,
)
    ensures
        ({
            let e = EventModel::PointerButton { pos, button, pressed, modifiers };
            dec_event(enc_event(e) + rest) == Option::Some((e, enc_event(e).len() as int))
        }),
{
    let e = EventModel::PointerButton { pos, button, pressed, modifiers };
    let s3 = enc_modifiers(modifiers) + rest;
    let s2 = enc_bool(pressed) + s3;
    let s1 = seq![button] + s2;
    let s0 = enc_pos(pos) + s1;
    let s = enc_event(e) + rest;
    assert(s =~= seq![2u8] + s0);
    assert(s.skip(1) =~= s0);
    lemma_rt_pos(pos, s1);
    assert(s0.skip(8) =~= s1);
    assert(s1[0] == button);
    assert(s1.skip(1) =~= s2);
    lemma_rt_bool(pressed, s3);
    assert(s2.skip(1) =~= s3);
    lemma_rt_modifiers(modifiers, rest);
    assert(s0.skip(8).skip(1) =~= s2);
    assert(s0.skip(8).skip(1).skip(1) =~= s3);
}

proof fn lemma_rt_event_scroll(dx: u32, dy: u32, rest: Seq<u8>)
    ensures
        ({
            let e = EventModel::Scroll { dx, dy };
            dec_event(enc_event(e) + rest) == Option::Some((e, enc_event(e).len() as int))
        }),
{
    let e = EventModel::Scroll { dx, dy };
    let s1 = enc_u32(dy) + rest;
    let s0 = enc_u32(dx) + s1;
    let s = enc_event(e) + rest;
    assert(s =~= seq![3u8] + s0);
    assert(s.skip(1) =~= s0);
    lemma_rt_u32(dx, s1);
    assert(s0.skip(4) =~= s1);
    lemma_rt_u32(dy, rest);
}

pub proof fn lemma_rt_event(e: EventModel, rest: Seq<u8>)
    requires
        event_encodable(e),
    ensures
        dec_event(enc_event(e) + rest)
            == Option::Some((e, enc_event(e).len() as int)),
{
    match e {
        EventModel::Key { key, pressed, modifiers } => {
            lemma_rt_event_key(key, pressed, modifiers, rest);
        },
        EventModel::Text(bytes) => {
            lemma_rt_event_text(bytes, rest);
        },
        EventModel::PointerButton { pos, button, pressed, modifiers } => {
            lemma_rt_event_button(pos, button, pressed, modifiers, rest);
        },
        EventModel::Scroll { dx, dy } => {
            lemma_rt_event_scroll(dx, dy, rest);
        },
    }
}

#[verifier::rlimit(100)]
proof fn lemma_rt_scalars_tail(
    screen_rect: Option<Rect>,
    pixels_per_point: Option<u32>,
    time: Option<u64>,
    rest: Seq<u8>,
)
    ensures
        ({
            let enc = enc_opt_rect(screen_rect) + (enc_opt_u32(pixels_per_point)
                + enc_opt_u64(time));
            dec_scalars_tail(enc + rest) == Option::Some((
                (screen_rect, pixels_per_point, time),
                enc.len() as int,
            ))
        }),
{
    let e0 = enc_opt_rect(screen_rect);
    let e1 = enc_opt_u32(pixels_per_point);
    let e2 = enc_opt_u64(time);
    let s2 = e2 + rest;
    let s1 = e1 + s2;
    let s0 = e0 + s1;
    assert((e0 + (e1 + e2)) + rest =~= s0);
    lemma_rt_opt_rect(screen_rect, s1);
    assert(s0.skip(e0.len() as int) =~= s1);
    lemma_rt_opt_u32(pixels_per_point, s2);
    assert(s1.skip(e1.len() as int) =~= s2);
    lemma_rt_opt_u64(time, rest);
    assert(s0.skip((e0.len() + e1.len()) as int) =~= s2);
}

#[verifier::rlimit(100)]
pub proof fn lemma_rt_input_scalars(d: InputModel, rest: Seq<u8>)
    ensures
        ({
            let enc = enc_opt_pos(d.pointer_pos) + enc_modifiers(d.modifiers)
                + enc_opt_rect(d.screen_rect) + enc_opt_u32(d.pixels_per_point)
                + enc_opt_u64(d.time);
            dec_input_scalars(enc + rest) == Option::Some((
                (d.pointer_pos, d.modifiers, d.screen_rect, d.pixels_per_point, d.time),
                enc.len() as int,
            ))
        }),
{
    let e0 = enc_opt_pos(d.pointer_pos);
    let e1 = enc_modifiers(d.modifiers);
    let e2 = enc_opt_rect(d.screen_rect);
    let e3 = enc_opt_u32(d.pixels_per_point);
    let e4 = enc_opt_u64(d.time);
    let etail = e2 + (e3 + e4);
    let s2 = etail + rest;
    let s1 = e1 + s2;
    let s0 = e0 + s1;
    vstd::seq_lib::lemma_concat_associative(e2, e3 + e4, rest);
    vstd::seq_lib::lemma_concat_associative(e3, e4, rest);
    assert(s2 == e2 + (e3 + (e4 + rest)));
    vstd::seq_lib::lemma_concat_associative(e0 + e1 + e2 + e3, e4, rest);
    vstd::seq_lib::lemma_concat_associative(e0 + e1 + e2, e3, e4 + rest);
    vstd::seq_lib::lemma_concat_associative(e0 + e1, e2, e3 + (e4 + rest));
    vstd::seq_lib::lemma_concat_associative(e0, e1, e2 + (e3 + (e4 + rest)));
    assert((e0 + e1 + e2 + e3 + e4) + rest == s0);
    lemma_rt_opt_pos(d.pointer_pos, s1);
    assert(s0.skip(e0.len() as int) =~= s1);
    lemma_rt_modifiers(d.modifiers, s2);
    assert(s1.skip(e1.len() as int) =~= s2);
    lemma_rt_scalars_tail(d.screen_rect, d.pixels_per_point, d.time, rest);
    assert(s0.skip((e0.len() + e1.len()) as int) =~= s2);
}

#[verifier::spinoff_prover]
/// Elementwise event round trip lifted to a whole event list.
#[verifier::rlimit(100)]
proof fn lemma_rt_event_list(evs: Seq<EventModel>, rest: Seq<u8>)
    requires
        forall|i: int| 0 <= i < evs.len() ==> #[trigger] event_encodable(evs[i]),
    ensures
        ({
            let fe = |e: EventModel| enc_event(e);
            dec_list(enc_list(evs, fe) + rest, evs.len(), dec_event_fn())
                == Option::Some((evs, enc_list(evs, fe).len() as int))
        }),
{
    let fe = |e: EventModel| enc_event(e);
    let fd = dec_event_fn();
    assert forall|i: int, r2: Seq<u8>| 0 <= i < evs.len()
        implies #[trigger] fd(fe(evs[i]) + r2)
            == Option::Some((evs[i], fe(evs[i]).len() as int)) by {
        assert(event_encodable(evs[i]));
        lemma_rt_event(evs[i], r2);
    }
    lemma_rt_list(evs, fe, fd, rest);
}

#[verifier::rlimit(100)]
#[verifier::spinoff_prover]
pub proof fn lemma_rt_input(d: InputModel, rest: Seq<u8>)
    requires
        input_encodable(d),
    ensures
        dec_input(enc_input(d) + rest)
            == Option::Some((d, enc_input(d).len() as int)),
{
    reveal(dec_input);
    let fe = |e: EventModel| enc_event(e);
    let fd = dec_event_fn();
    let ecount = enc_u32(d.events.len() as u32);
    let eevents = enc_list(d.events, fe);
    let escalars = enc_opt_pos(d.pointer_pos) + enc_modifiers(d.modifiers)
        + enc_opt_rect(d.screen_rect) + enc_opt_u32(d.pixels_per_point) + enc_opt_u64(d.time);
    let s2 = escalars + rest;
    let s1 = eevents + s2;
    let s = enc_input(d) + rest;
    let e0 = enc_opt_pos(d.pointer_pos);
    let e1 = enc_modifiers(d.modifiers);
    let e2 = enc_opt_rect(d.screen_rect);
    let e3 = enc_opt_u32(d.pixels_per_point);
    let e4 = enc_opt_u64(d.time);
    let ab = ecount + eevents;
    vstd::seq_lib::lemma_concat_associative(ab, e0, e1);
    vstd::seq_lib::lemma_concat_associative(ab, e0 + e1, e2);
    vstd::seq_lib::lemma_concat_associative(ab, e0 + e1 + e2, e3);
    vstd::seq_lib::lemma_concat_associative(ab, e0 + e1 + e2 + e3, e4);
    assert(enc_input(d) == ab + escalars);
    vstd::seq_lib::lemma_concat_associative(ab, escalars, rest);
    vstd::seq_lib::lemma_concat_associative(ecount, eevents, s2);
    assert(s == ecount + s1);
    lemma_rt_u32(d.events.len() as u32, s1);
    assert(s.skip(4) =~= s1);
    lemma_rt_event_list(d.events, s2);
    assert(s1.skip(eevents.len() as int) =~= s2);
    lemma_rt_input_scalars(d, rest);
    assert(dec_input_scalars(s2) == Option::Some((
        (d.pointer_pos, d.modifiers, d.screen_rect, d.pixels_per_point, d.time),
        escalars.len() as int,
    )));
    assert(s.skip((4 + eevents.len()) as int) =~= s2);
    assert(dec_input(s) matches Option::Some(p) && p.0 =~= d
        && p.1 == enc_input(d).len() as int);
}

proof fn lemma_rt_counted_u32s(v: Seq<u32>, rest: Seq<u8>)
    requires
        v.len() <= u32::MAX,
    ensures
        ({
            let fi = |x: u32| enc_u32(x);
            dec_counted_u32s(enc_u32(v.len() as u32) + (enc_list(v, fi) + rest))
                == Option::Some((v, 4 + enc_list(v, fi).len() as int))
        }),
{
    let fi = |x: u32| enc_u32(x);
    let s1 = enc_list(v, fi) + rest;
    let s0 = enc_u32(v.len() as u32) + s1;
    lemma_rt_u32(v.len() as u32, s1);
    assert(s0.skip(4) =~= s1);
    assert forall|i: int, r2: Seq<u8>| 0 <= i < v.len()
        implies #[trigger] dec_u32_fn()(fi(v[i]) + r2)
            == Option::Some((v[i], fi(v[i]).len() as int)) by {
        lemma_rt_u32(v[i], r2);
    }
    lemma_rt_list(v, fi, dec_u32_fn(), rest);
}

proof fn lemma_rt_counted_poss(v: Seq<Pos>, rest: Seq<u8>)
    requires
        v.len() <= u32::MAX,
    ensures
        ({
            let fp = |p: Pos| enc_pos(p);
            dec_counted_poss(enc_u32(v.len() as u32) + (enc_list(v, fp) + rest))
                == Option::Some((v, 4 + enc_list(v, fp).len() as int))
        }),
{
    let fp = |p: Pos| enc_pos(p);
    let s1 = enc_list(v, fp) + rest;
    let s0 = enc_u32(v.len() as u32) + s1;
    lemma_rt_u32(v.len() as u32, s1);
    assert(s0.skip(4) =~= s1);
    assert forall|i: int, r2: Seq<u8>| 0 <= i < v.len()
        implies #[trigger] dec_pos_fn()(fp(v[i]) + r2)
            == Option::Some((v[i], fp(v[i]).len() as int)) by {
        lemma_rt_pos(v[i], r2);
    }
    lemma_rt_list(v, fp, dec_pos_fn(), rest);
}

proof fn lemma_rt_counted_colors(v: Seq<Color>, rest: Seq<u8>)
    requires
        v.len() <= u32::MAX,
    ensures
        ({
            let fc = |c: Color| enc_color(c);
            dec_counted_colors(enc_u32(v.len() as u32) + (enc_list(v, fc) + rest))
                == Option::Some((v, 4 + enc_list(v, fc).len() as int))
        }),
{
    let fc = |c: Color| enc_color(c);
    let s1 = enc_list(v, fc) + rest;
    let s0 = enc_u32(v.len() as u32) + s1;
    lemma_rt_u32(v.len() as u32, s1);
    assert(s0.skip(4) =~= s1);
    assert forall|i: int, r2: Seq<u8>| 0 <= i < v.len()
        implies #[trigger] dec_color_fn()(fc(v[i]) + r2)
            == Option::Some((v[i], fc(v[i]).len() as int)) by {
        lemma_rt_color(v[i], r2);
    }
    lemma_rt_list(v, fc, dec_color_fn(), rest);
}

#[verifier::rlimit(100)]
proof fn lemma_rt_mesh_tail(uv: Seq<Pos>, color: Seq<Color>, rest: Seq<u8>)
    requires
        uv.len() <= u32::MAX,
        color.len() <= u32::MAX,
    ensures
        ({
            let fp = |p: Pos| enc_pos(p);
            let fc = |c: Color| enc_color(c);
            let euv = enc_u32(uv.len() as u32) + (enc_list(uv, fp)
                + (enc_u32(color.len() as u32) + (enc_list(color, fc) + rest)));
            dec_mesh_tail(euv) == Option::Some((
                (uv, color),
                4 + enc_list(uv, fp).len() + 4 + enc_list(color, fc).len() as int,
            ))
        }),
{
    let fp = |p: Pos| enc_pos(p);
    let fc = |c: Color| enc_color(c);
    let s1 = enc_u32(color.len() as u32) + (enc_list(color, fc) + rest);
    let s0 = enc_u32(uv.len() as u32) + (enc_list(uv, fp) + s1);
    vstd::seq_lib::lemma_concat_associative(enc_list(uv, fp), s1, Seq::<u8>::empty());
    lemma_rt_counted_poss(uv, s1);
    assert(s0.skip((4 + enc_list(uv, fp).len()) as int) =~= s1);
    lemma_rt_counted_colors(color, rest);
}

/// The encoded mesh followed by more stream bytes, reassociated into
/// one nested suffix chain.
#[verifier::rlimit(100)]
proof fn lemma_net_mesh_stream_shape(m: NetMeshModel, rest: Seq<u8>)
    ensures
        ({
            let fi = |x: u32| enc_u32(x);
            let fp = |p: Pos| enc_pos(p);
            let fc = |c: Color| enc_color(c);
            let et = enc_texture_id(m.texture_id);
            let ci = enc_u32(m.indices.len() as u32);
            let li = enc_list(m.indices, fi);
            let cp = enc_u32(m.pos.len() as u32);
            let lp = enc_list(m.pos, fp);
            let cu = enc_u32(m.uv.len() as u32);
            let lu = enc_list(m.uv, fp);
            let cc = enc_u32(m.color.len() as u32);
            let lc = enc_list(m.color, fc);
            enc_net_mesh(m) + rest
                == et + (ci + (li + (cp + (lp + (cu + (lu + (cc + (lc + rest))))))))
        }),
{
    let fi = |x: u32| enc_u32(x);
    let fp = |p: Pos| enc_pos(p);
    let fc = |c: Color| enc_color(c);
    let et = enc_texture_id(m.texture_id);
    let ci = enc_u32(m.indices.len() as u32);
    let li = enc_list(m.indices, fi);
    let cp = enc_u32(m.pos.len() as u32);
    let lp = enc_list(m.pos, fp);
    let cu = enc_u32(m.uv.len() as u32);
    let lu = enc_list(m.uv, fp);
    let cc = enc_u32(m.color.len() as u32);
    let lc = enc_list(m.color, fc);
    vstd::seq_lib::lemma_concat_associative(et + ci + li + cp + lp + cu + lu + cc, lc, rest);
    vstd::seq_lib::lemma_concat_associative(et + ci + li + cp + lp + cu + lu, cc, lc + rest);
    vstd::seq_lib::lemma_concat_associative(et + ci + li + cp + lp + cu, lu, cc + (lc + rest));
    vstd::seq_lib::lemma_concat_associative(et + ci + li + cp + lp, cu, lu + (cc + (lc + rest)));
    vstd::seq_lib::lemma_concat_associative(et + ci + li + cp, lp, cu + (lu + (cc + (lc
        + rest))));
    vstd::seq_lib::lemma_concat_associative(et + ci + li, cp, lp + (cu + (lu + (cc + (lc
        + rest)))));
    vstd::seq_lib::lemma_concat_associative(et + ci, li, cp + (lp + (cu + (lu + (cc + (lc
        + rest))))));
    vstd::seq_lib::lemma_concat_associative(et, ci, li + (cp + (lp + (cu + (lu + (cc + (lc
        + rest)))))));
}

#[verifier::rlimit(100)]
#[verifier::spinoff_prover]
pub proof fn lemma_rt_net_mesh(m: NetMeshModel, rest: Seq<u8>)
    requires
        net_mesh_encodable(m),
    ensures
        dec_net_mesh(enc_net_mesh(m) + rest)
            == Option::Some((m, enc_net_mesh(m).len() as int)),
{
    reveal(dec_net_mesh);
    let fi = |x: u32| enc_u32(x);
    let fp = |p: Pos| enc_pos(p);
    let fc = |c: Color| enc_color(c);
    let et = enc_texture_id(m.texture_id);
    let ci = enc_u32(m.indices.len() as u32);
    let li = enc_list(m.indices, fi);
    let cp = enc_u32(m.pos.len() as u32);
    let lp = enc_list(m.pos, fp);
    let cu = enc_u32(m.uv.len() as u32);
    let lu = enc_list(m.uv, fp);
    let cc = enc_u32(m.color.len() as u32);
    let lc = enc_list(m.color, fc);
    let s3 = cu + (lu + (cc + (lc + rest)));
    let s2 = cp + (lp + s3);
    let s1 = ci + (li + s2);
    let s0 = et + s1;
    lemma_net_mesh_stream_shape(m, rest);
    assert(enc_net_mesh(m) + rest == s0);
    lemma_rt_texture_id(m.texture_id, s1);
    assert(s0.skip(9) =~= s1);
    lemma_rt_counted_u32s(m.indices, s2);
    let c1 = 4 + li.len() as int;
    assert(s1.skip(c1) =~= s2);
    lemma_rt_counted_poss(m.pos, s3);
    let c2 = 4 + lp.len() as int;
    assert(s2.skip(c2) =~= s3);
    lemma_rt_mesh_tail(m.uv, m.color, rest);
    assert(s0.skip(9 + c1) =~= s2);
    assert(s0.skip(9 + c1 + c2) =~= s3);
    let decoded = dec_net_mesh(s0);
    assert(decoded matches Option::Some(p) && p.0.texture_id == m.texture_id
        && p.0.indices == m.indices && p.0.pos == m.pos && p.0.uv == m.uv
        && p.0.color == m.color && p.1 == enc_net_mesh(m).len() as int);
    assert(decoded->Some_0.0 =~= m);
}

#[verifier::rlimit(100)]
#[verifier::spinoff_prover]
pub proof fn lemma_rt_clipped(c: ClippedNetMeshModel, rest: Seq<u8>)
    requires
        net_mesh_encodable(c.mesh),
    ensures
        dec_clipped(enc_clipped(c) + rest)
            == Option::Some((c, enc_clipped(c).len() as int)),
{
    reveal(dec_clipped);
    let s1 = enc_net_mesh(c.mesh) + rest;
    let s0 = enc_rect(c.clip_rect) + s1;
    vstd::seq_lib::lemma_concat_associative(enc_rect(c.clip_rect), enc_net_mesh(c.mesh), rest);
    assert(enc_clipped(c) + rest == s0);
    lemma_rt_rect(c.clip_rect, s1);
    assert(s0.skip(16) =~= s1);
    lemma_rt_net_mesh(c.mesh, rest);
    let decoded = dec_clipped(s0);
    assert(decoded matches Option::Some(p) && p.0.clip_rect == c.clip_rect
        && p.0.mesh == c.mesh && p.1 == enc_clipped(c).len() as int);
    assert(decoded->Some_0.0 =~= c);
}

/// Decoding an encoded viewer-to-server payload yields the message back.
#[verifier::rlimit(100)]
#[verifier::spinoff_prover]
pub proof fn lemma_rt_client_payload(m: ClientMsgModel)
    requires
        client_msg_counts_ok(m),
    ensures
        dec_client_payload(enc_client_payload(m)) == Option::Some(m),
{
    match m {
        ClientMsgModel::Goodbye => {},
        ClientMsgModel::Input { raw_input, client_time } => {
            let ei = enc_input(raw_input);
            let et = enc_u64(client_time);
            let s1 = ei + et;
            let s0 = seq![TAG_INPUT] + s1;
            vstd::seq_lib::lemma_concat_associative(seq![TAG_INPUT], ei, et);
            assert(enc_client_payload(m) == s0);
            assert(s0.skip(1) =~= s1);
            lemma_rt_input(raw_input, et);
            assert(s0.skip((1 + ei.len()) as int) =~= et);
            lemma_rt_u64(client_time, Seq::<u8>::empty());
            assert(et + Seq::<u8>::empty() =~= et);
            assert(dec_u64(et) == Option::Some((client_time, 8int)));
            assert(s0.len() == 1 + ei.len() + 8);
        },
    }
}

/// Elementwise mesh round trip lifted to the frame's mesh list.
#[verifier::rlimit(100)]
#[verifier::spinoff_prover]
proof fn lemma_rt_clipped_list(cs: Seq<ClippedNetMeshModel>, rest: Seq<u8>)
    requires
        forall|i: int| 0 <= i < cs.len()
            ==> #[trigger] net_mesh_encodable(cs[i].mesh),
    ensures
        ({
            let fm = |c: ClippedNetMeshModel| enc_clipped(c);
            dec_list(enc_list(cs, fm) + rest, cs.len(), dec_clipped_fn())
                == Option::Some((cs, enc_list(cs, fm).len() as int))
        }),
{
    let fm = |c: ClippedNetMeshModel| enc_clipped(c);
    assert forall|i: int, r2: Seq<u8>| 0 <= i < cs.len()
        implies #[trigger] dec_clipped_fn()(fm(cs[i]) + r2)
            == Option::Some((cs[i], fm(cs[i]).len() as int)) by {
        assert(net_mesh_encodable(cs[i].mesh));
        lemma_rt_clipped(cs[i], r2);
    }
    lemma_rt_list(cs, fm, dec_clipped_fn(), rest);
}

/// Round trip of a frame payload's closing fields.
#[verifier::rlimit(100)]
proof fn lemma_rt_frame_close(td: Seq<u8>, ct: Option<u64>, rest: Seq<u8>)
    requires
        td.len() <= u32::MAX,
    ensures
        ({
            let enc = enc_bytes(td) + enc_opt_u64(ct);
            dec_frame_close(enc + rest) == Option::Some(((td, ct), enc.len() as int))
        }),
{
    reveal(dec_frame_close);
    let e5 = enc_bytes(td);
    let e6 = enc_opt_u64(ct);
    let s1 = e6 + rest;
    let s0 = e5 + s1;
    vstd::seq_lib::lemma_concat_associative(e5, e6, rest);
    assert((e5 + e6) + rest == s0);
    lemma_rt_byte_string(td, s1);
    assert(s0.skip((4 + td.len()) as int) =~= s1);
    lemma_rt_opt_u64(ct, rest);
}

/// Round trip of the frame fields after the tag and frame index.
#[verifier::rlimit(100)]
#[verifier::spinoff_prover]
proof fn lemma_rt_frame_fields(
    po: Seq<u8>,
    cs: Seq<ClippedNetMeshModel>,
    td: Seq<u8>,
    ct: Option<u64>,
    rest: Seq<u8>,
)
    requires
        po.len() <= u32::MAX,
        td.len() <= u32::MAX,
        cs.len() <= u32::MAX,
        forall|i: int| 0 <= i < cs.len() ==> #[trigger] net_mesh_encodable(cs[i].mesh),
    ensures
        ({
            let fm = |c: ClippedNetMeshModel| enc_clipped(c);
            let enc = enc_bytes(po) + (enc_u32(cs.len() as u32) + (enc_list(cs, fm)
                + (enc_bytes(td) + enc_opt_u64(ct))));
            dec_frame_fields(enc + rest)
                == Option::Some(((po, cs, td, ct), enc.len() as int))
        }),
{
    let fm = |c: ClippedNetMeshModel| enc_clipped(c);
    let e2 = enc_bytes(po);
    let e3 = enc_u32(cs.len() as u32);
    let e4 = enc_list(cs, fm);
    let ec = enc_bytes(td) + enc_opt_u64(ct);
    let s3 = ec + rest;
    let s2 = e4 + s3;
    let s1 = e3 + s2;
    let s0 = e2 + s1;
    let enc = e2 + (e3 + (e4 + ec));
    vstd::seq_lib::lemma_concat_associative(e4, ec, rest);
    vstd::seq_lib::lemma_concat_associative(e3, e4 + ec, rest);
    vstd::seq_lib::lemma_concat_associative(e2, e3 + (e4 + ec), rest);
    assert(enc + rest == s0);
    lemma_rt_byte_string(po, s1);
    assert(s0.skip((4 + po.len()) as int) =~= s1);
    lemma_rt_u32(cs.len() as u32, s2);
    assert(s1.skip(4) =~= s2);
    lemma_rt_clipped_list(cs, s3);
    assert(s2.skip(e4.len() as int) =~= s3);
    lemma_rt_frame_close(td, ct, rest);
    assert(s0.skip((4 + po.len() + 4) as int) =~= s2);
    assert(s0.skip((4 + po.len() + 4 + e4.len()) as int) =~= s3);
}

/// Decoding an encoded frame payload yields the frame back.
#[verifier::rlimit(100)]
#[verifier::spinoff_prover]
pub proof fn lemma_rt_server_payload(m: ServerMsgModel)
    requires
        server_msg_counts_ok(m),
    ensures
        dec_server_payload(enc_server_payload(m)) == Option::Some(m),
{
    reveal(dec_server_payload);
    match m {
        ServerMsgModel::Frame {
            frame_index, platform_output, clipped_net_mesh, textures_delta, client_time,
        } => {
            let fm = |c: ClippedNetMeshModel| enc_clipped(c);
            let t = seq![TAG_FRAME];
            let e1 = enc_u64(frame_index);
            let e2 = enc_bytes(platform_output);
            let e3 = enc_u32(clipped_net_mesh.len() as u32);
            let e4 = enc_list(clipped_net_mesh, fm);
            let e5 = enc_bytes(textures_delta);
            let e6 = enc_opt_u64(client_time);
            let ff = e2 + (e3 + (e4 + (e5 + e6)));
            let s1 = e1 + ff;
            let s = t + s1;
            vstd::seq_lib::lemma_concat_associative(t + e1 + e2 + e3 + e4, e5, e6);
            vstd::seq_lib::lemma_concat_associative(t + e1 + e2 + e3, e4, e5 + e6);
            vstd::seq_lib::lemma_concat_associative(t + e1 + e2, e3, e4 + (e5 + e6));
            vstd::seq_lib::lemma_concat_associative(t + e1, e2, e3 + (e4 + (e5 + e6)));
            vstd::seq_lib::lemma_concat_associative(t, e1, ff);
            assert(enc_server_payload(m) == s);
            assert(s.skip(1) =~= s1);
            lemma_rt_u64(frame_index, ff);
            assert(s1.skip(8) =~= ff);
            lemma_rt_frame_fields(platform_output, clipped_net_mesh, textures_delta,
                client_time, Seq::<u8>::empty());
            assert(ff + Seq::<u8>::empty() =~= ff);
            assert(s.skip(9) =~= ff);
            assert(s.len() == 9 + ff.len());
            let decoded = dec_server_payload(s);
            assert(decoded matches Option::Some(p) && p =~= m);
        },
    }
}

/// The record round trip: one encoded message at the head of a stream is
/// lifted out exactly, whatever bytes follow it.
pub proof fn lemma_client_record_roundtrip(m: ClientMsgModel, rest: Seq<u8>)
    requires
        client_msg_encodable(m),
    ensures
        client_step(enc_record(enc_client_payload(m)) + rest)
            == StepModel::Got(m, 4 + enc_client_payload(m).len() as int),
{
    let payload = enc_client_payload(m);
    let s = enc_record(payload) + rest;
    vstd::seq_lib::lemma_concat_associative(enc_u32(payload.len() as u32), payload, rest);
    assert(s == enc_u32(payload.len() as u32) + (payload + rest));
    lemma_rt_u32(payload.len() as u32, payload + rest);
    assert(payload.len() >= 1);
    assert(s.subrange(4, 4 + payload.len() as int) =~= payload);
    lemma_rt_client_payload(m);
}

/// As [`lemma_client_record_roundtrip`], for the server-to-viewer side.
pub proof fn lemma_server_record_roundtrip(m: ServerMsgModel, rest: Seq<u8>)
    requires
        server_msg_encodable(m),
    ensures
        server_step(enc_record(enc_server_payload(m)) + rest)
            == StepModel::Got(m, 4 + enc_server_payload(m).len() as int),
{
    let payload = enc_server_payload(m);
    let s = enc_record(payload) + rest;
    vstd::seq_lib::lemma_concat_associative(enc_u32(payload.len() as u32), payload, rest);
    assert(s == enc_u32(payload.len() as u32) + (payload + rest));
    lemma_rt_u32(payload.len() as u32, payload + rest);
    assert(payload.len() >= 1) by {
        reveal(dec_server_payload);
        match m {
            ServerMsgModel::Frame { frame_index, platform_output, clipped_net_mesh,
                textures_delta, client_time } => {},
        }
    }
    assert(s.subrange(4, 4 + payload.len() as int) =~= payload);
    lemma_rt_server_payload(m);
}

} // verus!