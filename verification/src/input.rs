//! Client input deltas and the coalescer that merges the deltas arriving
//! between two server ticks into one, losing no discrete event.

use vstd::prelude::*;
use crate::geometry::{Pos, Rect};

verus! {

/// Modifier-key state at the time an event was captured.
#[derive(Clone, Copy, Debug, PartialEq, Eq, Structural)]
pub struct Modifiers {
    pub alt: bool,
    pub ctrl: bool,
    pub shift: bool,
    pub mac_cmd: bool,
    pub command: bool,
}

/// One discrete input event. Discrete events are concatenated, never
/// overwritten, when deltas are coalesced.
#[derive(Clone, Debug, PartialEq)]
pub enum InputEvent {
    /// A key went down or up. `key` is the viewer's key code.
    Key { key: u32, pressed: bool, modifiers: Modifiers },
    /// Text committed by the viewer, as UTF-8 bytes.
    Text(Vec<u8>),
    /// A pointer button transition at a position (float bit patterns).
    PointerButton { pos: Pos, button: u8, pressed: bool, modifiers: Modifiers },
    /// Scroll delta (float bit patterns).
    Scroll { dx: u32, dy: u32 },
}

/// A batch of input captured by a viewer between two of its polls.
///
/// `events` is list-valued: coalescing concatenates in arrival order.
/// Every other field is scalar state: coalescing keeps the latest value.
/// `time` is the viewer's clock at capture time, as 64-bit float bits.
#[derive(Clone, Debug, PartialEq)]
pub struct InputDelta {
    pub events: Vec<InputEvent>,
    pub pointer_pos: Option<Pos>,
    pub modifiers: Modifiers,
    pub screen_rect: Option<Rect>,
    pub pixels_per_point: Option<u32>,
    pub time: Option<u64>,
}

impl Default for Modifiers {
    /// No modifier key held.
    fn default() -> (r: Modifiers)
        ensures
            r == (Modifiers { alt: false, ctrl: false, shift: false, mac_cmd: false,
                command: false }),
    {
        Modifiers { alt: false, ctrl: false, shift: false, mac_cmd: false, command: false }
    }
}

impl Default for InputDelta {
    /// The empty delta: no events, every scalar absent. Taking pending
    /// input defaults to this so the application still gets a tick.
    fn default() -> (r: InputDelta)
        ensures
            r.events@ == Seq::<InputEvent>::empty(),
            r.pointer_pos is None,
            r.modifiers == (Modifiers { alt: false, ctrl: false, shift: false, mac_cmd: false,
                command: false }),
            r.screen_rect is None,
            r.pixels_per_point is None,
            r.time is None,
    {
        InputDelta {
            events: Vec::new(),
            pointer_pos: None,
            modifiers: Modifiers::default(),
            screen_rect: None,
            pixels_per_point: None,
            time: None,
        }
    }
}

/// Mathematical model of an [`InputEvent`].
#[verifier::ext_equal]
pub enum EventModel {
    Key { key: u32, pressed: bool, modifiers: Modifiers },
    Text(Seq<u8>),
    PointerButton { pos: Pos, button: u8, pressed: bool, modifiers: Modifiers },
    Scroll { dx: u32, dy: u32 },
}

/// Mathematical model of an [`InputDelta`].
#[verifier::ext_equal]
pub struct InputModel {
    pub events: Seq<EventModel>,
    pub pointer_pos: Option<Pos>,
    pub modifiers: Modifiers,
    pub screen_rect: Option<Rect>,
    pub pixels_per_point: Option<u32>,
    pub time: Option<u64>,
}

pub open spec fn event_model(e: InputEvent) -> EventModel {
    match e {
        InputEvent::Key { key, pressed, modifiers } =>
            EventModel::Key { key, pressed, modifiers },
        InputEvent::Text(bytes) => EventModel::Text(bytes@),
        InputEvent::PointerButton { pos, button, pressed, modifiers } =>
            EventModel::PointerButton { pos, button, pressed, modifiers },
        InputEvent::Scroll { dx, dy } => EventModel::Scroll { dx, dy },
    }
}

pub open spec fn events_model(evs: Seq<InputEvent>) -> Seq<EventModel> {
    evs.map_values(|e: InputEvent| event_model(e))
}

pub open spec fn input_model(d: InputDelta) -> InputModel {
    InputModel {
        events: events_model(d.events@),
        pointer_pos: d.pointer_pos,
        modifiers: d.modifiers,
        screen_rect: d.screen_rect,
        pixels_per_point: d.pixels_per_point,
        time: d.time,
    }
}

/// What coalescing two deltas means: discrete events of the pending delta
/// followed by those of the incoming one; every scalar field taken from
/// the incoming delta ("latest wins"). An absent pending delta leaves the
/// incoming one unchanged.
pub open spec fn merge_model(pending: Option<InputModel>, incoming: InputModel) -> InputModel {
    match pending {
        Option::None => incoming,
        Option::Some(p) => InputModel {
            events: p.events + incoming.events,
            pointer_pos: incoming.pointer_pos,
            modifiers: incoming.modifiers,
            screen_rect: incoming.screen_rect,
            pixels_per_point: incoming.pixels_per_point,
            time: incoming.time,
        },
    }
}

pub open spec fn option_input_model(d: Option<InputDelta>) -> Option<InputModel> {
    match d {
        Option::None => Option::None,
        Option::Some(p) => Option::Some(input_model(p)),
    }
}

/// Mapping to the model distributes over concatenation of event lists.
pub proof fn lemma_events_model_concat(a: Seq<InputEvent>, b: Seq<InputEvent>)
    ensures
        events_model(a + b) =~= events_model(a) + events_model(b),
{
    assert forall|i: int| 0 <= i < (a + b).len()
        implies events_model(a + b)[i] == (events_model(a) + events_model(b))[i] by {
        if i < a.len() {
            assert((a + b)[i] == a[i]);
        } else {
            assert((a + b)[i] == b[i - a.len()]);
        }
    }
}

/// Coalesce the incoming delta into the pending one.
pub fn merge(pending: Option<InputDelta>, incoming: InputDelta) -> (r: InputDelta)
    ensures
        input_model(r) == merge_model(option_input_model(pending), input_model(incoming)),
{
    match pending {
        Option::None => incoming,
        Option::Some(mut p) => {
            let ghost p0 = p.events@;
            let ghost i0 = incoming.events@;
            let mut inc = incoming;
            p.events.append(&mut inc.events);
            let r = InputDelta {
                events: p.events,
                pointer_pos: inc.pointer_pos,
                modifiers: inc.modifiers,
                screen_rect: inc.screen_rect,
                pixels_per_point: inc.pixels_per_point,
                time: inc.time,
            };
            proof {
                lemma_events_model_concat(p0, i0);
                assert(input_model(r) =~= merge_model(
                    option_input_model(pending), input_model(incoming)));
            }
            r
        },
    }
}

/// Whether two byte strings hold the same bytes.
fn bytes_eq(a: &Vec<u8>, b: &Vec<u8>) -> (r: bool)
    ensures
        r == (a@ == b@),
{
    if a.len() != b.len() {
        return false;
    }
    let n = a.len();
    let mut i: usize = 0;
    while i < n
        invariant
            n == a@.len() && n == b@.len(),
            i <= n,
            forall|j: int| 0 <= j < i ==> a@[j] == b@[j],
        decreases n - i,
    {
        if a[i] != b[i] {
            return false;
        }
        i += 1;
    }
    proof {
        assert(a@ =~= b@);
    }
    true
}

/// Whether two discrete events are the same event.
fn event_eq(a: &InputEvent, b: &InputEvent) -> (r: bool)
    ensures
        r == (event_model(*a) == event_model(*b)),
{
    match (a, b) {
        (
            InputEvent::Key { key: k1, pressed: p1, modifiers: m1 },
            InputEvent::Key { key: k2, pressed: p2, modifiers: m2 },
        ) => *k1 == *k2 && *p1 == *p2 && *m1 == *m2,
        (InputEvent::Text(t1), InputEvent::Text(t2)) => bytes_eq(t1, t2),
        (
            InputEvent::PointerButton { pos: q1, button: b1, pressed: p1, modifiers: m1 },
            InputEvent::PointerButton { pos: q2, button: b2, pressed: p2, modifiers: m2 },
        ) => *q1 == *q2 && *b1 == *b2 && *p1 == *p2 && *m1 == *m2,
        (
            InputEvent::Scroll { dx: x1, dy: y1 },
            InputEvent::Scroll { dx: x2, dy: y2 },
        ) => *x1 == *x2 && *y1 == *y2,
        _ => false,
    }
}

/// Whether two event lists hold the same events in the same order.
fn events_eq(a: &Vec<InputEvent>, b: &Vec<InputEvent>) -> (r: bool)
    ensures
        r == (events_model(a@) == events_model(b@)),
{
    if a.len() != b.len() {
        proof {
            assert(events_model(a@).len() != events_model(b@).len());
        }
        return false;
    }
    let n = a.len();
    let mut i: usize = 0;
    while i < n
        invariant
            n == a@.len() && n == b@.len(),
            i <= n,
            forall|j: int| 0 <= j < i
                ==> event_model(#[trigger] a@[j]) == event_model(b@[j]),
        decreases n - i,
    {
        if !event_eq(&a[i], &b[i]) {
            proof {
                assert(events_model(a@)[i as int] != events_model(b@)[i as int]);
            }
            return false;
        }
        i += 1;
    }
    proof {
        assert(events_model(a@) =~= events_model(b@));
    }
    true
}

/// Whether two deltas are the same input, field for field. The viewer
/// uses this to suppress re-sending input identical to what it last
/// sent, so an idle pointer costs no bandwidth.
pub fn same_delta(a: &InputDelta, b: &InputDelta) -> (r: bool)
    ensures
        r == (input_model(*a) == input_model(*b)),
{
    let events_same = events_eq(&a.events, &b.events);
    let pointer_same = match (&a.pointer_pos, &b.pointer_pos) {
        (Option::None, Option::None) => true,
        (Option::Some(p1), Option::Some(p2)) => *p1 == *p2,
        _ => false,
    };
    let rect_same = match (&a.screen_rect, &b.screen_rect) {
        (Option::None, Option::None) => true,
        (Option::Some(r1), Option::Some(r2)) => *r1 == *r2,
        _ => false,
    };
    let ppp_same = match (&a.pixels_per_point, &b.pixels_per_point) {
        (Option::None, Option::None) => true,
        (Option::Some(x1), Option::Some(x2)) => *x1 == *x2,
        _ => false,
    };
    let time_same = match (&a.time, &b.time) {
        (Option::None, Option::None) => true,
        (Option::Some(t1), Option::Some(t2)) => *t1 == *t2,
        _ => false,
    };
    let r = events_same && pointer_same && a.modifiers == b.modifiers && rect_same
        && ppp_same && time_same;
    proof {
        if r {
            assert(input_model(*a) =~= input_model(*b));
        }
    }
    r
}

/// Coalescing a whole sequence of deltas, oldest first, onto a pending one.
pub open spec fn coalesce_model(pending: Option<InputModel>, deltas: Seq<InputModel>) -> Option<InputModel>
    decreases deltas.len(),
{
    if deltas.len() == 0 {
        pending
    } else {
        coalesce_model(
            Option::Some(merge_model(pending, deltas.first())),
            deltas.drop_first(),
        )
    }
}

/// All events of a sequence of deltas, in arrival order.
pub open spec fn all_events(deltas: Seq<InputModel>) -> Seq<EventModel>
    decreases deltas.len(),
{
    if deltas.len() == 0 {
        Seq::empty()
    } else {
        deltas.first().events + all_events(deltas.drop_first())
    }
}

/// The coalescer loses nothing and reorders nothing: for any non-empty
/// sequence of deltas delivered between two ticks, the merged result
/// carries every discrete event of every delta, in arrival order, after
/// whatever was already pending, and each scalar field holds the value
/// of the most recent delta alone.
pub proof fn lemma_coalesce_keeps_all_events(pending: Option<InputModel>, deltas: Seq<InputModel>)
    requires
        deltas.len() > 0,
    ensures
        coalesce_model(pending, deltas) matches Option::Some(merged) && {
            &&& merged.events =~= match pending {
                    Option::None => all_events(deltas),
                    Option::Some(p) => p.events + all_events(deltas),
                }
            &&& merged.pointer_pos == deltas.last().pointer_pos
            &&& merged.modifiers == deltas.last().modifiers
            &&& merged.screen_rect == deltas.last().screen_rect
            &&& merged.pixels_per_point == deltas.last().pixels_per_point
            &&& merged.time == deltas.last().time
        },
    decreases deltas.len(),
{
    let first_merged = merge_model(pending, deltas.first());
    if deltas.len() == 1 {
        assert(coalesce_model(pending, deltas) == Option::Some(first_merged));
        assert(deltas.drop_first().len() == 0);
        assert(all_events(deltas.drop_first()) == Seq::<EventModel>::empty());
        assert(all_events(deltas) =~= deltas.first().events);
    } else {
        lemma_coalesce_keeps_all_events(Option::Some(first_merged), deltas.drop_first());
        assert(deltas.drop_first().last() == deltas.last());
    }
}

} // verus!
