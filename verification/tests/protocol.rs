use eterm::client::Client;
use eterm::geometry::{
    ClippedPrimitive, Color, Mesh, Pos, Primitive, Rect, TextureId, Vertex,
};
use eterm::input::{InputDelta, InputEvent, Modifiers};
use eterm::messages::{into_clipped_net_meshes, into_clipped_primitives};
use eterm::server::{Addr, Server};
use eterm::session::{EngineOutput, UiEngine, DEFAULT_MAX_UPDATE_INTERVAL};

/// A UI engine that remembers how it was driven and emits one small mesh.
struct TestEngine {
    runs: u64,
    seen_events: usize,
    last_server_time: u64,
}

impl TestEngine {
    fn new() -> TestEngine {
        TestEngine { runs: 0, seen_events: 0, last_server_time: 0 }
    }
}

fn sample_mesh() -> Mesh {
    Mesh {
        texture_id: TextureId::Managed(7),
        indices: vec![0, 1, 2],
        vertices: vec![
            Vertex {
                pos: Pos { x: 0x3f800000, y: 0 },
                uv: Pos { x: 0, y: 0 },
                color: Color { r: 255, g: 0, b: 0, a: 255 },
            },
            Vertex {
                pos: Pos { x: 0, y: 0x3f800000 },
                uv: Pos { x: 0, y: 0x3f000000 },
                color: Color { r: 0, g: 255, b: 0, a: 255 },
            },
            Vertex {
                pos: Pos { x: 0x40000000, y: 0x40400000 },
                uv: Pos { x: 0x3f800000, y: 0x3f800000 },
                color: Color { r: 0, g: 0, b: 255, a: 128 },
            },
        ],
    }
}

fn clip() -> Rect {
    Rect {
        min: Pos { x: 0, y: 0 },
        max: Pos { x: 0x44480000, y: 0x44160000 },
    }
}

impl UiEngine for TestEngine {
    fn run(&mut self, input: InputDelta, server_time_nanos: u64, _session: eterm::server::ClientId)
        -> EngineOutput {
        self.runs += 1;
        self.seen_events += input.events.len();
        self.last_server_time = server_time_nanos;
        EngineOutput {
            platform_output: vec![1, 2, 3],
            primitives: vec![
                ClippedPrimitive { clip_rect: clip(), primitive: Primitive::Mesh(sample_mesh()) },
                ClippedPrimitive { clip_rect: clip(), primitive: Primitive::Other },
            ],
            textures_delta: vec![9, 9],
        }
    }
}

fn addr_a() -> Addr {
    Addr { ip: 0x7f000001, port: 4000 }
}

fn addr_b() -> Addr {
    Addr { ip: 0x7f000001, port: 4001 }
}

fn key_event(key: u32) -> InputEvent {
    InputEvent::Key { key, pressed: true, modifiers: Modifiers::default() }
}

fn input_with_events(events: Vec<InputEvent>) -> InputDelta {
    let mut d = InputDelta::default();
    d.events = events;
    d
}

const SEC: u64 = 1_000_000_000;

#[test]
fn merge_concatenates_events_in_arrival_order() {
    let mut pending = input_with_events(vec![key_event(10), key_event(11)]);
    pending.pointer_pos = Some(Pos { x: 1, y: 2 });
    let mut incoming = input_with_events(vec![InputEvent::Text(b"hi".to_vec()), key_event(12)]);
    incoming.pointer_pos = Some(Pos { x: 3, y: 4 });
    incoming.time = Some(77);
    let merged = eterm::input::merge(Some(pending), incoming);
    assert_eq!(merged.events.len(), 4);
    assert_eq!(merged.events[0], key_event(10));
    assert_eq!(merged.events[1], key_event(11));
    assert_eq!(merged.events[2], InputEvent::Text(b"hi".to_vec()));
    assert_eq!(merged.events[3], key_event(12));
    assert_eq!(merged.pointer_pos, Some(Pos { x: 3, y: 4 }));
    assert_eq!(merged.time, Some(77));
}

#[test]
fn merge_without_pending_keeps_incoming_verbatim() {
    let incoming = input_with_events(vec![key_event(42)]);
    let merged = eterm::input::merge(None, incoming.clone());
    assert_eq!(merged, incoming);
}

#[test]
fn coalescing_over_several_batches_loses_nothing() {
    let batches = vec![
        input_with_events(vec![key_event(1)]),
        input_with_events(vec![key_event(2), key_event(3)]),
        input_with_events(vec![key_event(4)]),
    ];
    let mut pending: Option<InputDelta> = None;
    for b in batches {
        pending = Some(eterm::input::merge(pending, b));
    }
    let merged = pending.unwrap();
    let keys: Vec<u32> = merged
        .events
        .iter()
        .map(|e| match e {
            InputEvent::Key { key, .. } => *key,
            _ => panic!("unexpected event"),
        })
        .collect();
    assert_eq!(keys, vec![1, 2, 3, 4]);
}

#[test]
fn project_unproject_round_trip_is_exact() {
    let originals = vec![
        ClippedPrimitive { clip_rect: clip(), primitive: Primitive::Mesh(sample_mesh()) },
        ClippedPrimitive {
            clip_rect: Rect { min: Pos { x: 5, y: 6 }, max: Pos { x: 7, y: 8 } },
            primitive: Primitive::Mesh(Mesh {
                texture_id: TextureId::User(3),
                indices: vec![2, 1, 0],
                vertices: sample_mesh().vertices,
            }),
        },
    ];
    let projected = into_clipped_net_meshes(originals.clone());
    assert_eq!(projected.len(), 2);
    let back = into_clipped_primitives(projected);
    assert_eq!(back, originals);
}

#[test]
fn project_drops_non_mesh_primitives() {
    let prims = vec![
        ClippedPrimitive { clip_rect: clip(), primitive: Primitive::Other },
        ClippedPrimitive { clip_rect: clip(), primitive: Primitive::Mesh(sample_mesh()) },
        ClippedPrimitive { clip_rect: clip(), primitive: Primitive::Other },
    ];
    let projected = into_clipped_net_meshes(prims);
    assert_eq!(projected.len(), 1);
    assert_eq!(projected[0].mesh.indices, vec![0, 1, 2]);
    let back = into_clipped_primitives(projected);
    assert_eq!(back.len(), 1);
    assert!(matches!(back[0].primitive, Primitive::Mesh(_)));
}

#[test]
fn heartbeat_sends_one_frame_per_second_never_faster() {
    let mut server: Server<TestEngine> = Server::new();
    server.connect(addr_a(), TestEngine::new(), 0);
    // The first tick after a connect is always due.
    assert_eq!(server.show(0).len(), 1);
    // No input: nothing before a full heartbeat interval has passed.
    assert_eq!(server.show(SEC / 2).len(), 0);
    assert_eq!(server.show(SEC - 1).len(), 0);
    assert_eq!(server.show(SEC).len(), 1);
    // And again: the next frame comes one second after the previous one.
    assert_eq!(server.show(SEC + SEC / 2).len(), 0);
    assert_eq!(server.show(2 * SEC).len(), 1);
    assert_eq!(server.frame_index_of(addr_a()), Some(3));
}

#[test]
fn pending_input_forces_frame_at_response_interval_not_before() {
    let mut server: Server<TestEngine> = Server::new();
    server.connect(addr_a(), TestEngine::new(), 0);
    assert_eq!(server.show(0).len(), 1);
    // Input arrives right after the frame.
    let client = Client::new();
    let bytes = client
        .send_input(input_with_events(vec![key_event(9)]), 0)
        .unwrap();
    server.receive(addr_a(), &bytes, 16);
    // Not due before the response interval has passed since the frame.
    assert_eq!(server.show(DEFAULT_MAX_UPDATE_INTERVAL / 2).len(), 0);
    assert_eq!(server.show(DEFAULT_MAX_UPDATE_INTERVAL - 1).len(), 0);
    // Due at the first tick at or past it.
    assert_eq!(server.show(DEFAULT_MAX_UPDATE_INTERVAL).len(), 1);
    // The keystroke reached the engine exactly once.
    assert_eq!(server.sessions[0].engine.seen_events, 1);
}

#[test]
fn reconnect_keeps_frame_counter_and_engine_state() {
    let mut server: Server<TestEngine> = Server::new();
    server.connect(addr_a(), TestEngine::new(), 0);
    server.show(0);
    server.show(SEC);
    assert_eq!(server.frame_index_of(addr_a()), Some(2));
    let id_before = server.client_id_of(addr_a()).unwrap();
    let runs_before = server.sessions[0].engine.runs;
    server.disconnect(addr_a());
    assert_eq!(server.is_connected(addr_a()), Some(false));
    // Reconnect from the same address: same session, same engine.
    server.connect(addr_a(), TestEngine::new(), 2 * SEC);
    assert_eq!(server.is_connected(addr_a()), Some(true));
    assert_eq!(server.client_id_of(addr_a()).unwrap(), id_before);
    assert_eq!(server.frame_index_of(addr_a()), Some(2));
    assert_eq!(server.sessions[0].engine.runs, runs_before);
    assert_eq!(server.session_count(), 1);
    // The counter continues, it does not restart at zero.
    let out = server.show(2 * SEC);
    assert_eq!(out.len(), 1);
    assert_eq!(server.frame_index_of(addr_a()), Some(3));
}

#[test]
fn malformed_record_disconnects_only_the_offending_session() {
    let mut server: Server<TestEngine> = Server::new();
    server.connect(addr_a(), TestEngine::new(), 0);
    server.connect(addr_b(), TestEngine::new(), 0);
    server.show(0);
    // A record whose payload carries an unknown tag.
    let bad = vec![1, 0, 0, 0, 99];
    server.receive(addr_a(), &bad, 16);
    assert_eq!(server.is_connected(addr_a()), Some(false));
    assert_eq!(server.is_connected(addr_b()), Some(true));
    // The second session keeps receiving frames on schedule.
    let out = server.show(SEC);
    assert_eq!(out.len(), 1);
    assert_eq!(out[0].addr, addr_b());
}

#[test]
fn bad_length_prefix_is_fatal_for_that_connection() {
    let mut server: Server<TestEngine> = Server::new();
    server.connect(addr_a(), TestEngine::new(), 0);
    // A zero length prefix is malformed.
    let bad = vec![0, 0, 0, 0];
    server.receive(addr_a(), &bad, 16);
    assert_eq!(server.is_connected(addr_a()), Some(false));
}

#[test]
fn goodbye_clears_the_connection_and_suppresses_frames() {
    let mut server: Server<TestEngine> = Server::new();
    server.connect(addr_a(), TestEngine::new(), 0);
    assert_eq!(server.show(0).len(), 1);
    assert_eq!(server.show(SEC).len(), 1);
    let client = Client::new();
    let bye = client.goodbye();
    server.receive(addr_a(), &bye, 16);
    assert_eq!(server.is_connected(addr_a()), Some(false));
    // No further transmission, however long we wait.
    assert_eq!(server.show(2 * SEC).len(), 0);
    assert_eq!(server.show(10 * SEC).len(), 0);
    assert_eq!(server.frame_index_of(addr_a()), Some(2));
    // A new connection from that address resumes.
    server.connect(addr_a(), TestEngine::new(), 10 * SEC);
    assert_eq!(server.show(10 * SEC).len(), 1);
    assert_eq!(server.frame_index_of(addr_a()), Some(3));
}

#[test]
fn frame_travels_to_viewer_and_back_into_primitives() {
    let mut server: Server<TestEngine> = Server::new();
    server.connect(addr_a(), TestEngine::new(), 0);
    let out = server.show(0);
    assert_eq!(out.len(), 1);
    let mut viewer = Client::new();
    viewer.feed(&out[0].bytes);
    let frame = viewer.update().unwrap().unwrap();
    assert_eq!(frame.frame_index, 0);
    assert_eq!(frame.platform_output, vec![1, 2, 3]);
    assert_eq!(frame.textures_delta, vec![9, 9]);
    assert_eq!(viewer.last_frame_index, 0);
    // Only the mesh primitive crossed the wire; its fields are exact.
    assert_eq!(frame.clipped_net_mesh.len(), 1);
    let prims = into_clipped_primitives(frame.clipped_net_mesh);
    assert_eq!(
        prims,
        vec![ClippedPrimitive { clip_rect: clip(), primitive: Primitive::Mesh(sample_mesh()) }],
    );
}

#[test]
fn partial_reads_are_reassembled_losslessly() {
    let mut server: Server<TestEngine> = Server::new();
    server.connect(addr_a(), TestEngine::new(), 0);
    let out = server.show(0);
    let bytes = &out[0].bytes;
    let mut viewer = Client::new();
    // Feed one byte at a time: no frame until the last byte arrives.
    for i in 0..bytes.len() - 1 {
        viewer.feed(&vec![bytes[i]]);
        assert!(viewer.update().unwrap().is_none());
    }
    viewer.feed(&vec![bytes[bytes.len() - 1]]);
    let frame = viewer.update().unwrap().unwrap();
    assert_eq!(frame.frame_index, 0);
}

#[test]
fn viewer_rejects_malformed_records() {
    let mut viewer = Client::new();
    // Length prefix far beyond the permitted payload bound.
    viewer.feed(&vec![0xff, 0xff, 0xff, 0xff]);
    assert!(viewer.update().is_err());
    let mut viewer2 = Client::new();
    // Unknown payload tag.
    viewer2.feed(&vec![1, 0, 0, 0, 42]);
    assert!(viewer2.update().is_err());
}

#[test]
fn input_record_round_trips_through_the_server_codec() {
    let mut server: Server<TestEngine> = Server::new();
    server.connect(addr_a(), TestEngine::new(), 0);
    server.show(0);
    let client = Client::new();
    let mut delta = input_with_events(vec![
        key_event(5),
        InputEvent::Text(b"abc".to_vec()),
        InputEvent::PointerButton {
            pos: Pos { x: 10, y: 20 },
            button: 1,
            pressed: true,
            modifiers: Modifiers { alt: true, ctrl: false, shift: true, mac_cmd: false,
                command: false },
        },
        InputEvent::Scroll { dx: 3, dy: 4 },
    ]);
    delta.pointer_pos = Some(Pos { x: 100, y: 200 });
    delta.screen_rect = Some(clip());
    delta.pixels_per_point = Some(0x3fc00000);
    delta.time = Some(0x3ff0000000000000);
    let bytes = client.send_input(delta.clone(), 0x4000000000000000).unwrap();
    // Split across two receives to exercise reassembly on the server too.
    let (first, second) = bytes.split_at(bytes.len() / 2);
    server.receive(addr_a(), &first.to_vec(), 16);
    server.receive(addr_a(), &second.to_vec(), 16);
    assert_eq!(server.is_connected(addr_a()), Some(true));
    assert_eq!(server.sessions[0].new_input, Some(delta));
    assert_eq!(server.sessions[0].last_client_time, Some(0x4000000000000000));
}

#[test]
fn two_inputs_between_ticks_reach_one_frame_coalesced() {
    let mut server: Server<TestEngine> = Server::new();
    server.connect(addr_a(), TestEngine::new(), 0);
    server.show(0);
    let client = Client::new();
    let b1 = client.send_input(input_with_events(vec![key_event(1)]), 1).unwrap();
    let b2 = client.send_input(input_with_events(vec![key_event(2)]), 2).unwrap();
    server.receive(addr_a(), &b1, 16);
    server.receive(addr_a(), &b2, 16);
    let out = server.show(SEC);
    assert_eq!(out.len(), 1);
    // Both keystrokes reached the engine, in one frame.
    assert_eq!(server.sessions[0].engine.runs, 2);
    assert_eq!(server.sessions[0].engine.seen_events, 2);
    assert_eq!(server.sessions[0].new_input, None);
}

#[test]
fn engine_sees_the_session_clock() {
    let mut server: Server<TestEngine> = Server::new();
    server.connect(addr_a(), TestEngine::new(), 5 * SEC);
    server.show(5 * SEC);
    assert_eq!(server.sessions[0].engine.last_server_time, 0);
    server.show(7 * SEC);
    assert_eq!(server.sessions[0].engine.last_server_time, 2 * SEC);
}

#[test]
fn separate_addresses_get_separate_sessions() {
    let mut server: Server<TestEngine> = Server::new();
    server.connect(addr_a(), TestEngine::new(), 0);
    server.connect(addr_b(), TestEngine::new(), 0);
    assert_eq!(server.session_count(), 2);
    assert_ne!(
        server.client_id_of(addr_a()).unwrap(),
        server.client_id_of(addr_b()).unwrap(),
    );
    let out = server.show(0);
    assert_eq!(out.len(), 2);
}

#[test]
fn same_delta_tracks_field_for_field_equality() {
    let a = input_with_events(vec![key_event(1), InputEvent::Text(b"x".to_vec())]);
    let b = input_with_events(vec![key_event(1), InputEvent::Text(b"x".to_vec())]);
    assert!(eterm::input::same_delta(&a, &b));
    let mut c = b.clone();
    c.pointer_pos = Some(Pos { x: 1, y: 2 });
    assert!(!eterm::input::same_delta(&a, &c));
    let d = input_with_events(vec![key_event(1), InputEvent::Text(b"y".to_vec())]);
    assert!(!eterm::input::same_delta(&a, &d));
    let e = input_with_events(vec![key_event(1)]);
    assert!(!eterm::input::same_delta(&a, &e));
}

#[test]
fn fresh_server_and_session_identifiers_start_at_zero() {
    let mut server: Server<TestEngine> = Server::new();
    assert_eq!(server.next_client_id, 0);
    server.connect(addr_a(), TestEngine::new(), 0);
    assert_eq!(server.client_id_of(addr_a()).unwrap(), eterm::server::ClientId(0));
    server.connect(addr_b(), TestEngine::new(), 0);
    assert_eq!(server.client_id_of(addr_b()).unwrap(), eterm::server::ClientId(1));
    assert_eq!(server.next_client_id, 2);
}
