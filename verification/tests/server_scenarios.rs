use lockstep::server::ClientReliablePacket;
use lockstep::server::ClientUnreliablePacket;
use lockstep::server::ReliableOutcome;
use lockstep::server::ServerConfiguration;
use lockstep::server::ServerCore;
use lockstep::server::TickOutput;

const PERIOD: u64 = 1000;

fn core_at(start_frame: u64) -> ServerCore {
    ServerCore::new(ServerConfiguration { start_frame, period_micros: PERIOD, port: None })
}

fn bytes(s: &str) -> Vec<u8> {
    s.as_bytes().to_vec()
}

/// Walk one client through the whole join protocol until it is `Playing`
/// with its unreliable endpoint bound.
fn join(core: &mut ServerCore, reliable: u64, unreliable: u64, name: &str) -> u64 {
    let id = match core.message_reliable(
        reliable,
        ClientReliablePacket::Connect { name: name.to_string() },
    ) {
        ReliableOutcome::Accepted { id } => id,
        other => panic!("connect refused: {:?}", other),
    };
    assert!(core.begin_world_send(id, bytes("snapshot")));
    loop {
        let (chunk, _) = core.poll_transfers(id);
        if chunk.is_none() {
            break;
        }
        match core.message_reliable(reliable, ClientReliablePacket::WorldAck) {
            ReliableOutcome::WorldComplete => break,
            ReliableOutcome::Advanced => {}
            other => panic!("unexpected world ack outcome: {:?}", other),
        }
    }
    let mut outcome = core.message_reliable(reliable, ClientReliablePacket::BeginCatchUp);
    while outcome != ReliableOutcome::CaughtUp {
        assert_eq!(outcome, ReliableOutcome::Advanced);
        let (_, batch) = core.poll_transfers(id);
        assert!(batch.is_some());
        outcome = core.message_reliable(reliable, ClientReliablePacket::CatchUpAck);
    }
    assert_eq!(
        core.message_reliable(reliable, ClientReliablePacket::ReadyToPlayAck),
        ReliableOutcome::Advanced,
    );
    assert!(core.message_unreliable(unreliable, ClientUnreliablePacket::Connection { id }));
    id
}

fn tick_once(core: &mut ServerCore) -> TickOutput {
    core.begin_poll(PERIOD);
    core.next_tick().expect("a frame should be due")
}

#[test]
fn two_clients_merge_one_frame() {
    let mut core = core_at(4);
    let id1 = join(&mut core, 1, 101, "alice");
    let id2 = join(&mut core, 2, 102, "bob");
    assert!(id1 < id2);
    // client 2's input arrives first; the merge still orders by client id
    assert!(core.message_unreliable(
        102,
        ClientUnreliablePacket::Input { input: vec![(5, bytes("y"))], ack_frame: 4 },
    ));
    assert!(core.message_unreliable(
        101,
        ClientUnreliablePacket::Input { input: vec![(5, bytes("x"))], ack_frame: 4 },
    ));
    let out = tick_once(&mut core);
    assert_eq!(out.frame, 5);
    assert_eq!(out.merged, vec![(id1, bytes("x")), (id2, bytes("y"))]);
    assert!(out.evicted.is_empty());
    // both playing clients get the merged frame on their unreliable channel
    assert_eq!(out.broadcasts.len(), 2);
    for (_, packet) in &out.broadcasts {
        assert_eq!(packet.len(), 1);
        assert_eq!(packet[0].frame, 5);
        assert_eq!(packet[0].inputs, vec![(id1, bytes("x")), (id2, bytes("y"))]);
    }
    let endpoints: Vec<u64> = out.broadcasts.iter().map(|b| b.0).collect();
    assert_eq!(endpoints, vec![101, 102]);
}

#[test]
fn late_joiner_catches_up_then_goes_live() {
    let mut core = core_at(0);
    let id1 = join(&mut core, 1, 101, "alice");
    join(&mut core, 2, 102, "bob");
    // frames 1..=10 are merged before the third client appears
    for k in 1..=10u64 {
        let out = tick_once(&mut core);
        assert_eq!(out.frame, k);
    }
    // client 3 connects; its snapshot is taken at frame 10
    let id3 = match core.message_reliable(
        3,
        ClientReliablePacket::Connect { name: "carol".to_string() },
    ) {
        ReliableOutcome::Accepted { id } => id,
        other => panic!("connect refused: {:?}", other),
    };
    assert!(core.begin_world_send(id3, bytes("world at 10")));
    // while it downloads, play goes on: frames 11..=13, one with real input
    assert!(core.message_unreliable(
        101,
        ClientUnreliablePacket::Input { input: vec![(11, bytes("k"))], ack_frame: 10 },
    ));
    for k in 11..=13u64 {
        let out = tick_once(&mut core);
        assert_eq!(out.frame, k);
    }
    // download completes
    let (chunk, _) = core.poll_transfers(id3);
    assert_eq!(chunk, Some(bytes("world at 10")));
    assert_eq!(
        core.message_reliable(3, ClientReliablePacket::WorldAck),
        ReliableOutcome::WorldComplete,
    );
    // catch-up replays exactly frames 11..=13, in order
    assert_eq!(
        core.message_reliable(3, ClientReliablePacket::BeginCatchUp),
        ReliableOutcome::Advanced,
    );
    let (_, batch) = core.poll_transfers(id3);
    let batch = batch.expect("replay batch expected");
    let frames: Vec<u64> = batch.iter().map(|m| m.frame).collect();
    assert_eq!(frames, vec![11, 12, 13]);
    assert_eq!(batch[0].inputs, vec![(id1, bytes("k"))]);
    assert_eq!(batch[1].inputs, Vec::new());
    assert_eq!(
        core.message_reliable(3, ClientReliablePacket::CatchUpAck),
        ReliableOutcome::CaughtUp,
    );
    assert_eq!(
        core.message_reliable(3, ClientReliablePacket::ReadyToPlayAck),
        ReliableOutcome::Advanced,
    );
    assert!(core.message_unreliable(103, ClientUnreliablePacket::Connection { id: id3 }));
    // live broadcasts reach the new client only from the next tick onward
    let out = tick_once(&mut core);
    assert_eq!(out.frame, 14);
    let to_carol: Vec<&(u64, Vec<lockstep::playout::MergedFrame>)> =
        out.broadcasts.iter().filter(|b| b.0 == 103).collect();
    assert_eq!(to_carol.len(), 1);
    let last = to_carol[0].1.last().expect("at least the new frame");
    assert_eq!(last.frame, 14);
}

#[test]
fn lagging_client_is_evicted_and_leaves_no_state() {
    let mut core = core_at(0);
    let id_a = join(&mut core, 1, 101, "alice");
    let id_b = join(&mut core, 2, 102, "bob");
    // alice keeps acknowledging; bob goes silent at ack 0
    let mut evicted: Vec<(u64, u64)> = Vec::new();
    for _ in 0..70 {
        core.begin_poll(PERIOD);
        while let Some(out) = core.next_tick() {
            evicted.extend(out.evicted.iter().copied());
        }
        let current = core.buffer.consumed_frame;
        core.message_unreliable(
            101,
            ClientUnreliablePacket::Input { input: vec![], ack_frame: current },
        );
    }
    assert_eq!(evicted, vec![(id_b, 2)]);
    assert!(core.authent.contains_id(id_a));
    // no component retains state for the evicted client
    assert!(!core.authent.contains_id(id_b));
    assert!(!core.catchup.contains(id_b));
    assert!(!core.worldsend.contains(id_b));
    assert!(!core.buffer.has_pending_for(id_b));
    // a later transport-level disconnect of the same endpoint is a no-op
    assert_eq!(core.disconnect(2, true), None);
}

#[test]
fn disconnect_cleans_every_component_and_is_idempotent() {
    let mut core = core_at(0);
    let id = match core.message_reliable(
        1,
        ClientReliablePacket::Connect { name: "alice".to_string() },
    ) {
        ReliableOutcome::Accepted { id } => id,
        other => panic!("connect refused: {:?}", other),
    };
    assert!(core.begin_world_send(id, bytes("big world")));
    assert!(core.message_unreliable(101, ClientUnreliablePacket::Connection { id }));
    assert!(core.message_unreliable(
        101,
        ClientUnreliablePacket::Input { input: vec![(1, bytes("i"))], ack_frame: 0 },
    ));
    assert!(core.authent.contains_id(id));
    assert!(core.catchup.contains(id));
    assert!(core.worldsend.contains(id));
    assert!(core.buffer.has_pending_for(id));
    assert_eq!(core.disconnect(1, true), Some(id));
    assert!(!core.authent.contains_id(id));
    assert!(!core.catchup.contains(id));
    assert!(!core.worldsend.contains(id));
    assert!(!core.buffer.has_pending_for(id));
    assert_eq!(core.disconnect(1, true), None);
}

#[test]
fn unreliable_disconnect_reports_are_ignored() {
    let mut core = core_at(0);
    let id = join(&mut core, 1, 101, "alice");
    assert_eq!(core.disconnect(101, false), None);
    assert!(core.authent.contains_id(id));
}

#[test]
fn connect_rejections_leave_no_trace() {
    let mut core = core_at(0);
    join(&mut core, 1, 101, "alice");
    match core.message_reliable(2, ClientReliablePacket::Connect { name: "alice".to_string() }) {
        ReliableOutcome::Rejected { .. } => {}
        other => panic!("expected rejection, got {:?}", other),
    }
    assert_eq!(core.authent.clients.len(), 1);
}

#[test]
fn idle_server_does_not_tick() {
    let mut core = core_at(0);
    // nobody is playing yet: time passes but no frame is produced
    core.begin_poll(10 * PERIOD);
    assert!(core.next_tick().is_none());
    join(&mut core, 1, 101, "alice");
    // the idle time was not accumulated
    assert!(core.next_tick().is_none());
    core.begin_poll(PERIOD);
    assert!(core.next_tick().is_some());
    assert!(core.next_tick().is_none());
}

#[test]
fn inputs_from_unbound_endpoints_are_dropped() {
    let mut core = core_at(0);
    join(&mut core, 1, 101, "alice");
    assert!(!core.message_unreliable(
        999,
        ClientUnreliablePacket::Input { input: vec![(1, bytes("evil"))], ack_frame: 0 },
    ));
    let out = tick_once(&mut core);
    assert_eq!(out.merged, Vec::new());
}
