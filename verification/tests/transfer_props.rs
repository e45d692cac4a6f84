use lockstep::catchup::CatchUp;
use lockstep::catchup::CATCHUP_BATCH;
use lockstep::clock::FrameClock;
use lockstep::worldsend::WorldSend;
use lockstep::worldsend::WORLD_CHUNK;
use lockstep::worldsend::WORLD_MAX_INFLIGHT;

#[test]
fn world_chunks_reassemble_byte_exact() {
    let data: Vec<u8> = (0..10000u32).map(|i| (i % 251) as u8).collect();
    let mut ws = WorldSend::new();
    ws.begin_send(1, data.clone());
    let mut received: Vec<u8> = Vec::new();
    loop {
        if let Some(chunk) = ws.update(1) {
            assert!(chunk.len() <= WORLD_CHUNK);
            received.extend(chunk);
        } else {
            match ws.ack(1) {
                Some(true) => break,
                Some(false) => {}
                None => panic!("transfer vanished"),
            }
        }
    }
    assert_eq!(received, data);
}

#[test]
fn world_send_respects_inflight_cap() {
    let data: Vec<u8> = vec![9; WORLD_CHUNK * 8];
    let mut ws = WorldSend::new();
    ws.begin_send(1, data);
    let mut sent = 0;
    while ws.update(1).is_some() {
        sent += 1;
    }
    assert_eq!(sent, WORLD_MAX_INFLIGHT);
    assert_eq!(ws.ack(1), Some(false));
    assert!(ws.update(1).is_some());
}

#[test]
fn world_send_unknown_client_and_cleanup() {
    let mut ws = WorldSend::new();
    assert_eq!(ws.update(42), None);
    assert_eq!(ws.ack(42), None);
    ws.begin_send(42, vec![1, 2, 3]);
    assert!(ws.contains(42));
    ws.disconnected(42);
    assert!(!ws.contains(42));
    ws.disconnected(42);
    assert!(!ws.contains(42));
}

fn merged_of(client: u64, tag: u8) -> Vec<(u64, Vec<u8>)> {
    vec![(client, vec![tag])]
}

#[test]
fn catchup_replays_every_frame_once_in_order() {
    let mut cu = CatchUp::new(10);
    cu.begin_remembering(10, 7);
    for f in 11..=30u64 {
        cu.add_merged_inputs(f, merged_of(1, f as u8));
    }
    // kick off replay as the begin-catch-up acknowledgment does
    assert_eq!(cu.ack(7), Some(false));
    let mut got: Vec<u64> = Vec::new();
    loop {
        match cu.update(7) {
            Some(batch) => {
                assert!(batch.len() <= CATCHUP_BATCH);
                // one outstanding batch at a time
                assert!(cu.update(7).is_none());
                for mf in &batch {
                    assert_eq!(mf.inputs, merged_of(1, mf.frame as u8));
                    got.push(mf.frame);
                }
                match cu.ack(7) {
                    Some(true) => break,
                    Some(false) => {}
                    None => panic!("client vanished"),
                }
            }
            None => panic!("nothing to send but not caught up"),
        }
    }
    let expected: Vec<u64> = (11..=30).collect();
    assert_eq!(got, expected);
}

#[test]
fn catchup_with_empty_history_is_immediately_complete() {
    let mut cu = CatchUp::new(5);
    cu.begin_remembering(5, 3);
    assert_eq!(cu.ack(3), Some(true));
    assert!(cu.update(3).is_none());
}

#[test]
fn catchup_history_restarts_while_nobody_remembers() {
    let mut cu = CatchUp::new(0);
    cu.add_merged_inputs(1, merged_of(1, 1));
    cu.add_merged_inputs(2, merged_of(1, 2));
    // nobody was remembering, so nothing was retained
    cu.begin_remembering(2, 9);
    assert_eq!(cu.ack(9), Some(true));
}

#[test]
fn catchup_cleanup_is_idempotent() {
    let mut cu = CatchUp::new(0);
    cu.begin_remembering(0, 4);
    assert!(cu.contains(4));
    cu.disconnected(4);
    assert!(!cu.contains(4));
    cu.disconnected(4);
    assert!(!cu.contains(4));
    assert_eq!(cu.ack(4), None);
}

#[test]
fn clock_drains_whole_periods() {
    let mut clock = FrameClock::new(100);
    clock.advance(250);
    assert!(clock.try_tick());
    assert!(clock.try_tick());
    assert!(!clock.try_tick());
    clock.advance(50);
    assert!(clock.try_tick());
    assert!(!clock.try_tick());
}

#[test]
fn clock_saturates_instead_of_wrapping() {
    let mut clock = FrameClock::new(100);
    clock.advance(u64::MAX - 10);
    clock.advance(1000);
    assert_eq!(clock.acc_micros, u64::MAX);
    assert!(clock.try_tick());
}
