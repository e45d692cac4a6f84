use lockstep::playout::ServerPlayoutBuffer;

fn bytes(s: &str) -> Vec<u8> {
    s.as_bytes().to_vec()
}

#[test]
fn merge_orders_by_client_id_ascending() {
    let mut buf = ServerPlayoutBuffer::new(4);
    // arrival order reversed on purpose
    buf.insert_input(2, 5, bytes("y"));
    buf.insert_input(1, 5, bytes("x"));
    let merged = buf.consume();
    assert_eq!(buf.consumed_frame, 5);
    assert_eq!(merged, vec![(1, bytes("x")), (2, bytes("y"))]);
}

#[test]
fn determinism_same_ops_same_stream() {
    let mut a = ServerPlayoutBuffer::new(0);
    let mut b = ServerPlayoutBuffer::new(0);
    let ops: Vec<(u64, u64, &str)> = vec![
        (3, 1, "p"),
        (1, 1, "q"),
        (2, 2, "r"),
        (1, 2, "s"),
        (2, 1, "t"),
    ];
    for (client, frame, data) in &ops {
        a.insert_input(*client, *frame, bytes(data));
    }
    for (client, frame, data) in &ops {
        b.insert_input(*client, *frame, bytes(data));
    }
    a.disconnected(2);
    b.disconnected(2);
    for _ in 0..3 {
        let ma = a.consume();
        let mb = b.consume();
        assert_eq!(ma, mb);
    }
    assert_eq!(a.consumed_frame, b.consumed_frame);
}

#[test]
fn no_frame_gaps_in_merged_stream() {
    let mut buf = ServerPlayoutBuffer::new(0);
    buf.insert_input(1, 2, bytes("a"));
    buf.insert_input(1, 4, bytes("b"));
    for _ in 0..5 {
        buf.consume();
    }
    assert_eq!(buf.consumed_frame, 5);
    // every frame from 1 to 5 exists exactly once in the retained stream
    let frames = buf.frames_since(0);
    assert_eq!(frames.len(), 5);
    for (i, f) in frames.iter().enumerate() {
        assert_eq!(f.frame, 1 + i as u64);
    }
    assert_eq!(frames[1].inputs, vec![(1, bytes("a"))]);
    assert_eq!(frames[2].inputs, Vec::new());
    assert_eq!(frames[3].inputs, vec![(1, bytes("b"))]);
}

#[test]
fn missing_input_does_not_block_merge() {
    // client 7 never sends input for frame 1; client 9 does
    let mut buf = ServerPlayoutBuffer::new(0);
    buf.insert_input(9, 1, bytes("present"));
    let merged = buf.consume();
    assert_eq!(buf.consumed_frame, 1);
    assert_eq!(merged, vec![(9, bytes("present"))]);
    assert!(merged.iter().all(|(c, _)| *c != 7));
}

#[test]
fn later_duplicate_replaces_pending_input() {
    let mut buf = ServerPlayoutBuffer::new(0);
    buf.insert_input(1, 1, bytes("first"));
    buf.insert_input(1, 1, bytes("second"));
    let merged = buf.consume();
    assert_eq!(merged, vec![(1, bytes("second"))]);
}

#[test]
fn input_for_merged_frame_is_dropped() {
    let mut buf = ServerPlayoutBuffer::new(0);
    let m1 = buf.consume();
    assert_eq!(m1, Vec::new());
    // frame 1 is already merged and immutable
    buf.insert_input(1, 1, bytes("late"));
    assert!(!buf.has_pending_for(1));
}

#[test]
fn input_beyond_horizon_is_dropped() {
    let mut buf = ServerPlayoutBuffer::new(0);
    buf.insert_input(1, 65, bytes("too far"));
    assert!(!buf.has_pending_for(1));
    buf.insert_input(1, 64, bytes("just inside"));
    assert!(buf.has_pending_for(1));
}

#[test]
fn disconnect_purges_pending_and_is_idempotent() {
    let mut buf = ServerPlayoutBuffer::new(0);
    buf.insert_input(5, 1, bytes("a"));
    buf.insert_input(5, 2, bytes("b"));
    buf.insert_input(6, 1, bytes("c"));
    assert!(buf.has_pending_for(5));
    buf.disconnected(5);
    assert!(!buf.has_pending_for(5));
    assert!(buf.has_pending_for(6));
    buf.disconnected(5);
    assert!(!buf.has_pending_for(5));
    let merged = buf.consume();
    assert_eq!(merged, vec![(6, bytes("c"))]);
}

#[test]
fn lag_follows_distance_and_window() {
    let mut buf = ServerPlayoutBuffer::new(0);
    for _ in 0..10 {
        buf.consume();
    }
    assert_eq!(buf.lag(10), Some(0));
    assert_eq!(buf.lag(7), Some(3));
    assert_eq!(buf.lag(0), Some(10));
    // an acknowledgment from the future is outside the window
    assert_eq!(buf.lag(11), None);
}

#[test]
fn lag_is_none_once_outside_retained_window() {
    let mut buf = ServerPlayoutBuffer::new(0);
    for _ in 0..64 {
        buf.consume();
    }
    // distance 64 can no longer be served next tick: eviction signal
    assert_eq!(buf.lag(0), None);
    assert_eq!(buf.lag(1), Some(63));
}
