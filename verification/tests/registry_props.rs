use lockstep::authent::Authent;
use lockstep::authent::AuthentResponse;
use lockstep::authent::ClientGameState;
use lockstep::authent::RejectReason;
use lockstep::authent::MAX_CLIENTS;
use lockstep::settings::AutoSaveEvery;
use lockstep::settings::ShadowQuality;
use lockstep::settings::VSyncOptions;

fn accept(a: &mut Authent, endpoint: u64, name: &str) -> u64 {
    match a.authenticate(endpoint, name.to_string(), 0) {
        AuthentResponse::Accepted { id } => id,
        AuthentResponse::Rejected { .. } => panic!("expected acceptance"),
    }
}

#[test]
fn authenticate_assigns_fresh_ids() {
    let mut a = Authent::new();
    let id1 = accept(&mut a, 10, "alice");
    let id2 = accept(&mut a, 11, "bob");
    assert_ne!(id1, id2);
    assert!(a.contains_id(id1));
    assert!(a.contains_id(id2));
}

#[test]
fn authenticate_rejects_duplicate_name() {
    let mut a = Authent::new();
    accept(&mut a, 10, "alice");
    match a.authenticate(11, "alice".to_string(), 0) {
        AuthentResponse::Rejected { reason } => assert_eq!(reason, RejectReason::NameInUse),
        AuthentResponse::Accepted { .. } => panic!("duplicate name accepted"),
    }
}

#[test]
fn authenticate_rejects_endpoint_in_use() {
    let mut a = Authent::new();
    accept(&mut a, 10, "alice");
    match a.authenticate(10, "bob".to_string(), 0) {
        AuthentResponse::Rejected { reason } => assert_eq!(reason, RejectReason::EndpointInUse),
        AuthentResponse::Accepted { .. } => panic!("endpoint reuse accepted"),
    }
}

#[test]
fn authenticate_rejects_when_full() {
    let mut a = Authent::new();
    for k in 0..MAX_CLIENTS {
        accept(&mut a, 100 + k as u64, &format!("user{}", k));
    }
    match a.authenticate(999, "overflow".to_string(), 0) {
        AuthentResponse::Rejected { reason } => assert_eq!(reason, RejectReason::Full),
        AuthentResponse::Accepted { .. } => panic!("accepted beyond capacity"),
    }
}

#[test]
fn bind_unreliable_once_per_endpoint() {
    let mut a = Authent::new();
    let id1 = accept(&mut a, 10, "alice");
    let id2 = accept(&mut a, 11, "bob");
    assert!(a.bind_unreliable(id1, 500));
    // the endpoint is taken now, even for another client
    assert!(!a.bind_unreliable(id2, 500));
    assert!(a.bind_unreliable(id2, 501));
    assert!(!a.bind_unreliable(77, 502));
}

#[test]
fn lifecycle_moves_one_step_forward_only() {
    let mut a = Authent::new();
    let id = accept(&mut a, 10, "alice");
    // skipping a stage is refused
    assert!(!a.set_state(id, ClientGameState::CatchingUp));
    assert!(!a.set_state(id, ClientGameState::Playing));
    // the chain itself is accepted one step at a time
    assert!(a.set_state(id, ClientGameState::Downloading));
    assert!(!a.set_state(id, ClientGameState::Downloading));
    assert!(a.set_state(id, ClientGameState::CatchingUp));
    // no move backward
    assert!(!a.set_state(id, ClientGameState::Connected));
    assert!(!a.set_state(id, ClientGameState::Downloading));
    assert!(a.set_state(id, ClientGameState::Playing));
    assert!(!a.set_state(id, ClientGameState::Playing));
    assert_eq!(a.clients[0].state, ClientGameState::Playing);
}

#[test]
fn disconnect_returns_session_and_is_idempotent() {
    let mut a = Authent::new();
    let id = accept(&mut a, 10, "alice");
    let gone = a.disconnect(10).expect("session should be returned");
    assert_eq!(gone.id, id);
    assert!(!a.contains_id(id));
    assert!(a.disconnect(10).is_none());
}

#[test]
fn playing_count_tracks_playing_sessions() {
    let mut a = Authent::new();
    let id = accept(&mut a, 10, "alice");
    accept(&mut a, 11, "bob");
    assert_eq!(a.playing_count(), 0);
    a.set_state(id, ClientGameState::Downloading);
    a.set_state(id, ClientGameState::CatchingUp);
    a.set_state(id, ClientGameState::Playing);
    assert_eq!(a.playing_count(), 1);
}

#[test]
fn shadow_quality_labels() {
    assert_eq!(ShadowQuality::NoShadows.as_ref(), "No Shadows");
    assert_eq!(ShadowQuality::Low.as_ref(), "Low");
    assert_eq!(ShadowQuality::Medium.as_ref(), "Medium");
    assert_eq!(ShadowQuality::High.as_ref(), "High");
}

#[test]
fn vsync_labels() {
    assert_eq!(VSyncOptions::NoVsync.as_ref(), "No VSync");
    assert_eq!(VSyncOptions::Vsync.as_ref(), "VSync Enabled");
    assert_eq!(VSyncOptions::LowLatencyVsync.as_ref(), "Low Latency VSync");
}

#[test]
fn auto_save_labels_and_periods() {
    assert_eq!(AutoSaveEvery::Never.as_ref(), "Never");
    assert_eq!(AutoSaveEvery::OneMinute.as_ref(), "Minute");
    assert_eq!(AutoSaveEvery::FiveMinutes.as_ref(), "Five Minutes");
    assert_eq!(AutoSaveEvery::Never.period_secs(), None);
    assert_eq!(AutoSaveEvery::OneMinute.period_secs(), Some(60));
    assert_eq!(AutoSaveEvery::FiveMinutes.period_secs(), Some(300));
}
