use keyring_proxy::config::{AuthHeader, Config};
use keyring_proxy::state::AppState;

fn config(keys: &[&str]) -> Config {
    Config {
        listen: "127.0.0.1:8080".to_string(),
        upstream: "https://up".to_string(),
        auth_header: AuthHeader::XApiKey,
        keys: keys.iter().map(|k| k.to_string()).collect(),
        exhaustion_markers: vec![],
        failover_statuses: vec![],
    }
}

#[test]
fn fresh_state() {
    let state = AppState::new(config(&["a", "b", "c"]));
    assert_eq!(state.key_count(), 3);
    assert_eq!(state.active_index(), 0);
    assert_eq!(state.key_at(2), "c");
    assert_eq!(state.config().upstream, "https://up");
    let snapshot = state.snapshot();
    assert_eq!(snapshot.active_key_index, 0);
    assert_eq!(snapshot.total_keys, 3);
    assert_eq!(snapshot.requests_total, 0);
    assert_eq!(snapshot.failovers_total, 0);
    for (i, status) in snapshot.per_key.iter().enumerate() {
        assert_eq!((status.index, status.requests, status.failovers), (i, 0, 0));
    }
}

#[test]
fn requests_are_counted_for_each_key() {
    let mut state = AppState::new(config(&["a", "b"]));
    state.record_request(1);
    state.record_request(0);
    state.record_request(1);
    let snapshot = state.snapshot();
    assert_eq!(snapshot.requests_total, 3);
    assert_eq!(snapshot.per_key[0].requests, 1);
    assert_eq!(snapshot.per_key[1].requests, 2);
    assert_eq!(snapshot.active_key_index, 0);
    assert_eq!(snapshot.failovers_total, 0);
}

#[test]
fn refusals_of_one_key_move_the_ring_once() {
    let mut state = AppState::new(config(&["a", "b", "c"]));
    assert_eq!(state.rotate_from(0), 1);
    state.record_request(1);
    assert_eq!(state.rotate_from(0), 1);
    assert_eq!(state.rotate_from(0), 1);
    let snapshot = state.snapshot();
    assert_eq!(snapshot.active_key_index, 1);
    assert_eq!(snapshot.failovers_total, 1);
    assert_eq!(snapshot.per_key[0].failovers, 1);
    assert_eq!(snapshot.per_key[1].failovers, 0);
}

#[test]
fn a_position_outside_the_ring_moves_nothing() {
    let mut state = AppState::new(config(&["a", "b"]));
    assert_eq!(state.rotate_from(7), 0);
    assert_eq!(state.snapshot().failovers_total, 0);
}

#[test]
fn refusals_walk_the_ring_and_come_back() {
    let mut state = AppState::new(config(&["a", "b", "c"]));
    assert_eq!(state.rotate_from(0), 1);
    assert_eq!(state.rotate_from(1), 2);
    assert_eq!(state.rotate_from(2), 0);
    let snapshot = state.snapshot();
    assert_eq!(snapshot.failovers_total, 3);
    assert!(snapshot.per_key.iter().all(|status| status.failovers == 1));
}

#[test]
fn a_single_key_stays_active() {
    let mut state = AppState::new(config(&["a"]));
    assert_eq!(state.rotate_from(0), 0);
    assert_eq!(state.rotate_from(0), 0);
    assert_eq!(state.snapshot().failovers_total, 2);
}

#[test]
fn counting_commutes_with_refusals() {
    let mut one = AppState::new(config(&["a", "b"]));
    one.record_request(0);
    one.rotate_from(0);
    let mut two = AppState::new(config(&["a", "b"]));
    two.rotate_from(0);
    two.record_request(0);
    assert_eq!(format!("{:?}", one.snapshot()), format!("{:?}", two.snapshot()));
}
