use openvpn_notifier::controller::{
    ClientController, Controller, Event, PollError, CRITICAL_FAILURE_COUNT,
};
use openvpn_notifier::records::ClientRecord;

fn record(identity: &str, address: &str, since: i64, received: u64, sent: u64) -> ClientRecord {
    ClientRecord {
        identity: identity.to_string(),
        network_address: address.to_string(),
        connected_since: since,
        bytes_received: received,
        bytes_sent: sent,
    }
}

#[test]
fn test_client_connected() {
    let mut controller = Controller::new(Vec::new(), CRITICAL_FAILURE_COUNT);
    let polled = vec![record("test-client", "127.0.0.1", 1_546_277_714, 100, 200)];
    let events = controller.update_connected_clients(Ok(polled));
    assert_eq!(events.len(), 1);
    match &events[0] {
        Event::Connected(c) => {
            assert_eq!(c.identity, "test-client");
            assert_eq!(c.network_address, "127.0.0.1");
            assert_eq!(c.connected_since, 1_546_277_714);
            assert_eq!(c.bytes_received, 100);
            assert_eq!(c.bytes_sent, 200);
        }
        _ => panic!("expected a connect event"),
    }
}

#[test]
fn test_client_disconnected() {
    let stored = vec![record("test-client", "127.0.0.1", 1_546_277_714, 100, 200)];
    let mut controller = Controller::new(stored, CRITICAL_FAILURE_COUNT);
    let events = controller.update_connected_clients(Ok(Vec::new()));
    assert_eq!(events.len(), 1);
    match &events[0] {
        Event::Disconnected(c) => {
            assert_eq!(c.identity, "test-client");
            assert_eq!(c.network_address, "127.0.0.1");
        }
        _ => panic!("expected a disconnect event"),
    }
}

#[test]
fn test_client_alert() {
    let mut controller = Controller::new(Vec::new(), CRITICAL_FAILURE_COUNT);
    for _ in 0..CRITICAL_FAILURE_COUNT - 1 {
        let events = controller.update_connected_clients(Err(PollError::ConnectionFailed));
        assert_eq!(events.len(), 0);
    }
    let events = controller.update_connected_clients(Err(PollError::ConnectionFailed));
    assert_eq!(events.len(), 1);
    assert!(matches!(events[0], Event::EscalationAlert));
}

#[test]
fn first_poll_connects_one_client() {
    // An empty stored roster and one polled record: one connect event with
    // the polled fields, and the roster holds exactly that record afterward.
    let mut controller = Controller::new(Vec::new(), CRITICAL_FAILURE_COUNT);
    let polled = vec![record("alice", "10.0.0.5", 1_600_000_000, 100, 200)];
    let events = controller.update_connected_clients(Ok(polled));
    assert_eq!(events.len(), 1);
    match &events[0] {
        Event::Connected(c) => {
            assert_eq!(c.identity, "alice");
            assert_eq!(c.network_address, "10.0.0.5");
            assert_eq!(c.connected_since, 1_600_000_000);
            assert_eq!(c.bytes_received, 100);
            assert_eq!(c.bytes_sent, 200);
        }
        _ => panic!("expected a connect event"),
    }
    let roster = controller.current_roster();
    assert_eq!(roster.len(), 1);
    assert_eq!(roster[0].identity, "alice");
}

#[test]
fn empty_poll_disconnects_stored_client() {
    // One stored record and an empty poll: one disconnect event carrying the
    // old record, and an empty roster afterward.
    let stored = vec![record("alice", "10.0.0.5", 1_600_000_000, 100, 200)];
    let mut controller = Controller::new(stored, CRITICAL_FAILURE_COUNT);
    let events = controller.update_connected_clients(Ok(Vec::new()));
    assert_eq!(events.len(), 1);
    match &events[0] {
        Event::Disconnected(c) => {
            assert_eq!(c.identity, "alice");
            assert_eq!(c.network_address, "10.0.0.5");
            assert_eq!(c.connected_since, 1_600_000_000);
            assert_eq!(c.bytes_received, 100);
            assert_eq!(c.bytes_sent, 200);
        }
        _ => panic!("expected a disconnect event"),
    }
    assert_eq!(controller.current_roster().len(), 0);
}

#[test]
fn alert_fires_exactly_at_threshold() {
    // Three consecutive failures with threshold three: no alert on the first
    // two, one alert on the third, none on the fourth.
    let mut controller = Controller::new(Vec::new(), 3);
    assert_eq!(
        controller
            .update_connected_clients(Err(PollError::ConnectionFailed))
            .len(),
        0
    );
    assert_eq!(
        controller
            .update_connected_clients(Err(PollError::MalformedResponse))
            .len(),
        0
    );
    let third = controller.update_connected_clients(Err(PollError::ConnectionFailed));
    assert_eq!(third.len(), 1);
    assert!(matches!(third[0], Event::EscalationAlert));
    let fourth = controller.update_connected_clients(Err(PollError::ConnectionFailed));
    assert_eq!(fourth.len(), 0);
    assert_eq!(controller.failure_count(), 4);
}

#[test]
fn success_rearms_escalation() {
    // A success resets the counter, so a fresh streak alerts again at the
    // threshold.
    let mut controller = Controller::new(Vec::new(), 2);
    controller.update_connected_clients(Err(PollError::ConnectionFailed));
    let alerted = controller.update_connected_clients(Err(PollError::ConnectionFailed));
    assert_eq!(alerted.len(), 1);
    let events = controller.update_connected_clients(Ok(Vec::new()));
    assert_eq!(events.len(), 0);
    assert_eq!(controller.failure_count(), 0);
    controller.update_connected_clients(Err(PollError::ConnectionFailed));
    let again = controller.update_connected_clients(Err(PollError::ConnectionFailed));
    assert_eq!(again.len(), 1);
    assert!(matches!(again[0], Event::EscalationAlert));
}

#[test]
fn identical_roster_produces_no_events() {
    // Polling twice with the same client set: the second poll emits nothing,
    // even though a byte counter changed.
    let stored = vec![
        record("alice", "10.0.0.5", 1_600_000_000, 100, 200),
        record("bob", "10.0.0.6", 1_600_000_100, 5, 6),
    ];
    let mut controller = Controller::new(stored, 3);
    let polled = vec![
        record("alice", "10.0.0.5", 1_600_000_000, 999, 200),
        record("bob", "10.0.0.6", 1_600_000_100, 5, 6),
    ];
    let events = controller.update_connected_clients(Ok(polled));
    assert_eq!(events.len(), 0);
}

#[test]
fn disconnects_come_before_connects() {
    // One record leaves and one arrives in the same tick: the disconnect
    // event is emitted first.
    let stored = vec![record("alice", "10.0.0.5", 1, 1, 1)];
    let mut controller = Controller::new(stored, 3);
    let polled = vec![record("bob", "10.0.0.6", 2, 2, 2)];
    let events = controller.update_connected_clients(Ok(polled));
    assert_eq!(events.len(), 2);
    assert!(matches!(&events[0], Event::Disconnected(c) if c.identity == "alice"));
    assert!(matches!(&events[1], Event::Connected(c) if c.identity == "bob"));
}

#[test]
fn failure_keeps_roster() {
    // A failed poll never touches the stored roster.
    let stored = vec![record("alice", "10.0.0.5", 1, 1, 1)];
    let mut controller = Controller::new(stored, 3);
    controller.update_connected_clients(Err(PollError::ConnectionFailed));
    assert_eq!(controller.current_roster().len(), 1);
    assert_eq!(controller.current_roster()[0].identity, "alice");
}

#[test]
fn success_replaces_roster_wholly() {
    // After a successful poll the stored roster equals the polled one,
    // whatever stood there before.
    let stored = vec![
        record("alice", "10.0.0.5", 1, 1, 1),
        record("bob", "10.0.0.6", 2, 2, 2),
    ];
    let mut controller = Controller::new(stored, 3);
    let polled = vec![record("carol", "10.0.0.7", 3, 3, 3)];
    controller.update_connected_clients(Ok(polled));
    let roster = controller.current_roster();
    assert_eq!(roster.len(), 1);
    assert_eq!(roster[0].identity, "carol");
    assert_eq!(roster[0].network_address, "10.0.0.7");
}
