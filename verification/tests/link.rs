use peer_net::link::{Backoff, Link, LinkAction, LinkEvent, LinkState};

const POLICY: Backoff = Backoff { base_ms: 100, max_ms: 1_000 };

#[test]
fn delay_doubles_up_to_the_bound() {
    assert_eq!(POLICY.delay_ms(0), 100);
    assert_eq!(POLICY.delay_ms(1), 200);
    assert_eq!(POLICY.delay_ms(2), 400);
    assert_eq!(POLICY.delay_ms(3), 800);
    assert_eq!(POLICY.delay_ms(4), 1_000);
    assert_eq!(POLICY.delay_ms(5), 1_000);
    assert_eq!(POLICY.delay_ms(u32::MAX), 1_000);
}

#[test]
fn delay_with_odd_policies() {
    assert_eq!(Backoff { base_ms: 0, max_ms: 50 }.delay_ms(1_000_000), 0);
    assert_eq!(Backoff { base_ms: 70, max_ms: 50 }.delay_ms(0), 50);
    assert_eq!(Backoff { base_ms: 70, max_ms: 50 }.delay_ms(9), 50);
    assert_eq!(Backoff { base_ms: 1, max_ms: u64::MAX }.delay_ms(63), 1 << 63);
    assert_eq!(Backoff { base_ms: 1, max_ms: u64::MAX }.delay_ms(64), u64::MAX);
    assert_eq!(Backoff { base_ms: 3, max_ms: u64::MAX }.delay_ms(u32::MAX), u64::MAX);
}

#[test]
fn link_goes_round_the_states() {
    let mut link = Link::new();
    assert_eq!(link.state, LinkState::Disconnected);
    assert_eq!(link.on_event(LinkEvent::RetryDue, &POLICY), LinkAction::Dial);
    assert_eq!(link.state, LinkState::Connecting);
    assert_eq!(link.on_event(LinkEvent::DialSucceeded, &POLICY), LinkAction::Pump);
    assert_eq!(link.state, LinkState::Connected);
    assert_eq!(link.on_event(LinkEvent::ConnectionLost, &POLICY), LinkAction::Backoff(100));
    assert_eq!(link.state, LinkState::Disconnected);
    assert_eq!(link.failures, 1);
}

#[test]
fn failed_attempts_wait_longer_and_success_forgets_them() {
    let mut link = Link::new();
    for expected in [100u64, 200, 400, 800, 1_000, 1_000] {
        assert_eq!(link.on_event(LinkEvent::RetryDue, &POLICY), LinkAction::Dial);
        assert_eq!(link.on_event(LinkEvent::DialFailed, &POLICY), LinkAction::Backoff(expected));
        assert_eq!(link.state, LinkState::Disconnected);
    }
    assert_eq!(link.failures, 6);
    assert_eq!(link.on_event(LinkEvent::RetryDue, &POLICY), LinkAction::Dial);
    assert_eq!(link.on_event(LinkEvent::DialSucceeded, &POLICY), LinkAction::Pump);
    assert_eq!(link, Link { state: LinkState::Connected, failures: 0 });
}

#[test]
fn no_second_dial_while_one_is_under_way_or_up() {
    let mut link = Link::new();
    assert_eq!(link.on_event(LinkEvent::RetryDue, &POLICY), LinkAction::Dial);
    assert_eq!(link.on_event(LinkEvent::RetryDue, &POLICY), LinkAction::Nothing);
    assert_eq!(link.state, LinkState::Connecting);
    link.on_event(LinkEvent::DialSucceeded, &POLICY);
    assert_eq!(link.on_event(LinkEvent::RetryDue, &POLICY), LinkAction::Nothing);
    assert_eq!(link.on_event(LinkEvent::DialSucceeded, &POLICY), LinkAction::Nothing);
    assert_eq!(link.on_event(LinkEvent::DialFailed, &POLICY), LinkAction::Nothing);
    assert_eq!(link.state, LinkState::Connected);
}

#[test]
fn events_that_do_not_fit_are_passed_over() {
    let mut link = Link::new();
    for event in [LinkEvent::DialSucceeded, LinkEvent::DialFailed, LinkEvent::ConnectionLost] {
        assert_eq!(link.on_event(event, &POLICY), LinkAction::Nothing);
        assert_eq!(link, Link::new());
    }
}

#[test]
fn cancel_stops_from_every_state() {
    for lead in [
        vec![],
        vec![LinkEvent::RetryDue],
        vec![LinkEvent::RetryDue, LinkEvent::DialSucceeded],
    ] {
        let mut link = Link::new();
        for event in lead {
            link.on_event(event, &POLICY);
        }
        assert_eq!(link.on_event(LinkEvent::Cancelled, &POLICY), LinkAction::Stop);
        assert_eq!(link.state, LinkState::Stopped);
        for event in [
            LinkEvent::RetryDue,
            LinkEvent::DialSucceeded,
            LinkEvent::DialFailed,
            LinkEvent::ConnectionLost,
            LinkEvent::Cancelled,
        ] {
            assert_eq!(link.on_event(event, &POLICY), LinkAction::Nothing);
            assert_eq!(link.state, LinkState::Stopped);
        }
    }
}

#[test]
fn failure_count_stops_at_its_limit() {
    let mut link = Link { state: LinkState::Connecting, failures: u32::MAX };
    assert_eq!(link.on_event(LinkEvent::DialFailed, &POLICY), LinkAction::Backoff(1_000));
    assert_eq!(link.failures, u32::MAX);
}
