use patcher::signal::{Action, PortHandler, Signal};

#[test]
fn action_codes_round_trip() {
    for a in [Action::Idle, Action::Repatch, Action::Stop] {
        assert_eq!(Action::from_u8(a.to_u8()), a);
    }
}

#[test]
fn unknown_slot_bytes_read_as_idle() {
    assert_eq!(Action::from_u8(0), Action::Idle);
    assert_eq!(Action::from_u8(3), Action::Idle);
    assert_eq!(Action::from_u8(255), Action::Idle);
}

#[test]
fn signal_holds_its_initial_action() {
    let s = Signal::new(Action::Repatch);
    assert_eq!(s.get(), Action::Repatch);
}

#[test]
fn last_write_wins() {
    let s = Signal::new(Action::Idle);
    s.set(Action::Repatch);
    s.set(Action::Stop);
    assert_eq!(s.get(), Action::Stop);
}

#[test]
fn shared_handles_see_one_slot() {
    let s = Signal::new(Action::Idle);
    let t = s.share();
    t.set(Action::Stop);
    assert_eq!(s.get(), Action::Stop);
    s.set(Action::Idle);
    assert_eq!(t.get(), Action::Idle);
}

// The slot is last-write-wins with no priority: a topology notification
// that races a shutdown request can overwrite it, delaying shutdown by one
// more pass. That is intended eventual-shutdown behaviour, pinned here.
#[test]
fn late_notification_can_overwrite_a_shutdown_request() {
    let s = Signal::new(Action::Idle);
    let h = PortHandler::new(&s);
    s.set(Action::Stop);
    h.port_rename();
    assert_eq!(s.get(), Action::Repatch);
}

#[test]
fn notifications_mark_the_signal_for_repatch() {
    let s = Signal::new(Action::Idle);
    let h = PortHandler::new(&s);

    h.port_registration(true);
    assert_eq!(s.get(), Action::Repatch);

    s.set(Action::Idle);
    h.port_registration(false);
    assert_eq!(s.get(), Action::Idle);

    h.client_registration(true);
    assert_eq!(s.get(), Action::Repatch);

    s.set(Action::Idle);
    h.client_registration(false);
    assert_eq!(s.get(), Action::Idle);

    h.port_rename();
    assert_eq!(s.get(), Action::Repatch);

    s.set(Action::Idle);
    h.ports_connected();
    assert_eq!(s.get(), Action::Repatch);
}
