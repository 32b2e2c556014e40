use ckb_native_simulator::event::{is_exit_of, Event, EventType};

#[test]
fn a_new_event_reports_nothing() {
    let event = Event::default();
    assert!(event.wait(|e| e == EventType::Unknow));
    assert!(!event.wait_exit(0));
}

#[test]
fn exit_ends_the_right_wait() {
    let mut event = Event::default();
    event.notify(EventType::ProcessExit((3, -1)));
    assert!(event.wait_exit(3));
    assert!(!event.wait_exit(4));
    assert!(event.wait(|e| e == EventType::ProcessExit((3, -1))));
    event.notify(EventType::ProcessExit((4, 0)));
    assert!(!event.wait_exit(3));
    assert!(event.wait_exit(4));
}

#[test]
fn exit_is_recognised_whatever_the_code() {
    assert!(is_exit_of(EventType::ProcessExit((9, 0)), 9));
    assert!(is_exit_of(EventType::ProcessExit((9, 127)), 9));
    assert!(!is_exit_of(EventType::ProcessExit((8, 0)), 9));
    assert!(!is_exit_of(EventType::Unknow, 9));
}
