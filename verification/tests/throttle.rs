use solflow::fetch::shown_progress;
use solflow::throttle::{on_event, on_fired, Gate, Throttle, GAP_MS};

#[test]
fn a_burst_collapses_into_one_late_notification() {
    let (gate, act) = on_event(None, 1000);
    assert_eq!(act, Throttle::Emit);
    assert_eq!(gate, Gate { last: 1000, pending: false });
    let (gate, act) = on_event(Some(gate), 1050);
    assert_eq!(act, Throttle::Later(150));
    assert!(gate.pending);
    let (gate, act) = on_event(Some(gate), 1100);
    assert_eq!(act, Throttle::Skip);
    assert_eq!(gate, Gate { last: 1000, pending: true });
    let gate = on_fired(gate, 1200);
    assert_eq!(gate, Gate { last: 1200, pending: false });
    let (gate, act) = on_event(Some(gate), 1200 + GAP_MS);
    assert_eq!(act, Throttle::Emit);
    assert_eq!(gate.last, 1400);
}

#[test]
fn a_clock_that_went_back_waits_the_whole_gap() {
    let (_, act) = on_event(Some(Gate { last: 1000, pending: false }), 900);
    assert_eq!(act, Throttle::Later(GAP_MS));
}

#[test]
fn progress_falls_back_to_the_disk_and_the_asked_total() {
    assert_eq!(shown_progress(100, 1000, 50, 900), (100, 1000));
    assert_eq!(shown_progress(0, 0, 50, 900), (50, 900));
    assert_eq!(shown_progress(0, 1000, 0, 0), (0, 1000));
}
