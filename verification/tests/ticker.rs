use indigo::monitor::{DisplayFigures, FanFigures};
use indigo::ticker::{effective_interval, EmitGate};

#[test]
fn interval_is_held_in_range() {
    assert_eq!(effective_interval(0), 250);
    assert_eq!(effective_interval(249), 250);
    assert_eq!(effective_interval(1500), 1500);
    assert_eq!(effective_interval(60_000), 60_000);
    assert_eq!(effective_interval(u64::MAX), 60_000);
}

#[test]
fn unchanged_ticks_are_left_out_at_most_eight_times() {
    let mut g = EmitGate::new();
    assert!(g.should_send("a".to_string(), false));
    for _ in 0..8 {
        assert!(!g.should_send("a".to_string(), false));
    }
    assert!(g.should_send("a".to_string(), false));
    assert!(!g.should_send("a".to_string(), false));
}

#[test]
fn changed_or_forced_ticks_are_sent() {
    let mut g = EmitGate::new();
    assert!(g.should_send("a".to_string(), false));
    assert!(g.should_send("b".to_string(), false));
    assert!(g.should_send("b".to_string(), true));
    assert!(!g.should_send("b".to_string(), false));
}

#[test]
fn empty_signature_first_is_left_out() {
    // nothing was sent yet: the last signature counts as empty
    let mut g = EmitGate::new();
    assert!(!g.should_send(String::new(), false));
}

#[test]
fn a_changed_display_is_sent_after_skips() {
    let fig = |rpm: i64| DisplayFigures {
        cpu: 5, ram: 40, ram_used_dgib: 60, disk: 50, gpu: 0, temp_cpu: 40, temp_gpu: 38,
        net_up: 1, net_down: 2, pwr: 20, ip: None, gpu_fan: 30, ram_total_dgib: 156,
        fans: vec![FanFigures { id: "nct6775:1".to_string(), rpm, pct: 40, auto_mode: Some(true) }],
    };
    let mut g = EmitGate::new();
    assert!(g.should_send(fig(1200).display_signature(), false));
    assert!(!g.should_send(fig(1200).display_signature(), false));
    assert!(!g.should_send(fig(1200).display_signature(), false));
    assert!(g.should_send(fig(1210).display_signature(), false));
}
