use indigo::state::record_fan_writes;
use indigo::state::{cursor_name, Hit};
use indigo::state::{group_ids, toggle_to_manual, FanHolds, FanModeInfo, FanTarget};

fn fan(id: &str, has_pct: bool, auto_mode: Option<bool>) -> FanModeInfo {
    FanModeInfo { id: id.to_string(), has_pct, auto_mode }
}

#[test]
fn holds_last_until_their_deadline() {
    let mut h = FanHolds::new();
    h.insert("a".to_string(), 3000);
    assert!(h.active("a", 2999));
    assert!(!h.active("a", 3000));
    assert!(!h.active("b", 0));
    h.insert("a".to_string(), 100);
    assert!(!h.active("a", 2000));
    h.clear();
    assert!(!h.active("a", 0));
}

#[test]
fn holding_the_group_holds_every_fan() {
    let mut h = FanHolds::new();
    let ids = vec!["x".to_string(), "y".to_string()];
    h.hold(&FanTarget::Group, 5000, &ids);
    assert!(h.active("__group__", 4000));
    assert!(h.active("x", 4000));
    assert!(h.active("y", 4000));
    h.hold(&FanTarget::One("z".to_string()), 6000, &ids);
    assert!(h.active("z", 5500));
    assert!(!h.active("x", 5500));
}

#[test]
fn mode_toggle_of_one_fan() {
    let fans = vec![fan("a", true, Some(false)), fan("b", true, Some(true)), fan("a", true, Some(true))];
    assert!(!toggle_to_manual(&FanTarget::One("a".to_string()), &fans));
    assert!(toggle_to_manual(&FanTarget::One("b".to_string()), &fans));
    assert!(toggle_to_manual(&FanTarget::One("zz".to_string()), &fans));
    assert!(toggle_to_manual(&FanTarget::One("a".to_string()), &Vec::new()));
}

#[test]
fn mode_toggle_of_the_group() {
    let auto = vec![fan("a", true, Some(true)), fan("b", false, Some(false)), fan("c", true, None)];
    assert!(toggle_to_manual(&FanTarget::Group, &auto));
    let manual = vec![fan("a", true, Some(true)), fan("b", true, Some(false))];
    assert!(!toggle_to_manual(&FanTarget::Group, &manual));
    assert!(toggle_to_manual(&FanTarget::Group, &Vec::new()));
}

#[test]
fn group_members_have_duty_and_mode() {
    let fans = vec![fan("a", true, Some(true)), fan("b", false, Some(false)), fan("c", true, None), fan("d", true, Some(false))];
    assert_eq!(group_ids(&fans), vec!["a".to_string(), "d".to_string()]);
}

#[test]
fn cursor_shapes() {
    assert_eq!(cursor_name(&None), None);
    assert_eq!(cursor_name(&Some(Hit::Header)), Some("grab"));
    assert_eq!(cursor_name(&Some(Hit::Dot)), Some("pointer"));
    assert_eq!(cursor_name(&Some(Hit::TopRow("cpu"))), Some("pointer"));
    assert_eq!(cursor_name(&Some(Hit::FanSlider(FanTarget::Group))), Some("pointer"));
}

#[test]
fn fan_writes_are_recorded() {
    let mut hold = FanHolds::new();
    let mut denied = FanHolds::new();
    let applied = vec!["a".to_string()];
    let refused = vec!["b".to_string()];
    record_fan_writes(&mut hold, &mut denied, &FanTarget::Group, &applied, &refused, 3000);
    assert!(hold.active("a", 2999));
    assert!(!hold.active("b", 0));
    assert!(denied.active("b", 2999));
    assert!(!denied.active("a", 0));
    assert!(hold.active("__group__", 10));
    assert!(denied.active("__group__", 10));

    let mut hold = FanHolds::new();
    let mut denied = FanHolds::new();
    record_fan_writes(&mut hold, &mut denied, &FanTarget::One("a".to_string()), &applied, &Vec::new(), 3000);
    assert!(hold.active("a", 0));
    assert!(!hold.active("__group__", 0));
    assert!(!denied.active("__group__", 0));
}
