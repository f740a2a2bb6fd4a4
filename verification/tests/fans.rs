use indigo::fans::{ChannelProbe, ChipScan, FanControl};

fn probe(fan: bool, pwm: bool, enable: bool, text: Option<&str>) -> ChannelProbe {
    ChannelProbe { has_fan: fan, has_pwm: pwm, has_enable: enable, enable_text: text.map(|t| t.to_string()) }
}

fn board() -> Vec<ChipScan> {
    vec![
        ChipScan {
            dir: "/sys/class/hwmon/hwmon1".to_string(),
            name_text: Some("nvidia\n".to_string()),
            probes: vec![probe(true, true, true, Some("1"))],
        },
        ChipScan {
            dir: "/sys/class/hwmon/hwmon2".to_string(),
            name_text: Some("nct6775\n".to_string()),
            probes: vec![
                probe(true, true, true, Some("5\n")),
                probe(true, false, false, None),
                probe(false, false, false, None),
                probe(false, true, true, Some("1\n")),
                probe(false, true, false, None),
            ],
        },
    ]
}

#[test]
fn channels_from_a_scan() {
    let fc = FanControl::new(&board());
    let ids: Vec<&str> = fc.channels().iter().map(|c| c.id.as_str()).collect();
    assert_eq!(ids, vec!["nct6775:1", "nct6775:2", "nct6775:4", "nct6775:5"]);
    let c = &fc.channels()[0];
    assert_eq!(c.label, "fan1");
    assert_eq!(c.fan_input.as_deref(), Some("/sys/class/hwmon/hwmon2/fan1_input"));
    assert_eq!(c.pwm.as_deref(), Some("/sys/class/hwmon/hwmon2/pwm1"));
    assert_eq!(c.pwm_enable.as_deref(), Some("/sys/class/hwmon/hwmon2/pwm1_enable"));
    let c = &fc.channels()[1];
    assert_eq!(c.pwm, None);
    assert_eq!(c.pwm_enable, None);
    assert_eq!(fc.reads(), 0);
}

#[test]
fn readings() {
    let fc = FanControl::new(&board());
    let r = fc.fan_reading(0, Some("1200\n"), Some(" 128\n"), Some("5\n"));
    assert_eq!(r.id, "nct6775:1");
    assert_eq!(r.rpm, Some(1200));
    assert_eq!(r.pwm_raw, Some(128));
    assert_eq!(r.auto_mode, Some(true));
    let r = fc.fan_reading(0, Some("x"), None, Some("1"));
    assert_eq!(r.rpm, None);
    assert_eq!(r.pwm_raw, None);
    assert_eq!(r.auto_mode, Some(false));
    // a channel without PWM files reads no PWM and no mode
    let r = fc.fan_reading(1, Some("800"), Some("10"), Some("2"));
    assert_eq!(r.rpm, Some(800));
    assert_eq!(r.pwm_raw, None);
    assert_eq!(r.auto_mode, None);
}

#[test]
fn manual_writes_mode_then_value() {
    let fc = FanControl::new(&board());
    let w = fc.set_manual("nct6775:1", 128).unwrap();
    let pairs: Vec<(&str, &str)> = w.iter().map(|x| (x.path.as_str(), x.value.as_str())).collect();
    assert_eq!(
        pairs,
        vec![("/sys/class/hwmon/hwmon2/pwm1_enable", "1"), ("/sys/class/hwmon/hwmon2/pwm1", "128")]
    );
    let w = fc.set_manual("nct6775:5", 0).unwrap();
    assert_eq!(w.len(), 1);
    assert_eq!(w[0].path, "/sys/class/hwmon/hwmon2/pwm5");
    assert_eq!(w[0].value, "0");
    assert_eq!(fc.set_manual("nct6775:2", 10).unwrap_err(), "kanal hat kein pwm");
    assert_eq!(fc.set_manual("nct6775:9", 10).unwrap_err(), "unbekannter kanal: nct6775:9");
}

#[test]
fn auto_goes_back_to_the_first_seen_mode() {
    let fc = FanControl::new(&board());
    let w = fc.set_auto("nct6775:1").unwrap();
    assert_eq!(w.path, "/sys/class/hwmon/hwmon2/pwm1_enable");
    assert_eq!(w.value, "5");
    // first seen manual: thermal cruise instead
    let w = fc.set_auto("nct6775:4").unwrap();
    assert_eq!(w.value, "2");
    assert_eq!(fc.set_auto("nct6775:5").unwrap_err(), "kanal hat kein pwm_enable");
    assert_eq!(fc.set_auto("nvidia:1").unwrap_err(), "unbekannter kanal: nvidia:1");
}

#[test]
fn rescan_keeps_the_first_seen_mode() {
    let mut fc = FanControl::new(&board());
    let mut later = board();
    later[1].probes[0].enable_text = Some("1".to_string());
    fc.rescan(&later);
    assert_eq!(fc.set_auto("nct6775:1").unwrap().value, "5");
}

#[test]
fn rescan_every_eighth_read() {
    let mut fc = FanControl::new(&board());
    let due: Vec<bool> = (0..9).map(|_| fc.start_read()).collect();
    assert_eq!(due, vec![true, false, false, false, false, false, false, false, true]);
    let mut empty = FanControl::new(&Vec::new());
    assert!(empty.start_read());
    assert!(empty.start_read());
}

#[test]
fn rescan_records_new_channels() {
    let mut fc = FanControl::new(&Vec::new());
    assert!(fc.channels().is_empty());
    fc.rescan(&board());
    assert_eq!(fc.set_auto("nct6775:1").unwrap().value, "5");
    // a channel whose mode was unreadable goes to thermal cruise
    let mut later = board();
    later[1].probes[0].enable_text = None;
    let fresh = FanControl::new(&later);
    assert_eq!(fresh.set_auto("nct6775:1").unwrap().value, "2");
}
