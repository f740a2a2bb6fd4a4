use indigo::monitor::{
    default_route_interface, energy_delta_exec, field_bytes, field_kb, is_cpu_chip, is_cpu_label,
    is_package_zone, is_rapl_domain, meminfo, meminfo_kb, sdec_string, strip_suffix_exec,
    DisplayFigures, FanFigures, Rapl, RaplPackage,
};

const MEMINFO: &str = "MemTotal:       16314516 kB\nMemFree:         1234567 kB\nMemAvailable:    8157258 kB\n";

#[test]
fn kb_fields() {
    assert_eq!(field_kb("Name:\tx\nVmRSS:\t  2048 kB\n", "VmRSS:"), Some(2048));
    assert_eq!(field_bytes("Name:\tx\nVmRSS:\t  2048 kB\n", "VmRSS:"), Some(2048 * 1024));
    assert_eq!(field_kb("Rss: 10 kB\nPss:  7 kB\nPss: 9 kB\n", "Pss:"), Some(7));
    assert_eq!(field_kb("Pss: n/a kB\n", "Pss:"), None);
    assert_eq!(field_kb("Rss: 10 kB\n", "Pss:"), None);
    assert_eq!(field_kb("Pss: 5\n", "Pss:"), Some(5));
}

#[test]
fn meminfo_figures() {
    assert_eq!(meminfo_kb(MEMINFO), Some((16314516, 8157258)));
    assert_eq!(meminfo(MEMINFO), Some((16314516 * 1024, 8157258 * 1024)));
    assert_eq!(meminfo("MemTotal: 10 kB\n"), None);
    assert_eq!(meminfo(""), None);
}

#[test]
fn route_interface() {
    let route = "Iface\tDestination\tGateway\n\
                 wlp2s0\t0010A8C0\t00000000\n\
                 enp3s0\t00000000\t0100A8C0\n";
    assert_eq!(default_route_interface(route).as_deref(), Some("enp3s0"));
    assert_eq!(default_route_interface("Iface\tDestination\n"), None);
    assert_eq!(default_route_interface("Iface\tDestination\n\nenp3s0\t00000000\n"), None);
    // the header line itself is never taken
    assert_eq!(default_route_interface("eth0 00000000\n"), None);
}

#[test]
fn cpu_sensor_names() {
    assert!(is_cpu_chip("coretemp\n"));
    assert!(is_cpu_chip("k10temp"));
    assert!(!is_cpu_chip("nvme"));
    assert!(is_cpu_label("Package id 0\n"));
    assert!(is_cpu_label("Tctl"));
    assert!(!is_cpu_label("Core 0"));
    assert_eq!(strip_suffix_exec("temp1_label", "_label").as_deref(), Some("temp1"));
    assert_eq!(strip_suffix_exec("temp1_input", "_label"), None);
}

#[test]
fn rapl_domains() {
    assert!(is_rapl_domain("intel-rapl:0"));
    assert!(!is_rapl_domain("intel-rapl:0:1"));
    assert!(!is_rapl_domain("intel-rapl"));
    assert!(is_package_zone("package-0\n"));
    assert!(!is_package_zone("dram"));
}

#[test]
fn energy_deltas_allow_one_wrap() {
    assert_eq!(energy_delta_exec(150, 100, 1000), 50);
    assert_eq!(energy_delta_exec(50, 900, 1000), 150);
    assert_eq!(energy_delta_exec(50, 900, 800), 50);
}

#[test]
fn rapl_sums_read_packages() {
    assert!(Rapl::new(Vec::new()).is_none());
    let pk = |last| RaplPackage { energy_path: "/e".to_string(), max_range_uj: 1000, last_uj: last };
    let mut r = Rapl::new(vec![pk(100), pk(900)]).unwrap();
    assert_eq!(r.sample(&vec![Some(150), Some(50)]), Some(200));
    assert_eq!(r.packages()[0].last_uj, 150);
    assert_eq!(r.packages()[1].last_uj, 50);
    assert_eq!(r.sample(&vec![None, Some(60)]), Some(10));
    assert_eq!(r.packages()[0].last_uj, 150);
    assert_eq!(r.sample(&vec![None, None]), None);
}

#[test]
fn signed_decimal() {
    assert_eq!(sdec_string(0), "0");
    assert_eq!(sdec_string(-1), "-1");
    assert_eq!(sdec_string(i64::MIN), "-9223372036854775808");
    assert_eq!(sdec_string(i64::MAX), "9223372036854775807");
}

fn figures() -> DisplayFigures {
    DisplayFigures {
        cpu: 12,
        ram: 48,
        ram_used_dgib: 73,
        disk: 61,
        gpu: i64::MIN,
        temp_cpu: 45,
        temp_gpu: i64::MIN,
        net_up: 3,
        net_down: 120,
        pwr: 17,
        ip: Some("192.168.1.5".to_string()),
        gpu_fan: i64::MIN,
        ram_total_dgib: 156,
        fans: vec![
            FanFigures { id: "nct:1".to_string(), rpm: 1200, pct: 40, auto_mode: Some(true) },
            FanFigures { id: "nct:2".to_string(), rpm: -1, pct: -1, auto_mode: None },
        ],
    }
}

#[test]
fn display_signature_text() {
    let f = figures();
    assert_eq!(
        f.display_signature(),
        "12|48|73|61|-9223372036854775808|45|-9223372036854775808|3|120|17|192.168.1.5|-9223372036854775808|156|nct:1:1200:40:Some(true)|nct:2:-1:-1:None"
    );
    let mut g = figures();
    g.ip = None;
    g.fans.clear();
    assert_eq!(
        g.display_signature(),
        "12|48|73|61|-9223372036854775808|45|-9223372036854775808|3|120|17|-|-9223372036854775808|156"
    );
}

#[test]
fn display_signature_changes_with_a_shown_value() {
    let a = figures();
    let mut b = figures();
    b.fans[0].auto_mode = Some(false);
    assert_ne!(a.display_signature(), b.display_signature());
}

#[test]
fn dash_address_reads_like_no_address() {
    // "-" stands for a missing address, so it cannot be told apart from none
    let mut a = figures();
    a.ip = Some("-".to_string());
    let mut b = figures();
    b.ip = None;
    assert_eq!(a.display_signature(), b.display_signature());
}

#[test]
fn display_signature_changes_with_total_memory() {
    let a = figures();
    let mut b = figures();
    b.ram_total_dgib = 157;
    assert_ne!(a.display_signature(), b.display_signature());
}
