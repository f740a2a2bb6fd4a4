use indigo::procinfo::{
    is_pid_name, last_per_pid, process_name, ram_top, top_by_name, top_kind, ProcSample, TopKind,
};

fn p(name: &str, amount: u64) -> ProcSample {
    ProcSample { name: name.to_string(), amount }
}

#[test]
fn rows_are_summed_by_name_and_sorted() {
    let s = vec![p("code", 300), p("firefox", 500), p("code", 250), p("bash", 10), p("idle", 0)];
    let rows = top_by_name(&s, true);
    let got: Vec<(String, u64, u32)> = rows.into_iter().map(|r| (r.name, r.amount, r.count)).collect();
    assert_eq!(
        got,
        vec![("code".to_string(), 550, 2), ("firefox".to_string(), 500, 1), ("bash".to_string(), 10, 1)]
    );
}

#[test]
fn zero_amounts_count_unless_skipped() {
    let s = vec![p("idle", 0), p("bash", 10)];
    let rows = top_by_name(&s, false);
    assert_eq!(rows.len(), 2);
    assert_eq!(rows[0].name, "bash");
    assert_eq!(rows[1].name, "idle");
    assert_eq!(rows[1].count, 1);
}

#[test]
fn at_most_ten_rows() {
    let s: Vec<ProcSample> = (1..=12).map(|i| p(&format!("p{i}"), i * 100)).collect();
    let rows = top_by_name(&s, true);
    assert_eq!(rows.len(), 10);
    assert_eq!(rows[0].name, "p12");
    assert_eq!(rows[9].name, "p3");
}

#[test]
fn ram_total_checked_against_memory() {
    let s = vec![p("a", 600), p("b", 500)];
    let r = ram_top(&s, Some(1000));
    assert_eq!(r.over, Some((1100, 1000)));
    assert_eq!(r.rows.len(), 2);
    let r = ram_top(&s, Some(2000));
    assert_eq!(r.over, None);
    let r = ram_top(&s, None);
    assert_eq!(r.over, None);
}

#[test]
fn gpu_entries_deduplicated_by_pid() {
    let r = last_per_pid(&vec![(10, 100), (11, 5), (10, 200)]);
    let mut r = r;
    r.sort();
    assert_eq!(r, vec![(10, 200), (11, 5)]);
}

#[test]
fn process_name_sources() {
    assert_eq!(process_name(Some("bash\n"), None, "12"), "bash");
    assert_eq!(process_name(Some("  \n"), Some(b"/usr/bin/python3\0-m\0x"), "12"), "python3");
    assert_eq!(process_name(None, Some(b"/usr/lib/firefox/firefox"), "12"), "firefox");
    assert_eq!(process_name(None, Some(b"/dir/\0x"), "12"), "pid 12");
    assert_eq!(process_name(None, Some(b"\0x"), "12"), "pid 12");
    assert_eq!(process_name(None, None, "12"), "pid 12");
}

#[test]
fn process_name_from_invalid_utf8_is_lossy() {
    assert_eq!(process_name(None, Some(b"/bin/a\xffb"), "3"), "a\u{fffd}b");
}

#[test]
fn pid_names() {
    assert!(is_pid_name("1234"));
    assert!(is_pid_name(""));
    assert!(!is_pid_name("self"));
    assert!(!is_pid_name("12a"));
}

#[test]
fn top_kinds() {
    assert_eq!(top_kind("cpu"), Ok(TopKind::Cpu));
    assert_eq!(top_kind("ram"), Ok(TopKind::Ram));
    assert_eq!(top_kind("gpu"), Ok(TopKind::Gpu));
    assert_eq!(top_kind("disk"), Err("unbekannte art: disk".to_string()));
}
