//! System readings from /proc and /sys: memory figures, the default route,
//! CPU temperature sensors and RAPL energy counters.

use vstd::prelude::*;
use crate::text::{
    is_ws, lemma_trim_around, dec, free_of, is_digit, join_with, lemma_dec_digits, lemma_dec_free, lemma_dec_injective,
    lemma_join_injective, lemma_last_sep,
    chars_eq, chars_of, copy_range, lines, parse_bounded, parse_dec, split_lines, split_words,
    starts_with, starts_with_exec, string_of, trim, trim_exec, views, words,
};

verus! {

// ---------------------------------------------------------------------------
// "Key:   1234 kB" fields
// ---------------------------------------------------------------------------

/// End of `t.take(e)` with every trailing "kB" removed.
pub open spec fn strip_kb_end(t: Seq<char>, e: int) -> int
    decreases e,
{
    if e >= 2 && e <= t.len() && t[e - 2] == 'k' && t[e - 1] == 'B' {
        strip_kb_end(t, e - 2)
    } else {
        e
    }
}

/// `trim_end_matches("kB")`.
pub open spec fn strip_kb(t: Seq<char>) -> Seq<char> {
    t.subrange(0, strip_kb_end(t, t.len() as int))
}

/// The number of a "key: N kB" line after the key, read as in
/// `rest.trim().trim_end_matches("kB").trim().parse::<u64>()`.
pub open spec fn kb_number(rest: Seq<char>) -> Option<int> {
    parse_bounded(trim(strip_kb(trim(rest))), u64::MAX as int)
}

pub open spec fn after_prefix(l: Seq<char>, p: Seq<char>) -> Seq<char> {
    l.subrange(p.len() as int, l.len() as int)
}

/// The first line that starts with `p` decides: its number, or none.
pub open spec fn field_from(ls: Seq<Seq<char>>, p: Seq<char>, i: int) -> Option<int>
    decreases ls.len() - i,
{
    if i < 0 || i >= ls.len() {
        None
    } else if starts_with(ls[i], p) {
        kb_number(after_prefix(ls[i], p))
    } else {
        field_from(ls, p, i + 1)
    }
}

proof fn lemma_field_range(ls: Seq<Seq<char>>, p: Seq<char>, i: int)
    ensures
        field_from(ls, p, i) is Some ==> field_from(ls, p, i)->0 >= 0,
    decreases ls.len() - i,
{
    if 0 <= i < ls.len() {
        if starts_with(ls[i], p) {
            crate::text::lemma_parse_bounded_range(trim(strip_kb(trim(after_prefix(ls[i], p)))), u64::MAX as int);
        } else {
            lemma_field_range(ls, p, i + 1);
        }
    }
}

/// kB figure of the first line of `content` that starts with `p`.
pub open spec fn field_kb_of(content: Seq<char>, p: Seq<char>) -> Option<int> {
    field_from(lines(content), p, 0)
}

fn kb_number_exec(rest: &[char]) -> (r: Option<u64>)
    ensures
        r == (match kb_number(rest@) {
            Some(v) => Some(v as u64),
            None => None::<u64>,
        }),
{
    let t = trim_exec(rest);
    let mut e: usize = t.len();
    while e >= 2 && t[e - 2] == 'k' && t[e - 1] == 'B'
        invariant
            0 <= e <= t.len(),
            strip_kb_end(t@, t.len() as int) == strip_kb_end(t@, e as int),
        decreases e,
    {
        e = e - 2;
    }
    let s = copy_range(&t, 0, e);
    let u = trim_exec(&s);
    parse_dec(&u, u64::MAX)
}

/// The kB figure of the first line of `content` that starts with `prefix`
/// ("Pss:", "VmRSS:", "MemTotal:"); `None` when there is no such line or
/// its number does not parse.
pub fn field_kb(content: &str, prefix: &str) -> (r: Option<u64>)
    ensures
        r == (match field_kb_of(content@, prefix@) {
            Some(v) => Some(v as u64),
            None => None::<u64>,
        }),
{
    let cs = chars_of(content);
    let p = chars_of(prefix);
    let ls = split_lines(&cs);
    let mut i: usize = 0;
    while i < ls.len()
        invariant
            0 <= i <= ls.len(),
            views(ls@) == lines(content@),
            p@ == prefix@,
            field_from(lines(content@), prefix@, i as int) == field_kb_of(content@, prefix@),
        decreases ls.len() - i,
    {
        assert(ls[i as int]@ == lines(content@)[i as int]);
        if starts_with_exec(&ls[i], &p) {
            let rest = copy_range(&ls[i], p.len(), ls[i].len());
            return kb_number_exec(&rest);
        }
        i = i + 1;
    }
    None
}

/// The same figure in bytes (kB times 1024).
pub fn field_bytes(content: &str, prefix: &str) -> (r: Option<u64>)
    requires
        match field_kb_of(content@, prefix@) {
            Some(v) => v * 1024 <= u64::MAX,
            None => true,
        },
    ensures
        r == (match field_kb_of(content@, prefix@) {
            Some(v) => Some((v * 1024) as u64),
            None => None::<u64>,
        }),
{
    proof {
        if field_kb_of(content@, prefix@) is Some {
            lemma_field_range(lines(content@), prefix@, 0);
        }
    }
    match field_kb(content, prefix) {
        Some(kb) => Some(kb * 1024),
        None => None,
    }
}

// ---------------------------------------------------------------------------
// /proc/meminfo
// ---------------------------------------------------------------------------

/// The scan over /proc/meminfo: each "MemTotal:" line sets the total,
/// each "MemAvailable:" line the available figure (none when its number
/// does not parse); the scan stops once both are known. Figures in kB.
pub open spec fn meminfo_from(ls: Seq<Seq<char>>, i: int, t: Option<int>, a: Option<int>) -> (Option<int>, Option<int>)
    decreases ls.len() - i,
{
    if i < 0 || i >= ls.len() {
        (t, a)
    } else {
        let l = ls[i];
        let t2 = if starts_with(l, "MemTotal:"@) {
            kb_number(after_prefix(l, "MemTotal:"@))
        } else {
            t
        };
        let a2 = if !starts_with(l, "MemTotal:"@) && starts_with(l, "MemAvailable:"@) {
            kb_number(after_prefix(l, "MemAvailable:"@))
        } else {
            a
        };
        if t2 is Some && a2 is Some {
            (t2, a2)
        } else {
            meminfo_from(ls, i + 1, t2, a2)
        }
    }
}

/// (MemTotal, MemAvailable) in kB, when both are present.
pub open spec fn meminfo_kb_of(content: Seq<char>) -> Option<(int, int)> {
    let r = meminfo_from(lines(content), 0, None, None);
    if r.0 is Some && r.1 is Some {
        Some((r.0->0, r.1->0))
    } else {
        None
    }
}

pub open spec fn opt_int(v: Option<u64>) -> Option<int> {
    match v {
        Some(k) => Some(k as int),
        None => None,
    }
}

/// (MemTotal, MemAvailable) in kB from the text of /proc/meminfo.
pub fn meminfo_kb(content: &str) -> (r: Option<(u64, u64)>)
    ensures
        match meminfo_kb_of(content@) {
            Some((t, a)) => r == Some((t as u64, a as u64)) && 0 <= t <= u64::MAX && 0 <= a <= u64::MAX,
            None => r is None,
        },
{
    let cs = chars_of(content);
    let ls = split_lines(&cs);
    let total_key = chars_of("MemTotal:");
    let avail_key = chars_of("MemAvailable:");
    let mut t: Option<u64> = None;
    let mut a: Option<u64> = None;
    let mut i: usize = 0;
    while i < ls.len()
        invariant
            0 <= i <= ls.len(),
            views(ls@) == lines(content@),
            total_key@ == "MemTotal:"@,
            avail_key@ == "MemAvailable:"@,
            !(t is Some && a is Some),
            meminfo_from(lines(content@), i as int, opt_int(t), opt_int(a))
                == meminfo_from(lines(content@), 0, None, None),
        decreases ls.len() - i,
    {
        let ghost l = lines(content@)[i as int];
        assert(ls[i as int]@ == l);
        let is_total = starts_with_exec(&ls[i], &total_key);
        if is_total {
            let rest = copy_range(&ls[i], total_key.len(), ls[i].len());
            proof { crate::text::lemma_parse_bounded_range(trim(strip_kb(trim(rest@))), u64::MAX as int); }
            t = kb_number_exec(&rest);
        } else if starts_with_exec(&ls[i], &avail_key) {
            let rest = copy_range(&ls[i], avail_key.len(), ls[i].len());
            proof { crate::text::lemma_parse_bounded_range(trim(strip_kb(trim(rest@))), u64::MAX as int); }
            a = kb_number_exec(&rest);
        }
        if t.is_some() && a.is_some() {
            assert(meminfo_from(lines(content@), 0, None, None) == (opt_int(t), opt_int(a)));
            match (t, a) {
                (Some(tv), Some(av)) => { return Some((tv, av)); },
                _ => { return None; },
            }
        }
        i = i + 1;
    }
    None
}

/// (MemTotal, MemAvailable) in bytes from the text of /proc/meminfo.
pub fn meminfo(content: &str) -> (r: Option<(u64, u64)>)
    requires
        match meminfo_kb_of(content@) {
            Some((t, a)) => t * 1024 <= u64::MAX && a * 1024 <= u64::MAX,
            None => true,
        },
    ensures
        r == (match meminfo_kb_of(content@) {
            Some((t, a)) => Some(((t * 1024) as u64, (a * 1024) as u64)),
            None => None::<(u64, u64)>,
        }),
{
    match meminfo_kb(content) {
        Some((t, a)) => Some((t * 1024, a * 1024)),
        None => None,
    }
}

// ---------------------------------------------------------------------------
// /proc/net/route
// ---------------------------------------------------------------------------

/// From line `i` on: the interface of the first line whose destination is
/// 00000000; a line without any column ends the search with none.
pub open spec fn route_from(ls: Seq<Seq<char>>, i: int) -> Option<Seq<char>>
    decreases ls.len() - i,
{
    if i < 0 || i >= ls.len() {
        None
    } else if words(ls[i]).len() == 0 {
        None
    } else if words(ls[i]).len() >= 2 && words(ls[i])[1] == "00000000"@ {
        Some(words(ls[i])[0])
    } else {
        route_from(ls, i + 1)
    }
}

/// Interface of the default route in the text of /proc/net/route (the
/// header line is skipped).
pub fn default_route_interface(content: &str) -> (r: Option<String>)
    ensures
        crate::updater::opt_view(r) == route_from(lines(content@), 1),
{
    let cs = chars_of(content);
    let ls = split_lines(&cs);
    let zero = chars_of("00000000");
    let mut i: usize = 1;
    while i < ls.len()
        invariant
            1 <= i,
            i <= ls.len() || ls.len() == 0,
            views(ls@) == lines(content@),
            zero@ == "00000000"@,
            route_from(lines(content@), i as int) == route_from(lines(content@), 1),
        decreases ls.len() - i,
    {
        assert(ls[i as int]@ == lines(content@)[i as int]);
        let ws = split_words(&ls[i]);
        if ws.len() == 0 {
            return None;
        }
        if ws.len() >= 2 && chars_eq(&ws[1], &zero) {
            return Some(string_of(&ws[0]));
        }
        i = i + 1;
    }
    None
}

// ---------------------------------------------------------------------------
// CPU temperature sensors
// ---------------------------------------------------------------------------

/// hwmon chips known to report the CPU temperature.
pub open spec fn is_cpu_chip_name(n: Seq<char>) -> bool {
    n == "coretemp"@ || n == "k10temp"@ || n == "zenpower"@ || n == "cpu_thermal"@
}

/// Labels of the package-wide CPU temperature channel.
pub open spec fn is_cpu_label_name(n: Seq<char>) -> bool {
    n == "Package id 0"@ || n == "Tctl"@ || n == "Tdie"@
}

fn eq_lit(a: &Vec<char>, lit: &str) -> (r: bool)
    ensures
        r == (a@ == lit@),
{
    let l = chars_of(lit);
    chars_eq(a, &l)
}

/// Whether the text of a chip's `name` file names a CPU chip.
pub fn is_cpu_chip(name_text: &str) -> (r: bool)
    ensures
        r == is_cpu_chip_name(trim(name_text@)),
{
    let cs = chars_of(name_text);
    let t = trim_exec(&cs);
    eq_lit(&t, "coretemp") || eq_lit(&t, "k10temp") || eq_lit(&t, "zenpower") || eq_lit(&t, "cpu_thermal")
}

/// Whether the text of a `tempN_label` file names the package channel.
pub fn is_cpu_label(label_text: &str) -> (r: bool)
    ensures
        r == is_cpu_label_name(trim(label_text@)),
{
    let cs = chars_of(label_text);
    let t = trim_exec(&cs);
    eq_lit(&t, "Package id 0") || eq_lit(&t, "Tctl") || eq_lit(&t, "Tdie")
}

/// `fname.strip_suffix(suffix)`.
pub open spec fn strip_suffix(f: Seq<char>, suffix: Seq<char>) -> Option<Seq<char>> {
    if crate::text::ends_with(f, suffix) {
        Some(f.subrange(0, f.len() - suffix.len()))
    } else {
        None
    }
}

pub fn strip_suffix_exec(f: &str, suffix: &str) -> (r: Option<String>)
    ensures
        crate::updater::opt_view(r) == strip_suffix(f@, suffix@),
{
    let fc = chars_of(f);
    let sc = chars_of(suffix);
    if crate::text::ends_with_exec(&fc, &sc) {
        let stem = copy_range(&fc, 0, fc.len() - sc.len());
        Some(string_of(&stem))
    } else {
        None
    }
}

// ---------------------------------------------------------------------------
// RAPL energy counters
// ---------------------------------------------------------------------------

pub open spec fn colons(s: Seq<char>) -> int
    decreases s.len(),
{
    if s.len() == 0 {
        0
    } else {
        colons(s.drop_last()) + if s.last() == ':' {
            1int
        } else {
            0
        }
    }
}

/// A top-level RAPL domain directory ("intel-rapl:N", no sub-zone).
pub open spec fn is_rapl_domain_name(d: Seq<char>) -> bool {
    starts_with(d, "intel-rapl:"@) && colons(d) == 1
}

pub fn is_rapl_domain(dirname: &str) -> (r: bool)
    ensures
        r == is_rapl_domain_name(dirname@),
{
    let cs = chars_of(dirname);
    let p = chars_of("intel-rapl:");
    if !starts_with_exec(&cs, &p) {
        return false;
    }
    let mut n: usize = 0;
    let mut i: usize = 0;
    while i < cs.len()
        invariant
            0 <= i <= cs.len(),
            n <= i,
            n as int == colons(cs@.take(i as int)),
        decreases cs.len() - i,
    {
        assert(cs@.take(i + 1).drop_last() =~= cs@.take(i as int));
        if cs[i] == ':' {
            n = n + 1;
        }
        i = i + 1;
    }
    assert(cs@.take(cs.len() as int) =~= cs@);
    n == 1
}

/// Whether the text of a domain's `name` file names a package zone.
pub fn is_package_zone(name_text: &str) -> (r: bool)
    ensures
        r == starts_with(trim(name_text@), "package"@),
{
    let cs = chars_of(name_text);
    let t = trim_exec(&cs);
    let p = chars_of("package");
    starts_with_exec(&t, &p)
}

/// One package counter: where it is read, its wrap-around range and the
/// last reading.
pub struct RaplPackage {
    pub energy_path: String,
    pub max_range_uj: u64,
    pub last_uj: u64,
}

/// Energy used since the last reading, allowing for one wrap of the counter.
pub open spec fn energy_delta(now: u64, last: u64, max_range: u64) -> int {
    if now >= last {
        now - last
    } else {
        (if max_range >= last {
            max_range - last
        } else {
            0
        }) + now
    }
}

pub fn energy_delta_exec(now: u64, last: u64, max_range: u64) -> (r: u64)
    ensures
        r == energy_delta(now, last, max_range),
{
    if now >= last {
        now - last
    } else {
        max_range.saturating_sub(last) + now
    }
}

/// Sum of the deltas of the packages read in `readings`.
pub open spec fn delta_sum(p: Seq<RaplPackage>, readings: Seq<Option<u64>>) -> int
    decreases p.len(),
{
    if p.len() == 0 || readings.len() < p.len() {
        0
    } else {
        delta_sum(p.drop_last(), readings.take(p.len() - 1)) + match readings[p.len() - 1] {
            Some(now) => energy_delta(now, p.last().last_uj, p.last().max_range_uj),
            None => 0,
        }
    }
}

/// The package counters of the CPU.
pub struct Rapl {
    packages: Vec<RaplPackage>,
}

impl Rapl {
    pub closed spec fn packages_view(&self) -> Seq<RaplPackage> {
        self.packages@
    }

    /// The counters found; `None` when there is no readable package.
    pub fn new(packages: Vec<RaplPackage>) -> (r: Option<Rapl>)
        ensures
            packages.len() == 0 ==> r is None,
            packages.len() > 0 ==> r is Some && r->0.packages_view() == packages@,
    {
        if packages.len() == 0 {
            None
        } else {
            Some(Rapl { packages })
        }
    }

    pub fn packages(&self) -> (r: &Vec<RaplPackage>)
        ensures
            r@ == self.packages_view(),
    {
        &self.packages
    }

    /// Takes one reading per package (`None`: unreadable, left out) and
    /// gives the energy used by all read packages since their last
    /// reading, in microjoules; `None` when no package could be read.
    pub fn sample(&mut self, readings: &Vec<Option<u64>>) -> (r: Option<u64>)
        requires
            readings.len() == old(self).packages_view().len(),
            delta_sum(old(self).packages_view(), readings@) <= u64::MAX,
        ensures
            final(self).packages_view().len() == old(self).packages_view().len(),
            forall|i: int|
                #![trigger final(self).packages_view()[i]]
                #![trigger readings@[i]]
                0 <= i < readings.len() ==> {
                &&& final(self).packages_view()[i].energy_path == old(self).packages_view()[i].energy_path
                &&& final(self).packages_view()[i].max_range_uj == old(self).packages_view()[i].max_range_uj
                &&& final(self).packages_view()[i].last_uj == match readings[i] {
                    Some(now) => now,
                    None => old(self).packages_view()[i].last_uj,
                }
            },
            (exists|i: int| 0 <= i < readings.len() && readings[i] is Some) ==> r == Some(
                delta_sum(old(self).packages_view(), readings@) as u64,
            ),
            (forall|i: int| 0 <= i < readings.len() ==> readings[i] is None) ==> r is None,
    {
        let ghost orig = self.packages@;
        let mut total: u64 = 0;
        let mut any = false;
        let mut i: usize = 0;
        while i < readings.len()
            invariant
                0 <= i <= readings.len() == orig.len(),
                self.packages@.len() == orig.len(),
                delta_sum(orig, readings@) <= u64::MAX,
                total as int == delta_sum(orig.take(i as int), readings@.take(i as int)),
                forall|k: int| i <= k < orig.len() ==> #[trigger] self.packages@[k] == orig[k],
                forall|k: int| 0 <= k < i ==> {
                    &&& #[trigger] self.packages@[k].energy_path == orig[k].energy_path
                    &&& self.packages@[k].max_range_uj == orig[k].max_range_uj
                    &&& self.packages@[k].last_uj == match readings@[k] {
                        Some(now) => now,
                        None => orig[k].last_uj,
                    }
                },
                any == exists|k: int| 0 <= k < i && readings@[k] is Some,
            decreases readings.len() - i,
        {
            proof {
                lemma_delta_sum_prefix(orig, readings@, i + 1);
                let a = orig.take(i + 1);
                let b = readings@.take(i + 1);
                assert(a.drop_last() =~= orig.take(i as int));
                assert(b.take(a.len() - 1) =~= readings@.take(i as int));
            }
            let ghost before = self.packages@;
            let ghost i0 = i as int;
            assert(before[i0] == orig[i0]);
            match readings[i] {
                Some(now) => {
                    let last = self.packages[i].last_uj;
                    let max_range = self.packages[i].max_range_uj;
                    let delta = energy_delta_exec(now, last, max_range);
                    let path = self.packages[i].energy_path.clone();
                    self.packages.set(i, RaplPackage { energy_path: path, max_range_uj: max_range, last_uj: now });
                    total = total + delta;
                    any = true;
                },
                None => {},
            }
            i = i + 1;
            assert forall|k: int| 0 <= k < i implies {
                &&& #[trigger] self.packages@[k].energy_path == orig[k].energy_path
                &&& self.packages@[k].max_range_uj == orig[k].max_range_uj
                &&& self.packages@[k].last_uj == match readings@[k] {
                    Some(now) => now,
                    None => orig[k].last_uj,
                }
            } by {
                if k < i0 {
                    assert(self.packages@[k] == before[k]);
                    assert(before[k].energy_path == orig[k].energy_path);
                } else {
                    assert(k == i0);
                }
            }
            assert forall|k: int| i <= k < orig.len() implies #[trigger] self.packages@[k] == orig[k] by {
                assert(self.packages@[k] == before[k]);
            }
        }
        assert(orig.take(orig.len() as int) =~= orig);
        assert(readings@.take(readings@.len() as int) =~= readings@);
        if any {
            Some(total)
        } else {
            None
        }
    }
}

proof fn lemma_delta_nonneg(p: Seq<RaplPackage>, readings: Seq<Option<u64>>)
    ensures
        delta_sum(p, readings) >= 0,
    decreases p.len(),
{
    if p.len() > 0 && readings.len() >= p.len() {
        lemma_delta_nonneg(p.drop_last(), readings.take(p.len() - 1));
    }
}

/// The sum over the first `i` packages is at most the sum over all.
proof fn lemma_delta_sum_prefix(p: Seq<RaplPackage>, readings: Seq<Option<u64>>, i: int)
    requires
        0 <= i <= p.len(),
        readings.len() == p.len(),
    ensures
        delta_sum(p.take(i), readings.take(i)) <= delta_sum(p, readings),
    decreases p.len() - i,
{
    if i == p.len() {
        assert(p.take(i) =~= p);
        assert(readings.take(i) =~= readings);
    } else {
        lemma_delta_sum_prefix(p, readings, i + 1);
        let a = p.take(i + 1);
        let b = readings.take(i + 1);
        assert(a.drop_last() =~= p.take(i));
        assert(b.take(a.len() - 1) =~= readings.take(i));
        assert(energy_delta(0, 0, 0) >= 0);
    }
}

// ---------------------------------------------------------------------------
// display signature
// ---------------------------------------------------------------------------

/// Decimal text of a signed number.
pub open spec fn sdec(v: int) -> Seq<char> {
    if v < 0 {
        seq!['-'] + crate::text::dec((-v) as nat)
    } else {
        crate::text::dec(v as nat)
    }
}

pub fn sdec_string(v: i64) -> (r: String)
    ensures
        r@ == sdec(v as int),
{
    if v < 0 {
        let m: u64 = (-(v as i128)) as u64;
        let mut r = String::from_str("-");
        proof {
            reveal_strlit("-");
        }
        let d = crate::text::dec_string(m);
        r.append(d.as_str());
        r
    } else {
        crate::text::dec_string(v as u64)
    }
}

/// `{:?}` of an `Option<bool>`.
pub open spec fn opt_bool_debug(b: Option<bool>) -> Seq<char> {
    match b {
        Some(true) => "Some(true)"@,
        Some(false) => "Some(false)"@,
        None => "None"@,
    }
}

/// One fan in the display signature: id, speed (-1: none), duty cycle in
/// whole percent (-1: none) and mode.
pub struct FanFigures {
    pub id: String,
    pub rpm: i64,
    pub pct: i64,
    pub auto_mode: Option<bool>,
}

/// The displayed values, each rounded as the display shows it (`i64::MIN`
/// for a missing value): percentages and temperatures to whole numbers,
/// used and total memory in tenths of a GiB, rates in tenths below 10 mb/s and whole
/// numbers above (times ten), power in whole watts.
pub struct DisplayFigures {
    pub cpu: i64,
    pub ram: i64,
    pub ram_used_dgib: i64,
    pub disk: i64,
    pub gpu: i64,
    pub temp_cpu: i64,
    pub temp_gpu: i64,
    pub net_up: i64,
    pub net_down: i64,
    pub pwr: i64,
    pub ip: Option<String>,
    pub gpu_fan: i64,
    pub fans: Vec<FanFigures>,
    pub ram_total_dgib: i64,
}

pub open spec fn fan_sig(f: FanFigures) -> Seq<char> {
    "|"@ + f.id@ + ":"@ + sdec(f.rpm as int) + ":"@ + sdec(f.pct as int) + ":"@ + opt_bool_debug(f.auto_mode)
}

pub open spec fn fans_sig(fs: Seq<FanFigures>) -> Seq<char>
    decreases fs.len(),
{
    if fs.len() == 0 {
        Seq::empty()
    } else {
        fans_sig(fs.drop_last()) + fan_sig(fs.last())
    }
}

#[verifier::opaque]
pub open spec fn head_sig(d: DisplayFigures) -> Seq<char> {
    sdec(d.cpu as int) + "|"@ + sdec(d.ram as int) + "|"@ + sdec(d.ram_used_dgib as int) + "|"@
        + sdec(d.disk as int) + "|"@ + sdec(d.gpu as int) + "|"@ + sdec(d.temp_cpu as int) + "|"@
        + sdec(d.temp_gpu as int) + "|"@ + sdec(d.net_up as int) + "|"@ + sdec(d.net_down as int)
        + "|"@ + sdec(d.pwr as int) + "|"@ + (match d.ip {
        Some(ip) => ip@,
        None => "-"@,
    }) + "|"@ + sdec(d.gpu_fan as int) + "|"@ + sdec(d.ram_total_dgib as int)
}

fn append_sep_num(r: &mut String, v: i64)
    ensures
        final(r)@ == old(r)@ + "|"@ + sdec(v as int),
{
    r.append("|");
    let d = sdec_string(v);
    r.append(d.as_str());
}

fn append_fan_sig(r: &mut String, f: &FanFigures)
    ensures
        final(r)@ == old(r)@ + fan_sig(*f),
{
    r.append("|");
    r.append(f.id.as_str());
    r.append(":");
    let a = sdec_string(f.rpm);
    r.append(a.as_str());
    r.append(":");
    let b = sdec_string(f.pct);
    r.append(b.as_str());
    r.append(":");
    match f.auto_mode {
        Some(true) => r.append("Some(true)"),
        Some(false) => r.append("Some(false)"),
        None => r.append("None"),
    }
    assert(final(r)@ =~= old(r)@ + fan_sig(*f));
}

fn head_signature(d: &DisplayFigures) -> (r: String)
    ensures
        r@ == head_sig(*d),
{
    let mut r = sdec_string(d.cpu);
    append_sep_num(&mut r, d.ram);
    append_sep_num(&mut r, d.ram_used_dgib);
    append_sep_num(&mut r, d.disk);
    append_sep_num(&mut r, d.gpu);
    append_sep_num(&mut r, d.temp_cpu);
    append_sep_num(&mut r, d.temp_gpu);
    append_sep_num(&mut r, d.net_up);
    append_sep_num(&mut r, d.net_down);
    append_sep_num(&mut r, d.pwr);
    r.append("|");
    match &d.ip {
        Some(ip) => r.append(ip.as_str()),
        None => r.append("-"),
    }
    append_sep_num(&mut r, d.gpu_fan);
    append_sep_num(&mut r, d.ram_total_dgib);
    proof {
        reveal(head_sig);
    }
    assert(r@ =~= head_sig(*d));
    r
}

impl DisplayFigures {
    /// Signature of the display-rounded values: when it is unchanged the
    /// display would draw the same pixels, so the tick can be left out.
    pub fn display_signature(&self) -> (r: String)
        ensures
            r@ == signature_of(*self),
    {
        let mut r = head_signature(self);
        let ghost head = r@;
        let mut i: usize = 0;
        while i < self.fans.len()
            invariant
                0 <= i <= self.fans.len(),
                r@ == head + fans_sig(self.fans@.take(i as int)),
                head == head_sig(*self),
            decreases self.fans.len() - i,
        {
            append_fan_sig(&mut r, &self.fans[i]);
            assert(self.fans@.take(i + 1).drop_last() =~= self.fans@.take(i as int));
            i = i + 1;
            assert(r@ =~= head + fans_sig(self.fans@.take(i as int)));
        }
        assert(self.fans@.take(self.fans.len() as int) =~= self.fans@);
        r
    }
}

// ---------------------------------------------------------------------------
// what the display signature tells apart
// ---------------------------------------------------------------------------

pub open spec fn ip_text(ip: Option<String>) -> Seq<char> {
    match ip {
        Some(a) => a@,
        None => "-"@,
    }
}

/// The fields of the signature before the fans.
pub open spec fn head_pieces(d: DisplayFigures) -> Seq<Seq<char>> {
    seq![
        sdec(d.cpu as int),
        sdec(d.ram as int),
        sdec(d.ram_used_dgib as int),
        sdec(d.disk as int),
        sdec(d.gpu as int),
        sdec(d.temp_cpu as int),
        sdec(d.temp_gpu as int),
        sdec(d.net_up as int),
        sdec(d.net_down as int),
        sdec(d.pwr as int),
        ip_text(d.ip),
        sdec(d.gpu_fan as int),
        sdec(d.ram_total_dgib as int),
    ]
}

/// One fan's field of the signature (after its `|`).
pub open spec fn fan_text(f: FanFigures) -> Seq<char> {
    f.id@ + ":"@ + sdec(f.rpm as int) + ":"@ + sdec(f.pct as int) + ":"@ + opt_bool_debug(f.auto_mode)
}

pub open spec fn fan_texts(fs: Seq<FanFigures>) -> Seq<Seq<char>> {
    Seq::new(fs.len(), |i: int| fan_text(fs[i]))
}

/// The display signature of a set of figures.
pub open spec fn signature_of(d: DisplayFigures) -> Seq<char> {
    head_sig(d) + fans_sig(d.fans@)
}

/// Two sets of figures show the same display.
pub open spec fn same_display(d1: DisplayFigures, d2: DisplayFigures) -> bool {
    &&& d1.cpu == d2.cpu
    &&& d1.ram == d2.ram
    &&& d1.ram_used_dgib == d2.ram_used_dgib
    &&& d1.disk == d2.disk
    &&& d1.gpu == d2.gpu
    &&& d1.temp_cpu == d2.temp_cpu
    &&& d1.temp_gpu == d2.temp_gpu
    &&& d1.net_up == d2.net_up
    &&& d1.net_down == d2.net_down
    &&& d1.pwr == d2.pwr
    &&& crate::updater::opt_view(d1.ip) == crate::updater::opt_view(d2.ip)
    &&& d1.gpu_fan == d2.gpu_fan
    &&& d1.ram_total_dgib == d2.ram_total_dgib
    &&& d1.fans@.len() == d2.fans@.len()
    &&& forall|i: int|
        0 <= i < d1.fans@.len() ==> {
            &&& #[trigger] d1.fans@[i].id@ == d2.fans@[i].id@
            &&& d1.fans@[i].rpm == d2.fans@[i].rpm
            &&& d1.fans@[i].pct == d2.fans@[i].pct
            &&& d1.fans@[i].auto_mode == d2.fans@[i].auto_mode
        }
}

/// Texts the signature can keep apart: an address without `|` that is not
/// "-" (which stands for none), fan ids without `|`.
pub open spec fn signature_safe(d: DisplayFigures) -> bool {
    &&& (d.ip matches Some(a) ==> free_of(a@, '|') && a@ != "-"@)
    &&& forall|i: int| 0 <= i < d.fans@.len() ==> free_of(#[trigger] d.fans@[i].id@, '|')
}

proof fn lemma_sdec_free(v: int, c: char)
    requires
        !is_digit(c),
        c != '-',
    ensures
        free_of(sdec(v), c),
{
    if v < 0 {
        lemma_dec_free((-v) as nat, c);
        let t = seq!['-'] + dec((-v) as nat);
        assert forall|k: int| 0 <= k < t.len() implies t[k] != c by {
            if k > 0 {
                assert(t[k] == dec((-v) as nat)[k - 1]);
            }
        }
    } else {
        lemma_dec_free(v as nat, c);
    }
}

proof fn lemma_sdec_injective(a: int, b: int)
    requires
        sdec(a) == sdec(b),
    ensures
        a == b,
{
    lemma_dec_digits(if a < 0 { (-a) as nat } else { a as nat });
    lemma_dec_digits(if b < 0 { (-b) as nat } else { b as nat });
    if a < 0 && b < 0 {
        let x = dec((-a) as nat);
        let y = dec((-b) as nat);
        assert(x =~= sdec(a).drop_first());
        assert(y =~= sdec(b).drop_first());
        lemma_dec_injective((-a) as nat, (-b) as nat);
    } else if a < 0 {
        assert(sdec(a)[0] == '-');
        assert(is_digit(dec(b as nat)[0]));
    } else if b < 0 {
        assert(sdec(b)[0] == '-');
        assert(is_digit(dec(a as nat)[0]));
    } else {
        lemma_dec_injective(a as nat, b as nat);
    }
}

proof fn lemma_mode_text(m: Option<bool>, n: Option<bool>)
    ensures
        free_of(opt_bool_debug(m), ':'),
        free_of(opt_bool_debug(m), '|'),
        opt_bool_debug(m) == opt_bool_debug(n) ==> m == n,
{
    reveal_strlit("Some(true)");
    reveal_strlit("Some(false)");
    reveal_strlit("None");
    assert("Some(true)"@.len() == 10);
    assert("Some(false)"@.len() == 11);
    assert("None"@.len() == 4);
}

/// A fan's field gives back its id, speed, duty cycle and mode.
proof fn lemma_fan_text_injective(f: FanFigures, g: FanFigures)
    requires
        fan_text(f) == fan_text(g),
    ensures
        f.id@ == g.id@,
        f.rpm == g.rpm,
        f.pct == g.pct,
        f.auto_mode == g.auto_mode,
{
    reveal_strlit(":");
    lemma_mode_text(f.auto_mode, g.auto_mode);
    lemma_mode_text(g.auto_mode, f.auto_mode);
    lemma_sdec_free(f.rpm as int, ':');
    lemma_sdec_free(f.pct as int, ':');
    lemma_sdec_free(g.rpm as int, ':');
    lemma_sdec_free(g.pct as int, ':');
    let (fr, fp, fm) = (sdec(f.rpm as int), sdec(f.pct as int), opt_bool_debug(f.auto_mode));
    let (gr, gp, gm) = (sdec(g.rpm as int), sdec(g.pct as int), opt_bool_debug(g.auto_mode));
    assert(fan_text(f) =~= f.id@ + seq![':'] + fr + seq![':'] + fp + seq![':'] + fm);
    assert(fan_text(g) =~= g.id@ + seq![':'] + gr + seq![':'] + gp + seq![':'] + gm);
    lemma_last_sep(f.id@ + seq![':'] + fr + seq![':'] + fp, fm, g.id@ + seq![':'] + gr + seq![':'] + gp, gm, ':');
    lemma_last_sep(f.id@ + seq![':'] + fr, fp, g.id@ + seq![':'] + gr, gp, ':');
    lemma_last_sep(f.id@, fr, g.id@, gr, ':');
    lemma_sdec_injective(f.rpm as int, g.rpm as int);
    lemma_sdec_injective(f.pct as int, g.pct as int);
    lemma_mode_text(f.auto_mode, g.auto_mode);
}

proof fn lemma_join_push(p: Seq<Seq<char>>, x: Seq<char>, c: char)
    requires
        p.len() >= 1,
    ensures
        join_with(p.push(x), c) == join_with(p, c) + seq![c] + x,
{
    assert(p.push(x).drop_last() =~= p);
}

proof fn lemma_head_join(d: DisplayFigures)
    ensures
        head_sig(d) == join_with(head_pieces(d), '|'),
{
    reveal(head_sig);
    reveal_strlit("|");
    let p = head_pieces(d);
    let q1 = seq![p[0]];
    let q2 = q1.push(p[1]);
    let q3 = q2.push(p[2]);
    let q4 = q3.push(p[3]);
    let q5 = q4.push(p[4]);
    let q6 = q5.push(p[5]);
    let q7 = q6.push(p[6]);
    let q8 = q7.push(p[7]);
    let q9 = q8.push(p[8]);
    let q10 = q9.push(p[9]);
    let q11 = q10.push(p[10]);
    let q12 = q11.push(p[11]);
    let q13 = q12.push(p[12]);
    assert(join_with(q1, '|') == p[0]);
    lemma_join_push(q1, p[1], '|');
    lemma_join_push(q2, p[2], '|');
    lemma_join_push(q3, p[3], '|');
    lemma_join_push(q4, p[4], '|');
    lemma_join_push(q5, p[5], '|');
    lemma_join_push(q6, p[6], '|');
    lemma_join_push(q7, p[7], '|');
    lemma_join_push(q8, p[8], '|');
    lemma_join_push(q9, p[9], '|');
    lemma_join_push(q10, p[10], '|');
    lemma_join_push(q11, p[11], '|');
    lemma_join_push(q12, p[12], '|');
    assert(q13 =~= p);
    assert(head_sig(d) =~= join_with(q13, '|'));
}

proof fn lemma_fans_join(h: Seq<Seq<char>>, fs: Seq<FanFigures>)
    requires
        h.len() >= 1,
    ensures
        join_with(h, '|') + fans_sig(fs) == join_with(h + fan_texts(fs), '|'),
    decreases fs.len(),
{
    reveal_strlit("|");
    if fs.len() == 0 {
        assert(h + fan_texts(fs) =~= h);
        assert(join_with(h, '|') + fans_sig(fs) =~= join_with(h, '|'));
    } else {
        let rest = fs.drop_last();
        lemma_fans_join(h, rest);
        let all = h + fan_texts(fs);
        assert(all.drop_last() =~= h + fan_texts(rest));
        assert(all.last() == fan_text(fs.last()));
        assert(fan_sig(fs.last()) =~= seq!['|'] + fan_text(fs.last()));
        assert(join_with(h, '|') + fans_sig(fs) =~= join_with(h + fan_texts(rest), '|') + seq!['|'] + fan_text(fs.last()));
    }
}

#[verifier::spinoff_prover]
proof fn lemma_sig_pieces(d1: DisplayFigures, d2: DisplayFigures)
    requires
        signature_safe(d1),
        signature_safe(d2),
        head_sig(d1) + fans_sig(d1.fans@) == head_sig(d2) + fans_sig(d2.fans@),
    ensures
        head_pieces(d1) + fan_texts(d1.fans@) == head_pieces(d2) + fan_texts(d2.fans@),
{
    lemma_head_join(d1);
    lemma_head_join(d2);
    lemma_fans_join(head_pieces(d1), d1.fans@);
    lemma_fans_join(head_pieces(d2), d2.fans@);
    let p1 = head_pieces(d1) + fan_texts(d1.fans@);
    let p2 = head_pieces(d2) + fan_texts(d2.fans@);
    assert forall|i: int| 0 <= i < p1.len() implies free_of(#[trigger] p1[i], '|') by {
        pieces_free(d1, i);
    }
    assert forall|i: int| 0 <= i < p2.len() implies free_of(#[trigger] p2[i], '|') by {
        pieces_free(d2, i);
    }
    lemma_join_injective(p1, p2, '|');
}

proof fn lemma_ip_text(a: Option<String>, b: Option<String>)
    requires
        a matches Some(x) ==> x@ != "-"@,
        b matches Some(x) ==> x@ != "-"@,
        ip_text(a) == ip_text(b),
    ensures
        crate::updater::opt_view(a) == crate::updater::opt_view(b),
{
}

/// Equal display signatures mean equal displayed values: every rounded
/// figure, the address and each fan's id, speed, duty cycle and mode. So a
/// tick whose display would change never has the signature of the last one
/// sent, and is sent.
#[verifier::spinoff_prover]
pub proof fn law_signature_tells_changes(d1: DisplayFigures, d2: DisplayFigures)
    requires
        signature_safe(d1),
        signature_safe(d2),
        signature_of(d1) == signature_of(d2),
    ensures
        same_display(d1, d2),
{
    lemma_sig_pieces(d1, d2);
    lemma_concat_parts(head_pieces(d1), fan_texts(d1.fans@), head_pieces(d2), fan_texts(d2.fans@));
    lemma_head_values(d1, d2);
    lemma_fan_values(d1.fans@, d2.fans@);
}

proof fn lemma_concat_parts(a: Seq<Seq<char>>, b: Seq<Seq<char>>, c: Seq<Seq<char>>, d: Seq<Seq<char>>)
    requires
        a + b == c + d,
        a.len() == c.len(),
    ensures
        a == c,
        b == d,
{
    assert(a =~= (a + b).take(a.len() as int));
    assert(c =~= (c + d).take(c.len() as int));
    assert(b =~= (a + b).skip(a.len() as int));
    assert(d =~= (c + d).skip(c.len() as int));
}

proof fn lemma_head_values(d1: DisplayFigures, d2: DisplayFigures)
    requires
        head_pieces(d1) == head_pieces(d2),
        d1.ip matches Some(x) ==> x@ != "-"@,
        d2.ip matches Some(x) ==> x@ != "-"@,
    ensures
        d1.cpu == d2.cpu,
        d1.ram == d2.ram,
        d1.ram_used_dgib == d2.ram_used_dgib,
        d1.disk == d2.disk,
        d1.gpu == d2.gpu,
        d1.temp_cpu == d2.temp_cpu,
        d1.temp_gpu == d2.temp_gpu,
        d1.net_up == d2.net_up,
        d1.net_down == d2.net_down,
        d1.pwr == d2.pwr,
        crate::updater::opt_view(d1.ip) == crate::updater::opt_view(d2.ip),
        d1.gpu_fan == d2.gpu_fan,
        d1.ram_total_dgib == d2.ram_total_dgib,
{
    let h1 = head_pieces(d1);
    let h2 = head_pieces(d2);
    assert(h1[0] == h2[0] && h1[1] == h2[1] && h1[2] == h2[2] && h1[3] == h2[3]);
    assert(h1[4] == h2[4] && h1[5] == h2[5] && h1[6] == h2[6] && h1[7] == h2[7]);
    assert(h1[8] == h2[8] && h1[9] == h2[9] && h1[10] == h2[10] && h1[11] == h2[11]);
    assert(h1[12] == h2[12]);
    lemma_sdec_injective(d1.cpu as int, d2.cpu as int);
    lemma_sdec_injective(d1.ram as int, d2.ram as int);
    lemma_sdec_injective(d1.ram_used_dgib as int, d2.ram_used_dgib as int);
    lemma_sdec_injective(d1.disk as int, d2.disk as int);
    lemma_sdec_injective(d1.gpu as int, d2.gpu as int);
    lemma_sdec_injective(d1.temp_cpu as int, d2.temp_cpu as int);
    lemma_sdec_injective(d1.temp_gpu as int, d2.temp_gpu as int);
    lemma_sdec_injective(d1.net_up as int, d2.net_up as int);
    lemma_sdec_injective(d1.net_down as int, d2.net_down as int);
    lemma_sdec_injective(d1.pwr as int, d2.pwr as int);
    lemma_sdec_injective(d1.gpu_fan as int, d2.gpu_fan as int);
    lemma_sdec_injective(d1.ram_total_dgib as int, d2.ram_total_dgib as int);
    lemma_ip_text(d1.ip, d2.ip);
}

proof fn lemma_fan_values(f1: Seq<FanFigures>, f2: Seq<FanFigures>)
    requires
        fan_texts(f1) == fan_texts(f2),
    ensures
        f1.len() == f2.len(),
        forall|i: int|
            0 <= i < f1.len() ==> {
                &&& #[trigger] f1[i].id@ == f2[i].id@
                &&& f1[i].rpm == f2[i].rpm
                &&& f1[i].pct == f2[i].pct
                &&& f1[i].auto_mode == f2[i].auto_mode
            },
{
    assert(fan_texts(f1).len() == f1.len());
    assert forall|i: int| 0 <= i < f1.len() implies {
        &&& #[trigger] f1[i].id@ == f2[i].id@
        &&& f1[i].rpm == f2[i].rpm
        &&& f1[i].pct == f2[i].pct
        &&& f1[i].auto_mode == f2[i].auto_mode
    } by {
        assert(fan_texts(f1)[i] == fan_texts(f2)[i]);
        lemma_fan_text_injective(f1[i], f2[i]);
    }
}

proof fn pieces_free(d: DisplayFigures, i: int)
    requires
        signature_safe(d),
        0 <= i < 13 + d.fans@.len(),
    ensures
        free_of((head_pieces(d) + fan_texts(d.fans@))[i], '|'),
{
    reveal_strlit("-");
    reveal_strlit(":");
    let p = head_pieces(d) + fan_texts(d.fans@);
    if i < 13 {
        assert(p[i] == head_pieces(d)[i]);
        if i == 10 {
            match d.ip {
                Some(a) => {},
                None => {
                    assert("-"@ =~= seq!['-']);
                },
            }
        } else {
            let v: int = if i == 0 { d.cpu as int } else if i == 1 { d.ram as int } else if i == 2 {
                d.ram_used_dgib as int
            } else if i == 3 { d.disk as int } else if i == 4 { d.gpu as int } else if i == 5 {
                d.temp_cpu as int
            } else if i == 6 { d.temp_gpu as int } else if i == 7 { d.net_up as int } else if i == 8 {
                d.net_down as int
            } else if i == 9 { d.pwr as int } else if i == 11 { d.gpu_fan as int } else {
                d.ram_total_dgib as int
            };
            lemma_sdec_free(v, '|');
        }
    } else {
        let f = d.fans@[i - 13];
        assert(p[i] == fan_text(f));
        assert(free_of(f.id@, '|'));
        lemma_sdec_free(f.rpm as int, '|');
        lemma_sdec_free(f.pct as int, '|');
        lemma_mode_text(f.auto_mode, f.auto_mode);
        let t = fan_text(f);
        assert(t =~= f.id@ + seq![':'] + sdec(f.rpm as int) + seq![':'] + sdec(f.pct as int) + seq![':'] + opt_bool_debug(f.auto_mode));
        assert forall|k: int| 0 <= k < t.len() implies t[k] != '|' by {
            let a = f.id@.len() as int;
            let b = a + 1 + sdec(f.rpm as int).len();
            let c = b + 1 + sdec(f.pct as int).len();
            if k < a {
                assert(t[k] == f.id@[k]);
            } else if k == a || k == b || k == c {
            } else if k < b {
                assert(t[k] == sdec(f.rpm as int)[k - a - 1]);
            } else if k < c {
                assert(t[k] == sdec(f.pct as int)[k - b - 1]);
            } else {
                assert(t[k] == opt_bool_debug(f.auto_mode)[k - c - 1]);
            }
        }
    }
}

/// Line `j` of /proc/net/route is a default route (destination 00000000).
pub open spec fn is_default_route(l: Seq<char>) -> bool {
    words(l).len() >= 2 && words(l)[1] == seq!['0', '0', '0', '0', '0', '0', '0', '0']
}

proof fn lemma_route_at(ls: Seq<Seq<char>>, i: int, k: int)
    requires
        1 <= i <= k < ls.len(),
        is_default_route(ls[k]),
        forall|j: int| i <= j < k ==> words(#[trigger] ls[j]).len() > 0 && !is_default_route(ls[j]),
    ensures
        route_from(ls, i) == Some(words(ls[k])[0]),
    decreases k - i,
{
    reveal_strlit("00000000");
    assert("00000000"@ =~= seq!['0', '0', '0', '0', '0', '0', '0', '0']);
    if i < k {
        assert(words(ls[i]).len() > 0 && !is_default_route(ls[i]));
        lemma_route_at(ls, i + 1, k);
    }
}

proof fn lemma_route_found(ls: Seq<Seq<char>>, i: int)
    requires
        1 <= i,
        route_from(ls, i) is Some,
    ensures
        exists|k: int|
            i <= k < ls.len() && #[trigger] is_default_route(ls[k]) && route_from(ls, i) == Some(words(ls[k])[0])
                && forall|j: int| i <= j < k ==> words(#[trigger] ls[j]).len() > 0 && !is_default_route(ls[j]),
    decreases ls.len() - i,
{
    reveal_strlit("00000000");
    assert("00000000"@ =~= seq!['0', '0', '0', '0', '0', '0', '0', '0']);
    assert(i < ls.len());
    assert(words(ls[i]).len() > 0);
    if is_default_route(ls[i]) {
        assert(i <= i < ls.len() && is_default_route(ls[i]) && route_from(ls, i) == Some(words(ls[i])[0]));
    } else {
        assert(route_from(ls, i) == route_from(ls, i + 1));
        lemma_route_found(ls, i + 1);
        let k = choose|k: int|
            i + 1 <= k < ls.len() && #[trigger] is_default_route(ls[k]) && route_from(ls, i + 1) == Some(words(ls[k])[0])
                && forall|j: int| i + 1 <= j < k ==> words(#[trigger] ls[j]).len() > 0 && !is_default_route(ls[j]);
        assert forall|j: int| i <= j < k implies words(#[trigger] ls[j]).len() > 0 && !is_default_route(ls[j]) by {
        }
    }
}

/// The interface of the default route is that of the first line after the
/// header whose destination is 00000000, provided no blank line comes
/// before it (a blank line ends the table); and any interface found is of
/// that kind.
pub proof fn law_first_default_route(ls: Seq<Seq<char>>, k: int)
    ensures
        1 <= k < ls.len() && is_default_route(ls[k]) && (forall|j: int|
            1 <= j < k ==> words(#[trigger] ls[j]).len() > 0 && !is_default_route(ls[j]))
            ==> route_from(ls, 1) == Some(words(ls[k])[0]),
        route_from(ls, 1) is Some ==> exists|m: int|
            1 <= m < ls.len() && #[trigger] is_default_route(ls[m]) && route_from(ls, 1) == Some(words(ls[m])[0])
                && forall|j: int| 1 <= j < m ==> words(#[trigger] ls[j]).len() > 0 && !is_default_route(ls[j]),
{
    if 1 <= k < ls.len() && is_default_route(ls[k]) && (forall|j: int|
        1 <= j < k ==> words(#[trigger] ls[j]).len() > 0 && !is_default_route(ls[j])) {
        lemma_route_at(ls, 1, k);
    }
    if route_from(ls, 1) is Some {
        lemma_route_found(ls, 1);
    }
}

/// The CPU chips coretemp, k10temp, zenpower and cpu_thermal, and the
/// package channel labels "Package id 0", "Tctl" and "Tdie", are recognised
/// whatever whitespace their files hold around the name (the names are
/// compared trimmed).
pub proof fn law_cpu_sensor_names(w1: Seq<char>, w2: Seq<char>)
    requires
        forall|k: int| 0 <= k < w1.len() ==> is_ws(#[trigger] w1[k]),
        forall|k: int| 0 <= k < w2.len() ==> is_ws(#[trigger] w2[k]),
    ensures
        is_cpu_chip_name(trim(w1 + seq!['c', 'o', 'r', 'e', 't', 'e', 'm', 'p'] + w2)),
        is_cpu_chip_name(trim(w1 + seq!['k', '1', '0', 't', 'e', 'm', 'p'] + w2)),
        is_cpu_chip_name(trim(w1 + seq!['z', 'e', 'n', 'p', 'o', 'w', 'e', 'r'] + w2)),
        is_cpu_chip_name(trim(w1 + seq!['c', 'p', 'u', '_', 't', 'h', 'e', 'r', 'm', 'a', 'l'] + w2)),
        is_cpu_label_name(trim(w1 + seq!['P', 'a', 'c', 'k', 'a', 'g', 'e', ' ', 'i', 'd', ' ', '0'] + w2)),
        is_cpu_label_name(trim(w1 + seq!['T', 'c', 't', 'l'] + w2)),
        is_cpu_label_name(trim(w1 + seq!['T', 'd', 'i', 'e'] + w2)),
{
    reveal_strlit("coretemp");
    reveal_strlit("k10temp");
    reveal_strlit("zenpower");
    reveal_strlit("cpu_thermal");
    reveal_strlit("Package id 0");
    reveal_strlit("Tctl");
    reveal_strlit("Tdie");
    lemma_trim_around(w1, seq!['c', 'o', 'r', 'e', 't', 'e', 'm', 'p'], w2);
    assert(seq!['c', 'o', 'r', 'e', 't', 'e', 'm', 'p'] =~= "coretemp"@);
    lemma_trim_around(w1, seq!['k', '1', '0', 't', 'e', 'm', 'p'], w2);
    assert(seq!['k', '1', '0', 't', 'e', 'm', 'p'] =~= "k10temp"@);
    lemma_trim_around(w1, seq!['z', 'e', 'n', 'p', 'o', 'w', 'e', 'r'], w2);
    assert(seq!['z', 'e', 'n', 'p', 'o', 'w', 'e', 'r'] =~= "zenpower"@);
    lemma_trim_around(w1, seq!['c', 'p', 'u', '_', 't', 'h', 'e', 'r', 'm', 'a', 'l'], w2);
    assert(seq!['c', 'p', 'u', '_', 't', 'h', 'e', 'r', 'm', 'a', 'l'] =~= "cpu_thermal"@);
    lemma_trim_around(w1, seq!['P', 'a', 'c', 'k', 'a', 'g', 'e', ' ', 'i', 'd', ' ', '0'], w2);
    assert(seq!['P', 'a', 'c', 'k', 'a', 'g', 'e', ' ', 'i', 'd', ' ', '0'] =~= "Package id 0"@);
    lemma_trim_around(w1, seq!['T', 'c', 't', 'l'], w2);
    assert(seq!['T', 'c', 't', 'l'] =~= "Tctl"@);
    lemma_trim_around(w1, seq!['T', 'd', 'i', 'e'], w2);
    assert(seq!['T', 'd', 'i', 'e'] =~= "Tdie"@);
}

proof fn lemma_colons_concat(x: Seq<char>, y: Seq<char>)
    ensures
        colons(x + y) == colons(x) + colons(y),
    decreases y.len(),
{
    if y.len() > 0 {
        lemma_colons_concat(x, y.drop_last());
        assert((x + y).drop_last() =~= x + y.drop_last());
    }
}

proof fn lemma_colons_free(s: Seq<char>)
    ensures
        free_of(s, ':') <==> colons(s) == 0,
        colons(s) >= 0,
    decreases s.len(),
{
    if s.len() > 0 {
        lemma_colons_free(s.drop_last());
        if free_of(s, ':') {
            assert forall|k: int| 0 <= k < s.drop_last().len() implies s.drop_last()[k] != ':' by {
                assert(s.drop_last()[k] == s[k]);
            }
        }
        if colons(s) == 0 {
            assert forall|k: int| 0 <= k < s.len() implies s[k] != ':' by {
                if k < s.len() - 1 {
                    assert(s.drop_last()[k] == s[k]);
                }
            }
        }
    }
}

/// RAPL domains are exactly the directories "intel-rapl:<n>" with no further
/// colon: every such name is one, a sub-zone "intel-rapl:<n>:<m>" is not,
/// and a domain name always has that form (so "intel-rapl-mmio:<n>" is not
/// one).
pub proof fn law_rapl_domains(s: Seq<char>, a: Seq<char>, b: Seq<char>, d: Seq<char>)
    ensures
        free_of(s, ':') ==> is_rapl_domain_name(seq!['i', 'n', 't', 'e', 'l', '-', 'r', 'a', 'p', 'l', ':'] + s),
        !is_rapl_domain_name(seq!['i', 'n', 't', 'e', 'l', '-', 'r', 'a', 'p', 'l', ':'] + a + seq![':'] + b),
        is_rapl_domain_name(d) ==> d.len() >= 11 && d.take(11) == seq!['i', 'n', 't', 'e', 'l', '-', 'r', 'a', 'p', 'l', ':'] && free_of(d.skip(11), ':'),
{
    reveal_strlit("intel-rapl:");
    let p = seq!['i', 'n', 't', 'e', 'l', '-', 'r', 'a', 'p', 'l', ':'];
    assert(p =~= "intel-rapl:"@);
    let q = seq!['i', 'n', 't', 'e', 'l', '-', 'r', 'a', 'p', 'l'];
    assert(p =~= q + seq![':']);
    assert(free_of(q, ':'));
    lemma_colons_free(q);
    lemma_colons_concat(q, seq![':']);
    assert(colons(seq![':']) == colons(Seq::<char>::empty()) + 1) by {
        assert(seq![':'].drop_last() =~= Seq::<char>::empty());
    }
    assert(colons(p) == 1);
    // every name "intel-rapl:" + s without a colon
    lemma_colons_concat(p, s);
    lemma_colons_free(s);
    assert((p + s).subrange(0, 11) =~= p);
    // sub-zones
    let t = p + a + seq![':'] + b;
    assert(t =~= p + (a + (seq![':'] + b)));
    lemma_colons_concat(p, a + (seq![':'] + b));
    lemma_colons_concat(a, seq![':'] + b);
    lemma_colons_concat(seq![':'], b);
    lemma_colons_free(a);
    lemma_colons_free(b);
    // the form of a domain name
    if is_rapl_domain_name(d) {
        assert(d.take(11) =~= d.subrange(0, 11));
        assert(d =~= d.take(11) + d.skip(11));
        lemma_colons_concat(d.take(11), d.skip(11));
        lemma_colons_free(d.skip(11));
    }
}

proof fn lemma_field_at(ls: Seq<Seq<char>>, p: Seq<char>, i: int, k: int)
    requires
        0 <= i <= k < ls.len(),
        starts_with(ls[k], p),
        forall|j: int| i <= j < k ==> !starts_with(#[trigger] ls[j], p),
    ensures
        field_from(ls, p, i) == kb_number(ls[k].skip(p.len() as int)),
    decreases k - i,
{
    if i < k {
        lemma_field_at(ls, p, i + 1, k);
    } else {
        assert(after_prefix(ls[k], p) =~= ls[k].skip(p.len() as int));
    }
}

proof fn lemma_field_absent(ls: Seq<Seq<char>>, p: Seq<char>, i: int)
    requires
        0 <= i,
        forall|j: int| i <= j < ls.len() ==> !starts_with(#[trigger] ls[j], p),
    ensures
        field_from(ls, p, i) is None,
    decreases ls.len() - i,
{
    if i < ls.len() {
        lemma_field_absent(ls, p, i + 1);
    }
}

/// A "Key: N kB" field is read from the first line that starts with the
/// key (later lines with the same key do not count); without such a line
/// there is no figure.
pub proof fn law_first_field_line(ls: Seq<Seq<char>>, p: Seq<char>, k: int)
    ensures
        0 <= k < ls.len() && starts_with(ls[k], p) && (forall|j: int| 0 <= j < k ==> !starts_with(#[trigger] ls[j], p))
            ==> field_from(ls, p, 0) == kb_number(ls[k].skip(p.len() as int)),
        (forall|j: int| 0 <= j < ls.len() ==> !starts_with(#[trigger] ls[j], p)) ==> field_from(ls, p, 0) is None,
{
    if 0 <= k < ls.len() && starts_with(ls[k], p) && (forall|j: int| 0 <= j < k ==> !starts_with(#[trigger] ls[j], p)) {
        lemma_field_at(ls, p, 0, k);
    }
    if forall|j: int| 0 <= j < ls.len() ==> !starts_with(#[trigger] ls[j], p) {
        lemma_field_absent(ls, p, 0);
    }
}

} // verus!
