//! Board fans over hwmon: which channels exist, what they read, and what
//! has to be written to switch a channel between manual PWM and the
//! firmware's automatic mode.

use vstd::prelude::*;
use crate::text::{
    chars_of, concat_chars, dec, dec_chars, parse_bounded, starts_with, starts_with_exec,
    string_of, trim, trim_exec, parse_dec,
};
use crate::paths::{join, join_exec};
use crate::updater::opt_view;

verus! {

/// One fan channel of a hwmon chip, with the files it has.
#[derive(Debug)]
pub struct Channel {
    pub id: String,
    pub label: String,
    pub fan_input: Option<String>,
    pub pwm: Option<String>,
    pub pwm_enable: Option<String>,
}

pub struct ChannelView {
    pub id: Seq<char>,
    pub label: Seq<char>,
    pub fan_input: Option<Seq<char>>,
    pub pwm: Option<Seq<char>>,
    pub pwm_enable: Option<Seq<char>>,
}

impl View for Channel {
    type V = ChannelView;

    open spec fn view(&self) -> ChannelView {
        ChannelView {
            id: self.id@,
            label: self.label@,
            fan_input: opt_view(self.fan_input),
            pwm: opt_view(self.pwm),
            pwm_enable: opt_view(self.pwm_enable),
        }
    }
}

/// What a scan found for one channel index of a chip: which of
/// `fanN_input`, `pwmN`, `pwmN_enable` exist, and the text of `pwmN_enable`
/// (`None` when unreadable).
pub struct ChannelProbe {
    pub has_fan: bool,
    pub has_pwm: bool,
    pub has_enable: bool,
    pub enable_text: Option<String>,
}

/// What a scan found for one hwmon directory: its path, the text of its
/// `name` file (`None` when unreadable) and the probes for indices 1 to 8
/// (`probes[k]` is index `k + 1`; missing probes count as absent files).
pub struct ChipScan {
    pub dir: String,
    pub name_text: Option<String>,
    pub probes: Vec<ChannelProbe>,
}

/// A write of `value` to the sysfs file at `path`.
#[derive(Debug)]
pub struct SysfsWrite {
    pub path: String,
    pub value: String,
}

/// The values read for one channel; the PWM value is raw (0 to 255).
#[derive(Debug)]
pub struct FanReading {
    pub id: String,
    pub label: String,
    pub rpm: Option<u32>,
    pub pwm_raw: Option<u32>,
    pub auto_mode: Option<bool>,
}

// ---------------------------------------------------------------------------
// scanning
// ---------------------------------------------------------------------------

pub open spec fn chip_name(c: ChipScan) -> Seq<char> {
    match c.name_text {
        Some(t) => trim(t@),
        None => Seq::empty(),
    }
}

/// GPU fans come from elsewhere; chips named "nvidia…" are skipped.
pub open spec fn chip_skipped(c: ChipScan) -> bool {
    starts_with(chip_name(c), "nvidia"@)
}

pub open spec fn probe_at(c: ChipScan, idx: int) -> ChannelProbe {
    if 1 <= idx <= c.probes.len() {
        c.probes[idx - 1]
    } else {
        ChannelProbe { has_fan: false, has_pwm: false, has_enable: false, enable_text: None }
    }
}

pub open spec fn channel_id(c: ChipScan, idx: int) -> Seq<char> {
    chip_name(c) + ":"@ + dec(idx as nat)
}

/// The channel at index `idx` of a chip, when it has a fan input or PWM.
pub open spec fn channel_at(c: ChipScan, idx: int) -> Option<ChannelView> {
    let p = probe_at(c, idx);
    if chip_skipped(c) || !(p.has_fan || p.has_pwm) {
        None
    } else {
        Some(
            ChannelView {
                id: channel_id(c, idx),
                label: "fan"@ + dec(idx as nat),
                fan_input: if p.has_fan {
                    Some(join(c.dir@, "fan"@ + dec(idx as nat) + "_input"@))
                } else {
                    None
                },
                pwm: if p.has_pwm {
                    Some(join(c.dir@, "pwm"@ + dec(idx as nat)))
                } else {
                    None
                },
                pwm_enable: if p.has_enable {
                    Some(join(c.dir@, "pwm"@ + dec(idx as nat) + "_enable"@))
                } else {
                    None
                },
            },
        )
    }
}

/// Channels of a chip for the indices `idx` to 8.
pub open spec fn chip_channels(c: ChipScan, idx: int) -> Seq<ChannelView>
    decreases 9 - idx,
{
    if idx > 8 {
        Seq::empty()
    } else {
        match channel_at(c, idx) {
            Some(ch) => seq![ch] + chip_channels(c, idx + 1),
            None => chip_channels(c, idx + 1),
        }
    }
}

/// Channels of the first `k` chips, in order.
pub open spec fn scan_channels(chips: Seq<ChipScan>, k: int) -> Seq<ChannelView>
    decreases k,
{
    if k <= 0 || k > chips.len() {
        Seq::empty()
    } else {
        scan_channels(chips, k - 1) + chip_channels(chips[k - 1], 1)
    }
}

pub open spec fn parse_u8_text(t: Option<String>) -> Option<u8> {
    match t {
        Some(s) => match parse_bounded(trim(s@), 255) {
            Some(v) => Some(v as u8),
            None => None,
        },
        None => None,
    }
}

/// The `pwm_enable` values first seen for the channels of a chip from
/// index `idx` on are recorded; values already recorded stay.
pub open spec fn orig_chip(o: Map<Seq<char>, u8>, c: ChipScan, idx: int) -> Map<Seq<char>, u8>
    decreases 9 - idx,
{
    if idx > 8 {
        o
    } else {
        let o2 = if channel_at(c, idx) is Some && !o.contains_key(channel_id(c, idx)) && parse_u8_text(
            probe_at(c, idx).enable_text,
        ) is Some {
            o.insert(channel_id(c, idx), parse_u8_text(probe_at(c, idx).enable_text)->0)
        } else {
            o
        };
        orig_chip(o2, c, idx + 1)
    }
}

pub open spec fn orig_scan(o: Map<Seq<char>, u8>, chips: Seq<ChipScan>, k: int) -> Map<Seq<char>, u8>
    decreases k,
{
    if k <= 0 || k > chips.len() {
        o
    } else {
        orig_chip(orig_scan(o, chips, k - 1), chips[k - 1], 1)
    }
}

/// Map view of a list of (key, value) pairs with distinct keys.
pub open spec fn pairs_map(v: Seq<(String, u8)>) -> Map<Seq<char>, u8>
    decreases v.len(),
{
    if v.len() == 0 {
        Map::empty()
    } else {
        pairs_map(v.drop_last()).insert(v.last().0@, v.last().1)
    }
}

pub open spec fn distinct_keys(v: Seq<(String, u8)>) -> bool {
    forall|j: int, k: int| 0 <= j < k < v.len() ==> v[j].0@ != v[k].0@
}

proof fn lemma_pairs_map(v: Seq<(String, u8)>, j: int)
    requires
        distinct_keys(v),
        0 <= j < v.len(),
    ensures
        pairs_map(v).contains_key(v[j].0@),
        pairs_map(v)[v[j].0@] == v[j].1,
    decreases v.len(),
{
    if j < v.len() - 1 {
        let p = v.drop_last();
        assert(p[j] == v[j]);
        assert(distinct_keys(p));
        lemma_pairs_map(p, j);
        assert(v.last().0@ != v[j].0@);
    }
}

proof fn lemma_pairs_map_absent(v: Seq<(String, u8)>, key: Seq<char>)
    requires
        forall|j: int| 0 <= j < v.len() ==> v[j].0@ != key,
    ensures
        !pairs_map(v).contains_key(key),
    decreases v.len(),
{
    if v.len() > 0 {
        let p = v.drop_last();
        assert forall|j: int| 0 <= j < p.len() implies p[j].0@ != key by {
            assert(p[j] == v[j]);
        }
        lemma_pairs_map_absent(p, key);
    }
}

/// The value recorded for `id` in a list of pairs with distinct keys.
fn lookup_pair(v: &Vec<(String, u8)>, id: &String) -> (r: Option<u8>)
    requires
        distinct_keys(v@),
    ensures
        r == (if pairs_map(v@).contains_key(id@) {
            Some(pairs_map(v@)[id@])
        } else {
            None::<u8>
        }),
{
    let mut j: usize = 0;
    while j < v.len()
        invariant
            0 <= j <= v.len(),
            distinct_keys(v@),
            forall|k: int| 0 <= k < j ==> v@[k].0@ != id@,
        decreases v.len() - j,
    {
        if v[j].0 == *id {
            proof {
                lemma_pairs_map(v@, j as int);
            }
            return Some(v[j].1);
        }
        j = j + 1;
    }
    proof {
        lemma_pairs_map_absent(v@, id@);
    }
    None
}

/// The fan channels and the firmware mode each channel had when first seen.
pub struct FanControl {
    channels: Vec<Channel>,
    orig_enable: Vec<(String, u8)>,
    reads: u64,
}

impl FanControl {
    pub closed spec fn channels_view(&self) -> Seq<ChannelView> {
        Seq::new(self.channels@.len(), |i: int| self.channels@[i]@)
    }

    pub closed spec fn orig_view(&self) -> Map<Seq<char>, u8> {
        pairs_map(self.orig_enable@)
    }

    pub closed spec fn reads_view(&self) -> u64 {
        self.reads
    }

    /// Each channel's first-seen mode is recorded once.
    #[verifier::type_invariant]
    spec fn wf(&self) -> bool {
        distinct_keys(self.orig_enable@)
    }

    /// Channels from a scan of /sys/class/hwmon (chips sorted by directory).
    pub fn new(chips: &Vec<ChipScan>) -> (r: FanControl)
        ensures
            r.channels_view() == scan_channels(chips@, chips.len() as int),
            r.orig_view() == orig_scan(Map::empty(), chips@, chips.len() as int),
            r.reads_view() == 0,
    {
        let mut fc = FanControl { channels: Vec::new(), orig_enable: Vec::new(), reads: 0 };
        assert(fc.orig_view() =~= Map::<Seq<char>, u8>::empty());
        fc.rescan(chips);
        fc
    }

    /// Replaces the channels with those of a new scan and records the
    /// `pwm_enable` value of each channel seen for the first time.
    pub fn rescan(&mut self, chips: &Vec<ChipScan>)
        ensures
            final(self).channels_view() == scan_channels(chips@, chips.len() as int),
            final(self).orig_view() == orig_scan(old(self).orig_view(), chips@, chips.len() as int),
            final(self).reads_view() == old(self).reads_view(),
    {
        proof {
            use_type_invariant(&*self);
        }
        let ghost o0 = self.orig_view();
        let mut orig: Vec<(String, u8)> = Vec::new();
        std::mem::swap(&mut orig, &mut self.orig_enable);
        let mut channels: Vec<Channel> = Vec::new();
        let mut k: usize = 0;
        while k < chips.len()
            invariant
                0 <= k <= chips.len(),
                distinct_keys(orig@),
                self.reads == old(self).reads,
                Seq::new(channels@.len(), |i: int| channels@[i]@) == scan_channels(chips@, k as int),
                pairs_map(orig@) == orig_scan(o0, chips@, k as int),
            decreases chips.len() - k,
        {
            let c = &chips[k];
            let ghost chans_before = Seq::new(channels@.len(), |i: int| channels@[i]@);
            let ghost o_before = pairs_map(orig@);
            let name = match &c.name_text {
                Some(t) => {
                    let tc = chars_of(t.as_str());
                    trim_exec(&tc)
                },
                None => Vec::new(),
            };
            assert(name@ == chip_name(*c));
            let nv = chars_of("nvidia");
            if starts_with_exec(&name, &nv) {
                proof {
                    lemma_skipped_chip(*c, 1);
                }
            } else {
                let mut idx: u64 = 1;
                while idx <= 8
                    invariant
                        1 <= idx <= 9,
                        k < chips.len(),
                        *c == chips@[k as int],
                        name@ == chip_name(*c),
                        !chip_skipped(*c),
                        distinct_keys(orig@),
                        self.reads == old(self).reads,
                        Seq::new(channels@.len(), |i: int| channels@[i]@) + chip_channels(*c, idx as int)
                            == chans_before + chip_channels(*c, 1),
                        orig_chip(pairs_map(orig@), *c, idx as int) == orig_chip(o_before, *c, 1),
                    decreases 9 - idx,
                {
                    let ghost before = Seq::new(channels@.len(), |i: int| channels@[i]@);
                    let ghost o_it = pairs_map(orig@);
                    let ghost cid = channel_id(*c, idx as int);
                    let ghost pv = parse_u8_text(probe_at(*c, idx as int).enable_text);
                    let ghost o2 = if channel_at(*c, idx as int) is Some && !o_it.contains_key(cid) && pv is Some {
                        o_it.insert(cid, pv->0)
                    } else {
                        o_it
                    };
                    assert(orig_chip(o_it, *c, idx as int) == orig_chip(o2, *c, idx + 1));
                    let has_probe = (idx as usize) <= c.probes.len();
                    let (has_fan, has_pwm, has_enable) = if has_probe {
                        let p = &c.probes[(idx - 1) as usize];
                        (p.has_fan, p.has_pwm, p.has_enable)
                    } else {
                        (false, false, false)
                    };
                    assert(has_fan == probe_at(*c, idx as int).has_fan);
                    assert(has_pwm == probe_at(*c, idx as int).has_pwm);
                    assert(has_enable == probe_at(*c, idx as int).has_enable);
                    if has_fan || has_pwm {
                        let digits = dec_chars(idx);
                        let colon = chars_of(":");
                        let id0 = concat_chars(&name, &colon);
                        let idv = concat_chars(&id0, &digits);
                        let id = string_of(&idv);
                        assert(id@ == channel_id(*c, idx as int));
                        let fanw = chars_of("fan");
                        let labelv = concat_chars(&fanw, &digits);
                        let label = string_of(&labelv);
                        let pwmw = chars_of("pwm");
                        let pwmv = concat_chars(&pwmw, &digits);
                        let pwm_name = string_of(&pwmv);
                        let fan_input = if has_fan {
                            let suffix = chars_of("_input");
                            let fv = concat_chars(&labelv, &suffix);
                            let fname = string_of(&fv);
                            Some(join_exec(c.dir.as_str(), fname.as_str()))
                        } else {
                            None
                        };
                        let pwm = if has_pwm {
                            Some(join_exec(c.dir.as_str(), pwm_name.as_str()))
                        } else {
                            None
                        };
                        let pwm_enable = if has_enable {
                            let suffix = chars_of("_enable");
                            let ev = concat_chars(&pwmv, &suffix);
                            let ename = string_of(&ev);
                            Some(join_exec(c.dir.as_str(), ename.as_str()))
                        } else {
                            None
                        };
                        // first sighting: remember the firmware mode
                        let known = lookup_pair(&orig, &id);
                        if known.is_none() && has_probe {
                            let parsed = match &c.probes[(idx - 1) as usize].enable_text {
                                Some(t) => {
                                    let tc = chars_of(t.as_str());
                                    let tt = trim_exec(&tc);
                                    proof {
                                        crate::text::lemma_parse_bounded_range(trim(t@), 255);
                                    }
                                    parse_dec(&tt, 255)
                                },
                                None => None,
                            };
                            assert(match parsed {
                                Some(v) => pv == Some(v as u8) && v <= 255,
                                None => pv is None,
                            });
                            match parsed {
                                Some(v) => {
                                    let ghost ov = orig@;
                                    orig.push((id.clone(), v as u8));
                                    proof {
                                        assert forall|j: int| 0 <= j < ov.len() implies ov[j].0@ != id@ by {
                                            if ov[j].0@ == id@ {
                                                lemma_pairs_map(ov, j);
                                            }
                                        }
                                        assert(orig@.drop_last() =~= ov);
                                    }
                                },
                                None => {},
                            }
                        }
                        assert(pairs_map(orig@) == o2);
                        let ch = Channel { id, label, fan_input, pwm, pwm_enable };
                        channels.push(ch);
                        assert(Seq::new(channels@.len(), |i: int| channels@[i]@) =~= before.push(
                            channel_at(*c, idx as int)->0,
                        ));
                    } else {
                        assert(channel_at(*c, idx as int) is None);
                        assert(Seq::new(channels@.len(), |i: int| channels@[i]@) =~= before);
                        assert(pairs_map(orig@) == o2);
                    }
                    idx = idx + 1;
                }
                assert(chip_channels(*c, 9) =~= Seq::<ChannelView>::empty());
            }
            proof {
                assert(orig_scan(o0, chips@, k + 1) == orig_chip(orig_scan(o0, chips@, k as int), chips@[k as int], 1));
                assert(scan_channels(chips@, k + 1) == scan_channels(chips@, k as int) + chip_channels(chips@[k as int], 1));
            }
            k = k + 1;
        }
        self.channels = channels;
        self.orig_enable = orig;
    }

    /// Counts one read; true when the channels are due for a new scan
    /// (every eighth read, or while none are known).
    pub fn start_read(&mut self) -> (rescan_due: bool)
        requires
            old(self).reads_view() < u64::MAX,
        ensures
            rescan_due == (old(self).reads_view() % 8 == 0 || old(self).channels_view().len() == 0),
            final(self).reads_view() == old(self).reads_view() + 1,
            final(self).channels_view() == old(self).channels_view(),
            final(self).orig_view() == old(self).orig_view(),
    {
        proof {
            use_type_invariant(&*self);
        }
        let due = self.reads % 8 == 0 || self.channels.len() == 0;
        self.reads = self.reads + 1;
        due
    }

    /// Reads counted so far.
    pub fn reads(&self) -> (r: u64)
        ensures
            r == self.reads_view(),
    {
        self.reads
    }

    /// The current channels.
    pub fn channels(&self) -> (r: &Vec<Channel>)
        ensures
            r.len() == self.channels_view().len(),
            forall|i: int| 0 <= i < r.len() ==> #[trigger] r[i]@ == self.channels_view()[i],
    {
        &self.channels
    }
}

proof fn lemma_skipped_chip(c: ChipScan, idx: int)
    requires
        chip_skipped(c),
        1 <= idx <= 9,
    ensures
        chip_channels(c, idx) == Seq::<ChannelView>::empty(),
        forall|o: Map<Seq<char>, u8>| #[trigger] orig_chip(o, c, idx) == o,
    decreases 9 - idx,
{
    if idx <= 8 {
        lemma_skipped_chip(c, idx + 1);
        assert forall|o: Map<Seq<char>, u8>| #[trigger] orig_chip(o, c, idx) == o by {
            assert(orig_chip(o, c, idx) == orig_chip(o, c, idx + 1));
        }
    }
}

/// Index of the first channel with this id.
pub open spec fn channel_index(chs: Seq<ChannelView>, id: Seq<char>, i: int) -> Option<int>
    decreases chs.len() - i,
{
    if i < 0 || i >= chs.len() {
        None
    } else if chs[i].id == id {
        Some(i)
    } else {
        channel_index(chs, id, i + 1)
    }
}

pub open spec fn unknown_channel_msg(id: Seq<char>) -> Seq<char> {
    "unbekannter kanal: "@ + id
}

pub open spec fn text_value(t: Option<&str>, max: int) -> Option<int> {
    match t {
        Some(s) => parse_bounded(trim(s@), max),
        None => None,
    }
}

/// The firmware mode to go back to: the one first seen unless that was
/// manual (1), else thermal cruise (2).
pub open spec fn auto_target(orig: Map<Seq<char>, u8>, id: Seq<char>) -> u8 {
    if orig.contains_key(id) && orig[id] != 1 {
        orig[id]
    } else {
        2
    }
}

/// The raw PWM value for a duty cycle in percent, as `set_manual` takes it:
/// `(pct.clamp(0, 100) / 100 * 255).round()`, computed by the caller.
pub open spec fn manual_writes(ch: ChannelView, raw: u8) -> Seq<(Seq<char>, Seq<char>)> {
    match ch.pwm_enable {
        Some(en) => seq![(en, "1"@), (ch.pwm->0, dec(raw as nat))],
        None => seq![(ch.pwm->0, dec(raw as nat))],
    }
}

pub open spec fn writes_view(w: Seq<SysfsWrite>) -> Seq<(Seq<char>, Seq<char>)> {
    Seq::new(w.len(), |i: int| (w[i].path@, w[i].value@))
}

impl FanControl {
    /// The channel with this id.
    pub fn channel(&self, id: &str) -> (r: Result<&Channel, String>)
        ensures
            match channel_index(self.channels_view(), id@, 0) {
                Some(i) => r is Ok && r->Ok_0@ == self.channels_view()[i],
                None => r is Err && r->Err_0@ == unknown_channel_msg(id@),
            },
    {
        let idc = chars_of(id);
        let mut i: usize = 0;
        while i < self.channels.len()
            invariant
                0 <= i <= self.channels.len(),
                idc@ == id@,
                channel_index(self.channels_view(), id@, i as int) == channel_index(self.channels_view(), id@, 0),
            decreases self.channels.len() - i,
        {
            assert(self.channels_view()[i as int] == self.channels@[i as int]@);
            let cc = chars_of(self.channels[i].id.as_str());
            if crate::text::chars_eq(&cc, &idc) {
                return Ok(&self.channels[i]);
            }
            i = i + 1;
        }
        let prefix = chars_of("unbekannter kanal: ");
        let v = concat_chars(&prefix, &idc);
        Err(string_of(&v))
    }

    /// What the channel `i` reads, given the texts of its `fanN_input`,
    /// `pwmN` and `pwmN_enable` files (`None` when unreadable): the speed,
    /// the raw PWM value, and whether the firmware controls it (only for
    /// channels with both PWM files).
    pub fn fan_reading(&self, i: usize, rpm_text: Option<&str>, pwm_text: Option<&str>, enable_text: Option<&str>) -> (r: FanReading)
        requires
            i < self.channels_view().len(),
        ensures
            r.id@ == self.channels_view()[i as int].id,
            r.label@ == self.channels_view()[i as int].label,
            r.rpm == (if self.channels_view()[i as int].fan_input is Some {
                match text_value(rpm_text, u32::MAX as int) {
                    Some(v) => Some(v as u32),
                    None => None,
                }
            } else {
                None::<u32>
            }),
            r.pwm_raw == (if self.channels_view()[i as int].pwm is Some {
                match text_value(pwm_text, u32::MAX as int) {
                    Some(v) => Some(v as u32),
                    None => None,
                }
            } else {
                None::<u32>
            }),
            r.auto_mode == (if self.channels_view()[i as int].pwm is Some
                && self.channels_view()[i as int].pwm_enable is Some {
                match text_value(enable_text, 255) {
                    Some(v) => Some(v != 1),
                    None => None,
                }
            } else {
                None::<bool>
            }),
    {
        let ch = &self.channels[i];
        assert(self.channels_view()[i as int] == ch@);
        let rpm = match (&ch.fan_input, rpm_text) {
            (Some(_), Some(t)) => {
                proof {
                    crate::text::lemma_parse_bounded_range(trim(t@), u32::MAX as int);
                }
                match crate::text::parse_trimmed(t, u32::MAX as u64) {
                    Some(v) => Some(v as u32),
                    None => None,
                }
            },
            _ => None,
        };
        let pwm_raw = match (&ch.pwm, pwm_text) {
            (Some(_), Some(t)) => {
                proof {
                    crate::text::lemma_parse_bounded_range(trim(t@), u32::MAX as int);
                }
                match crate::text::parse_trimmed(t, u32::MAX as u64) {
                    Some(v) => Some(v as u32),
                    None => None,
                }
            },
            _ => None,
        };
        let auto_mode = match (&ch.pwm, &ch.pwm_enable, enable_text) {
            (Some(_), Some(_), Some(t)) => {
                proof {
                    crate::text::lemma_parse_bounded_range(trim(t@), 255);
                }
                match crate::text::parse_trimmed(t, 255) {
                    Some(v) => Some(v != 1),
                    None => None,
                }
            },
            _ => None,
        };
        FanReading { id: ch.id.clone(), label: ch.label.clone(), rpm, pwm_raw, auto_mode }
    }

    /// The writes that put channel `id` under manual control at raw PWM
    /// value `raw`: manual mode first where the channel has `pwmN_enable`,
    /// then the value.
    pub fn set_manual(&self, id: &str, raw: u8) -> (r: Result<Vec<SysfsWrite>, String>)
        ensures
            match channel_index(self.channels_view(), id@, 0) {
                Some(i) => match self.channels_view()[i].pwm {
                    Some(_) => r is Ok && writes_view(r->Ok_0@) == manual_writes(self.channels_view()[i], raw),
                    None => r is Err && r->Err_0@ == "kanal hat kein pwm"@,
                },
                None => r is Err && r->Err_0@ == unknown_channel_msg(id@),
            },
    {
        let ch = match self.channel(id) {
            Ok(c) => c,
            Err(e) => return Err(e),
        };
        let pwm = match &ch.pwm {
            Some(p) => p,
            None => return Err(String::from_str("kanal hat kein pwm")),
        };
        let mut w: Vec<SysfsWrite> = Vec::new();
        match &ch.pwm_enable {
            Some(en) => {
                w.push(SysfsWrite { path: en.clone(), value: String::from_str("1") });
            },
            None => {},
        }
        w.push(SysfsWrite { path: pwm.clone(), value: crate::text::dec_string(raw as u64) });
        assert(writes_view(w@) =~= manual_writes(ch@, raw));
        Ok(w)
    }

    /// The write that gives channel `id` back to the firmware: its first
    /// seen mode unless that was manual, else thermal cruise (2).
    pub fn set_auto(&self, id: &str) -> (r: Result<SysfsWrite, String>)
        ensures
            match channel_index(self.channels_view(), id@, 0) {
                Some(i) => match self.channels_view()[i].pwm_enable {
                    Some(en) => r is Ok && r->Ok_0.path@ == en && r->Ok_0.value@ == dec(
                        auto_target(self.orig_view(), id@) as nat,
                    ),
                    None => r is Err && r->Err_0@ == "kanal hat kein pwm_enable"@,
                },
                None => r is Err && r->Err_0@ == unknown_channel_msg(id@),
            },
    {
        let ch = match self.channel(id) {
            Ok(c) => c,
            Err(e) => return Err(e),
        };
        let enable = match &ch.pwm_enable {
            Some(p) => p,
            None => return Err(String::from_str("kanal hat kein pwm_enable")),
        };
        let key = String::from_str(id);
        proof {
            use_type_invariant(self);
        }
        let target: u8 = match lookup_pair(&self.orig_enable, &key) {
            Some(v) => if v != 1 {
                v
            } else {
                2
            },
            None => 2,
        };
        Ok(SysfsWrite { path: enable.clone(), value: crate::text::dec_string(target as u64) })
    }
}

/// A rescan never changes the firmware mode recorded for a channel seen
/// before; it only adds the modes of channels seen for the first time.
pub proof fn law_first_mode_kept(o: Map<Seq<char>, u8>, chips: Seq<ChipScan>, k: int, id: Seq<char>)
    requires
        o.contains_key(id),
    ensures
        orig_scan(o, chips, k).contains_key(id),
        orig_scan(o, chips, k)[id] == o[id],
    decreases k,
{
    if 0 < k <= chips.len() {
        law_first_mode_kept(o, chips, k - 1, id);
        lemma_chip_keeps(orig_scan(o, chips, k - 1), chips[k - 1], 1, id);
    }
}

proof fn lemma_chip_keeps(o: Map<Seq<char>, u8>, c: ChipScan, idx: int, id: Seq<char>)
    requires
        o.contains_key(id),
    ensures
        orig_chip(o, c, idx).contains_key(id),
        orig_chip(o, c, idx)[id] == o[id],
    decreases 9 - idx,
{
    if idx <= 8 {
        let o2 = if channel_at(c, idx) is Some && !o.contains_key(channel_id(c, idx)) && parse_u8_text(
            probe_at(c, idx).enable_text,
        ) is Some {
            o.insert(channel_id(c, idx), parse_u8_text(probe_at(c, idx).enable_text)->0)
        } else {
            o
        };
        assert(o2.contains_key(id) && o2[id] == o[id]);
        lemma_chip_keeps(o2, c, idx + 1, id);
    }
}

/// Handing a channel back to the firmware never selects manual mode (1).
pub proof fn law_auto_is_not_manual(orig: Map<Seq<char>, u8>, id: Seq<char>)
    ensures
        auto_target(orig, id) != 1,
{
}

/// Channel `j` of chip `c` was found with a `pwm_enable` text that reads
/// as `v`, under the id `key`.
pub open spec fn sighting(chips: Seq<ChipScan>, c: int, j: int, key: Seq<char>, v: u8) -> bool {
    &&& 0 <= c < chips.len()
    &&& 1 <= j <= 8
    &&& channel_at(chips[c], j) is Some
    &&& channel_id(chips[c], j) == key
    &&& parse_u8_text(probe_at(chips[c], j).enable_text) == Some(v)
}

/// The step of `orig_chip` at index `idx`.
spec fn chip_step(o: Map<Seq<char>, u8>, c: ChipScan, idx: int) -> Map<Seq<char>, u8> {
    if channel_at(c, idx) is Some && !o.contains_key(channel_id(c, idx)) && parse_u8_text(
        probe_at(c, idx).enable_text,
    ) is Some {
        o.insert(channel_id(c, idx), parse_u8_text(probe_at(c, idx).enable_text)->0)
    } else {
        o
    }
}

proof fn lemma_chip_added(o: Map<Seq<char>, u8>, c: ChipScan, idx: int, key: Seq<char>)
    requires
        1 <= idx,
        orig_chip(o, c, idx).contains_key(key),
        !o.contains_key(key),
    ensures
        exists|j: int|
            idx <= j <= 8 && channel_at(c, j) is Some && channel_id(c, j) == key && parse_u8_text(
                probe_at(c, j).enable_text,
            ) == Some(orig_chip(o, c, idx)[key]),
    decreases 9 - idx,
{
    if idx <= 8 {
        let o2 = chip_step(o, c, idx);
        assert(orig_chip(o, c, idx) == orig_chip(o2, c, idx + 1));
        if o2.contains_key(key) {
            lemma_chip_keeps(o2, c, idx + 1, key);
            assert(channel_id(c, idx) == key);
        } else {
            lemma_chip_added(o2, c, idx + 1, key);
        }
    }
}

proof fn lemma_chip_found(o: Map<Seq<char>, u8>, c: ChipScan, idx: int, j: int)
    requires
        1 <= idx <= j <= 8,
        channel_at(c, j) is Some,
        parse_u8_text(probe_at(c, j).enable_text) is Some,
    ensures
        orig_chip(o, c, idx).contains_key(channel_id(c, j)),
    decreases 9 - idx,
{
    let o2 = chip_step(o, c, idx);
    assert(orig_chip(o, c, idx) == orig_chip(o2, c, idx + 1));
    if idx == j {
        assert(o2.contains_key(channel_id(c, j)));
        lemma_chip_keeps(o2, c, idx + 1, channel_id(c, j));
    } else {
        lemma_chip_found(o2, c, idx + 1, j);
    }
}

/// The keys a scan of the first `k` chips adds to the recorded modes are
/// exactly ids of channels found whose `pwm_enable` reads as a number:
/// each added key was sighted with the value recorded for it, and every
/// channel sighted with a readable value has its id recorded (first
/// sightings win; keys known before keep their values, see
/// `law_first_mode_kept`).
pub proof fn law_rescan_added_keys(o: Map<Seq<char>, u8>, chips: Seq<ChipScan>, k: int)
    requires
        0 <= k <= chips.len(),
    ensures
        forall|key: Seq<char>|
            #![trigger orig_scan(o, chips, k).contains_key(key)]
            orig_scan(o, chips, k).contains_key(key) && !o.contains_key(key) ==> exists|c: int, j: int|
                c < k && #[trigger] sighting(chips, c, j, key, orig_scan(o, chips, k)[key]),
        forall|c: int, j: int|
            0 <= c < k && 1 <= j <= 8 && channel_at(chips[c], j) is Some && #[trigger] parse_u8_text(
                probe_at(chips[c], j).enable_text,
            ) is Some ==> orig_scan(o, chips, k).contains_key(#[trigger] channel_id(chips[c], j)),
    decreases k,
{
    if k > 0 {
        law_rescan_added_keys(o, chips, k - 1);
        let prev = orig_scan(o, chips, k - 1);
        let ch = chips[k - 1];
        assert(orig_scan(o, chips, k) == orig_chip(prev, ch, 1));
        assert forall|key: Seq<char>|
            #![trigger orig_scan(o, chips, k).contains_key(key)]
            orig_scan(o, chips, k).contains_key(key) && !o.contains_key(key) implies exists|c: int, j: int|
                c < k && #[trigger] sighting(chips, c, j, key, orig_scan(o, chips, k)[key]) by {
            if prev.contains_key(key) {
                lemma_chip_keeps(prev, ch, 1, key);
                assert(prev.contains_key(key) && !o.contains_key(key));
                let (c, j) = choose|c: int, j: int| c < k - 1 && #[trigger] sighting(chips, c, j, key, prev[key]);
                assert(sighting(chips, c, j, key, orig_scan(o, chips, k)[key]));
            } else {
                lemma_chip_added(prev, ch, 1, key);
                let j = choose|j: int|
                    1 <= j <= 8 && channel_at(ch, j) is Some && channel_id(ch, j) == key && parse_u8_text(
                        probe_at(ch, j).enable_text,
                    ) == Some(orig_chip(prev, ch, 1)[key]);
                assert(sighting(chips, k - 1, j, key, orig_scan(o, chips, k)[key]));
            }
        }
        assert forall|c: int, j: int|
            0 <= c < k && 1 <= j <= 8 && channel_at(chips[c], j) is Some && #[trigger] parse_u8_text(
                probe_at(chips[c], j).enable_text,
            ) is Some implies orig_scan(o, chips, k).contains_key(#[trigger] channel_id(chips[c], j)) by {
            if c < k - 1 {
                assert(prev.contains_key(channel_id(chips[c], j)));
                lemma_chip_keeps(prev, ch, 1, channel_id(chips[c], j));
            } else {
                lemma_chip_found(prev, ch, 1, j);
            }
        }
    }
}

proof fn lemma_chip_has(c: ChipScan, idx: int, i: int)
    requires
        1 <= idx <= i <= 8,
        channel_at(c, i) is Some,
    ensures
        chip_channels(c, idx).contains(channel_at(c, i)->0),
    decreases i - idx,
{
    let ch = channel_at(c, i)->0;
    if idx == i {
        assert((seq![ch] + chip_channels(c, idx + 1))[0] == ch);
    } else {
        lemma_chip_has(c, idx + 1, i);
        let rest = chip_channels(c, idx + 1);
        let j = choose|j: int| 0 <= j < rest.len() && rest[j] == ch;
        match channel_at(c, idx) {
            Some(x) => {
                assert((seq![x] + rest)[j + 1] == ch);
            },
            None => {},
        }
    }
}

proof fn lemma_scan_has(chips: Seq<ChipScan>, k: int, c: int, x: ChannelView)
    requires
        0 <= c < k <= chips.len(),
        chip_channels(chips[c], 1).contains(x),
    ensures
        scan_channels(chips, k).contains(x),
    decreases k,
{
    let prev = scan_channels(chips, k - 1);
    let here = chip_channels(chips[k - 1], 1);
    assert(scan_channels(chips, k) == prev + here);
    if c == k - 1 {
        let j = choose|j: int| 0 <= j < here.len() && here[j] == x;
        assert((prev + here)[prev.len() + j] == x);
    } else {
        lemma_scan_has(chips, k - 1, c, x);
        let j = choose|j: int| 0 <= j < prev.len() && prev[j] == x;
        assert((prev + here)[j] == x);
    }
}

/// Only chips whose name starts with "nvidia" are left out (their fans come
/// from NVML): on any other chip, each index 1 to 8 with a fan input or a
/// PWM file is a channel with id "<chip>:<index>" and label "fan<index>",
/// having exactly the files found, and a scan of the chips holds it. An
/// "nvidia" chip has no channels.
pub proof fn law_scan_finds_channels(chips: Seq<ChipScan>, c: int, i: int)
    requires
        0 <= c < chips.len(),
        1 <= i <= 8,
    ensures
        !starts_with(chip_name(chips[c]), "nvidia"@) && (probe_at(chips[c], i).has_fan || probe_at(
            chips[c],
            i,
        ).has_pwm) ==> {
            &&& channel_at(chips[c], i) is Some
            &&& channel_at(chips[c], i)->0.id == chip_name(chips[c]) + seq![':'] + dec(i as nat)
            &&& channel_at(chips[c], i)->0.label == seq!['f', 'a', 'n'] + dec(i as nat)
            &&& (channel_at(chips[c], i)->0.fan_input is Some) == probe_at(chips[c], i).has_fan
            &&& (channel_at(chips[c], i)->0.pwm is Some) == probe_at(chips[c], i).has_pwm
            &&& (channel_at(chips[c], i)->0.pwm_enable is Some) == probe_at(chips[c], i).has_enable
            &&& scan_channels(chips, chips.len() as int).contains(channel_at(chips[c], i)->0)
        },
        !(probe_at(chips[c], i).has_fan || probe_at(chips[c], i).has_pwm) ==> channel_at(chips[c], i) is None,
        starts_with(chip_name(chips[c]), "nvidia"@) ==> chip_channels(chips[c], 1).len() == 0,
{
    reveal_strlit(":");
    reveal_strlit("fan");
    if starts_with(chip_name(chips[c]), "nvidia"@) {
        lemma_skipped_chip(chips[c], 1);
    } else if probe_at(chips[c], i).has_fan || probe_at(chips[c], i).has_pwm {
        lemma_chip_has(chips[c], 1, i);
        lemma_scan_has(chips, chips.len() as int, c, channel_at(chips[c], i)->0);
    }
}

} // verus!
