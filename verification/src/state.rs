//! Fan targets of the UI and the per-fan deadlines during which the display
//! keeps what the user set ("hold") or shows a refused write ("denied").
//! Times are milliseconds on a monotonic clock.

use vstd::prelude::*;
use crate::text::{chars_of, chars_eq};

verus! {

/// What a fan control acts on: all controllable fans, or one by id.
#[derive(Clone, PartialEq, Eq, Debug)]
pub enum FanTarget {
    Group,
    One(String),
}

/// Identity of a bar, for its animation and its shown value.
#[derive(Clone, PartialEq, Eq, Hash, Debug)]
pub enum BarId {
    Cpu,
    Ram,
    Disk,
    Gpu,
    FanGroup,
    Fan(String),
}

/// Clickable regions, collected while drawing.
#[derive(Clone, PartialEq, Debug)]
pub enum Hit {
    Header,
    Dot,
    TopRow(&'static str),
    FanMode(FanTarget),
    FanSlider(FanTarget),
}

/// Key under which the group's own deadline is kept.
pub const GROUP_KEY: &'static str = "__group__";

/// Map view of (id, deadline) pairs with distinct ids.
pub open spec fn deadlines_map(v: Seq<(String, u64)>) -> Map<Seq<char>, u64>
    decreases v.len(),
{
    if v.len() == 0 {
        Map::empty()
    } else {
        deadlines_map(v.drop_last()).insert(v.last().0@, v.last().1)
    }
}

pub open spec fn distinct_ids(v: Seq<(String, u64)>) -> bool {
    forall|j: int, k: int| 0 <= j < k < v.len() ==> v[j].0@ != v[k].0@
}

/// The map after setting the deadline of each id in `ids`, in order.
pub open spec fn insert_all(m: Map<Seq<char>, u64>, ids: Seq<Seq<char>>, until: u64) -> Map<Seq<char>, u64>
    decreases ids.len(),
{
    if ids.len() == 0 {
        m
    } else {
        insert_all(m, ids.drop_last(), until).insert(ids.last(), until)
    }
}

/// Deadlines after holding `target`: one fan, or the group key and every fan.
pub open spec fn hold_view(m: Map<Seq<char>, u64>, target: FanTarget, until: u64, ids: Seq<Seq<char>>) -> Map<Seq<char>, u64> {
    match target {
        FanTarget::One(id) => m.insert(id@, until),
        FanTarget::Group => insert_all(m.insert(GROUP_KEY@, until), ids, until),
    }
}

/// A deadline is active while it lies after `now`.
pub open spec fn active_at(m: Map<Seq<char>, u64>, id: Seq<char>, now: u64) -> bool {
    m.contains_key(id) && m[id] > now
}

proof fn lemma_deadlines_at(v: Seq<(String, u64)>, j: int)
    requires
        distinct_ids(v),
        0 <= j < v.len(),
    ensures
        deadlines_map(v).contains_key(v[j].0@),
        deadlines_map(v)[v[j].0@] == v[j].1,
    decreases v.len(),
{
    if j < v.len() - 1 {
        let p = v.drop_last();
        assert(p[j] == v[j]);
        lemma_deadlines_at(p, j);
    }
}

proof fn lemma_deadlines_absent(v: Seq<(String, u64)>, id: Seq<char>)
    requires
        forall|j: int| 0 <= j < v.len() ==> v[j].0@ != id,
    ensures
        !deadlines_map(v).contains_key(id),
    decreases v.len(),
{
    if v.len() > 0 {
        let p = v.drop_last();
        assert forall|j: int| 0 <= j < p.len() implies p[j].0@ != id by {
            assert(p[j] == v[j]);
        }
        lemma_deadlines_absent(p, id);
    }
}

proof fn lemma_deadlines_update(v: Seq<(String, u64)>, j: int, until: u64)
    requires
        distinct_ids(v),
        0 <= j < v.len(),
    ensures
        deadlines_map(v.update(j, (v[j].0, until))) == deadlines_map(v).insert(v[j].0@, until),
    decreases v.len(),
{
    let w = v.update(j, (v[j].0, until));
    if j == v.len() - 1 {
        assert(w.drop_last() =~= v.drop_last());
        let p = v.drop_last();
        assert forall|k: int| 0 <= k < p.len() implies p[k].0@ != v[j].0@ by {
            assert(p[k] == v[k]);
        }
        lemma_deadlines_absent(p, v[j].0@);
        assert(deadlines_map(w) =~= deadlines_map(v).insert(v[j].0@, until));
    } else {
        let p = v.drop_last();
        assert(w.drop_last() =~= p.update(j, (p[j].0, until)));
        lemma_deadlines_update(p, j, until);
        assert(v.last().0@ != v[j].0@);
        assert(deadlines_map(w) =~= deadlines_map(v).insert(v[j].0@, until));
    }
}

pub open spec fn string_views(v: Seq<String>) -> Seq<Seq<char>> {
    Seq::new(v.len(), |i: int| v[i]@)
}

/// Deadlines per fan id.
pub struct FanHolds {
    entries: Vec<(String, u64)>,
}

impl View for FanHolds {
    type V = Map<Seq<char>, u64>;

    closed spec fn view(&self) -> Map<Seq<char>, u64> {
        deadlines_map(self.entries@)
    }
}

impl FanHolds {
    /// Each id has one deadline.
    #[verifier::type_invariant]
    spec fn wf(&self) -> bool {
        distinct_ids(self.entries@)
    }

    pub fn new() -> (r: FanHolds)
        ensures
            r@ == Map::<Seq<char>, u64>::empty(),
    {
        FanHolds { entries: Vec::new() }
    }

    /// Sets the deadline of `id`.
    pub fn insert(&mut self, id: String, until: u64)
        ensures
            final(self)@ == old(self)@.insert(id@, until),
    {
        proof {
            use_type_invariant(&*self);
        }
        let mut entries: Vec<(String, u64)> = Vec::new();
        std::mem::swap(&mut entries, &mut self.entries);
        let ghost start = entries@;
        let mut j: usize = 0;
        while j < entries.len()
            invariant
                0 <= j <= entries.len(),
                distinct_ids(entries@),
                entries@ == start,
                start == old(self).entries@,
                forall|k: int| 0 <= k < j ==> entries@[k].0@ != id@,
            decreases entries.len() - j,
        {
            if entries[j].0 == id {
                let ghost before = entries@;
                let key = entries[j].0.clone();
                entries.set(j, (key, until));
                proof {
                    assert(entries@ == before.update(j as int, (before[j as int].0, until)));
                    lemma_deadlines_update(before, j as int, until);
                    assert forall|a: int, b: int| 0 <= a < b < entries@.len() implies entries@[a].0@
                        != entries@[b].0@ by {
                        assert(before[a].0@ != before[b].0@);
                    }
                }
                self.entries = entries;
                return;
            }
            j = j + 1;
        }
        let ghost before = entries@;
        proof {
            lemma_deadlines_absent(before, id@);
        }
        entries.push((id, until));
        proof {
            assert(entries@.drop_last() =~= before);
            assert forall|a: int, b: int| 0 <= a < b < entries@.len() implies entries@[a].0@
                != entries@[b].0@ by {
                if b < before.len() {
                    assert(before[a].0@ != before[b].0@);
                }
            }
        }
        self.entries = entries;
    }

    /// Drops every deadline.
    pub fn clear(&mut self)
        ensures
            final(self)@ == Map::<Seq<char>, u64>::empty(),
    {
        self.entries = Vec::new();
    }

    /// Sets the deadline of every id in `ids`.
    pub fn insert_each(&mut self, ids: &Vec<String>, until: u64)
        ensures
            final(self)@ == insert_all(old(self)@, string_views(ids@), until),
    {
        let ghost start = self@;
        let ghost v = string_views(ids@);
        let mut i: usize = 0;
        while i < ids.len()
            invariant
                0 <= i <= ids.len(),
                v == string_views(ids@),
                self@ == insert_all(start, v.take(i as int), until),
            decreases ids.len() - i,
        {
            self.insert(ids[i].clone(), until);
            assert(v.take(i + 1).drop_last() =~= v.take(i as int));
            i = i + 1;
        }
        assert(v.take(ids.len() as int) =~= v);
    }

    /// Holds a fan until `until`; for the group, the group key and every
    /// fan in `all_ids`.
    pub fn hold(&mut self, target: &FanTarget, until: u64, all_ids: &Vec<String>)
        ensures
            final(self)@ == hold_view(old(self)@, *target, until, string_views(all_ids@)),
    {
        match target {
            FanTarget::One(id) => {
                self.insert(id.clone(), until);
            },
            FanTarget::Group => {
                self.insert(String::from_str(GROUP_KEY), until);
                self.insert_each(all_ids, until);
            },
        }
    }

    /// Whether the deadline of `id` lies after `now`.
    pub fn active(&self, id: &str, now: u64) -> (r: bool)
        ensures
            r == active_at(self@, id@, now),
    {
        proof {
            use_type_invariant(self);
        }
        let idc = chars_of(id);
        let mut j: usize = 0;
        while j < self.entries.len()
            invariant
                0 <= j <= self.entries.len(),
                distinct_ids(self.entries@),
                idc@ == id@,
                forall|k: int| 0 <= k < j ==> self.entries@[k].0@ != id@,
            decreases self.entries.len() - j,
        {
            let kc = chars_of(self.entries[j].0.as_str());
            if chars_eq(&kc, &idc) {
                proof {
                    lemma_deadlines_at(self.entries@, j as int);
                }
                return self.entries[j].1 > now;
            }
            j = j + 1;
        }
        proof {
            lemma_deadlines_absent(self.entries@, id@);
        }
        false
    }
}

proof fn lemma_insert_all_has(m: Map<Seq<char>, u64>, ids: Seq<Seq<char>>, until: u64, k: int)
    requires
        0 <= k < ids.len(),
    ensures
        insert_all(m, ids, until).contains_key(ids[k]),
        insert_all(m, ids, until)[ids[k]] == until,
    decreases ids.len(),
{
    if k < ids.len() - 1 {
        assert(ids.drop_last()[k] == ids[k]);
        lemma_insert_all_has(m, ids.drop_last(), until, k);
    }
}

proof fn lemma_insert_all_keeps(m: Map<Seq<char>, u64>, ids: Seq<Seq<char>>, until: u64, key: Seq<char>)
    requires
        m.contains_key(key),
        m[key] == until,
    ensures
        insert_all(m, ids, until).contains_key(key),
        insert_all(m, ids, until)[key] == until,
    decreases ids.len(),
{
    if ids.len() > 0 {
        lemma_insert_all_keeps(m, ids.drop_last(), until, key);
    }
}

/// Holding a target keeps the display of the held fans (and of the group
/// key, for the group) until the deadline: they are active at every time
/// before it.
pub proof fn law_hold_until(m: Map<Seq<char>, u64>, target: FanTarget, until: u64, ids: Seq<Seq<char>>, now: u64)
    requires
        now < until,
    ensures
        target matches FanTarget::One(id) ==> active_at(hold_view(m, target, until, ids), id@, now),
        target is Group ==> active_at(hold_view(m, target, until, ids), GROUP_KEY@, now),
        target is Group ==> forall|k: int| 0 <= k < ids.len() ==> active_at(hold_view(m, target, until, ids), #[trigger] ids[k], now),
{
    if target is Group {
        lemma_insert_all_keeps(m.insert(GROUP_KEY@, until), ids, until, GROUP_KEY@);
        assert forall|k: int| 0 <= k < ids.len() implies active_at(hold_view(m, target, until, ids), #[trigger] ids[k], now) by {
            lemma_insert_all_has(m.insert(GROUP_KEY@, until), ids, until, k);
        }
    }
}

/// What the mode toggle and the group control read of one displayed fan:
/// its id, whether a duty cycle is known, and its mode (`Some(true)`:
/// automatic, `Some(false)`: manual, `None`: unknown).
#[derive(Debug)]
pub struct FanModeInfo {
    pub id: String,
    pub has_pct: bool,
    pub auto_mode: Option<bool>,
}

/// A fan counts as not manual unless its mode is known to be manual.
pub open spec fn not_manual(m: Option<bool>) -> bool {
    m != Some(false)
}

/// Index of the first fan with this id.
pub open spec fn first_fan(fans: Seq<FanModeInfo>, id: Seq<char>, i: int) -> Option<int>
    decreases fans.len() - i,
{
    if i < 0 || i >= fans.len() {
        None
    } else if fans[i].id@ == id {
        Some(i)
    } else {
        first_fan(fans, id, i + 1)
    }
}

/// Whether a click on the mode control switches to manual: for one fan when
/// it is not manual (or not shown at all); for the group when no fan with a
/// known duty cycle is manual.
pub open spec fn toggles_to_manual(target: FanTarget, fans: Seq<FanModeInfo>) -> bool {
    match target {
        FanTarget::One(id) => match first_fan(fans, id@, 0) {
            Some(i) => not_manual(fans[i].auto_mode),
            None => true,
        },
        FanTarget::Group => forall|i: int| 0 <= i < fans.len() && #[trigger] fans[i].has_pct ==> not_manual(fans[i].auto_mode),
    }
}

/// Ids of the fans the group control acts on: those with a known duty cycle
/// and a known mode, in display order.
pub open spec fn group_members(fans: Seq<FanModeInfo>) -> Seq<Seq<char>>
    decreases fans.len(),
{
    if fans.len() == 0 {
        Seq::empty()
    } else {
        let rest = group_members(fans.drop_last());
        let f = fans.last();
        if f.has_pct && f.auto_mode is Some {
            rest.push(f.id@)
        } else {
            rest
        }
    }
}

/// Whether a click on the mode control of `target` switches to manual
/// (`true`) or back to automatic (`false`).
pub fn toggle_to_manual(target: &FanTarget, fans: &Vec<FanModeInfo>) -> (r: bool)
    ensures
        r == toggles_to_manual(*target, fans@),
{
    match target {
        FanTarget::One(id) => {
            let idc = chars_of(id.as_str());
            let mut i: usize = 0;
            while i < fans.len()
                invariant
                    0 <= i <= fans.len(),
                    idc@ == id@,
                    *target == FanTarget::One(*id),
                    first_fan(fans@, id@, 0) == first_fan(fans@, id@, i as int),
                decreases fans.len() - i,
            {
                let kc = chars_of(fans[i].id.as_str());
                if chars_eq(&kc, &idc) {
                    assert(first_fan(fans@, id@, i as int) == Some(i as int));
                    return match fans[i].auto_mode {
                        Some(false) => false,
                        _ => true,
                    };
                }
                i = i + 1;
            }
            true
        },
        FanTarget::Group => {
            let mut i: usize = 0;
            while i < fans.len()
                invariant
                    0 <= i <= fans.len(),
                    *target == FanTarget::Group,
                    forall|k: int| 0 <= k < i && #[trigger] fans@[k].has_pct ==> not_manual(fans@[k].auto_mode),
                decreases fans.len() - i,
            {
                if fans[i].has_pct {
                    match fans[i].auto_mode {
                        Some(false) => {
                            assert(fans@[i as int].has_pct && !not_manual(fans@[i as int].auto_mode));
                            return false;
                        },
                        _ => {},
                    }
                }
                i = i + 1;
            }
            true
        },
    }
}

/// The ids the group control acts on.
pub fn group_ids(fans: &Vec<FanModeInfo>) -> (r: Vec<String>)
    ensures
        string_views(r@) == group_members(fans@),
{
    let mut r: Vec<String> = Vec::new();
    let mut i: usize = 0;
    while i < fans.len()
        invariant
            0 <= i <= fans.len(),
            string_views(r@) == group_members(fans@.take(i as int)),
        decreases fans.len() - i,
    {
        let ghost before = r@;
        if fans[i].has_pct && fans[i].auto_mode.is_some() {
            let id = fans[i].id.clone();
            r.push(id);
            assert(string_views(r@) =~= string_views(before).push(fans@[i as int].id@));
        }
        assert(fans@.take(i + 1).drop_last() =~= fans@.take(i as int));
        i = i + 1;
    }
    assert(fans@.take(fans.len() as int) =~= fans@);
    r
}

/// The pointer shape over a hovered region: "grab" over the header,
/// "pointer" over anything clickable, the default elsewhere.
pub fn cursor_name(hover: &Option<Hit>) -> (r: Option<&'static str>)
    ensures
        match hover {
            None => r is None,
            Some(Hit::Header) => r matches Some(n) && n@ == "grab"@,
            Some(_) => r matches Some(n) && n@ == "pointer"@,
        },
{
    match hover {
        None => None,
        Some(Hit::Header) => Some("grab"),
        Some(_) => Some("pointer"),
    }
}

/// The group key added when `cond` holds.
pub open spec fn with_group_key(m: Map<Seq<char>, u64>, cond: bool, until: u64) -> Map<Seq<char>, u64> {
    if cond {
        m.insert(GROUP_KEY@, until)
    } else {
        m
    }
}

/// Records the outcome of the fan writes for `target`: every fan written is
/// held until `until` and every refused one shows "denied" until then, so a
/// refused write is never shown as done; for the group, the group key is
/// held when any write went through and denied when any was refused.
pub fn record_fan_writes(
    hold: &mut FanHolds,
    denied: &mut FanHolds,
    target: &FanTarget,
    applied: &Vec<String>,
    refused: &Vec<String>,
    until: u64,
)
    ensures
        final(hold)@ == with_group_key(
            insert_all(old(hold)@, string_views(applied@), until),
            *target is Group && applied.len() > 0,
            until,
        ),
        final(denied)@ == with_group_key(
            insert_all(old(denied)@, string_views(refused@), until),
            *target is Group && refused.len() > 0,
            until,
        ),
{
    hold.insert_each(applied, until);
    denied.insert_each(refused, until);
    match target {
        FanTarget::Group => {
            if refused.len() > 0 {
                denied.insert(String::from_str(GROUP_KEY), until);
            }
            if applied.len() > 0 {
                hold.insert(String::from_str(GROUP_KEY), until);
            }
        },
        FanTarget::One(_) => {},
    }
}

/// After the writes for a target are recorded, every fan written is held
/// and every refused fan shows "denied", at every time before the deadline.
pub proof fn law_writes_recorded(
    hold: Map<Seq<char>, u64>,
    denied: Map<Seq<char>, u64>,
    target: FanTarget,
    applied: Seq<Seq<char>>,
    refused: Seq<Seq<char>>,
    until: u64,
    now: u64,
)
    requires
        now < until,
    ensures
        forall|k: int|
            0 <= k < applied.len() ==> active_at(
                with_group_key(insert_all(hold, applied, until), target is Group && applied.len() > 0, until),
                #[trigger] applied[k],
                now,
            ),
        forall|k: int|
            0 <= k < refused.len() ==> active_at(
                with_group_key(insert_all(denied, refused, until), target is Group && refused.len() > 0, until),
                #[trigger] refused[k],
                now,
            ),
{
    assert forall|k: int| 0 <= k < applied.len() implies active_at(
        with_group_key(insert_all(hold, applied, until), target is Group && applied.len() > 0, until),
        #[trigger] applied[k],
        now,
    ) by {
        lemma_insert_all_has(hold, applied, until, k);
    }
    assert forall|k: int| 0 <= k < refused.len() implies active_at(
        with_group_key(insert_all(denied, refused, until), target is Group && refused.len() > 0, until),
        #[trigger] refused[k],
        now,
    ) by {
        lemma_insert_all_has(denied, refused, until, k);
    }
}

} // verus!
