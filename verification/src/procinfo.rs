//! Per-process figures from /proc: field parsing, process names and the
//! top-ten lists by name.

use vstd::prelude::*;
use vstd::utf8::{decode_utf8, valid_utf8};
use crate::text::{
    all_digits, chars_eq, chars_of, concat_chars, copy_range, ends_with, ends_with_exec, lines,
    parse_bounded, parse_dec, split_lines, starts_with, starts_with_exec, string_of, trim,
    trim_exec, views,
};

verus! {

/// One measured process: its name and an amount (bytes).
#[derive(Debug)]
pub struct ProcSample {
    pub name: String,
    pub amount: u64,
}

/// One line of a top list: a process name, the summed amount of all
/// processes of that name and how many were summed.
#[derive(Debug)]
pub struct TopRow {
    pub name: String,
    pub amount: u64,
    pub count: u32,
}

/// Whether a sample takes part in the sums (zero amounts may be skipped).
pub open spec fn counted(x: ProcSample, skip_zero: bool) -> bool {
    !skip_zero || x.amount > 0
}

/// Sum of the amounts of the counted samples named `n`.
pub open spec fn amount_of(s: Seq<ProcSample>, n: Seq<char>, skip_zero: bool) -> int
    decreases s.len(),
{
    if s.len() == 0 {
        0
    } else {
        amount_of(s.drop_last(), n, skip_zero) + if s.last().name@ == n && counted(
            s.last(),
            skip_zero,
        ) {
            s.last().amount as int
        } else {
            0
        }
    }
}

/// Number of the counted samples named `n`.
pub open spec fn count_of(s: Seq<ProcSample>, n: Seq<char>, skip_zero: bool) -> int
    decreases s.len(),
{
    if s.len() == 0 {
        0
    } else {
        count_of(s.drop_last(), n, skip_zero) + if s.last().name@ == n && counted(
            s.last(),
            skip_zero,
        ) {
            1int
        } else {
            0
        }
    }
}

/// Sum of all amounts.
pub open spec fn total_amount(s: Seq<ProcSample>) -> int
    decreases s.len(),
{
    if s.len() == 0 {
        0
    } else {
        total_amount(s.drop_last()) + s.last().amount
    }
}

/// The rows are a top list of `s`: at most ten rows of distinct names,
/// each with the sum and number of the counted samples of its name, in
/// descending order of amount; every counted name is listed unless ten
/// rows are full, and no unlisted name outweighs the last row.
pub open spec fn is_top_list(r: Seq<TopRow>, s: Seq<ProcSample>, skip_zero: bool) -> bool {
    &&& r.len() <= 10
    &&& forall|j: int, k: int| 0 <= j < k < r.len() ==> r[j].name@ != r[k].name@
    &&& forall|j: int|
        0 <= j < r.len() ==> {
            &&& #[trigger] r[j].amount == amount_of(s, r[j].name@, skip_zero)
            &&& r[j].count == count_of(s, r[j].name@, skip_zero)
            &&& r[j].count >= 1
        }
    &&& forall|j: int, k: int| 0 <= j < k < r.len() ==> r[j].amount >= r[k].amount
    &&& forall|t: int|
        0 <= t < s.len() && counted(#[trigger] s[t], skip_zero) && (forall|j: int|
            0 <= j < r.len() ==> r[j].name@ != s[t].name@) ==> {
            &&& r.len() == 10
            &&& amount_of(s, s[t].name@, skip_zero) <= r[9].amount
        }
}

proof fn lemma_total_prefix(s: Seq<ProcSample>, i: int)
    requires
        0 <= i <= s.len(),
    ensures
        total_amount(s.take(i)) <= total_amount(s),
        total_amount(s.take(i)) >= 0,
    decreases s.len(),
{
    if i == s.len() {
        assert(s.take(i) =~= s);
        if s.len() > 0 {
            lemma_total_prefix(s.drop_last(), i - 1);
            assert(s.drop_last().take(i - 1) =~= s.drop_last());
        }
    } else {
        assert(s.drop_last().take(i) =~= s.take(i));
        lemma_total_prefix(s.drop_last(), i);
    }
}

proof fn lemma_amount_le_total(s: Seq<ProcSample>, n: Seq<char>, skip_zero: bool)
    ensures
        0 <= amount_of(s, n, skip_zero) <= total_amount(s),
        0 <= count_of(s, n, skip_zero) <= s.len(),
    decreases s.len(),
{
    if s.len() > 0 {
        lemma_amount_le_total(s.drop_last(), n, skip_zero);
    }
}

proof fn lemma_absent(s: Seq<ProcSample>, n: Seq<char>, skip_zero: bool)
    requires
        forall|t: int| 0 <= t < s.len() ==> !(#[trigger] s[t].name@ == n && counted(s[t], skip_zero)),
    ensures
        amount_of(s, n, skip_zero) == 0,
        count_of(s, n, skip_zero) == 0,
    decreases s.len(),
{
    if s.len() > 0 {
        let p = s.drop_last();
        assert forall|t: int| 0 <= t < p.len() implies !(#[trigger] p[t].name@ == n && counted(
            p[t],
            skip_zero,
        )) by {
            assert(p[t] == s[t]);
        }
        lemma_absent(p, n, skip_zero);
        assert(s.last() == s[s.len() - 1]);
    }
}

fn clone_row(r: &TopRow) -> (c: TopRow)
    ensures
        c.name@ == r.name@,
        c.amount == r.amount,
        c.count == r.count,
{
    TopRow { name: r.name.clone(), amount: r.amount, count: r.count }
}

/// Sums the counted samples by name; one row per name, in order of first
/// appearance.
#[verifier::spinoff_prover]
fn aggregate(s: &Vec<ProcSample>, skip_zero: bool) -> (agg: Vec<TopRow>)
    requires
        total_amount(s@) <= u64::MAX,
        s.len() <= u32::MAX,
    ensures
        forall|j: int, k: int| 0 <= j < k < agg.len() ==> agg[j].name@ != agg[k].name@,
        forall|j: int|
            0 <= j < agg.len() ==> {
                &&& #[trigger] agg[j].amount == amount_of(s@, agg[j].name@, skip_zero)
                &&& agg[j].count == count_of(s@, agg[j].name@, skip_zero)
                &&& agg[j].count >= 1
            },
        forall|t: int|
            0 <= t < s.len() && counted(#[trigger] s[t], skip_zero) ==> exists|j: int|
                0 <= j < agg.len() && agg[j].name@ == s[t].name@,
{
    let mut agg: Vec<TopRow> = Vec::new();
    let mut i: usize = 0;
    while i < s.len()
        invariant
            0 <= i <= s.len() <= u32::MAX,
            total_amount(s@) <= u64::MAX,
            forall|j: int, k: int| 0 <= j < k < agg.len() ==> agg[j].name@ != agg[k].name@,
            forall|j: int|
                0 <= j < agg.len() ==> {
                    &&& #[trigger] agg[j].amount == amount_of(
                        s@.take(i as int),
                        agg[j].name@,
                        skip_zero,
                    )
                    &&& agg[j].count == count_of(s@.take(i as int), agg[j].name@, skip_zero)
                    &&& agg[j].count >= 1
                },
            forall|t: int|
                0 <= t < i && counted(#[trigger] s[t], skip_zero) ==> exists|j: int|
                    0 <= j < agg.len() && agg[j].name@ == s[t].name@,
        decreases s.len() - i,
    {
        let ghost p = s@.take(i as int);
        let ghost q = s@.take(i + 1);
        assert(q.drop_last() =~= p);
        assert(q.last() == s[i as int]);
        proof {
            lemma_total_prefix(s@, i + 1);
            lemma_amount_le_total(q, s[i as int].name@, skip_zero);
        }
        let x = &s[i];
        if !skip_zero || x.amount > 0 {
            let mut j: usize = 0;
            while j < agg.len() && agg[j].name != x.name
                invariant
                    0 <= j <= agg.len(),
                    forall|k: int| 0 <= k < j ==> agg[k].name@ != x.name@,
                decreases agg.len() - j,
            {
                j = j + 1;
            }
            if j < agg.len() {
                let old_amount = agg[j].amount;
                let old_count = agg[j].count;
                let row = TopRow {
                    name: agg[j].name.clone(),
                    amount: old_amount + x.amount,
                    count: old_count + 1,
                };
                let ghost before = agg@;
                agg.set(j, row);
                assert forall|k: int| 0 <= k < agg.len() implies {
                    &&& #[trigger] agg[k].amount == amount_of(q, agg[k].name@, skip_zero)
                    &&& agg[k].count == count_of(q, agg[k].name@, skip_zero)
                    &&& agg[k].count >= 1
                } by {
                    if k != j {
                        assert(agg[k] == before[k]);
                        assert(before[k].name@ != before[j as int].name@);
                    }
                }
                assert forall|t: int|
                    0 <= t < i + 1 && counted(#[trigger] s[t], skip_zero) implies exists|m: int|
                    0 <= m < agg.len() && agg[m].name@ == s[t].name@ by {
                    if t < i {
                        let m0 = choose|m: int| 0 <= m < before.len() && before[m].name@ == s[t].name@;
                        assert(agg[m0].name@ == s[t].name@);
                    } else {
                        assert(agg[j as int].name@ == s[t].name@);
                    }
                }
            } else {
                proof {
                    assert forall|t: int| 0 <= t < p.len() implies !(#[trigger] p[t].name@ == x.name@
                        && counted(p[t], skip_zero)) by {
                        assert(p[t] == s[t]);
                        if p[t].name@ == x.name@ && counted(p[t], skip_zero) {
                            let m0 = choose|m: int| 0 <= m < agg.len() && agg[m].name@ == s[t].name@;
                            assert(agg[m0].name@ != x.name@);
                        }
                    }
                    lemma_absent(p, x.name@, skip_zero);
                }
                let row = TopRow { name: x.name.clone(), amount: x.amount, count: 1 };
                let ghost before = agg@;
                agg.push(row);
                assert forall|k: int| 0 <= k < agg.len() implies {
                    &&& #[trigger] agg[k].amount == amount_of(q, agg[k].name@, skip_zero)
                    &&& agg[k].count == count_of(q, agg[k].name@, skip_zero)
                    &&& agg[k].count >= 1
                } by {
                    if k < before.len() {
                        assert(agg[k] == before[k]);
                        assert(before[k].name@ != x.name@);
                    }
                }
                assert forall|t: int|
                    0 <= t < i + 1 && counted(#[trigger] s[t], skip_zero) implies exists|m: int|
                    0 <= m < agg.len() && agg[m].name@ == s[t].name@ by {
                    if t < i {
                        let m0 = choose|m: int| 0 <= m < before.len() && before[m].name@ == s[t].name@;
                        assert(agg[m0].name@ == s[t].name@);
                    } else {
                        assert(agg[before.len() as int].name@ == s[t].name@);
                    }
                }
            }
        } else {
            assert(!counted(q.last(), skip_zero));
            assert forall|k: int| 0 <= k < agg.len() implies {
                &&& #[trigger] agg[k].amount == amount_of(q, agg[k].name@, skip_zero)
                &&& agg[k].count == count_of(q, agg[k].name@, skip_zero)
                &&& agg[k].count >= 1
            } by {
                let n = agg[k].name@;
                assert(amount_of(q, n, skip_zero) == amount_of(q.drop_last(), n, skip_zero) + if q.last().name@ == n && counted(q.last(), skip_zero) { q.last().amount as int } else { 0 });
                assert(count_of(q, n, skip_zero) == count_of(q.drop_last(), n, skip_zero) + if q.last().name@ == n && counted(q.last(), skip_zero) { 1int } else { 0 });
                assert(agg[k].amount == amount_of(p, n, skip_zero));
                assert(count_of(q, agg[k].name@, skip_zero) == count_of(p, agg[k].name@, skip_zero));
            }
        }
        i = i + 1;
        assert(q == s@.take(i as int));
    }
    assert(s@.take(s.len() as int) =~= s@);
    agg
}

/// The ten rows with the largest summed amounts, largest first.
pub fn top_by_name(s: &Vec<ProcSample>, skip_zero: bool) -> (r: Vec<TopRow>)
    requires
        total_amount(s@) <= u64::MAX,
        s.len() <= u32::MAX,
    ensures
        is_top_list(r@, s@, skip_zero),
{
    let agg = aggregate(s, skip_zero);
    let mut taken: Vec<bool> = Vec::new();
    let mut z: usize = 0;
    while z < agg.len()
        invariant
            0 <= z <= agg.len(),
            taken.len() == z,
            forall|j: int| 0 <= j < z ==> !taken[j],
        decreases agg.len() - z,
    {
        taken.push(false);
        z = z + 1;
    }
    let mut out: Vec<TopRow> = Vec::new();
    let ghost mut idx: Seq<int> = Seq::empty();
    let mut done = false;
    while !done && out.len() < 10
        invariant
            taken.len() == agg.len(),
            out.len() == idx.len(),
            out.len() <= 10,
            forall|k: int| 0 <= k < idx.len() ==> 0 <= #[trigger] idx[k] < agg.len(),
            forall|k: int| 0 <= k < idx.len() ==> taken[#[trigger] idx[k]],
            forall|k1: int, k2: int| 0 <= k1 < k2 < idx.len() ==> idx[k1] != idx[k2],
            forall|j: int| 0 <= j < agg.len() && #[trigger] taken[j] ==> exists|k: int|
                0 <= k < idx.len() && idx[k] == j,
            forall|k: int|
                #![trigger out[k]]
                0 <= k < out.len() ==> {
                    &&& out[k].name@ == agg[idx[k]].name@
                    &&& out[k].amount == agg[idx[k]].amount
                    &&& out[k].count == agg[idx[k]].count
                },
            forall|k1: int, k2: int| 0 <= k1 < k2 < out.len() ==> out[k1].amount >= out[k2].amount,
            out.len() > 0 ==> forall|j: int|
                0 <= j < agg.len() && !#[trigger] taken[j] ==> agg[j].amount <= out[out.len()
                    - 1].amount,
            done ==> forall|j: int| 0 <= j < agg.len() ==> #[trigger] taken[j],
        decreases 10 - out.len() + if done {
            0int
        } else {
            1int
        },
    {
        let mut best: usize = agg.len();
        let mut j: usize = 0;
        while j < agg.len()
            invariant
                0 <= j <= agg.len(),
                taken.len() == agg.len(),
                best == agg.len() || (best < j && !taken[best as int]),
                best == agg.len() ==> forall|m: int| 0 <= m < j ==> #[trigger] taken[m],
                best < agg.len() ==> forall|m: int|
                    0 <= m < j && !#[trigger] taken[m] ==> agg[m].amount <= agg[best as int].amount,
            decreases agg.len() - j,
        {
            if !taken[j] && (best == agg.len() || agg[j].amount > agg[best].amount) {
                best = j;
            }
            j = j + 1;
        }
        if best == agg.len() {
            done = true;
        } else {
            let row = clone_row(&agg[best]);
            let ghost old_taken = taken@;
            let ghost old_idx = idx;
            let ghost old_out = out@;
            taken.set(best, true);
            out.push(row);
            proof {
                assert forall|k: int| 0 <= k < old_idx.len() implies old_idx[k] != best by {
                    assert(old_taken[old_idx[k]]);
                }
                idx = old_idx.push(best as int);
                assert forall|j2: int| 0 <= j2 < agg.len() && #[trigger] taken[j2] implies exists|k: int|
                    0 <= k < idx.len() && idx[k] == j2 by {
                    if j2 == best {
                        assert(idx[idx.len() - 1] == j2);
                    } else {
                        assert(old_taken[j2]);
                        let k0 = choose|k: int| 0 <= k < old_idx.len() && old_idx[k] == j2;
                        assert(idx[k0] == j2);
                    }
                }
                assert forall|k: int| 0 <= k < idx.len() implies taken[#[trigger] idx[k]] by {
                    if k < idx.len() - 1 {
                        assert(old_taken[old_idx[k]]);
                    }
                }
                assert forall|k: int|
                    #![trigger out[k]]
                    0 <= k < out.len() implies {
                    &&& out[k].name@ == agg[idx[k]].name@
                    &&& out[k].amount == agg[idx[k]].amount
                    &&& out[k].count == agg[idx[k]].count
                } by {
                    if k < old_out.len() {
                        assert(out[k] == old_out[k]);
                    }
                }
                assert forall|j2: int| 0 <= j2 < agg.len() && !#[trigger] taken[j2] implies agg[j2].amount
                    <= out[out.len() - 1].amount by {
                    assert(!old_taken[j2]);
                }
            }
        }
    }
    proof {
        let r = out@;
        assert forall|j: int, k: int| 0 <= j < k < r.len() implies r[j].name@ != r[k].name@ by {
            assert(idx[j] != idx[k]);
        }
        assert forall|t: int|
            0 <= t < s.len() && counted(#[trigger] s[t], skip_zero) && (forall|j: int|
                0 <= j < r.len() ==> r[j].name@ != s[t].name@) implies {
            &&& r.len() == 10
            &&& amount_of(s@, s[t].name@, skip_zero) <= r[9].amount
        } by {
            let m = choose|m: int| 0 <= m < agg.len() && agg[m].name@ == s[t].name@;
            if taken[m] {
                let k = choose|k: int| 0 <= k < idx.len() && idx[k] == m;
                assert(r[k].name@ == s[t].name@);
            }
            assert(!taken[m]);
            assert(r.len() == 10);
        }
    }
    out
}


/// Amount of all samples and, when it is more than the memory size
/// (`None`: unknown, never exceeded), the two figures for a warning.
#[derive(Debug)]
pub struct RamTop {
    pub rows: Vec<TopRow>,
    pub over: Option<(u64, u64)>,
}

/// Top ten process names by resident memory; processes with no memory are
/// left out. The sum over all processes is checked against the memory size.
pub fn ram_top(s: &Vec<ProcSample>, mem_total: Option<u64>) -> (r: RamTop)
    requires
        total_amount(s@) <= u64::MAX,
        s.len() <= u32::MAX,
    ensures
        is_top_list(r.rows@, s@, true),
        r.over == (if total_amount(s@) > (match mem_total {
            Some(m) => m as int,
            None => u64::MAX as int,
        }) {
            Some((total_amount(s@) as u64, mem_total.unwrap_or(u64::MAX)))
        } else {
            None
        }),
{
    let rows = top_by_name(s, true);
    let mut total: u64 = 0;
    let mut i: usize = 0;
    while i < s.len()
        invariant
            0 <= i <= s.len(),
            total_amount(s@) <= u64::MAX,
            total as int == total_amount(s@.take(i as int)),
        decreases s.len() - i,
    {
        proof {
            lemma_total_prefix(s@, i + 1);
            assert(s@.take(i + 1).drop_last() =~= s@.take(i as int));
        }
        total = total + s[i].amount;
        i = i + 1;
    }
    assert(s@.take(s.len() as int) =~= s@);
    let limit = match mem_total {
        Some(m) => m,
        None => u64::MAX,
    };
    let over = if total > limit {
        Some((total, limit))
    } else {
        None
    };
    RamTop { rows, over }
}

/// Value of the last entry for `pid`, if any.
pub open spec fn last_value(s: Seq<(u32, u64)>, pid: u32) -> Option<u64>
    decreases s.len(),
{
    if s.len() == 0 {
        None
    } else if s.last().0 == pid {
        Some(s.last().1)
    } else {
        last_value(s.drop_last(), pid)
    }
}

pub open spec fn has_pid(r: Seq<(u32, u64)>, pid: u32) -> bool {
    exists|j: int| 0 <= j < r.len() && r[j].0 == pid
}

/// One entry per process id, holding the value of its last entry.
pub fn last_per_pid(s: &Vec<(u32, u64)>) -> (r: Vec<(u32, u64)>)
    ensures
        forall|j: int, k: int| 0 <= j < k < r.len() ==> r[j].0 != r[k].0,
        forall|j: int| 0 <= j < r.len() ==> last_value(s@, #[trigger] r[j].0) == Some(r[j].1),
        forall|t: int| 0 <= t < s.len() ==> has_pid(r@, #[trigger] s[t].0),
{
    let mut r: Vec<(u32, u64)> = Vec::new();
    let mut i: usize = 0;
    while i < s.len()
        invariant
            0 <= i <= s.len(),
            forall|j: int, k: int| 0 <= j < k < r.len() ==> r[j].0 != r[k].0,
            forall|j: int| 0 <= j < r.len() ==> last_value(s@.take(i as int), #[trigger] r[j].0) == Some(r[j].1),
            forall|t: int| 0 <= t < i ==> has_pid(r@, #[trigger] s[t].0),
        decreases s.len() - i,
    {
        let ghost q = s@.take(i + 1);
        assert(q.drop_last() =~= s@.take(i as int));
        let (pid, value) = s[i];
        let mut j: usize = 0;
        while j < r.len() && r[j].0 != pid
            invariant
                0 <= j <= r.len(),
                forall|k: int| 0 <= k < j ==> r[k].0 != pid,
            decreases r.len() - j,
        {
            j = j + 1;
        }
        let ghost before = r@;
        if j < r.len() {
            r.set(j, (pid, value));
            assert forall|k: int| 0 <= k < r.len() implies last_value(q, #[trigger] r[k].0) == Some(r[k].1) by {
                if k != j {
                    assert(r[k] == before[k]);
                }
            }
            assert forall|t: int| 0 <= t < i + 1 implies has_pid(r@, #[trigger] s[t].0) by {
                if t < i {
                    assert(has_pid(before, s[t].0));
                    let m0 = choose|m: int| 0 <= m < before.len() && before[m].0 == s[t].0;
                    assert(r[m0].0 == s[t].0);
                } else {
                    assert(r[j as int].0 == s[t].0);
                }
            }
        } else {
            r.push((pid, value));
            assert forall|k: int| 0 <= k < r.len() implies last_value(q, #[trigger] r[k].0) == Some(r[k].1) by {
                if k < before.len() {
                    assert(r[k] == before[k]);
                }
            }
            assert forall|t: int| 0 <= t < i + 1 implies has_pid(r@, #[trigger] s[t].0) by {
                if t < i {
                    assert(has_pid(before, s[t].0));
                    let m0 = choose|m: int| 0 <= m < before.len() && before[m].0 == s[t].0;
                    assert(r[m0].0 == s[t].0);
                } else {
                    assert(r[before.len() as int].0 == s[t].0);
                }
            }
        }
        i = i + 1;
    }
    assert(s@.take(s.len() as int) =~= s@);
    r
}

// ---------------------------------------------------------------------------
// process names
// ---------------------------------------------------------------------------

/// Text of bytes decoded as UTF-8 with invalid sequences replaced.
pub uninterp spec fn utf8_lossy(b: Seq<u8>) -> Seq<char>;

/// `String::from_utf8_lossy`: named; for valid UTF-8 it is the decoding.
#[verifier::external_body]
fn from_utf8_lossy(b: &[u8]) -> (r: String)
    ensures
        r@ == utf8_lossy(b@),
        valid_utf8(b@) ==> r@ == decode_utf8(b@),
{
    String::from_utf8_lossy(b).into_owned()
}

/// Bytes before the first NUL.
pub open spec fn first_arg(b: Seq<u8>) -> Seq<u8> {
    b.take(first_nul(b, 0))
}

pub open spec fn first_nul(b: Seq<u8>, i: int) -> int
    decreases b.len() - i,
{
    if i >= b.len() {
        b.len() as int
    } else if b[i] == 0 {
        i
    } else {
        first_nul(b, i + 1)
    }
}

/// Position after the last `/` (0 when there is none).
pub open spec fn after_last_slash(s: Seq<char>, j: int) -> int
    decreases j,
{
    if j <= 0 {
        0
    } else if s[j - 1] == '/' {
        j
    } else {
        after_last_slash(s, j - 1)
    }
}

/// The part after the last `/`.
pub open spec fn basename(s: Seq<char>) -> Seq<char> {
    s.subrange(after_last_slash(s, s.len() as int), s.len() as int)
}

/// Name of a process: its `comm` when that is not blank, else the base name
/// of its first command-line argument, else "pid N".
pub open spec fn process_name_of(comm: Option<Seq<char>>, cmdline: Option<Seq<u8>>, pid: Seq<char>) -> Seq<char> {
    if comm is Some && trim(comm->0).len() > 0 {
        trim(comm->0)
    } else if cmdline is Some && first_arg(cmdline->0).len() > 0 && basename(
        utf8_lossy(first_arg(cmdline->0)),
    ).len() > 0 {
        basename(utf8_lossy(first_arg(cmdline->0)))
    } else {
        "pid "@ + pid
    }
}

pub open spec fn opt_str(o: Option<&str>) -> Option<Seq<char>> {
    match o {
        Some(s) => Some(s@),
        None => None,
    }
}

pub open spec fn opt_bytes(o: Option<&[u8]>) -> Option<Seq<u8>> {
    match o {
        Some(b) => Some(b@),
        None => None,
    }
}

/// Process name from the contents of `comm` and `cmdline` (each `None`
/// when unreadable).
pub fn process_name(comm: Option<&str>, cmdline: Option<&[u8]>, pid: &str) -> (r: String)
    ensures
        r@ == process_name_of(opt_str(comm), opt_bytes(cmdline), pid@),
{
    if let Some(c) = comm {
        let cc = chars_of(c);
        let t = trim_exec(&cc);
        if t.len() > 0 {
            return string_of(&t);
        }
    }
    if let Some(b) = cmdline {
        let mut n: usize = 0;
        while n < b.len() && b[n] != 0
            invariant
                0 <= n <= b.len(),
                first_nul(b@, 0) == first_nul(b@, n as int),
            decreases b.len() - n,
        {
            n = n + 1;
        }
        if n > 0 {
            let mut first: Vec<u8> = Vec::new();
            let mut k: usize = 0;
            while k < n
                invariant
                    0 <= k <= n <= b.len(),
                    first@ == b@.take(k as int),
                decreases n - k,
            {
                first.push(b[k]);
                k = k + 1;
                assert(first@ =~= b@.take(k as int));
            }
            let arg = from_utf8_lossy(first.as_slice());
            let ac = chars_of(arg.as_str());
            let mut j: usize = ac.len();
            while j > 0 && ac[j - 1] != '/'
                invariant
                    0 <= j <= ac.len(),
                    after_last_slash(ac@, ac.len() as int) == after_last_slash(ac@, j as int),
                decreases j,
            {
                j = j - 1;
            }
            if j < ac.len() {
                let base = copy_range(&ac, j, ac.len());
                return string_of(&base);
            }
        }
    }
    let pc = chars_of(pid);
    let prefix = chars_of("pid ");
    let v = concat_chars(&prefix, &pc);
    string_of(&v)
}

/// A /proc entry name that is a process id (ASCII digits only).
pub fn is_pid_name(name: &str) -> (r: bool)
    ensures
        r == all_digits(name@),
{
    let cs = chars_of(name);
    let mut i: usize = 0;
    while i < cs.len()
        invariant
            0 <= i <= cs.len(),
            cs@ == name@,
            forall|k: int| 0 <= k < i ==> crate::text::is_digit(#[trigger] cs@[k]),
        decreases cs.len() - i,
    {
        if !('0' <= cs[i] && cs[i] <= '9') {
            assert(!crate::text::is_digit(cs@[i as int]));
            return false;
        }
        i = i + 1;
    }
    true
}

/// Which top list the dropdown shows.
#[derive(Clone, Copy, PartialEq, Eq, Structural, Debug)]
pub enum TopKind {
    Cpu,
    Ram,
    Gpu,
}

pub open spec fn top_kind_of(kind: Seq<char>) -> Result<TopKind, Seq<char>> {
    if kind == "cpu"@ {
        Ok(TopKind::Cpu)
    } else if kind == "ram"@ {
        Ok(TopKind::Ram)
    } else if kind == "gpu"@ {
        Ok(TopKind::Gpu)
    } else {
        Err("unbekannte art: "@ + kind)
    }
}

/// The list a dropdown name asks for ("cpu", "ram" or "gpu"); any other
/// name is refused with a message that names it.
pub fn top_kind(kind: &str) -> (r: Result<TopKind, String>)
    ensures
        match top_kind_of(kind@) {
            Ok(k) => r == Ok::<TopKind, String>(k),
            Err(m) => r is Err && r->Err_0@ == m,
        },
{
    let kc = chars_of(kind);
    let cpu = chars_of("cpu");
    let ram = chars_of("ram");
    let gpu = chars_of("gpu");
    if chars_eq(&kc, &cpu) {
        Ok(TopKind::Cpu)
    } else if chars_eq(&kc, &ram) {
        Ok(TopKind::Ram)
    } else if chars_eq(&kc, &gpu) {
        Ok(TopKind::Gpu)
    } else {
        let prefix = chars_of("unbekannte art: ");
        let v = concat_chars(&prefix, &kc);
        Err(string_of(&v))
    }
}

/// Where a process name comes from: a `comm` that is not blank is the name
/// (trimmed), whatever the command line says; only a blank or unreadable
/// `comm` lets the base name of a non-empty first command-line argument
/// stand in, and "pid N" is used only when neither gives a name.
pub proof fn law_process_name_sources(comm: Option<Seq<char>>, cmdline: Option<Seq<u8>>, pid: Seq<char>)
    ensures
        comm is Some && trim(comm->0).len() > 0 ==> process_name_of(comm, cmdline, pid) == trim(comm->0),
        (comm is Some ==> trim(comm->0).len() == 0) && cmdline is Some && first_arg(cmdline->0).len() > 0
            && basename(utf8_lossy(first_arg(cmdline->0))).len() > 0 ==> process_name_of(comm, cmdline, pid) == basename(utf8_lossy(first_arg(cmdline->0))),
        (comm is Some ==> trim(comm->0).len() == 0) && (cmdline is Some ==> first_arg(cmdline->0).len() == 0
            || basename(utf8_lossy(first_arg(cmdline->0))).len() == 0) ==> process_name_of(comm, cmdline, pid) == seq!['p', 'i', 'd', ' '] + pid,
{
    reveal_strlit("pid ");
}

proof fn lemma_first_nul(b: Seq<u8>, i: int)
    requires
        0 <= i <= b.len(),
        forall|k: int| 0 <= k < i ==> b[k] != 0,
    ensures
        i <= first_nul(b, i) <= b.len(),
        forall|k: int| 0 <= k < first_nul(b, i) ==> b[k] != 0,
        first_nul(b, i) < b.len() ==> b[first_nul(b, i)] == 0,
    decreases b.len() - i,
{
    if i < b.len() && b[i] != 0 {
        lemma_first_nul(b, i + 1);
    }
}

proof fn lemma_after_last_slash(s: Seq<char>, j: int)
    requires
        0 <= j <= s.len(),
        forall|k: int| j <= k < s.len() ==> s[k] != '/',
    ensures
        0 <= after_last_slash(s, j) <= j,
        forall|k: int| after_last_slash(s, j) <= k < s.len() ==> s[k] != '/',
        after_last_slash(s, j) > 0 ==> s[after_last_slash(s, j) - 1] == '/',
    decreases j,
{
    if j > 0 && s[j - 1] != '/' {
        lemma_after_last_slash(s, j - 1);
    }
}

/// The first argument is the command line up to its first NUL byte (all of
/// it when there is none); the base name is the text after the last `/`
/// (all of it when there is none).
pub proof fn law_name_parts(b: Seq<u8>, t: Seq<char>)
    ensures
        first_arg(b).len() <= b.len(),
        first_arg(b) == b.take(first_arg(b).len() as int),
        forall|k: int| 0 <= k < first_arg(b).len() ==> #[trigger] first_arg(b)[k] != 0,
        first_arg(b).len() < b.len() ==> b[first_arg(b).len() as int] == 0,
        basename(t).len() <= t.len(),
        basename(t) == t.skip(t.len() - basename(t).len()),
        forall|k: int| 0 <= k < basename(t).len() ==> #[trigger] basename(t)[k] != '/',
        basename(t).len() < t.len() ==> t[t.len() - basename(t).len() - 1] == '/',
{
    lemma_first_nul(b, 0);
    lemma_after_last_slash(t, t.len() as int);
    let a = after_last_slash(t, t.len() as int);
    assert(basename(t) =~= t.skip(a));
    assert forall|k: int| 0 <= k < basename(t).len() implies #[trigger] basename(t)[k] != '/' by {
        assert(basename(t)[k] == t[a + k]);
    }
}

} // verus!
