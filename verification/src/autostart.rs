//! Autostart through a .desktop file in ~/.config/autostart, the standard
//! mechanism of the freedesktop desktops: the entry's text, the binary path
//! it names, and what to do with it at start-up.

use vstd::prelude::*;
use crate::text::{
    chars_of, concat_chars, copy_range, lines, lines_from, split_lines, starts_with, starts_with_exec,
    string_of, trim, trim_exec, views,
};
use crate::updater::opt_view;

verus! {

/// Text of the autostart entry up to the binary path.
pub const ENTRY_HEAD: &'static str = "[Desktop Entry]\nType=Application\nName=indigo\nComment=resource monitor widget\nExec=";

/// Text of the autostart entry after the binary path.
pub const ENTRY_TAIL: &'static str = "\nX-GNOME-Autostart-enabled=true\n";

/// The autostart entry that starts the binary at `exec`.
pub fn desktop_entry(exec: &str) -> (r: String)
    ensures
        r@ == ENTRY_HEAD@ + exec@ + ENTRY_TAIL@,
{
    let mut r = String::from_str(ENTRY_HEAD);
    r.append(exec);
    r.append(ENTRY_TAIL);
    r
}

/// The first line that starts with "Exec=" gives the path, trimmed.
pub open spec fn exec_from(ls: Seq<Seq<char>>, i: int) -> Option<Seq<char>>
    decreases ls.len() - i,
{
    if i < 0 || i >= ls.len() {
        None
    } else if starts_with(ls[i], "Exec="@) {
        Some(trim(ls[i].subrange(5, ls[i].len() as int)))
    } else {
        exec_from(ls, i + 1)
    }
}

pub open spec fn exec_of(content: Seq<char>) -> Option<Seq<char>> {
    exec_from(lines(content), 0)
}

/// Binary path from the Exec line of an autostart entry.
pub fn exec_path(content: &str) -> (r: Option<String>)
    ensures
        opt_view(r) == exec_of(content@),
{
    let cs = chars_of(content);
    let key = chars_of("Exec=");
    proof {
        reveal_strlit("Exec=");
    }
    let ls = split_lines(&cs);
    let mut i: usize = 0;
    while i < ls.len()
        invariant
            0 <= i <= ls.len(),
            views(ls@) == lines(content@),
            key@ == "Exec="@,
            key@.len() == 5,
            exec_from(lines(content@), i as int) == exec_of(content@),
        decreases ls.len() - i,
    {
        assert(ls[i as int]@ == lines(content@)[i as int]);
        if starts_with_exec(&ls[i], &key) {
            let rest = copy_range(&ls[i], 5, ls[i].len());
            let t = trim_exec(&rest);
            return Some(string_of(&t));
        }
        i = i + 1;
    }
    None
}

/// What to do with the autostart entry when the widget starts.
pub enum AutostartStep {
    /// first start ever: switch autostart on (and remember the choice)
    EnableFirstStart,
    /// the entry names a binary that is gone: write it anew
    Repair,
    /// leave the entry as it is
    Keep,
}

/// Start-up rule: with no recorded choice, switch autostart on; with an
/// entry whose binary is missing (or whose path cannot be read), repair it.
/// `exec_target_exists` is `None` when the entry names no binary.
pub fn startup_autostart(setting: Option<bool>, entry_exists: bool, exec_target_exists: Option<bool>) -> (r: AutostartStep)
    ensures
        setting is None ==> r is EnableFirstStart,
        setting is Some && entry_exists && exec_target_exists != Some(true) ==> r is Repair,
        setting is Some && !(entry_exists && exec_target_exists != Some(true)) ==> r is Keep,
{
    match setting {
        None => AutostartStep::EnableFirstStart,
        Some(_) => {
            let stale = match exec_target_exists {
                Some(e) => !e,
                None => true,
            };
            if entry_exists && stale {
                AutostartStep::Repair
            } else {
                AutostartStep::Keep
            }
        },
    }
}

proof fn lemma_exec_shift(x: Seq<char>, r: Seq<Seq<char>>, k: int)
    requires
        0 <= k,
    ensures
        exec_from(seq![x] + r, k + 1) == exec_from(r, k),
    decreases r.len() - k,
{
    let a = seq![x] + r;
    if k < r.len() {
        assert(a[k + 1] == r[k]);
        lemma_exec_shift(x, r, k + 1);
    }
}

proof fn lemma_not_exec_line(l: Seq<char>)
    requires
        l.len() > 0,
        l[0] != 'E',
    ensures
        !starts_with(l, "Exec="@),
{
    reveal_strlit("Exec=");
    if 5 <= l.len() {
        assert(l.subrange(0, 5)[0] != "Exec="@[0]);
    }
}

/// `exec_from` over a line that is no Exec line followed by the rest.
proof fn lemma_skip_line(s: Seq<char>, i: int, j: int)
    requires
        0 <= i < j < s.len(),
        s[j] == '\n',
        s[i] != 'E',
        j - i >= 2,
        forall|k: int| i <= k < j ==> s[k] != '\n',
    ensures
        exec_from(lines_from(s, i), 0) == exec_from(lines_from(s, j + 1), 0),
{
    crate::text::lemma_next_char_at(s, '\n', i, j);
    let l = crate::text::strip_cr(s.subrange(i, j));
    assert(l[0] == s[i]);
    lemma_not_exec_line(l);
    assert(lines_from(s, i) == seq![l] + lines_from(s, j + 1));
    lemma_exec_shift(l, lines_from(s, j + 1), 0);
}

/// The autostart entry gives back the path it was written with, trimmed,
/// for every path without a line break.
pub proof fn law_entry_roundtrip(p: Seq<char>)
    requires
        forall|k: int| 0 <= k < p.len() ==> p[k] != '\n',
    ensures
        exec_of(ENTRY_HEAD@ + p + ENTRY_TAIL@) == Some(trim(p)),
{
    reveal_strlit("[Desktop Entry]\nType=Application\nName=indigo\nComment=resource monitor widget\nExec=");
    reveal_strlit("\nX-GNOME-Autostart-enabled=true\n");
    reveal_strlit("Exec=");
    let h = ENTRY_HEAD@;
    let t = ENTRY_TAIL@;
    let s = h + p + t;
    let e: int = 82 + p.len() as int;
    assert(h.len() == 82);
    assert(t.len() == 32);
    assert forall|k: int| 0 <= k < 82 implies s[k] == h[k] by {}
    assert forall|k: int| 0 <= k < p.len() implies s[82 + k] == p[k] by {}
    assert(s[e] == t[0]);
    assert(s[e] == '\n');
    assert forall|k: int| 0 <= k < 15 implies s[k] != '\n' by { assert(s[k] == h[k]); }
    assert forall|k: int| 16 <= k < 32 implies s[k] != '\n' by { assert(s[k] == h[k]); }
    assert forall|k: int| 33 <= k < 44 implies s[k] != '\n' by { assert(s[k] == h[k]); }
    assert forall|k: int| 45 <= k < 76 implies s[k] != '\n' by { assert(s[k] == h[k]); }
    assert forall|k: int| 77 <= k < e implies s[k] != '\n' by {
        if k < 82 {
            assert(s[k] == h[k]);
        } else {
            assert(s[k] == p[k - 82]);
        }
    }
    assert(s[15] == '\n' && s[32] == '\n' && s[44] == '\n' && s[76] == '\n');
    assert(s[0] == '[' && s[16] == 'T' && s[33] == 'N' && s[45] == 'C');
    lemma_skip_line(s, 0, 15);
    lemma_skip_line(s, 16, 32);
    lemma_skip_line(s, 33, 44);
    lemma_skip_line(s, 45, 76);
    // the Exec line
    crate::text::lemma_next_char_at(s, '\n', 77, e);
    let raw = s.subrange(77, e);
    assert(raw =~= "Exec="@ + p);
    let l = crate::text::strip_cr(raw);
    assert(lines_from(s, 77) == seq![l] + lines_from(s, e + 1));
    if p.len() > 0 && p.last() == '\r' {
        assert(l =~= "Exec="@ + p.drop_last());
        assert(l.subrange(5, l.len() as int) =~= p.drop_last());
        crate::text::lemma_trim_drop_ws(p);
    } else {
        assert(l == raw);
        assert(l.subrange(5, l.len() as int) =~= p);
    }
    assert(l.subrange(0, 5) =~= "Exec="@);
    assert(starts_with(l, "Exec="@));
    assert(exec_from(lines_from(s, 77), 0) == Some(trim(p)));
}

proof fn lemma_exec_at(ls: Seq<Seq<char>>, i: int, k: int)
    requires
        0 <= i <= k < ls.len(),
        starts_with(ls[k], "Exec="@),
        forall|j: int| i <= j < k ==> !starts_with(#[trigger] ls[j], "Exec="@),
    ensures
        exec_from(ls, i) == Some(trim(ls[k].subrange(5, ls[k].len() as int))),
    decreases k - i,
{
    if i < k {
        lemma_exec_at(ls, i + 1, k);
    }
}

proof fn lemma_exec_absent(ls: Seq<Seq<char>>, i: int)
    requires
        0 <= i,
        forall|j: int| i <= j < ls.len() ==> !starts_with(#[trigger] ls[j], "Exec="@),
    ensures
        exec_from(ls, i) is None,
    decreases ls.len() - i,
{
    if i < ls.len() {
        lemma_exec_absent(ls, i + 1);
    }
}

/// The binary path comes from the first "Exec=" line, trimmed; an entry
/// without such a line names no binary.
pub proof fn law_first_exec_line(content: Seq<char>, k: int)
    ensures
        0 <= k < lines(content).len() && starts_with(lines(content)[k], "Exec="@) && (forall|j: int|
            0 <= j < k ==> !starts_with(#[trigger] lines(content)[j], "Exec="@)) ==> exec_of(content) == Some(
            trim(lines(content)[k].skip(5)),
        ),
        (forall|j: int| 0 <= j < lines(content).len() ==> !starts_with(#[trigger] lines(content)[j], "Exec="@))
            ==> exec_of(content) is None,
{
    reveal_strlit("Exec=");
    let ls = lines(content);
    if 0 <= k < ls.len() && starts_with(ls[k], "Exec="@) && (forall|j: int| 0 <= j < k ==> !starts_with(#[trigger] ls[j], "Exec="@)) {
        lemma_exec_at(ls, 0, k);
        assert(ls[k].subrange(5, ls[k].len() as int) =~= ls[k].skip(5));
    }
    if forall|j: int| 0 <= j < ls.len() ==> !starts_with(#[trigger] ls[j], "Exec="@) {
        lemma_exec_absent(ls, 0);
    }
}

} // verus!
