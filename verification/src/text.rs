//! Character-level text handling: whitespace, lines, words, decimal numbers.
//!
//! Strings are handled as sequences of `char`; every splitting function is
//! specified by a recursive spec function that walks the sequence by position,
//! mirroring `str::lines`, `str::split_whitespace`, `str::split` and `str::trim`.

use vstd::prelude::*;

verus! {

// ---------------------------------------------------------------------------
// characters
// ---------------------------------------------------------------------------

/// The Unicode `White_Space` property, as used by `char::is_whitespace`.
pub open spec fn is_ws(c: char) -> bool {
    ||| ('\u{9}' <= c && c <= '\u{d}')
    ||| c == ' '
    ||| c == '\u{85}'
    ||| c == '\u{a0}'
    ||| c == '\u{1680}'
    ||| ('\u{2000}' <= c && c <= '\u{200a}')
    ||| c == '\u{2028}'
    ||| c == '\u{2029}'
    ||| c == '\u{202f}'
    ||| c == '\u{205f}'
    ||| c == '\u{3000}'
}

pub fn is_ws_exec(c: char) -> (r: bool)
    ensures
        r == is_ws(c),
{
    ('\u{9}' <= c && c <= '\u{d}') || c == ' ' || c == '\u{85}' || c == '\u{a0}' || c
        == '\u{1680}' || ('\u{2000}' <= c && c <= '\u{200a}') || c == '\u{2028}' || c
        == '\u{2029}' || c == '\u{202f}' || c == '\u{205f}' || c == '\u{3000}'
}

/// Digit character for a value below sixteen (lower-case hex above nine).
pub open spec fn digit_char(d: int) -> char {
    if d < 10 {
        (48 + d) as char
    } else {
        (87 + d) as char
    }
}

pub fn digit_char_exec(d: u8) -> (c: char)
    requires
        d < 16,
    ensures
        c == digit_char(d as int),
{
    if d < 10 {
        (48u8 + d) as char
    } else {
        (87u8 + d) as char
    }
}

pub open spec fn is_digit(c: char) -> bool {
    '0' <= c && c <= '9'
}

pub open spec fn digit_val(c: char) -> int {
    c as int - 48
}

pub open spec fn ascii_lower_char(c: char) -> char {
    if 'A' <= c && c <= 'Z' {
        (c as int + 32) as char
    } else {
        c
    }
}

/// `str::to_ascii_lowercase`, character by character.
pub open spec fn ascii_lower(s: Seq<char>) -> Seq<char> {
    Seq::new(s.len(), |i: int| ascii_lower_char(s[i]))
}

// ---------------------------------------------------------------------------
// positions
// ---------------------------------------------------------------------------

/// First position at or after `i` that holds no whitespace (or the length).
pub open spec fn skip_ws(s: Seq<char>, i: int) -> int
    decreases s.len() - i,
{
    if i >= s.len() {
        s.len() as int
    } else if is_ws(s[i]) {
        skip_ws(s, i + 1)
    } else {
        i
    }
}

/// First position at or after `i` that holds whitespace (or the length).
pub open spec fn word_end(s: Seq<char>, i: int) -> int
    decreases s.len() - i,
{
    if i >= s.len() {
        s.len() as int
    } else if is_ws(s[i]) {
        i
    } else {
        word_end(s, i + 1)
    }
}

/// First position at or after `i` that holds `c` (or the length).
pub open spec fn next_char(s: Seq<char>, c: char, i: int) -> int
    decreases s.len() - i,
{
    if i >= s.len() {
        s.len() as int
    } else if s[i] == c {
        i
    } else {
        next_char(s, c, i + 1)
    }
}

/// End of `s.take(j)` with trailing whitespace removed.
pub open spec fn rskip_ws(s: Seq<char>, j: int) -> int
    decreases j,
{
    if j <= 0 {
        0
    } else if is_ws(s[j - 1]) {
        rskip_ws(s, j - 1)
    } else {
        j
    }
}

pub proof fn lemma_skip_ws(s: Seq<char>, i: int)
    requires
        0 <= i <= s.len(),
    ensures
        i <= skip_ws(s, i) <= s.len(),
        skip_ws(s, i) < s.len() ==> !is_ws(s[skip_ws(s, i)]),
        forall|k: int| i <= k < skip_ws(s, i) ==> is_ws(#[trigger] s[k]),
    decreases s.len() - i,
{
    if i < s.len() && is_ws(s[i]) {
        lemma_skip_ws(s, i + 1);
    }
}

pub proof fn lemma_word_end(s: Seq<char>, i: int)
    requires
        0 <= i <= s.len(),
    ensures
        i <= word_end(s, i) <= s.len(),
        word_end(s, i) < s.len() ==> is_ws(s[word_end(s, i)]),
        forall|k: int| i <= k < word_end(s, i) ==> !is_ws(#[trigger] s[k]),
    decreases s.len() - i,
{
    if i < s.len() && !is_ws(s[i]) {
        lemma_word_end(s, i + 1);
    }
}

pub proof fn lemma_next_char(s: Seq<char>, c: char, i: int)
    requires
        0 <= i <= s.len(),
    ensures
        i <= next_char(s, c, i) <= s.len(),
        next_char(s, c, i) < s.len() ==> s[next_char(s, c, i)] == c,
        forall|k: int| i <= k < next_char(s, c, i) ==> #[trigger] s[k] != c,
    decreases s.len() - i,
{
    if i < s.len() && s[i] != c {
        lemma_next_char(s, c, i + 1);
    }
}

pub proof fn lemma_rskip_ws(s: Seq<char>, j: int)
    requires
        0 <= j <= s.len(),
    ensures
        0 <= rskip_ws(s, j) <= j,
        rskip_ws(s, j) > 0 ==> !is_ws(s[rskip_ws(s, j) - 1]),
        forall|k: int| rskip_ws(s, j) <= k < j ==> is_ws(#[trigger] s[k]),
    decreases j,
{
    if j > 0 && is_ws(s[j - 1]) {
        lemma_rskip_ws(s, j - 1);
    }
}

// ---------------------------------------------------------------------------
// trimming, prefixes, suffixes
// ---------------------------------------------------------------------------

/// `str::trim`: leading and trailing whitespace removed.
pub open spec fn trim(s: Seq<char>) -> Seq<char> {
    let a = skip_ws(s, 0);
    let b = rskip_ws(s, s.len() as int);
    if a >= b {
        Seq::empty()
    } else {
        s.subrange(a, b)
    }
}

pub open spec fn starts_with(s: Seq<char>, p: Seq<char>) -> bool {
    p.len() <= s.len() && s.subrange(0, p.len() as int) == p
}

pub open spec fn ends_with(s: Seq<char>, p: Seq<char>) -> bool {
    p.len() <= s.len() && s.subrange(s.len() - p.len(), s.len() as int) == p
}

// ---------------------------------------------------------------------------
// splitting
// ---------------------------------------------------------------------------

/// `str::split_whitespace` of the part of `s` from position `i` on.
pub open spec fn words_from(s: Seq<char>, i: int) -> Seq<Seq<char>>
    decreases s.len() - i,
{
    let k = skip_ws(s, i);
    if i < 0 || k >= s.len() {
        Seq::empty()
    } else {
        let e = word_end(s, k);
        proof {
            lemma_skip_ws(s, i);
            lemma_word_end(s, k);
        }
        if e <= i {
            Seq::empty()
        } else {
            seq![s.subrange(k, e)] + words_from(s, e)
        }
    }
}

pub open spec fn words(s: Seq<char>) -> Seq<Seq<char>> {
    words_from(s, 0)
}

/// `str::split(c)` of the part of `s` from position `i` on.
pub open spec fn split_from(s: Seq<char>, c: char, i: int) -> Seq<Seq<char>>
    decreases s.len() + 1 - i,
{
    let j = next_char(s, c, i);
    if i < 0 || i > s.len() || j >= s.len() || j < i {
        seq![s.subrange(i, s.len() as int)]
    } else {
        seq![s.subrange(i, j)] + split_from(s, c, j + 1)
    }
}

/// `str::split(c)`: never empty, empty pieces kept.
pub open spec fn split_on(s: Seq<char>, c: char) -> Seq<Seq<char>> {
    split_from(s, c, 0)
}

/// One trailing carriage return removed.
pub open spec fn strip_cr(t: Seq<char>) -> Seq<char> {
    if t.len() > 0 && t.last() == '\r' {
        t.drop_last()
    } else {
        t
    }
}

/// `str::lines` of the part of `s` from position `i` on: pieces end at
/// `\n` (a `\r` right before it is dropped); no piece after a final `\n`.
pub open spec fn lines_from(s: Seq<char>, i: int) -> Seq<Seq<char>>
    decreases s.len() - i,
{
    if i < 0 || i >= s.len() {
        Seq::empty()
    } else {
        let j = next_char(s, '\n', i);
        if j >= s.len() || j < i {
            seq![s.subrange(i, s.len() as int)]
        } else {
            seq![strip_cr(s.subrange(i, j))] + lines_from(s, j + 1)
        }
    }
}

pub open spec fn lines(s: Seq<char>) -> Seq<Seq<char>> {
    lines_from(s, 0)
}

/// Views of a sequence of character vectors.
pub open spec fn views(v: Seq<Vec<char>>) -> Seq<Seq<char>> {
    Seq::new(v.len(), |i: int| v[i]@)
}

// ---------------------------------------------------------------------------
// decimal numbers
// ---------------------------------------------------------------------------

pub open spec fn digits_value(s: Seq<char>) -> int
    decreases s.len(),
{
    if s.len() == 0 {
        0
    } else {
        digits_value(s.drop_last()) * 10 + digit_val(s.last())
    }
}

pub open spec fn all_digits(s: Seq<char>) -> bool {
    forall|i: int| 0 <= i < s.len() ==> is_digit(#[trigger] s[i])
}

/// Text of an unsigned number after an optional leading `+`.
pub open spec fn unsigned_body(s: Seq<char>) -> Seq<char> {
    if s.len() > 0 && s[0] == '+' {
        s.drop_first()
    } else {
        s
    }
}

/// Value of `s` read as an unsigned decimal number the way `str::parse`
/// reads it (optional `+`, then at least one ASCII digit, nothing else).
pub open spec fn parse_unsigned(s: Seq<char>) -> Option<int> {
    let b = unsigned_body(s);
    if b.len() > 0 && all_digits(b) {
        Some(digits_value(b))
    } else {
        None
    }
}

/// A number written with ASCII digits only (no sign), no larger than `max`.
pub open spec fn parse_digits(s: Seq<char>, max: int) -> Option<int> {
    if s.len() > 0 && all_digits(s) && digits_value(s) <= max {
        Some(digits_value(s))
    } else {
        None
    }
}

/// `str::parse` into an unsigned type whose largest value is `max`.
pub open spec fn parse_bounded(s: Seq<char>, max: int) -> Option<int> {
    match parse_unsigned(s) {
        Some(v) => if v <= max {
            Some(v)
        } else {
            None
        },
        None => None,
    }
}

/// Decimal digits of `n`, without leading zeros.
pub open spec fn dec(n: nat) -> Seq<char>
    decreases n,
{
    if n < 10 {
        seq![digit_char(n as int)]
    } else {
        dec(n / 10).push(digit_char((n % 10) as int))
    }
}

pub proof fn lemma_digit_roundtrip(d: int)
    requires
        0 <= d < 10,
    ensures
        is_digit(digit_char(d)),
        digit_val(digit_char(d)) == d,
{
}

pub proof fn lemma_digits_value_nonneg(s: Seq<char>)
    requires
        all_digits(s),
    ensures
        digits_value(s) >= 0,
    decreases s.len(),
{
    if s.len() > 0 {
        assert(all_digits(s.drop_last()));
        lemma_digits_value_nonneg(s.drop_last());
        assert(is_digit(s[s.len() - 1]));
    }
}

/// A digit string is worth at least any of its prefixes.
pub proof fn lemma_digits_value_prefix(s: Seq<char>, k: int)
    requires
        all_digits(s),
        0 <= k <= s.len(),
    ensures
        digits_value(s.take(k)) <= digits_value(s),
    decreases s.len(),
{
    if k < s.len() {
        let t = s.drop_last();
        assert(all_digits(t));
        assert(t.take(k) =~= s.take(k));
        lemma_digits_value_prefix(t, k);
        lemma_digits_value_nonneg(t);
        assert(is_digit(s[s.len() - 1]));
    } else {
        assert(s.take(k) =~= s);
    }
}

pub proof fn lemma_dec_digits(n: nat)
    ensures
        all_digits(dec(n)),
        dec(n).len() > 0,
        digits_value(dec(n)) == n,
        dec(n)[0] != '+',
    decreases n,
{
    lemma_digit_roundtrip((n % 10) as int);
    if n < 10 {
        assert(dec(n).drop_last() =~= Seq::<char>::empty());
        assert(digits_value(Seq::<char>::empty()) == 0);
        assert(dec(n).last() == digit_char(n as int));
        assert(digits_value(dec(n)) == n);
    } else {
        lemma_dec_digits(n / 10);
        let d = dec(n / 10);
        let e = d.push(digit_char((n % 10) as int));
        assert(e.drop_last() =~= d);
        assert(dec(n) == e);
        assert(e.last() == digit_char((n % 10) as int));
        assert(digits_value(e) == digits_value(d) * 10 + digit_val(e.last()));
        assert(n == (n / 10) * 10 + n % 10);
        assert(digits_value(d) == n / 10);
        assert(digit_val(e.last()) == n % 10);
        assert forall|i: int| 0 <= i < e.len() implies is_digit(#[trigger] e[i]) by {
            if i < d.len() {
                assert(e[i] == d[i]);
            }
        }
    }
}

/// Writing a number in decimal and reading it back gives the number.
pub proof fn lemma_parse_dec(n: nat)
    ensures
        parse_unsigned(dec(n)) == Some(n as int),
{
    lemma_dec_digits(n);
}

// ---------------------------------------------------------------------------
// executable helpers
// ---------------------------------------------------------------------------

/// `String::push`.
#[verifier::external_body]
pub(crate) fn push_char(s: &mut String, c: char)
    ensures
        final(s)@ == old(s)@.push(c),
{
    s.push(c);
}

/// The characters of `s`, in order.
pub fn chars_of(s: &str) -> (r: Vec<char>)
    ensures
        r@ == s@,
{
    broadcast use vstd::string::axiom_spec_iter;
    let mut r: Vec<char> = Vec::new();
    for c in it: s.chars()
        invariant
            it.seq() == s@,
            r@ == it.seq().take(it.index() as int),
    {
        r.push(c);
    }
    r
}

pub fn string_of(v: &[char]) -> (r: String)
    ensures
        r@ == v@,
{
    let mut r = String::new();
    let mut i: usize = 0;
    while i < v.len()
        invariant
            0 <= i <= v.len(),
            r@ == v@.take(i as int),
        decreases v.len() - i,
    {
        push_char(&mut r, v[i]);
        i = i + 1;
        assert(r@ =~= v@.take(i as int));
    }
    assert(v@.take(v.len() as int) =~= v@);
    r
}

pub fn copy_range(s: &[char], a: usize, b: usize) -> (r: Vec<char>)
    requires
        a <= b <= s.len(),
    ensures
        r@ == s@.subrange(a as int, b as int),
{
    let mut r: Vec<char> = Vec::new();
    let mut i: usize = a;
    while i < b
        invariant
            a <= i <= b <= s.len(),
            r@ == s@.subrange(a as int, i as int),
        decreases b - i,
    {
        r.push(s[i]);
        i = i + 1;
        assert(r@ =~= s@.subrange(a as int, i as int));
    }
    r
}

pub fn concat_chars(a: &[char], b: &[char]) -> (r: Vec<char>)
    ensures
        r@ == a@ + b@,
{
    let mut r: Vec<char> = Vec::new();
    let mut i: usize = 0;
    while i < a.len()
        invariant
            0 <= i <= a.len(),
            r@ == a@.take(i as int),
        decreases a.len() - i,
    {
        r.push(a[i]);
        i = i + 1;
        assert(r@ =~= a@.take(i as int));
    }
    let mut j: usize = 0;
    while j < b.len()
        invariant
            0 <= j <= b.len(),
            a@.take(a.len() as int) == a@,
            r@ == a@ + b@.take(j as int),
        decreases b.len() - j,
    {
        r.push(b[j]);
        j = j + 1;
        assert(r@ =~= a@ + b@.take(j as int));
    }
    assert(b@.take(b.len() as int) =~= b@);
    assert(a@.take(a.len() as int) =~= a@);
    r
}

pub fn chars_eq(a: &[char], b: &[char]) -> (r: bool)
    ensures
        r == (a@ == b@),
{
    if a.len() != b.len() {
        return false;
    }
    let mut i: usize = 0;
    while i < a.len()
        invariant
            a.len() == b.len(),
            0 <= i <= a.len(),
            forall|k: int| 0 <= k < i ==> a@[k] == b@[k],
        decreases a.len() - i,
    {
        if a[i] != b[i] {
            return false;
        }
        i = i + 1;
    }
    assert(a@ =~= b@);
    true
}

pub fn starts_with_exec(s: &[char], p: &[char]) -> (r: bool)
    ensures
        r == starts_with(s@, p@),
{
    if p.len() > s.len() {
        return false;
    }
    let mut i: usize = 0;
    while i < p.len()
        invariant
            p.len() <= s.len(),
            0 <= i <= p.len(),
            forall|k: int| 0 <= k < i ==> s@[k] == p@[k],
        decreases p.len() - i,
    {
        if s[i] != p[i] {
            assert(s@.subrange(0, p.len() as int)[i as int] != p@[i as int]);
            return false;
        }
        i = i + 1;
    }
    assert(s@.subrange(0, p.len() as int) =~= p@);
    true
}

pub fn ends_with_exec(s: &[char], p: &[char]) -> (r: bool)
    ensures
        r == ends_with(s@, p@),
{
    if p.len() > s.len() {
        return false;
    }
    let off = s.len() - p.len();
    let mut i: usize = 0;
    while i < p.len()
        invariant
            p.len() <= s.len(),
            off == s.len() - p.len(),
            0 <= i <= p.len(),
            forall|k: int| 0 <= k < i ==> s@[off + k] == p@[k],
        decreases p.len() - i,
    {
        if s[off + i] != p[i] {
            assert(s@.subrange(off as int, s.len() as int)[i as int] != p@[i as int]);
            return false;
        }
        i = i + 1;
    }
    assert(s@.subrange(off as int, s.len() as int) =~= p@);
    true
}

/// `str::trim`.
pub fn trim_exec(s: &[char]) -> (r: Vec<char>)
    ensures
        r@ == trim(s@),
{
    let n = s.len();
    let mut a: usize = 0;
    while a < n && is_ws_exec(s[a])
        invariant
            0 <= a <= n == s.len(),
            skip_ws(s@, 0) == skip_ws(s@, a as int),
        decreases n - a,
    {
        a = a + 1;
    }
    let mut b: usize = n;
    while b > 0 && is_ws_exec(s[b - 1])
        invariant
            0 <= b <= n == s.len(),
            rskip_ws(s@, n as int) == rskip_ws(s@, b as int),
        decreases b,
    {
        b = b - 1;
    }
    if a >= b {
        Vec::new()
    } else {
        copy_range(s, a, b)
    }
}

/// `str::to_ascii_lowercase`.
pub fn ascii_lower_exec(s: &[char]) -> (r: Vec<char>)
    ensures
        r@ == ascii_lower(s@),
{
    let mut r: Vec<char> = Vec::new();
    let mut i: usize = 0;
    while i < s.len()
        invariant
            0 <= i <= s.len(),
            r@ == ascii_lower(s@).take(i as int),
        decreases s.len() - i,
    {
        let c = s[i];
        let l = if 'A' <= c && c <= 'Z' {
            ((c as u8) + 32) as char
        } else {
            c
        };
        r.push(l);
        i = i + 1;
        assert(r@ =~= ascii_lower(s@).take(i as int));
    }
    assert(ascii_lower(s@).take(s.len() as int) =~= ascii_lower(s@));
    r
}

/// `str::split_whitespace`.
pub fn split_words(s: &[char]) -> (r: Vec<Vec<char>>)
    ensures
        views(r@) == words(s@),
{
    let n = s.len();
    let mut out: Vec<Vec<char>> = Vec::new();
    let mut i: usize = 0;
    while i < n
        invariant
            0 <= i <= n == s.len(),
            views(out@) + words_from(s@, i as int) == words(s@),
        decreases n - i,
    {
        let mut k = i;
        while k < n && is_ws_exec(s[k])
            invariant
                i <= k <= n == s.len(),
                skip_ws(s@, i as int) == skip_ws(s@, k as int),
            decreases n - k,
        {
            k = k + 1;
        }
        if k >= n {
            assert(words_from(s@, i as int) =~= Seq::<Seq<char>>::empty());
            assert(views(out@) + words_from(s@, n as int) =~= views(out@));
            i = n;
        } else {
            let mut e = k;
            while e < n && !is_ws_exec(s[e])
                invariant
                    k <= e <= n == s.len(),
                    word_end(s@, k as int) == word_end(s@, e as int),
                decreases n - e,
            {
                e = e + 1;
            }
            let w = copy_range(s, k, e);
            let ghost before = views(out@);
            out.push(w);
            assert(views(out@) =~= before.push(s@.subrange(k as int, e as int)));
            assert(words_from(s@, i as int) == seq![s@.subrange(k as int, e as int)] + words_from(
                s@,
                e as int,
            ));
            assert(views(out@) + words_from(s@, e as int) =~= before + words_from(s@, i as int));
            i = e;
        }
    }
    assert(words_from(s@, n as int) =~= Seq::<Seq<char>>::empty());
    assert(views(out@) + words_from(s@, n as int) =~= views(out@));
    out
}

/// `str::split(c)`.
pub fn split_char(s: &[char], c: char) -> (r: Vec<Vec<char>>)
    ensures
        views(r@) == split_on(s@, c),
        r.len() >= 1,
{
    let n = s.len();
    let mut out: Vec<Vec<char>> = Vec::new();
    let mut i: usize = 0;
    loop
        invariant
            0 <= i <= n == s.len(),
            views(out@) + split_from(s@, c, i as int) == split_on(s@, c),
        decreases n + 1 - i,
    {
        let mut j = i;
        while j < n && s[j] != c
            invariant
                i <= j <= n == s.len(),
                next_char(s@, c, i as int) == next_char(s@, c, j as int),
            decreases n - j,
        {
            j = j + 1;
        }
        let piece = copy_range(s, i, j);
        let ghost before = views(out@);
        out.push(piece);
        assert(views(out@) =~= before.push(s@.subrange(i as int, j as int)));
        if j >= n {
            assert(split_from(s@, c, i as int) =~= seq![s@.subrange(i as int, n as int)]);
            assert(views(out@) =~= before + split_from(s@, c, i as int));
            return out;
        }
        assert(split_from(s@, c, i as int) == seq![s@.subrange(i as int, j as int)] + split_from(
            s@,
            c,
            j + 1,
        ));
        assert(views(out@) + split_from(s@, c, j + 1) =~= before + split_from(s@, c, i as int));
        i = j + 1;
    }
}

/// `str::lines`.
pub fn split_lines(s: &[char]) -> (r: Vec<Vec<char>>)
    ensures
        views(r@) == lines(s@),
{
    let n = s.len();
    let mut out: Vec<Vec<char>> = Vec::new();
    let mut i: usize = 0;
    while i < n
        invariant
            0 <= i <= n == s.len(),
            views(out@) + lines_from(s@, i as int) == lines(s@),
        decreases n - i,
    {
        let mut j = i;
        while j < n && s[j] != '\n'
            invariant
                i <= j <= n == s.len(),
                next_char(s@, '\n', i as int) == next_char(s@, '\n', j as int),
            decreases n - j,
        {
            j = j + 1;
        }
        let ghost before = views(out@);
        if j >= n {
            let piece = copy_range(s, i, n);
            out.push(piece);
            assert(lines_from(s@, i as int) =~= seq![s@.subrange(i as int, n as int)]);
            assert(views(out@) =~= before + lines_from(s@, i as int));
            assert(lines_from(s@, n as int) =~= Seq::<Seq<char>>::empty());
            assert(views(out@) + lines_from(s@, n as int) =~= views(out@));
            i = n;
        } else {
            let end = if j > i && s[j - 1] == '\r' {
                j - 1
            } else {
                j
            };
            let piece = copy_range(s, i, end);
            assert(piece@ == strip_cr(s@.subrange(i as int, j as int))) by {
                if j > i && s@[j - 1] == '\r' {
                    assert(s@.subrange(i as int, j as int).drop_last() =~= s@.subrange(
                        i as int,
                        j - 1,
                    ));
                }
            }
            out.push(piece);
            assert(views(out@) =~= before.push(strip_cr(s@.subrange(i as int, j as int))));
            assert(views(out@) + lines_from(s@, j + 1) =~= before + lines_from(s@, i as int));
            i = j + 1;
        }
    }
    assert(lines_from(s@, n as int) =~= Seq::<Seq<char>>::empty());
    assert(views(out@) + lines_from(s@, n as int) =~= views(out@));
    out
}

/// `str::parse` into an unsigned integer no larger than `max`.
pub fn parse_dec(s: &[char], max: u64) -> (r: Option<u64>)
    ensures
        r == (match parse_bounded(s@, max as int) {
            Some(v) => Some(v as u64),
            None => None::<u64>,
        }),
{
    let n = s.len();
    let start: usize = if n > 0 && s[0] == '+' {
        1
    } else {
        0
    };
    let ghost b = unsigned_body(s@);
    assert(b =~= s@.subrange(start as int, n as int));
    if start == n {
        return None;
    }
    let mut acc: u64 = 0;
    let mut i: usize = start;
    while i < n
        invariant
            start <= i <= n == s.len(),
            start < n,
            b == s@.subrange(start as int, n as int),
            b == unsigned_body(s@),
            acc <= max,
            all_digits(s@.subrange(start as int, i as int)),
            acc as int == digits_value(s@.subrange(start as int, i as int)),
        decreases n - i,
    {
        let c = s[i];
        if !('0' <= c && c <= '9') {
            assert(b[i - start] == c);
            assert(!is_digit(b[i - start]));
            assert(!all_digits(b));
            assert(parse_unsigned(s@) is None);
            assert(parse_bounded(s@, max as int) is None);
            return None;
        }
        let d = (c as u32 - 48u32) as u64;
        let ghost pre = s@.subrange(start as int, i as int);
        let ghost nxt = s@.subrange(start as int, i + 1);
        assert(nxt.drop_last() =~= pre);
        assert(all_digits(nxt));
        assert(nxt.last() == c);
        assert(digits_value(nxt) == acc * 10 + d);
        let wide: u128 = (acc as u128) * 10 + (d as u128);
        if wide > max as u128 {
            // the value of the whole text is at least that of this prefix
            proof {
                if all_digits(b) {
                    assert(b.take((i + 1 - start) as int) =~= nxt);
                    lemma_digits_value_prefix(b, (i + 1 - start) as int);
                }
            }
            return None;
        }
        acc = wide as u64;
        i = i + 1;
    }
    assert(b =~= s@.subrange(start as int, i as int));
    Some(acc)
}

/// Decimal digits of `n`.
pub fn dec_chars(n: u64) -> (r: Vec<char>)
    ensures
        r@ == dec(n as nat),
    decreases n,
{
    if n < 10 {
        let mut v = Vec::new();
        v.push(digit_char_exec(n as u8));
        v
    } else {
        let mut v = dec_chars(n / 10);
        v.push(digit_char_exec((n % 10) as u8));
        v
    }
}

/// Reads ASCII digits only (no sign) into a number no larger than `max`.
pub fn parse_digits_exec(s: &[char], max: u64) -> (r: Option<u64>)
    ensures
        r == (match parse_digits(s@, max as int) {
            Some(v) => Some(v as u64),
            None => None::<u64>,
        }),
{
    if s.len() > 0 && s[0] == '+' {
        assert(!is_digit(s@[0]));
        return None;
    }
    assert(unsigned_body(s@) == s@);
    parse_dec(s, max)
}

/// `n.to_string()` for an unsigned number.
pub fn dec_string(n: u64) -> (r: String)
    ensures
        r@ == dec(n as nat),
{
    let v = dec_chars(n);
    string_of(&v)
}

/// `s.trim().parse()` into an unsigned type whose largest value is `max`.
pub fn parse_trimmed(s: &str, max: u64) -> (r: Option<u64>)
    ensures
        r == (match parse_bounded(trim(s@), max as int) {
            Some(v) => Some(v as u64),
            None => None::<u64>,
        }),
{
    let cs = chars_of(s);
    let t = trim_exec(&cs);
    parse_dec(&t, max)
}

/// A parsed number lies between zero and the bound.
pub proof fn lemma_parse_bounded_range(s: Seq<char>, max: int)
    ensures
        parse_bounded(s, max) is Some ==> 0 <= parse_bounded(s, max)->0 <= max,
{
    if parse_unsigned(s) is Some {
        lemma_digits_value_nonneg(unsigned_body(s));
    }
}

pub proof fn lemma_next_char_at(s: Seq<char>, c: char, i: int, j: int)
    requires
        0 <= i <= j < s.len(),
        s[j] == c,
        forall|k: int| i <= k < j ==> s[k] != c,
    ensures
        next_char(s, c, i) == j,
    decreases j - i,
{
    if i < j {
        lemma_next_char_at(s, c, i + 1, j);
    }
}

proof fn lemma_rskip_prefix(p: Seq<char>, t: Seq<char>, j: int)
    requires
        p.len() > 0,
        t == p.drop_last(),
        0 <= j <= t.len(),
    ensures
        rskip_ws(p, j) == rskip_ws(t, j),
    decreases j,
{
    if j > 0 {
        assert(p[j - 1] == t[j - 1]);
        lemma_rskip_prefix(p, t, j - 1);
    }
}

proof fn lemma_skip_prefix(p: Seq<char>, t: Seq<char>, i: int)
    requires
        p.len() > 0,
        t == p.drop_last(),
        is_ws(p.last()),
        0 <= i <= t.len(),
    ensures
        skip_ws(t, i) < t.len() ==> skip_ws(p, i) == skip_ws(t, i),
        skip_ws(t, i) >= t.len() ==> skip_ws(p, i) == p.len(),
    decreases t.len() - i,
{
    if i < t.len() {
        assert(p[i] == t[i]);
        if is_ws(t[i]) {
            lemma_skip_prefix(p, t, i + 1);
        }
    } else {
        assert(p[i] == p.last());
        assert(skip_ws(p, i) == skip_ws(p, i + 1));
    }
}

/// Dropping trailing whitespace does not change the trimmed text.
pub proof fn lemma_trim_drop_ws(p: Seq<char>)
    requires
        p.len() > 0,
        is_ws(p.last()),
    ensures
        trim(p.drop_last()) == trim(p),
{
    let t = p.drop_last();
    lemma_skip_prefix(p, t, 0);
    lemma_rskip_prefix(p, t, t.len() as int);
    lemma_skip_ws(t, 0);
    lemma_rskip_ws(t, t.len() as int);
    assert(rskip_ws(p, p.len() as int) == rskip_ws(p, t.len() as int));
    let a = skip_ws(t, 0);
    let b = rskip_ws(t, t.len() as int);
    if a < t.len() && a < b {
        assert(p.subrange(a, b) =~= t.subrange(a, b));
    }
}

/// The last piece of a split: from `i` on there is no separator.
proof fn lemma_split_last(s: Seq<char>, c: char, i: int)
    requires
        0 <= i <= s.len(),
        forall|k: int| i <= k < s.len() ==> s[k] != c,
    ensures
        split_from(s, c, i) == seq![s.subrange(i, s.len() as int)],
{
    lemma_next_char(s, c, i);
}

/// A piece ended by the separator at `j`.
proof fn lemma_split_piece(s: Seq<char>, c: char, i: int, j: int)
    requires
        0 <= i <= j < s.len(),
        s[j] == c,
        forall|k: int| i <= k < j ==> s[k] != c,
    ensures
        split_from(s, c, i) == seq![s.subrange(i, j)] + split_from(s, c, j + 1),
{
    lemma_next_char_at(s, c, i, j);
}

/// Three pieces without the separator, joined by it, split back into them.
pub proof fn lemma_split_three(x: Seq<char>, y: Seq<char>, z: Seq<char>, c: char)
    requires
        forall|k: int| 0 <= k < x.len() ==> x[k] != c,
        forall|k: int| 0 <= k < y.len() ==> y[k] != c,
        forall|k: int| 0 <= k < z.len() ==> z[k] != c,
    ensures
        split_on(x + seq![c] + y + seq![c] + z, c) == seq![x, y, z],
{
    let s = x + seq![c] + y + seq![c] + z;
    let j1 = x.len() as int;
    let j2 = j1 + 1 + y.len();
    assert forall|k: int| 0 <= k < j1 implies s[k] != c by {
        assert(s[k] == x[k]);
    }
    assert forall|k: int| j1 + 1 <= k < j2 implies s[k] != c by {
        assert(s[k] == y[k - j1 - 1]);
    }
    assert forall|k: int| j2 + 1 <= k < s.len() implies s[k] != c by {
        assert(s[k] == z[k - j2 - 1]);
    }
    lemma_split_piece(s, c, 0, j1);
    lemma_split_piece(s, c, j1 + 1, j2);
    lemma_split_last(s, c, j2 + 1);
    assert(s.subrange(0, j1) =~= x);
    assert(s.subrange(j1 + 1, j2) =~= y);
    assert(s.subrange(j2 + 1, s.len() as int) =~= z);
    assert(split_on(s, c) =~= seq![x, y, z]);
}

/// Decimal text holds only ASCII digits.
pub proof fn lemma_dec_is_digits(n: nat)
    ensures
        dec(n).len() > 0,
        forall|k: int| 0 <= k < dec(n).len() ==> is_digit(#[trigger] dec(n)[k]),
{
    lemma_dec_digits(n);
}

/// Whitespace from `i` up to `j`, where something else stands.
pub proof fn lemma_skip_ws_at(s: Seq<char>, i: int, j: int)
    requires
        0 <= i <= j <= s.len(),
        j < s.len() ==> !is_ws(s[j]),
        forall|k: int| i <= k < j ==> is_ws(#[trigger] s[k]),
    ensures
        skip_ws(s, i) == j,
    decreases j - i,
{
    if i < j {
        lemma_skip_ws_at(s, i + 1, j);
    }
}

/// No whitespace from `i` up to `j`, where whitespace (or the end) stands.
pub proof fn lemma_word_end_at(s: Seq<char>, i: int, j: int)
    requires
        0 <= i <= j <= s.len(),
        j < s.len() ==> is_ws(s[j]),
        forall|k: int| i <= k < j ==> !is_ws(#[trigger] s[k]),
    ensures
        word_end(s, i) == j,
    decreases j - i,
{
    if i < j {
        lemma_word_end_at(s, i + 1, j);
    }
}

/// Two words without whitespace, two spaces between them, split back into
/// the two words.
pub proof fn lemma_words_two(x: Seq<char>, y: Seq<char>)
    requires
        x.len() > 0,
        y.len() > 0,
        forall|k: int| 0 <= k < x.len() ==> !is_ws(#[trigger] x[k]),
        forall|k: int| 0 <= k < y.len() ==> !is_ws(#[trigger] y[k]),
    ensures
        words(x + seq![' ', ' '] + y) == seq![x, y],
{
    let s = x + seq![' ', ' '] + y;
    let a = x.len() as int;
    let b = a + 2;
    assert forall|k: int| 0 <= k < a implies !is_ws(#[trigger] s[k]) by {
        assert(s[k] == x[k]);
    }
    assert forall|k: int| b <= k < s.len() implies !is_ws(#[trigger] s[k]) by {
        assert(s[k] == y[k - b]);
    }
    assert(s[a] == ' ' && s[a + 1] == ' ');
    lemma_skip_ws_at(s, 0, 0);
    lemma_word_end_at(s, 0, a);
    lemma_skip_ws_at(s, a, b);
    lemma_word_end_at(s, b, s.len() as int);
    lemma_skip_ws_at(s, s.len() as int, s.len() as int);
    assert(words_from(s, s.len() as int) == Seq::<Seq<char>>::empty());
    assert(words_from(s, a) == seq![s.subrange(b, s.len() as int)] + words_from(s, s.len() as int));
    assert(s.subrange(0, a) =~= x);
    assert(s.subrange(b, s.len() as int) =~= y);
    assert(words(s) =~= seq![x, y]);
}

/// Text without a line feed, ended by one, is that single line (a final
/// carriage return aside).
pub proof fn lemma_one_line(l: Seq<char>)
    requires
        forall|k: int| 0 <= k < l.len() ==> l[k] != '\n',
        l.len() == 0 || l.last() != '\r',
    ensures
        lines(l + seq!['\n']) == seq![l],
{
    let s = l + seq!['\n'];
    assert forall|k: int| 0 <= k < l.len() implies s[k] != '\n' by {
        assert(s[k] == l[k]);
    }
    lemma_next_char_at(s, '\n', 0, l.len() as int);
    assert(s.subrange(0, l.len() as int) =~= l);
    assert(lines_from(s, s.len() as int) == Seq::<Seq<char>>::empty());
    assert(lines(s) =~= seq![l]);
}

/// `s` holds no `c`.
pub open spec fn free_of(s: Seq<char>, c: char) -> bool {
    forall|k: int| 0 <= k < s.len() ==> s[k] != c
}

/// Pieces joined by `c` ("a", "b" joined by '|' is "a|b").
pub open spec fn join_with(p: Seq<Seq<char>>, c: char) -> Seq<char>
    decreases p.len(),
{
    if p.len() == 0 {
        Seq::empty()
    } else if p.len() == 1 {
        p[0]
    } else {
        join_with(p.drop_last(), c) + seq![c] + p.last()
    }
}

/// Where the parts after the last `c` hold no `c`, equal texts have equal
/// parts before and after it.
pub proof fn lemma_last_sep(u1: Seq<char>, v1: Seq<char>, u2: Seq<char>, v2: Seq<char>, c: char)
    requires
        u1 + seq![c] + v1 == u2 + seq![c] + v2,
        free_of(v1, c),
        free_of(v2, c),
    ensures
        u1 == u2,
        v1 == v2,
{
    let s = u1 + seq![c] + v1;
    let t = u2 + seq![c] + v2;
    assert(s[u1.len() as int] == c);
    assert(t[u2.len() as int] == c);
    assert(s.len() == t.len());
    if v1.len() < v2.len() {
        let i = u1.len() as int;
        let w = u2 + seq![c];
        assert(w.len() == u2.len() + 1);
        assert(i >= w.len());
        assert(t[i] == v2[i - w.len()]);
        assert(v2[i - w.len()] != c);
        assert(false);
    } else if v2.len() < v1.len() {
        let i = u2.len() as int;
        let w = u1 + seq![c];
        assert(w.len() == u1.len() + 1);
        assert(i >= w.len());
        assert(s[i] == v1[i - w.len()]);
        assert(v1[i - w.len()] != c);
        assert(false);
    }
    assert(u1 =~= s.subrange(0, u1.len() as int));
    assert(u2 =~= t.subrange(0, u2.len() as int));
    assert(v1 =~= s.subrange(u1.len() as int + 1, s.len() as int));
    assert(v2 =~= t.subrange(u2.len() as int + 1, t.len() as int));
}

/// Joining pieces free of the separator loses nothing: equal joins come
/// from equal pieces.
pub proof fn lemma_join_injective(p1: Seq<Seq<char>>, p2: Seq<Seq<char>>, c: char)
    requires
        p1.len() >= 1,
        p2.len() >= 1,
        forall|i: int| 0 <= i < p1.len() ==> free_of(#[trigger] p1[i], c),
        forall|i: int| 0 <= i < p2.len() ==> free_of(#[trigger] p2[i], c),
        join_with(p1, c) == join_with(p2, c),
    ensures
        p1 == p2,
    decreases p1.len() + p2.len(),
{
    if p1.len() == 1 && p2.len() == 1 {
        assert(p1 =~= p2);
    } else if p1.len() == 1 {
        let j = join_with(p2.drop_last(), c);
        let whole = j + seq![c] + p2.last();
        assert(whole[j.len() as int] == c);
        assert(free_of(p1[0], c));
        assert(p1[0] == whole);
        assert(false);
    } else if p2.len() == 1 {
        let j = join_with(p1.drop_last(), c);
        let whole = j + seq![c] + p1.last();
        assert(whole[j.len() as int] == c);
        assert(free_of(p2[0], c));
        assert(p2[0] == whole);
        assert(false);
    } else {
        assert(free_of(p1[p1.len() - 1], c));
        assert(free_of(p2[p2.len() - 1], c));
        lemma_last_sep(join_with(p1.drop_last(), c), p1.last(), join_with(p2.drop_last(), c), p2.last(), c);
        lemma_join_injective(p1.drop_last(), p2.drop_last(), c);
        assert(p1 =~= p1.drop_last().push(p1.last()));
        assert(p2 =~= p2.drop_last().push(p2.last()));
    }
}

/// Decimal text holds neither `c` nor any other non-digit.
pub proof fn lemma_dec_free(n: nat, c: char)
    requires
        !is_digit(c),
    ensures
        free_of(dec(n), c),
{
    lemma_dec_digits(n);
}

/// Different numbers have different decimal texts.
pub proof fn lemma_dec_injective(a: nat, b: nat)
    requires
        dec(a) == dec(b),
    ensures
        a == b,
{
    lemma_dec_digits(a);
    lemma_dec_digits(b);
}

/// Whitespace from `j` back down to `i`, where something else stands
/// just before.
pub proof fn lemma_rskip_ws_at(s: Seq<char>, i: int, j: int)
    requires
        0 <= i <= j <= s.len(),
        i > 0 ==> !is_ws(s[i - 1]),
        forall|k: int| i <= k < j ==> is_ws(#[trigger] s[k]),
    ensures
        rskip_ws(s, j) == i,
    decreases j - i,
{
    if i < j {
        lemma_rskip_ws_at(s, i, j - 1);
    }
}

/// Whitespace around a text that neither starts nor ends with whitespace
/// is what trimming removes.
pub proof fn lemma_trim_around(w1: Seq<char>, core: Seq<char>, w2: Seq<char>)
    requires
        core.len() > 0,
        !is_ws(core[0]),
        !is_ws(core.last()),
        forall|k: int| 0 <= k < w1.len() ==> is_ws(#[trigger] w1[k]),
        forall|k: int| 0 <= k < w2.len() ==> is_ws(#[trigger] w2[k]),
    ensures
        trim(w1 + core + w2) == core,
{
    let s = w1 + core + w2;
    let a = w1.len() as int;
    let b = a + core.len();
    assert forall|k: int| 0 <= k < a implies is_ws(#[trigger] s[k]) by {
        assert(s[k] == w1[k]);
    }
    assert forall|k: int| b <= k < s.len() implies is_ws(#[trigger] s[k]) by {
        assert(s[k] == w2[k - b]);
    }
    assert(s[a] == core[0]);
    assert(s[b - 1] == core[core.len() - 1]);
    lemma_skip_ws_at(s, 0, a);
    lemma_rskip_ws_at(s, b, s.len() as int);
    assert(s.subrange(a, b) =~= core);
}

} // verus!
