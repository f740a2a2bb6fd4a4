//! Decisions of the update check: release versions, release assets,
//! SHA256SUMS lines, checksums and where a new binary goes.

use vstd::prelude::*;
use sha2::Digest;
use crate::text::{
    dec, is_digit, is_ws, lemma_one_line, lemma_words_two, lemma_dec_is_digits, lemma_parse_dec, lemma_split_three, lemma_trim_around,
    all_digits, parse_digits, parse_digits_exec, ascii_lower, ascii_lower_exec, chars_eq, chars_of, copy_range, digit_char,
    digit_char_exec, ends_with, ends_with_exec, lines, parse_bounded, parse_dec, push_char,
    split_char, split_lines, split_on, split_words, string_of, trim, trim_exec, views, words,
};
use crate::paths::{join, join_exec};

verus! {

/// Name of the release asset that holds the binary.
pub const BINARY_ASSET: &'static str = "indigo-x86_64-linux";

/// Name of the release asset that holds the checksums.
pub const SUMS_ASSET: &'static str = "SHA256SUMS";

pub open spec fn opt_view(o: Option<String>) -> Option<Seq<char>> {
    match o {
        Some(s) => Some(s@),
        None => None,
    }
}

// ---------------------------------------------------------------------------
// versions
// ---------------------------------------------------------------------------

/// One leading `v` or `V` removed.
pub open spec fn strip_v(t: Seq<char>) -> Seq<char> {
    if t.len() > 0 && (t[0] == 'v' || t[0] == 'V') {
        t.drop_first()
    } else {
        t
    }
}

/// One part of a version: ASCII digits only, fitting in 64 bits.
pub open spec fn parse_u64_spec(s: Seq<char>) -> Option<u64> {
    match parse_digits(s, u64::MAX as int) {
        Some(v) => Some(v as u64),
        None => None,
    }
}

/// "X.Y.Z" with an optional leading `v`/`V` and surrounding whitespace,
/// each part one or more ASCII digits; anything else (more or fewer parts,
/// suffixes, signs, empty parts, other characters) has no version.
pub open spec fn version_of(s: Seq<char>) -> Option<(u64, u64, u64)> {
    let parts = split_on(strip_v(trim(s)), '.');
    if parts.len() == 3 && parse_u64_spec(parts[0]) is Some && parse_u64_spec(parts[1]) is Some
        && parse_u64_spec(parts[2]) is Some {
        Some((parse_u64_spec(parts[0])->0, parse_u64_spec(parts[1])->0, parse_u64_spec(parts[2])->0))
    } else {
        None
    }
}

/// Lexicographic order of version triples.
pub open spec fn version_le(a: (u64, u64, u64), b: (u64, u64, u64)) -> bool {
    ||| a.0 < b.0
    ||| a.0 == b.0 && a.1 < b.1
    ||| a.0 == b.0 && a.1 == b.1 && a.2 <= b.2
}

/// Splits "X.Y.Z" (leading `v`/`V` allowed) into a comparable triple;
/// prerelease suffixes or other formats give `None`.
pub fn parse_version(s: &str) -> (r: Option<(u64, u64, u64)>)
    ensures
        r == version_of(s@),
{
    let cs = chars_of(s);
    let t = trim_exec(&cs);
    let body = if t.len() > 0 && (t[0] == 'v' || t[0] == 'V') {
        copy_range(&t, 1, t.len())
    } else {
        t
    };
    assert(body@ == strip_v(trim(s@))) by {
        if trim(s@).len() > 0 && (trim(s@)[0] == 'v' || trim(s@)[0] == 'V') {
            assert(trim(s@).drop_first() =~= trim(s@).subrange(1, trim(s@).len() as int));
        }
    }
    let parts = split_char(&body, '.');
    assert(views(parts@) == split_on(body@, '.'));
    if parts.len() != 3 {
        return None;
    }
    assert(parts[0]@ == split_on(body@, '.')[0]);
    assert(parts[1]@ == split_on(body@, '.')[1]);
    assert(parts[2]@ == split_on(body@, '.')[2]);
    let major = match parse_digits_exec(&parts[0], u64::MAX) {
        Some(v) => v,
        None => return None,
    };
    let minor = match parse_digits_exec(&parts[1], u64::MAX) {
        Some(v) => v,
        None => return None,
    };
    let patch = match parse_digits_exec(&parts[2], u64::MAX) {
        Some(v) => v,
        None => return None,
    };
    Some((major, minor, patch))
}

/// `a <= b` in the order of versions.
pub fn version_at_most(a: (u64, u64, u64), b: (u64, u64, u64)) -> (r: bool)
    ensures
        r == version_le(a, b),
{
    a.0 < b.0 || (a.0 == b.0 && a.1 < b.1) || (a.0 == b.0 && a.1 == b.1 && a.2 <= b.2)
}

/// Versions are totally ordered, as tuples are: every two compare, the
/// order is transitive, and versions at most each other are equal.
pub proof fn law_version_order(a: (u64, u64, u64), b: (u64, u64, u64), c: (u64, u64, u64))
    ensures
        version_le(a, a),
        version_le(a, b) || version_le(b, a),
        version_le(a, b) && version_le(b, a) ==> a == b,
        version_le(a, b) && version_le(b, c) ==> version_le(a, c),
{
}

/// "X.Y.Z" written from three numbers.
pub open spec fn version_text(a: u64, b: u64, c: u64) -> Seq<char> {
    dec(a as nat) + seq!['.'] + dec(b as nat) + seq!['.'] + dec(c as nat)
}

proof fn lemma_version_text(a: u64, b: u64, c: u64)
    ensures
        version_text(a, b, c).len() > 0,
        is_digit(version_text(a, b, c)[0]),
        is_digit(version_text(a, b, c).last()),
        split_on(version_text(a, b, c), '.') == seq![dec(a as nat), dec(b as nat), dec(c as nat)],
        parse_u64_spec(dec(a as nat)) == Some(a),
        parse_u64_spec(dec(b as nat)) == Some(b),
        parse_u64_spec(dec(c as nat)) == Some(c),
{
    let (da, db, dc) = (dec(a as nat), dec(b as nat), dec(c as nat));
    lemma_dec_is_digits(a as nat);
    lemma_dec_is_digits(b as nat);
    lemma_dec_is_digits(c as nat);
    lemma_parse_dec(a as nat);
    lemma_parse_dec(b as nat);
    lemma_parse_dec(c as nat);
    assert forall|k: int| 0 <= k < da.len() implies da[k] != '.' by {
        assert(is_digit(da[k]));
    }
    assert forall|k: int| 0 <= k < db.len() implies db[k] != '.' by {
        assert(is_digit(db[k]));
    }
    assert forall|k: int| 0 <= k < dc.len() implies dc[k] != '.' by {
        assert(is_digit(dc[k]));
    }
    lemma_split_three(da, db, dc, '.');
    let body = version_text(a, b, c);
    assert(body[0] == da[0]);
    assert(body.last() == dc[dc.len() - 1]);
}

/// A version written "X.Y.Z" from three numbers, with an optional leading
/// `v` or `V` and any whitespace around it, reads back as those numbers; so
/// two such texts compare as their number triples do.
pub proof fn law_version_roundtrip(
    a: u64,
    b: u64,
    c: u64,
    prefix: Seq<char>,
    w1: Seq<char>,
    w2: Seq<char>,
)
    requires
        prefix == Seq::<char>::empty() || prefix == seq!['v'] || prefix == seq!['V'],
        forall|k: int| 0 <= k < w1.len() ==> is_ws(#[trigger] w1[k]),
        forall|k: int| 0 <= k < w2.len() ==> is_ws(#[trigger] w2[k]),
    ensures
        version_of(w1 + prefix + version_text(a, b, c) + w2) == Some((a, b, c)),
{
    let body = version_text(a, b, c);
    lemma_version_text(a, b, c);
    let core = prefix + body;
    assert(core.last() == body.last());
    assert(core[0] == if prefix.len() == 0 { body[0] } else { prefix[0] });
    lemma_trim_around(w1, core, w2);
    assert(w1 + prefix + body + w2 =~= w1 + core + w2);
    if prefix.len() == 0 {
        assert(core =~= body);
        assert(strip_v(core) == body);
    } else {
        assert(strip_v(core) =~= body);
    }
}

/// Two versions written as above compare as their number triples.
pub proof fn law_version_compare(x: (u64, u64, u64), y: (u64, u64, u64), t1: Seq<char>, t2: Seq<char>)
    requires
        version_of(t1) == Some(x),
        version_of(t2) == Some(y),
    ensures
        version_le(version_of(t1)->0, version_of(t2)->0) <==> (x.0 < y.0 || (x.0 == y.0 && (x.1 < y.1 || (
            x.1 == y.1 && x.2 <= y.2)))),
{
}

// ---------------------------------------------------------------------------
// SHA256SUMS
// ---------------------------------------------------------------------------

/// A checksum line "<hex> <name>" whose name ends with `name`.
pub open spec fn sum_line_matches(line: Seq<char>, name: Seq<char>) -> bool {
    words(line).len() >= 2 && ends_with(words(line)[1], name)
}

pub open spec fn find_sum_from(ls: Seq<Seq<char>>, name: Seq<char>, i: int) -> Option<Seq<char>>
    decreases ls.len() - i,
{
    if i < 0 || i >= ls.len() {
        None
    } else if sum_line_matches(ls[i], name) {
        Some(ascii_lower(words(ls[i])[0]))
    } else {
        find_sum_from(ls, name, i + 1)
    }
}

/// Lower-cased checksum of the first line whose entry ends with `name`.
pub open spec fn sum_for(sums: Seq<char>, name: Seq<char>) -> Option<Seq<char>> {
    find_sum_from(lines(sums), name, 0)
}

/// Finds in a SHA256SUMS file ("<hex>  <name>" per line, as `sha256sum`
/// writes it) the checksum of the entry whose name ends in `name`
/// (binary-mode star and path prefixes are tolerated), lower-cased.
pub fn find_sum(sums: &str, name: &str) -> (r: Option<String>)
    ensures
        opt_view(r) == sum_for(sums@, name@),
{
    let cs = chars_of(sums);
    let nm = chars_of(name);
    let ls = split_lines(&cs);
    let mut i: usize = 0;
    while i < ls.len()
        invariant
            0 <= i <= ls.len(),
            views(ls@) == lines(sums@),
            nm@ == name@,
            find_sum_from(lines(sums@), name@, i as int) == sum_for(sums@, name@),
        decreases ls.len() - i,
    {
        assert(ls[i as int]@ == lines(sums@)[i as int]);
        let ws = split_words(&ls[i]);
        if ws.len() >= 2 {
            assert(ws[1]@ == words(lines(sums@)[i as int])[1]);
            if ends_with_exec(&ws[1], &nm) {
                assert(ws[0]@ == words(lines(sums@)[i as int])[0]);
                let h = ascii_lower_exec(&ws[0]);
                return Some(string_of(&h));
            }
        }
        i = i + 1;
    }
    None
}

/// A line as `sha256sum` writes it, "<hex>  <name>", gives back the hex
/// digest (lower-cased) for that name.
pub proof fn law_sum_line_found(hex: Seq<char>, name: Seq<char>)
    requires
        hex.len() > 0,
        name.len() > 0,
        forall|k: int| 0 <= k < hex.len() ==> !is_ws(#[trigger] hex[k]),
        forall|k: int| 0 <= k < name.len() ==> !is_ws(#[trigger] name[k]),
    ensures
        sum_for(hex + seq![' ', ' '] + name + seq!['\n'], name) == Some(ascii_lower(hex)),
{
    let line = hex + seq![' ', ' '] + name;
    assert forall|k: int| 0 <= k < line.len() implies line[k] != '\n' by {
        if k < hex.len() {
            assert(line[k] == hex[k]);
        } else if k >= hex.len() + 2 {
            assert(line[k] == name[k - hex.len() - 2]);
        }
    }
    assert(line.last() == name.last());
    assert(!is_ws(name[name.len() - 1]));
    lemma_one_line(line);
    lemma_words_two(hex, name);
    assert(name.subrange(0, name.len() as int) =~= name);
    assert(ends_with(name, name));
    assert(lines(line + seq!['\n'])[0] == line);
    assert(find_sum_from(seq![line], name, 0) == Some(ascii_lower(hex)));
}

/// An install is decided only for a release strictly newer than the running
/// version, and never again for the tag the last install recorded.
pub proof fn law_install_only_newer(tag: Option<Seq<char>>, local: Seq<char>, marker: Option<Seq<char>>)
    ensures
        release_outcome(tag, local, marker) is Install ==> {
            &&& tag is Some
            &&& version_of(tag->0) is Some
            &&& version_of(local) is Some
            &&& !version_le(version_of(tag->0)->0, version_of(local)->0)
            &&& !(marker is Some && trim(marker->0) == tag->0)
        },
        release_outcome(tag, local, marker) is UpToDate ==> version_le(version_of(tag->0)->0, version_of(local)->0),
{
}

// ---------------------------------------------------------------------------
// release assets
// ---------------------------------------------------------------------------

/// One entry of a release's `assets`: its `name` and `browser_download_url`
/// where they are strings.
#[derive(Debug)]
pub struct ReleaseAsset {
    pub name: Option<String>,
    pub url: Option<String>,
}

pub open spec fn asset_url_from(assets: Seq<ReleaseAsset>, name: Seq<char>, i: int) -> Option<Seq<char>>
    decreases assets.len() - i,
{
    if i < 0 || i >= assets.len() {
        None
    } else if opt_view(assets[i].name) == Some(name) && assets[i].url is Some {
        Some(assets[i].url->0@)
    } else {
        asset_url_from(assets, name, i + 1)
    }
}

/// Download URL of the first asset with exactly this name that has one.
pub fn asset_url(assets: &Vec<ReleaseAsset>, name: &str) -> (r: Option<String>)
    ensures
        opt_view(r) == asset_url_from(assets@, name@, 0),
{
    let nm = chars_of(name);
    let mut i: usize = 0;
    while i < assets.len()
        invariant
            0 <= i <= assets.len(),
            nm@ == name@,
            asset_url_from(assets@, name@, i as int) == asset_url_from(assets@, name@, 0),
        decreases assets.len() - i,
    {
        let a = &assets[i];
        match &a.name {
            Some(n) => {
                let nc = chars_of(n.as_str());
                if chars_eq(&nc, &nm) {
                    match &a.url {
                        Some(u) => {
                            return Some(u.clone());
                        },
                        None => {},
                    }
                }
            },
            None => {},
        }
        i = i + 1;
    }
    None
}

// ---------------------------------------------------------------------------
// checksums
// ---------------------------------------------------------------------------

/// The SHA-256 digest of a byte sequence.
pub uninterp spec fn sha256_digest(data: Seq<u8>) -> Seq<u8>;

/// `sha2::Sha256::digest`: the contract names the 32-byte digest.
#[verifier::external_body]
fn sha256(data: &[u8]) -> (r: Vec<u8>)
    ensures
        r@ == sha256_digest(data@),
        r@.len() == 32,
{
    sha2::Sha256::digest(data).to_vec()
}

/// Two lower-case hex digits per byte, high nibble first.
pub open spec fn hex_lower(b: Seq<u8>) -> Seq<char> {
    Seq::new(
        2 * b.len(),
        |i: int|
            if i % 2 == 0 {
                digit_char((b[i / 2] / 16) as int)
            } else {
                digit_char((b[i / 2] % 16) as int)
            },
    )
}

pub fn hex_string(b: &[u8]) -> (r: String)
    ensures
        r@ == hex_lower(b@),
{
    let mut r = String::new();
    let mut i: usize = 0;
    while i < b.len()
        invariant
            0 <= i <= b.len(),
            r@ == hex_lower(b@).take(2 * i),
        decreases b.len() - i,
    {
        let byte = b[i];
        push_char(&mut r, digit_char_exec(byte / 16));
        push_char(&mut r, digit_char_exec(byte % 16));
        i = i + 1;
        assert(r@ =~= hex_lower(b@).take(2 * i));
    }
    assert(hex_lower(b@).take(2 * b.len()) =~= hex_lower(b@));
    r
}

/// Hex-coded SHA-256 of the given bytes.
pub fn sha256_hex(data: &[u8]) -> (r: String)
    ensures
        r@ == hex_lower(sha256_digest(data@)),
        r@.len() == 64,
{
    let d = sha256(data);
    hex_string(d.as_slice())
}

// ---------------------------------------------------------------------------
// the steps of an update check
// ---------------------------------------------------------------------------

/// Text of a string's `Debug` form.
pub uninterp spec fn str_debug(s: Seq<char>) -> Seq<char>;

/// ASCII characters that `str`'s `Debug` form writes unchanged.
pub open spec fn plain_debug_char(c: char) -> bool {
    ' ' <= c && c <= '~' && c != '"' && c != '\\'
}

/// `format!("{s:?}")`: named; a string of plain printable ASCII is written
/// between double quotes as it is.
#[verifier::external_body]
fn debug_quoted(s: &str) -> (r: String)
    ensures
        r@ == str_debug(s@),
        (forall|i: int| 0 <= i < s@.len() ==> plain_debug_char(#[trigger] s@[i])) ==> r@ == seq!['"']
            + s@ + seq!['"'],
{
    format!("{s:?}")
}

pub enum OutcomeView {
    UpToDate,
    Install,
    Failed(Seq<char>),
}

/// What the release check decided before anything is downloaded.
#[derive(Debug)]
pub enum ReleaseDecision {
    /// the release is not newer: nothing to do (the marker file goes)
    UpToDate,
    /// the release is newer: download and install it
    Install,
    /// the check stops with this message
    Failed(String),
}

impl View for ReleaseDecision {
    type V = OutcomeView;

    open spec fn view(&self) -> OutcomeView {
        match self {
            ReleaseDecision::UpToDate => OutcomeView::UpToDate,
            ReleaseDecision::Install => OutcomeView::Install,
            ReleaseDecision::Failed(m) => OutcomeView::Failed(m@),
        }
    }
}

pub open spec fn release_outcome(tag: Option<Seq<char>>, local: Seq<char>, marker: Option<Seq<char>>) -> OutcomeView {
    match tag {
        None => OutcomeView::Failed("release ohne tag_name"@),
        Some(t) => match version_of(t) {
            None => OutcomeView::Failed("unverständliches release-tag "@ + str_debug(t)),
            Some(remote) => match version_of(local) {
                None => OutcomeView::Failed("eigene version unverständlich"@),
                Some(mine) => if version_le(remote, mine) {
                    OutcomeView::UpToDate
                } else if marker is Some && trim(marker->0) == t {
                    OutcomeView::Failed(
                        "release "@ + t + " wurde bereits installiert, version ist aber weiterhin "@
                            + local + " — vermutlich passt das release nicht zum tag; überspringe"@,
                    )
                } else {
                    OutcomeView::Install
                },
            },
        },
    }
}

/// Decides on the newest release from its tag (`None`: the release has no
/// `tag_name`), the running version and the tag recorded by the last
/// install (`None`: no record). A release that is not strictly newer needs
/// nothing; one already installed while the version stayed the same is not
/// installed again.
pub fn check_release(tag: Option<&str>, local_version: &str, marker: Option<&str>) -> (r: ReleaseDecision)
    ensures
        r@ == release_outcome(crate::paths::opt_str_view(tag), local_version@, crate::paths::opt_str_view(marker)),
{
    let t = match tag {
        Some(t) => t,
        None => return ReleaseDecision::Failed(String::from_str("release ohne tag_name")),
    };
    let remote = match parse_version(t) {
        Some(v) => v,
        None => {
            let mut m = String::from_str("unverständliches release-tag ");
            let q = debug_quoted(t);
            m.append(q.as_str());
            return ReleaseDecision::Failed(m);
        },
    };
    let mine = match parse_version(local_version) {
        Some(v) => v,
        None => return ReleaseDecision::Failed(String::from_str("eigene version unverständlich")),
    };
    if version_at_most(remote, mine) {
        return ReleaseDecision::UpToDate;
    }
    let seen = match marker {
        Some(mk) => {
            let mc = chars_of(mk);
            let mt = trim_exec(&mc);
            let tc = chars_of(t);
            chars_eq(&mt, &tc)
        },
        None => false,
    };
    if seen {
        let mut m = String::from_str("release ");
        m.append(t);
        m.append(" wurde bereits installiert, version ist aber weiterhin ");
        m.append(local_version);
        m.append(" — vermutlich passt das release nicht zum tag; überspringe");
        return ReleaseDecision::Failed(m);
    }
    ReleaseDecision::Install
}

pub open spec fn missing_asset_msg(name: Seq<char>) -> Seq<char> {
    "asset "@ + name + " fehlt im release"@
}

/// The download URLs of the binary and of the checksum file, from the
/// release's assets (`None`: the release has no `assets` list).
pub fn download_urls(assets: Option<&Vec<ReleaseAsset>>) -> (r: Result<(String, String), String>)
    ensures
        match assets {
            None => r is Err && r->Err_0@ == "release ohne assets"@,
            Some(a) => match (asset_url_from(a@, BINARY_ASSET@, 0), asset_url_from(a@, SUMS_ASSET@, 0)) {
                (Some(b), Some(c)) => r is Ok && r->Ok_0.0@ == b && r->Ok_0.1@ == c,
                (None, _) => r is Err && r->Err_0@ == missing_asset_msg(BINARY_ASSET@),
                (Some(_), None) => r is Err && r->Err_0@ == missing_asset_msg(SUMS_ASSET@),
            },
        },
{
    let a = match assets {
        Some(a) => a,
        None => return Err(String::from_str("release ohne assets")),
    };
    let binary = match asset_url(a, BINARY_ASSET) {
        Some(u) => u,
        None => {
            let mut m = String::from_str("asset ");
            m.append(BINARY_ASSET);
            m.append(" fehlt im release");
            return Err(m);
        },
    };
    let sums = match asset_url(a, SUMS_ASSET) {
        Some(u) => u,
        None => {
            let mut m = String::from_str("asset ");
            m.append(SUMS_ASSET);
            m.append(" fehlt im release");
            return Err(m);
        },
    };
    Ok((binary, sums))
}

pub open spec fn checksum_outcome(sums: Seq<char>, actual: Seq<char>, tag: Seq<char>) -> Result<(), Seq<char>> {
    match sum_for(sums, BINARY_ASSET@) {
        None => Err("keine prüfsumme für "@ + BINARY_ASSET@ + " in "@ + SUMS_ASSET@),
        Some(expected) => if actual == expected {
            Ok(())
        } else {
            Err("prüfsummen-mismatch für "@ + tag + ": erwartet "@ + expected + ", berechnet "@ + actual)
        },
    }
}

/// Checks the hex SHA-256 of the download against the SHA256SUMS text.
pub fn verify_checksum(sums: &str, actual: &str, tag: &str) -> (r: Result<(), String>)
    ensures
        match checksum_outcome(sums@, actual@, tag@) {
            Ok(()) => r is Ok,
            Err(m) => r is Err && r->Err_0@ == m,
        },
{
    let expected = match find_sum(sums, BINARY_ASSET) {
        Some(e) => e,
        None => {
            let mut m = String::from_str("keine prüfsumme für ");
            m.append(BINARY_ASSET);
            m.append(" in ");
            m.append(SUMS_ASSET);
            return Err(m);
        },
    };
    let ac = chars_of(actual);
    let ec = chars_of(expected.as_str());
    if chars_eq(&ac, &ec) {
        Ok(())
    } else {
        let mut m = String::from_str("prüfsummen-mismatch für ");
        m.append(tag);
        m.append(": erwartet ");
        m.append(expected.as_str());
        m.append(", berechnet ");
        m.append(actual);
        Err(m)
    }
}

/// Result of a successful update.
#[derive(Debug)]
pub enum UpdateEvent {
    /// The binary was replaced in place; holds the path of the new binary.
    ReadyRestart(String),
    /// The binary was installed at this path, because the directory of the
    /// running binary is not writable.
    InstalledAt(String),
}

/// Where a verified download goes: staged first, then renamed onto the
/// target.
#[derive(Debug)]
pub struct InstallPlan {
    /// directory to create first, when the target is below the data dir
    pub bin_dir: Option<String>,
    pub staged: String,
    pub target: String,
    pub event: UpdateEvent,
}

/// In place next to the running binary when its directory is writable,
/// else to `<data dir>/bin/indigo`.
pub fn install_target(exe: &str, exe_dir_writable: bool, data_dir: &str) -> (r: InstallPlan)
    ensures
        exe_dir_writable ==> {
            &&& r.bin_dir is None
            &&& r.staged@ == exe@ + ".new"@
            &&& r.target@ == exe@
            &&& r.event matches UpdateEvent::ReadyRestart(p) && p@ == exe@
        },
        !exe_dir_writable ==> {
            &&& r.bin_dir is Some && r.bin_dir->0@ == join(data_dir@, "bin"@)
            &&& r.staged@ == join(join(data_dir@, "bin"@), "indigo.new"@)
            &&& r.target@ == join(join(data_dir@, "bin"@), "indigo"@)
            &&& r.event matches UpdateEvent::InstalledAt(p) && p@ == r.target@
        },
{
    if exe_dir_writable {
        let mut staged = String::from_str(exe);
        staged.append(".new");
        InstallPlan {
            bin_dir: None,
            staged,
            target: String::from_str(exe),
            event: UpdateEvent::ReadyRestart(String::from_str(exe)),
        }
    } else {
        let bin_dir = join_exec(data_dir, "bin");
        let target = join_exec(bin_dir.as_str(), "indigo");
        let staged = join_exec(bin_dir.as_str(), "indigo.new");
        let event_path = target.clone();
        InstallPlan { bin_dir: Some(bin_dir), staged, target, event: UpdateEvent::InstalledAt(event_path) }
    }
}

proof fn lemma_sum_at(ls: Seq<Seq<char>>, name: Seq<char>, i: int, k: int)
    requires
        0 <= i <= k < ls.len(),
        sum_line_matches(ls[k], name),
        forall|j: int| i <= j < k ==> !sum_line_matches(#[trigger] ls[j], name),
    ensures
        find_sum_from(ls, name, i) == Some(ascii_lower(words(ls[k])[0])),
    decreases k - i,
{
    if i < k {
        lemma_sum_at(ls, name, i + 1, k);
    }
}

proof fn lemma_sum_absent(ls: Seq<Seq<char>>, name: Seq<char>, i: int)
    requires
        0 <= i,
        forall|j: int| i <= j < ls.len() ==> !sum_line_matches(#[trigger] ls[j], name),
    ensures
        find_sum_from(ls, name, i) is None,
    decreases ls.len() - i,
{
    if i < ls.len() {
        lemma_sum_absent(ls, name, i + 1);
    }
}

/// The checksum comes from the first line whose entry (second column) ends
/// with the asset name, its first column lower-cased; a file without such
/// a line holds no checksum for it.
pub proof fn law_first_sum_line(sums: Seq<char>, name: Seq<char>, k: int)
    ensures
        0 <= k < lines(sums).len() && words(lines(sums)[k]).len() >= 2 && ends_with(words(lines(sums)[k])[1], name)
            && (forall|j: int| 0 <= j < k ==> !sum_line_matches(#[trigger] lines(sums)[j], name)) ==> sum_for(sums, name)
            == Some(ascii_lower(words(lines(sums)[k])[0])),
        (forall|j: int| 0 <= j < lines(sums).len() ==> !sum_line_matches(#[trigger] lines(sums)[j], name)) ==> sum_for(
            sums,
            name,
        ) is None,
{
    let ls = lines(sums);
    if 0 <= k < ls.len() && words(ls[k]).len() >= 2 && ends_with(words(ls[k])[1], name) && (forall|j: int|
        0 <= j < k ==> !sum_line_matches(#[trigger] ls[j], name)) {
        lemma_sum_at(ls, name, 0, k);
    }
    if forall|j: int| 0 <= j < ls.len() ==> !sum_line_matches(#[trigger] ls[j], name) {
        lemma_sum_absent(ls, name, 0);
    }
}

proof fn lemma_asset_at(assets: Seq<ReleaseAsset>, name: Seq<char>, i: int, k: int)
    requires
        0 <= i <= k < assets.len(),
        opt_view(assets[k].name) == Some(name) && assets[k].url is Some,
        forall|j: int| i <= j < k ==> !(opt_view(#[trigger] assets[j].name) == Some(name) && assets[j].url is Some),
    ensures
        asset_url_from(assets, name, i) == Some(assets[k].url->0@),
    decreases k - i,
{
    if i < k {
        lemma_asset_at(assets, name, i + 1, k);
    }
}

/// The download URL is that of the first asset named exactly so that has
/// one (an earlier entry of that name without a URL is passed over).
pub proof fn law_first_asset(assets: Seq<ReleaseAsset>, name: Seq<char>, k: int)
    ensures
        0 <= k < assets.len() && opt_view(assets[k].name) == Some(name) && assets[k].url is Some && (forall|j: int|
            0 <= j < k ==> !(opt_view(#[trigger] assets[j].name) == Some(name) && assets[j].url is Some))
            ==> asset_url_from(assets, name, 0) == Some(assets[k].url->0@),
{
    if 0 <= k < assets.len() && opt_view(assets[k].name) == Some(name) && assets[k].url is Some && (forall|j: int|
        0 <= j < k ==> !(opt_view(#[trigger] assets[j].name) == Some(name) && assets[j].url is Some)) {
        lemma_asset_at(assets, name, 0, k);
    }
}

} // verus!
