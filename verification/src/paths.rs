//! File locations below the XDG base directories.

use vstd::prelude::*;
use crate::text::{chars_of, concat_chars, string_of};

verus! {

pub open spec fn is_absolute(p: Seq<char>) -> bool {
    p.len() > 0 && p[0] == '/'
}

/// `PathBuf::push`: an absolute part replaces the path, a relative part is
/// appended with one `/` between unless the path is empty or already ends in `/`.
pub open spec fn join(base: Seq<char>, part: Seq<char>) -> Seq<char> {
    if is_absolute(part) || base.len() == 0 {
        part
    } else if base.last() == '/' {
        base + part
    } else {
        base + seq!['/'] + part
    }
}

/// The directory named by an XDG variable when it holds an absolute path,
/// else `$HOME` (empty when unset) joined with `fallback`.
pub open spec fn xdg_base(var: Option<Seq<char>>, home: Option<Seq<char>>, fallback: Seq<char>) -> Seq<char> {
    match var {
        Some(v) if is_absolute(v) => v,
        _ => join(
            match home {
                Some(h) => h,
                None => Seq::empty(),
            },
            fallback,
        ),
    }
}

pub open spec fn opt_str_view(o: Option<&str>) -> Option<Seq<char>> {
    match o {
        Some(s) => Some(s@),
        None => None,
    }
}

pub fn join_exec(base: &str, part: &str) -> (r: String)
    ensures
        r@ == join(base@, part@),
{
    let b = chars_of(base);
    let p = chars_of(part);
    if (p.len() > 0 && p[0] == '/') || b.len() == 0 {
        string_of(&p)
    } else if b[b.len() - 1] == '/' {
        let v = concat_chars(&b, &p);
        string_of(&v)
    } else {
        let mut sep: Vec<char> = Vec::new();
        sep.push('/');
        let bs = concat_chars(&b, &sep);
        let v = concat_chars(&bs, &p);
        assert(sep@ =~= seq!['/']);
        string_of(&v)
    }
}

pub fn xdg_base_exec(var: Option<&str>, home: Option<&str>, fallback: &str) -> (r: String)
    ensures
        r@ == xdg_base(opt_str_view(var), opt_str_view(home), fallback@),
{
    let absolute = match var {
        Some(v) => {
            let vc = chars_of(v);
            vc.len() > 0 && vc[0] == '/'
        },
        None => false,
    };
    match var {
        Some(v) => {
            if absolute {
                return String::from_str(v);
            }
        },
        None => {},
    }
    match home {
        Some(h) => join_exec(h, fallback),
        None => {
            proof {
                reveal_strlit("");
            }
            join_exec("", fallback)
        },
    }
}

/// `$XDG_CONFIG_HOME/indigo/settings.json`, else `~/.config/indigo/settings.json`.
pub fn settings_file(config_home: Option<&str>, home: Option<&str>) -> (r: String)
    ensures
        r@ == join(join(xdg_base(opt_str_view(config_home), opt_str_view(home), ".config"@), "indigo"@), "settings.json"@),
{
    let base = xdg_base_exec(config_home, home, ".config");
    let dir = join_exec(base.as_str(), "indigo");
    join_exec(dir.as_str(), "settings.json")
}

/// `$XDG_CONFIG_HOME/autostart/indigo.desktop`, else below `~/.config`.
pub fn desktop_file(config_home: Option<&str>, home: Option<&str>) -> (r: String)
    ensures
        r@ == join(join(xdg_base(opt_str_view(config_home), opt_str_view(home), ".config"@), "autostart"@), "indigo.desktop"@),
{
    let base = xdg_base_exec(config_home, home, ".config");
    let dir = join_exec(base.as_str(), "autostart");
    join_exec(dir.as_str(), "indigo.desktop")
}

/// `$XDG_DATA_HOME/indigo`, else `~/.local/share/indigo`.
pub fn data_dir(data_home: Option<&str>, home: Option<&str>) -> (r: String)
    ensures
        r@ == join(xdg_base(opt_str_view(data_home), opt_str_view(home), ".local/share"@), "indigo"@),
{
    let base = xdg_base_exec(data_home, home, ".local/share");
    join_exec(base.as_str(), "indigo")
}

/// The single-instance lock: `$XDG_RUNTIME_DIR/indigo.lock` when that is
/// an absolute path, else in the temporary directory.
pub fn lock_file(runtime_dir: Option<&str>, temp_dir: &str) -> (r: String)
    ensures
        r@ == join(
            match runtime_dir {
                Some(d) if is_absolute(d@) => d@,
                _ => temp_dir@,
            },
            "indigo.lock"@,
        ),
{
    match runtime_dir {
        Some(d) => {
            let dc = chars_of(d);
            if dc.len() > 0 && dc[0] == '/' {
                return join_exec(d, "indigo.lock");
            }
        },
        None => {},
    }
    join_exec(temp_dir, "indigo.lock")
}

} // verus!
