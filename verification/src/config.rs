//! Configuration: where the memos live and how output looks.
//!
//! The configuration file lives at `<config dir>/stpl.toml`. Which home and
//! configuration directories the user has is a question for the program around
//! this library; given them, the defaults and the expansion of `~` are here.
use vstd::prelude::*;
use crate::path;
use crate::text;

verus! {

/// Runtime configuration.
pub struct Config {
    /// Root directory holding all memos. Default: `~/stpls`.
    pub memo_directory: String,
    /// Disable ANSI color in output.
    pub disable_color: bool,
    /// Disable emoji in output.
    pub disable_emoji: bool,
}

/// The name of the default memo directory, under the home directory.
pub open spec fn stpls() -> Seq<char> {
    seq!['s', 't', 'p', 'l', 's']
}

/// The default memo directory: `stpls` under the home directory, or the
/// relative `stpls` when there is no home directory.
pub open spec fn memo_directory_in(home: Option<Seq<char>>) -> Seq<char> {
    match home {
        Some(h) => path::join_path(h, stpls()),
        None => stpls(),
    }
}

/// The view of an optional `&str`.
pub open spec fn opt_str(o: Option<&str>) -> Option<Seq<char>> {
    match o {
        Some(s) => Some(s@),
        None => None,
    }
}

/// The default memo directory (`~/stpls`), given the user's home directory.
pub fn default_memo_directory(home: Option<&str>) -> (r: String)
    ensures
        r@ == memo_directory_in(opt_str(home)),
{
    proof {
        reveal_strlit("stpls");
    }
    match home {
        Some(h) => path::join(h, "stpls"),
        None => "stpls".to_string(),
    }
}

/// What follows a leading `~` component, as `Path::strip_prefix("~")` gives
/// it: for `~` itself nothing, for `~/rest` the rest without its leading and
/// trailing separators and `.` components; `None` when the path does not
/// start with a `~` component.
pub open spec fn after_tilde(p: Seq<char>) -> Option<Seq<char>> {
    if p == seq!['~'] || (p.len() >= 2 && p[0] == '~' && p[1] == '/') {
        Some(trim_trail_dots(trim_lead_dots(p.skip(1))))
    } else {
        None
    }
}

/// Whether `s` starts with a separator or a `.` component.
pub open spec fn lead_dot_step(s: Seq<char>) -> bool {
    s.len() > 0 && (s[0] == '/' || (s[0] == '.' && (s.len() == 1 || s[1] == '/')))
}

/// Whether `s` ends with a separator or a `.` component.
pub open spec fn trail_dot_step(s: Seq<char>) -> bool {
    s.len() > 0 && (s.last() == '/' || (s.last() == '.' && (s.len() == 1 || s[s.len() - 2] == '/')))
}

/// `s` without its leading separators and `.` components.
pub open spec fn trim_lead_dots(s: Seq<char>) -> Seq<char>
    decreases s.len(),
{
    if lead_dot_step(s) {
        trim_lead_dots(s.skip(1))
    } else {
        s
    }
}

/// `s` without its trailing separators and `.` components.
pub open spec fn trim_trail_dots(s: Seq<char>) -> Seq<char>
    decreases s.len(),
{
    if trail_dot_step(s) {
        trim_trail_dots(s.drop_last())
    } else {
        s
    }
}

/// `path` with a leading `~` component replaced by the home directory; the
/// path unchanged when it has no such component or there is no home.
pub open spec fn tilde_expanded(p: Seq<char>, home: Option<Seq<char>>) -> Seq<char> {
    match (after_tilde(p), home) {
        (Some(rest), Some(h)) => path::join_path(h, rest),
        _ => p,
    }
}

/// Whether `v[i..j]` starts with a separator or a `.` component.
fn lead_step_at(v: &Vec<char>, i: usize, j: usize) -> (r: bool)
    requires
        i <= j <= v.len(),
    ensures
        r == lead_dot_step(v@.subrange(i as int, j as int)),
{
    if i == j {
        false
    } else {
        v[i] == '/' || (v[i] == '.' && (i + 1 == j || v[i + 1] == '/'))
    }
}

/// Whether `v[i..j]` ends with a separator or a `.` component.
fn trail_step_at(v: &Vec<char>, i: usize, j: usize) -> (r: bool)
    requires
        i <= j <= v.len(),
    ensures
        r == trail_dot_step(v@.subrange(i as int, j as int)),
{
    if i == j {
        false
    } else {
        v[j - 1] == '/' || (v[j - 1] == '.' && (j - 1 == i || v[j - 2] == '/'))
    }
}

/// Expand a leading `~` in a path to the user's home directory. Paths
/// without a leading `~` component are returned unchanged, and so is every
/// path when there is no home directory. Does not canonicalize.
pub fn expand_tilde(p: &str, home: Option<&str>) -> (r: String)
    ensures
        r@ == tilde_expanded(p@, opt_str(home)),
{
    let v = text::chars_of(p);
    let n = v.len();
    let is_tilde = n == 1 && v[0] == '~';
    let has_prefix = n >= 2 && v[0] == '~' && v[1] == '/';
    if !is_tilde && !has_prefix {
        proof {
            if p@ == seq!['~'] {
                assert(v@[0] == '~');
            }
        }
        return p.to_string();
    }
    let h = match home {
        Some(h) => h,
        None => return p.to_string(),
    };
    proof {
        assert(v@.subrange(1, n as int) =~= p@.skip(1));
    }
    let mut i: usize = 1;
    while i < n && lead_step_at(&v, i, n)
        invariant
            1 <= i <= n == v.len(),
            v@ == p@,
            trim_lead_dots(p@.skip(1)) == trim_lead_dots(v@.subrange(i as int, n as int)),
        decreases n - i,
    {
        proof {
            assert(v@.subrange(i as int, n as int).skip(1) =~= v@.subrange(i + 1, n as int));
        }
        i = i + 1;
    }
    let mut j: usize = n;
    while j > i && trail_step_at(&v, i, j)
        invariant
            1 <= i <= j <= n == v.len(),
            v@ == p@,
            trim_lead_dots(p@.skip(1)) == v@.subrange(i as int, n as int),
            trim_trail_dots(v@.subrange(i as int, n as int)) == trim_trail_dots(
                v@.subrange(i as int, j as int),
            ),
        decreases j - i,
    {
        proof {
            assert(v@.subrange(i as int, j as int).drop_last() =~= v@.subrange(i as int, j - 1));
        }
        j = j - 1;
    }
    let mut rest: Vec<char> = Vec::new();
    let mut m: usize = i;
    while m < j
        invariant
            i <= m <= j <= n == v.len(),
            rest@ == v@.subrange(i as int, m as int),
        decreases j - m,
    {
        rest.push(v[m]);
        m = m + 1;
    }
    proof {
        assert(rest@ == trim_trail_dots(trim_lead_dots(p@.skip(1))));
        if is_tilde {
            assert(p@ =~= seq!['~']);
        }
        assert(after_tilde(p@) == Some(rest@));
    }
    let mut out = text::chars_of(h);
    path::push_component(&mut out, &rest);
    text::string_from_chars(out.as_slice())
}

/// The default configuration: memos under `~/stpls`, color and emoji on.
pub open spec fn is_default_config(c: Config, home: Option<Seq<char>>) -> bool {
    &&& c.memo_directory@ == memo_directory_in(home)
    &&& !c.disable_color
    &&& !c.disable_emoji
}

impl Config {
    /// The default configuration, given the user's home directory.
    pub fn default_in(home: Option<&str>) -> (r: Config)
        ensures
            is_default_config(r, opt_str(home)),
    {
        Config { memo_directory: default_memo_directory(home), disable_color: false, disable_emoji: false }
    }

    /// Path to the config file, `stpl.toml` in the user's configuration
    /// directory; `None` when there is no such directory.
    pub fn path(config_dir: Option<&str>) -> (r: Option<String>)
        ensures
            match config_dir {
                Some(d) => r matches Some(p) && p@ == path::join_path(d@, "stpl.toml"@),
                None => r is None,
            },
    {
        match config_dir {
            Some(d) => Some(path::join(d, "stpl.toml")),
            None => None,
        }
    }

    /// The configuration as it is used: with a leading `~` in
    /// `memo_directory` expanded to the home directory.
    pub fn expanded(self, home: Option<&str>) -> (r: Config)
        ensures
            r.memo_directory@ == tilde_expanded(self.memo_directory@, opt_str(home)),
            r.disable_color == self.disable_color,
            r.disable_emoji == self.disable_emoji,
    {
        let dir = expand_tilde(self.memo_directory.as_str(), home);
        Config { memo_directory: dir, disable_color: self.disable_color, disable_emoji: self.disable_emoji }
    }
}

} // verus!
