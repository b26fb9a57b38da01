//! Choosing the user's editor.
//!
//! The editor is `$EDITOR`, then `$VISUAL`, then `vi`; a variable that is
//! unset, empty or only whitespace does not count. Reading the environment
//! and launching the editor belong to the program around this library.
use vstd::prelude::*;
use crate::config::opt_str;
use crate::text;

verus! {

/// `v` holds a character that is not whitespace (`!v.trim().is_empty()`).
pub open spec fn nonblank(v: Seq<char>) -> bool {
    exists|i: int| 0 <= i < v.len() && !text::is_white(#[trigger] v[i])
}

/// The value of an environment variable that counts: set and not blank.
pub open spec fn counted(v: Option<Seq<char>>) -> Option<Seq<char>> {
    match v {
        Some(s) => if nonblank(s) {
            Some(s)
        } else {
            None
        },
        None => None,
    }
}

/// `vi`.
pub open spec fn vi() -> Seq<char> {
    seq!['v', 'i']
}

/// The editor command chosen from the values of `$EDITOR` and `$VISUAL`.
pub open spec fn editor_choice(editor: Option<Seq<char>>, visual: Option<Seq<char>>) -> Seq<char> {
    match counted(editor) {
        Some(e) => e,
        None => match counted(visual) {
            Some(v) => v,
            None => vi(),
        },
    }
}

/// Whether `s` is not blank.
fn is_nonblank(s: &str) -> (r: bool)
    ensures
        r == nonblank(s@),
{
    let v = text::chars_of(s);
    let mut i: usize = 0;
    while i < v.len()
        invariant
            i <= v.len(),
            v@ == s@,
            forall|j: int| 0 <= j < i ==> text::is_white(#[trigger] v@[j]),
        decreases v.len() - i,
    {
        if !text::is_whitespace(v[i]) {
            assert(!text::is_white(s@[i as int]));
            return true;
        }
        i = i + 1;
    }
    false
}

/// The value of an environment variable, treating empty or whitespace-only
/// as unset.
pub fn env_nonempty(value: Option<&str>) -> (r: Option<String>)
    ensures
        match counted(opt_str(value)) {
            Some(s) => r matches Some(t) && t@ == s,
            None => r is None,
        },
{
    match value {
        Some(s) => if is_nonblank(s) {
            Some(s.to_string())
        } else {
            None
        },
        None => None,
    }
}

/// Determine the editor command from the values of `$EDITOR` and `$VISUAL`:
/// `$EDITOR`, then `$VISUAL`, then `vi`. There is always one.
pub fn editor_command(editor: Option<&str>, visual: Option<&str>) -> (r: Option<String>)
    ensures
        r matches Some(c) && c@ == editor_choice(opt_str(editor), opt_str(visual)),
{
    if let Some(e) = env_nonempty(editor) {
        return Some(e);
    }
    if let Some(v) = env_nonempty(visual) {
        return Some(v);
    }
    proof {
        reveal_strlit("vi");
    }
    Some("vi".to_string())
}

/// `s` cut at every whitespace character (`str::split(char::is_whitespace)`).
pub open spec fn pieces(s: Seq<char>) -> Seq<Seq<char>>
    decreases s.len(),
{
    if s.len() == 0 {
        seq![seq![]]
    } else {
        let p = pieces(s.drop_last());
        if text::is_white(s.last()) {
            p.push(seq![])
        } else {
            p.update(p.len() - 1, p.last().push(s.last()))
        }
    }
}

/// The piece is not empty.
pub open spec fn nonempty() -> spec_fn(Seq<char>) -> bool {
    |w: Seq<char>| w.len() > 0
}

/// `str::split_whitespace`: the nonempty pieces of `s` between whitespace.
pub open spec fn words(s: Seq<char>) -> Seq<Seq<char>> {
    pieces(s).filter(nonempty())
}

/// The command line that opens `path` with the editor command `cmd`: the
/// command's words (the program, then its arguments), then the path. `None`
/// when the command has no words.
pub fn command_line(cmd: &str, path: &str) -> (r: Option<Vec<String>>)
    ensures
        words(cmd@).len() == 0 ==> r is None,
        words(cmd@).len() > 0 ==> (r matches Some(v) && v.deep_view() == words(cmd@).push(path@)),
{
    let c = text::chars_of(cmd);
    let mut out: Vec<String> = Vec::new();
    let mut cur: Vec<char> = Vec::new();
    let mut i: usize = 0;
    proof {
        assert(c@.take(0) =~= Seq::<char>::empty());
    }
    while i < c.len()
        invariant
            i <= c.len(),
            c@ == cmd@,
            pieces(c@.take(i as int)).len() >= 1,
            out.deep_view() == pieces(c@.take(i as int)).drop_last().filter(nonempty()),
            cur@ == pieces(c@.take(i as int)).last(),
        decreases c.len() - i,
    {
        let ghost p = pieces(c@.take(i as int));
        proof {
            assert(c@.take(i + 1).drop_last() =~= c@.take(i as int));
            assert(c@.take(i + 1).last() == c@[i as int]);
        }
        if text::is_whitespace(c[i]) {
            if cur.len() > 0 {
                let ghost before = out.deep_view();
                out.push(text::string_from_chars(cur.as_slice()));
                proof {
                    assert(out.deep_view() =~= before.push(cur@));
                }
            }
            proof {
                reveal_with_fuel(Seq::filter, 1);
                assert(p.push(seq![]).drop_last() =~= p);
                assert(p =~= p.drop_last().push(p.last()));
            }
            cur = Vec::new();
        } else {
            cur.push(c[i]);
            proof {
                let q = p.update(p.len() - 1, p.last().push(c@[i as int]));
                assert(q.drop_last() =~= p.drop_last());
            }
        }
        i = i + 1;
    }
    proof {
        assert(c@.take(c.len() as int) =~= c@);
        let p = pieces(c@);
        reveal_with_fuel(Seq::filter, 1);
        assert(p =~= p.drop_last().push(p.last()));
    }
    if cur.len() > 0 {
        let ghost before = out.deep_view();
        out.push(text::string_from_chars(cur.as_slice()));
        proof {
            assert(out.deep_view() =~= before.push(cur@));
        }
    }
    if out.len() == 0 {
        return None;
    }
    let ghost before = out.deep_view();
    out.push(path.to_string());
    proof {
        assert(out.deep_view() =~= before.push(path@));
    }
    Some(out)
}

} // verus!
