//! Paths as text. Memo paths are handled as the UTF-8 text of the path;
//! joining follows `PathBuf::push` on Unix, and the questions about a path's
//! components (its file name, stem, extension, parent) are answered by
//! `std::path::Path`.
use vstd::prelude::*;

verus! {

/// The view of an optional string.
pub open spec fn opt_view(o: Option<String>) -> Option<Seq<char>> {
    match o {
        Some(s) => Some(s@),
        None => None,
    }
}

/// `Path::join` on Unix: an absolute `comp` replaces `base`; otherwise `comp`
/// follows `base`, behind a `/` unless `base` is empty or already ends in one.
pub open spec fn join_path(base: Seq<char>, comp: Seq<char>) -> Seq<char> {
    if comp.len() > 0 && comp[0] == '/' {
        comp
    } else if base.len() == 0 || base.last() == '/' {
        base + comp
    } else {
        base + seq!['/'] + comp
    }
}

/// Appends `comp` to the path in `out`, as `Path::join` does on Unix.
pub fn push_component(out: &mut Vec<char>, comp: &Vec<char>)
    ensures
        final(out)@ == join_path(old(out)@, comp@),
{
    if comp.len() > 0 && comp[0] == '/' {
        out.clear();
        crate::text::push_all(out, comp);
        assert(out@ =~= comp@);
    } else {
        if out.len() > 0 && out[out.len() - 1] != '/' {
            out.push('/');
        }
        crate::text::push_all(out, comp);
    }
}

/// `Path::join` on Unix.
pub fn join(base: &str, comp: &str) -> (r: String)
    ensures
        r@ == join_path(base@, comp@),
{
    let mut v = crate::text::chars_of(base);
    push_component(&mut v, &crate::text::chars_of(comp));
    crate::text::string_from_chars(v.as_slice())
}

/// `Path == Path`: the two paths have the same components.
pub uninterp spec fn same_path(a: Seq<char>, b: Seq<char>) -> bool;

/// Whether the paths `a` and `b` are equal as `Path`s.
///
/// Trusted: std compares the paths component by component; the answer
/// depends on `a` and `b` alone (named `same_path`).
#[verifier::external_body]
pub(crate) fn paths_equal(a: &str, b: &str) -> (r: bool)
    ensures
        r == same_path(a@, b@),
{
    std::path::Path::new(a) == std::path::Path::new(b)
}

/// `Path::file_name`: the last component when it is a normal one.
pub uninterp spec fn path_file_name(p: Seq<char>) -> Option<Seq<char>>;

/// `Path::file_stem`: the file name without its extension.
pub uninterp spec fn path_file_stem(p: Seq<char>) -> Option<Seq<char>>;

/// `Path::extension`: what follows the last `.` of the file name.
pub uninterp spec fn path_extension(p: Seq<char>) -> Option<Seq<char>>;

/// `Path::parent`: the path without its last component.
pub uninterp spec fn path_parent(p: Seq<char>) -> Option<Seq<char>>;

/// The text after the last `/` of `p` (all of `p` when it has none).
pub open spec fn last_segment(p: Seq<char>) -> Seq<char>
    decreases p.len(),
{
    if p.len() == 0 || p.last() == '/' {
        seq![]
    } else {
        last_segment(p.drop_last()).push(p.last())
    }
}

/// A name that is a normal path component: not empty, no `/`, and neither
/// `.` nor `..`.
pub open spec fn plain_name(n: Seq<char>) -> bool {
    &&& n.len() > 0
    &&& !n.contains('/')
    &&& n != seq!['.']
    &&& n != seq!['.', '.']
}

/// The index of the last `.` of `n`, or -1 when it has none.
pub open spec fn last_dot(n: Seq<char>) -> int
    decreases n.len(),
{
    if n.len() == 0 {
        -1
    } else if n.last() == '.' {
        n.len() - 1
    } else {
        last_dot(n.drop_last())
    }
}

/// The stem of a file name: the part before its last `.`, or the whole
/// name when it has no `.` or only one at its start.
pub open spec fn stem_part(n: Seq<char>) -> Seq<char> {
    if last_dot(n) <= 0 {
        n
    } else {
        n.take(last_dot(n))
    }
}

/// The extension of a file name: what follows its last `.`, when it has one
/// after its start.
pub open spec fn ext_part(n: Seq<char>) -> Option<Seq<char>> {
    if last_dot(n) <= 0 {
        None
    } else {
        Some(n.skip(last_dot(n) + 1))
    }
}

/// `Path::file_name` of the path `p`.
///
/// Trusted: std's answer depends on `p` alone (named `path_file_name`); the
/// name of a UTF-8 path is UTF-8, so converting it back loses nothing. std
/// documents the file name as the final component of the path when it is a
/// normal one, so when the text after the last `/` is a normal component
/// (not empty, not `.` or `..`), that text is the file name.
#[verifier::external_body]
pub(crate) fn file_name(p: &str) -> (r: Option<String>)
    ensures
        opt_view(r) == path_file_name(p@),
        plain_name(last_segment(p@)) ==> opt_view(r) == Some(last_segment(p@)),
{
    std::path::Path::new(p).file_name().and_then(|n| n.to_str()).map(|n| n.to_string())
}

/// `Path::file_stem` of the path `p`.
///
/// Trusted: std's answer depends on `p` alone (named `path_file_stem`); std
/// documents it, given the file name, as the whole name when it has no `.`
/// or begins with its only `.`, and otherwise the part before the final `.`;
/// the file name is the text after the last `/` when that is a normal
/// component (see `file_name`).
#[verifier::external_body]
pub(crate) fn file_stem(p: &str) -> (r: Option<String>)
    ensures
        opt_view(r) == path_file_stem(p@),
        opt_view(r) == match path_file_name(p@) {
            Some(n) => Some(stem_part(n)),
            None => None,
        },
        plain_name(last_segment(p@)) ==> opt_view(r) == Some(stem_part(last_segment(p@))),
{
    std::path::Path::new(p).file_stem().and_then(|n| n.to_str()).map(|n| n.to_string())
}

/// `Path::extension` of the path `p`.
///
/// Trusted: std's answer depends on `p` alone (named `path_extension`); std
/// documents it, given the file name, as none when the name has no `.` or
/// begins with its only `.`, and otherwise the part after the final `.`;
/// the file name is the text after the last `/` when that is a normal
/// component (see `file_name`).
#[verifier::external_body]
pub(crate) fn extension(p: &str) -> (r: Option<String>)
    ensures
        opt_view(r) == path_extension(p@),
        opt_view(r) == match path_file_name(p@) {
            Some(n) => ext_part(n),
            None => None,
        },
        plain_name(last_segment(p@)) ==> opt_view(r) == ext_part(last_segment(p@)),
{
    std::path::Path::new(p).extension().and_then(|n| n.to_str()).map(|n| n.to_string())
}

/// The last segment of a path joined from `base` and a name without `/`
/// is that name.
pub proof fn lemma_last_segment_join(base: Seq<char>, name: Seq<char>)
    requires
        name.len() > 0,
        !name.contains('/'),
    ensures
        last_segment(join_path(base, name)) == name,
{
    let j = join_path(base, name);
    assert(name[0] != '/') by {
        if name[0] == '/' {
            assert(name.contains('/'));
        }
    }
    let pre = if base.len() == 0 || base.last() == '/' {
        base
    } else {
        base + seq!['/']
    };
    assert(j == pre + name);
    lemma_last_segment_tail(pre, name);
}

proof fn lemma_last_segment_tail(pre: Seq<char>, name: Seq<char>)
    requires
        pre.len() == 0 || pre.last() == '/',
        !name.contains('/'),
    ensures
        last_segment(pre + name) == name,
    decreases name.len(),
{
    if name.len() == 0 {
        assert(pre + name =~= pre);
    } else {
        let d = name.drop_last();
        assert(!d.contains('/')) by {
            if d.contains('/') {
                let k = choose|k: int| 0 <= k < d.len() && d[k] == '/';
                assert(name[k] == '/');
            }
        }
        lemma_last_segment_tail(pre, d);
        assert((pre + name).drop_last() =~= pre + d);
        assert((pre + name).last() == name.last());
        assert(name.last() != '/') by {
            if name.last() == '/' {
                assert(name[name.len() - 1] == '/');
            }
        }
        assert(name =~= d.push(name.last()));
    }
}

/// The last `.` of `stem + "." + ext`, where neither part has a `.`, is
/// the one between them.
pub proof fn lemma_last_dot_ext(stem: Seq<char>, ext: Seq<char>)
    requires
        !ext.contains('.'),
    ensures
        last_dot(stem + seq!['.'] + ext) == stem.len(),
    decreases ext.len(),
{
    let n = stem + seq!['.'] + ext;
    if ext.len() == 0 {
        assert(n.last() == '.');
    } else {
        let d = ext.drop_last();
        assert(!d.contains('.')) by {
            if d.contains('.') {
                let k = choose|k: int| 0 <= k < d.len() && d[k] == '.';
                assert(ext[k] == '.');
            }
        }
        lemma_last_dot_ext(stem, d);
        assert(n.drop_last() =~= stem + seq!['.'] + d);
        assert(n.last() == ext.last());
        assert(ext.last() != '.') by {
            if ext.last() == '.' {
                assert(ext[ext.len() - 1] == '.');
            }
        }
    }
}

/// The text before the last `/` of `p` (what precedes its last segment and
/// the `/` in front of it).
pub open spec fn dir_part(p: Seq<char>) -> Seq<char> {
    p.take(p.len() - last_segment(p).len() - 1)
}

/// `Path::parent` of the path `p`.
///
/// Trusted: std's answer depends on `p` alone (named `path_parent`). std
/// documents the parent as the path without its final component; when the
/// path is `<dir>/<name>` with `<name>` a normal component and `<dir>` ending
/// in a normal component, that is the text `<dir>`.
#[verifier::external_body]
pub(crate) fn parent(p: &str) -> (r: Option<String>)
    ensures
        opt_view(r) == path_parent(p@),
        plain_name(last_segment(p@)) && p@.len() > last_segment(p@).len() && plain_name(
            last_segment(dir_part(p@)),
        ) ==> opt_view(r) == Some(dir_part(p@)),
{
    std::path::Path::new(p).parent().and_then(|n| n.to_str()).map(|n| n.to_string())
}

/// Joining a name behind a path that ends in a normal component puts the
/// name after a `/`: the path is then the directory part of the result.
pub proof fn lemma_dir_part_join(base: Seq<char>, name: Seq<char>)
    requires
        name.len() > 0,
        !name.contains('/'),
        plain_name(last_segment(base)),
    ensures
        last_segment(join_path(base, name)) == name,
        join_path(base, name).len() > name.len(),
        dir_part(join_path(base, name)) == base,
{
    lemma_last_segment_join(base, name);
    lemma_last_segment_of_plain(base);
    let j = join_path(base, name);
    assert(name[0] != '/') by {
        if name[0] == '/' {
            assert(name.contains('/'));
        }
    }
    assert(j == base + seq!['/'] + name);
    assert(j.take(j.len() - name.len() - 1) =~= base);
}

/// A path whose last segment is a normal component is not empty and does
/// not end in `/`.
proof fn lemma_last_segment_of_plain(p: Seq<char>)
    requires
        plain_name(last_segment(p)),
    ensures
        p.len() > 0,
        p.last() != '/',
{
    if p.len() == 0 || p.last() == '/' {
        assert(last_segment(p) =~= Seq::<char>::empty());
    }
}

} // verus!
