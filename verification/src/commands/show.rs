//! `show`: print a memo's contents, undecorated.
use vstd::prelude::*;
use crate::memo;
use crate::text;

verus! {

/// The text printed for a memo with `content`: the content, or with
/// `no_frontmatter` its body, ended by a newline.
pub open spec fn shown(content: Seq<char>, no_frontmatter: bool) -> Seq<char> {
    let body = if no_frontmatter {
        memo::strip_frontmatter_spec(content)
    } else {
        content
    };
    if body.len() > 0 && body.last() == '\n' {
        body
    } else {
        body.push('\n')
    }
}

/// What `show` prints for the resolved memo, whose file holds `content`.
pub fn run(content: &str, no_frontmatter: bool) -> (r: String)
    ensures
        r@ == shown(content@, no_frontmatter),
{
    let body = if no_frontmatter {
        memo::strip_frontmatter(content)
    } else {
        content
    };
    let mut v = text::chars_of(body);
    if v.len() == 0 || v[v.len() - 1] != '\n' {
        v.push('\n');
    }
    text::string_from_chars(v.as_slice())
}

} // verus!
