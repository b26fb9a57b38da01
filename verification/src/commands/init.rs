//! `init`: create the configuration file.
use vstd::prelude::*;
use crate::error::StplError;
use crate::text;

verus! {

/// `created config at <path>`.
pub open spec fn created_notice(path: Seq<char>) -> Seq<char> {
    "created config at "@ + path
}

/// The outcome of `init` for the configuration file at `path`: refused with
/// `ConfigExists` when the file already exists, else the report that it was
/// created (with the default configuration).
pub fn run(path: &str, exists: bool) -> (r: Result<String, StplError>)
    ensures
        exists ==> (r matches Err(e) && (e matches StplError::ConfigExists(p) && p@ == path@)),
        !exists ==> (r matches Ok(m) && m@ == created_notice(path@)),
{
    if exists {
        return Err(StplError::ConfigExists(path.to_string()));
    }
    let mut v: Vec<char> = Vec::new();
    text::push_str(&mut v, "created config at ");
    text::push_str(&mut v, path);
    Ok(text::string_from_chars(v.as_slice()))
}

} // verus!
