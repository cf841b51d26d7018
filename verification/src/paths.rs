//! Paths held as strings: joining as `PathBuf::push` does, and the parts of
//! `std::path` (file name, prefix stripping) the library relies on.
use vstd::prelude::*;
use crate::text::{append_chars, chars_of, string_of};

verus! {

/// `PathBuf::join(seg)`: an absolute `seg` replaces the base; otherwise a
/// `/` is put between a non-empty base that does not end in `/` and `seg`.
pub open spec fn path_join_spec(base: Seq<char>, seg: Seq<char>) -> Seq<char> {
    if seg.len() > 0 && seg[0] == '/' {
        seg
    } else if base.len() == 0 || base.last() == '/' {
        base + seg
    } else {
        base + seq!['/'] + seg
    }
}

/// What `Path::file_name` returns for a path: its last normal component.
pub uninterp spec fn file_name_of(path: Seq<char>) -> Option<Seq<char>>;

/// What `Path::strip_prefix(base)` returns: the rest of `path` after the
/// components of `base`, when `base` is a prefix of it.
pub uninterp spec fn strip_prefix_of(path: Seq<char>, base: Seq<char>) -> Option<Seq<char>>;

/// What `Path::parent` returns for a path: the path without its last
/// component, if it has one.
pub uninterp spec fn parent_of(path: Seq<char>) -> Option<Seq<char>>;

/// What `Path::extension` returns for a path: the part of its file name after
/// the last `.`, if there is one that does not start the name.
pub uninterp spec fn extension_of(path: Seq<char>) -> Option<Seq<char>>;

/// `Path::extension`, as a string; its result is named `extension_of`.
#[verifier::external_body]
pub(crate) fn extension(path: &str) -> (r: Option<String>)
    ensures
        match r {
            Some(e) => extension_of(path@) == Some(e@),
            None => extension_of(path@) is None,
        },
{
    std::path::Path::new(path).extension().map(|e| e.to_string_lossy().to_string())
}

/// `Path::parent`, as a string; its result is named `parent_of`.
#[verifier::external_body]
pub(crate) fn parent_path(path: &str) -> (r: Option<String>)
    ensures
        match r {
            Some(p) => parent_of(path@) == Some(p@),
            None => parent_of(path@) is None,
        },
{
    std::path::Path::new(path).parent().map(|p| p.to_string_lossy().to_string())
}

/// `Path::file_name`, as a string; its result is named `file_name_of`.
#[verifier::external_body]
pub(crate) fn file_name(path: &str) -> (r: Option<String>)
    ensures
        match r {
            Some(n) => file_name_of(path@) == Some(n@),
            None => file_name_of(path@) is None,
        },
{
    std::path::Path::new(path).file_name().map(|n| n.to_string_lossy().to_string())
}

/// `Path::strip_prefix`, as a string; its result is named `strip_prefix_of`.
#[verifier::external_body]
pub(crate) fn strip_prefix(path: &str, base: &str) -> (r: Option<String>)
    ensures
        match r {
            Some(n) => strip_prefix_of(path@, base@) == Some(n@),
            None => strip_prefix_of(path@, base@) is None,
        },
{
    std::path::Path::new(path).strip_prefix(base).ok().map(|p| p.to_string_lossy().to_string())
}

/// `base.join(seg)` on paths held as strings.
pub fn path_join(base: &str, seg: &str) -> (r: String)
    ensures
        r@ == path_join_spec(base@, seg@),
{
    let b = chars_of(base);
    let s = chars_of(seg);
    if s.len() > 0 && s[0] == '/' {
        return string_of(s.as_slice());
    }
    let mut out = b;
    if out.len() > 0 && out[out.len() - 1] != '/' {
        out.push('/');
    }
    append_chars(&mut out, s.as_slice());
    string_of(out.as_slice())
}

/// The relative display of `path` under `root`: the rest after the root, or
/// the path itself when it is not under the root.
pub open spec fn relative_display(path: Seq<char>, root: Seq<char>) -> Seq<char> {
    match strip_prefix_of(path, root) {
        Some(rest) => rest,
        None => path,
    }
}

/// `path.strip_prefix(root).unwrap_or(path)`, displayed.
pub fn display_relative(path: &str, root: &str) -> (r: String)
    ensures
        r@ == relative_display(path@, root@),
{
    match strip_prefix(path, root) {
        Some(rest) => rest,
        None => string_of(chars_of(path).as_slice()),
    }
}

} // verus!
