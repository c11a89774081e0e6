//! Paths as text, with `/` between segments.
//!
//! The functions here read a path as its characters alone: a segment is what
//! stands between two slashes, and nothing is looked up on disk.

use crate::text::{
    after_last, chars_of, find_last, holds_at, last_pos, lemma_last_pos, slice_chars,
    trim_start_char,
};
use vstd::prelude::*;
use vstd::string::StringExecFns;

verus! {

broadcast use vstd::string::group_string_axioms;

/// The directory that holds `path`: what comes before the last slash. A path
/// without a slash lies in the directory with the empty name, the empty path
/// in `.`, and a path whose only slash leads it in `/`.
pub open spec fn dir_of(path: Seq<char>) -> Seq<char> {
    let p = last_pos(path, '/');
    if path.len() == 0 {
        seq!['.']
    } else if p < 0 {
        Seq::empty()
    } else if p == 0 {
        seq!['/']
    } else {
        path.take(p)
    }
}

/// The last segment of `path`.
pub open spec fn last_segment(path: Seq<char>) -> Seq<char> {
    after_last(path, '/')
}

/// The name of the directory that holds `path`, empty where that directory
/// has no name of its own (the root, `.` and `..`).
pub open spec fn parent_name(path: Seq<char>) -> Seq<char> {
    let name = last_segment(dir_of(path));
    if name == seq!['.'] || name == seq!['.', '.'] {
        Seq::empty()
    } else {
        name
    }
}

/// The extension of the last segment of `path`: what follows its last dot,
/// unless the segment has no dot, or only a leading one, or is `..`.
pub open spec fn extension_of(path: Seq<char>) -> Option<Seq<char>> {
    let name = last_segment(path);
    let p = last_pos(name, '.');
    if p <= 0 || name == seq!['.', '.'] {
        None
    } else {
        Some(name.skip(p + 1))
    }
}

/// Whether a directory of this name is left out when sources are collected:
/// hidden ones, whose names begin with a dot, and those that hold vendored,
/// installed, built or fixture files. The segments `.` and `..` name no
/// directory of their own and are not hidden.
pub open spec fn is_excluded_segment(segment: Seq<char>) -> bool {
    ||| (segment.len() > 0 && segment[0] == '.' && segment != seq!['.'] && segment != seq![
        '.',
        '.',
    ])
    ||| segment == "vendor"@
    ||| segment == "node_modules"@
    ||| segment == "target"@
    ||| segment == "testdata"@
}

/// Whether some segment of `path` is left out.
pub open spec fn path_is_excluded(path: Seq<char>) -> bool
    decreases path.len(),
{
    let p = last_pos(path, '/');
    if p < 0 {
        is_excluded_segment(path)
    } else {
        proof {
            lemma_last_pos(path, '/');
        }
        is_excluded_segment(path.skip(p + 1)) || path_is_excluded(path.take(p))
    }
}

/// `path` as seen from `root`: where `path` lies under `root`, what follows
/// `root` and the slashes after it; else `path` itself.
pub open spec fn relative_to(path: Seq<char>, root: Seq<char>) -> Seq<char> {
    let rest = path.skip(root.len() as int);
    if root.len() > 0 && root.is_prefix_of(path) && (root.last() == '/' || rest.len() == 0 || rest[0]
        == '/') {
        trim_start_char(rest, '/')
    } else {
        path
    }
}

/// The directory that holds the file at `file_path`.
pub fn file_dir(file_path: &str) -> (out: String)
    ensures
        out@ == dir_of(file_path@),
{
    let cs = chars_of(file_path);
    if cs.len() == 0 {
        proof {
            reveal_strlit(".");
            assert("."@ =~= seq!['.']);
        }
        return String::from_str(".");
    }
    match find_last(&cs, '/') {
        None => String::new(),
        Some(p) => {
            if p == 0 {
                proof {
                    reveal_strlit("/");
                    assert("/"@ =~= seq!['/']);
                }
                String::from_str("/")
            } else {
                slice_chars(file_path, 0, p)
            }
        },
    }
}

/// The last segment of `path`.
pub fn base_name(path: &str) -> (out: String)
    ensures
        out@ == last_segment(path@),
{
    crate::text::text_after_last(path, '/')
}

/// The name of the directory that holds the file at `file_path`.
pub fn parent_dir_name(file_path: &str) -> (out: String)
    ensures
        out@ == parent_name(file_path@),
{
    let dir = file_dir(file_path);
    let name = base_name(dir.as_str());
    proof {
        reveal_strlit(".");
        reveal_strlit("..");
        assert("."@ =~= seq!['.']);
        assert(".."@ =~= seq!['.', '.']);
    }
    if crate::text::str_eq(name.as_str(), ".") || crate::text::str_eq(name.as_str(), "..") {
        String::new()
    } else {
        name
    }
}

/// The extension of the file at `path`, if it has one.
pub fn file_extension(path: &str) -> (out: Option<String>)
    ensures
        match out {
            Some(ext) => extension_of(path@) == Some(ext@),
            None => extension_of(path@) is None,
        },
{
    let name = base_name(path);
    let cs = chars_of(name.as_str());
    proof {
        reveal_strlit("..");
        assert(".."@ =~= seq!['.', '.']);
    }
    if crate::text::str_eq(name.as_str(), "..") {
        return None;
    }
    match find_last(&cs, '.') {
        None => None,
        Some(p) => {
            if p == 0 {
                None
            } else {
                assert(name@.skip(p + 1) =~= name@.subrange(p + 1, name@.len() as int));
                Some(slice_chars(name.as_str(), p + 1, cs.len()))
            }
        },
    }
}

/// Whether the characters `from..to` of `cs` spell `word`.
fn range_is(cs: &Vec<char>, from: usize, to: usize, word: &str) -> (yes: bool)
    requires
        from <= to <= cs.len(),
    ensures
        yes == (cs@.subrange(from as int, to as int) == word@),
{
    let ws = chars_of(word);
    if ws.len() != to - from {
        return false;
    }
    holds_at(cs, from, &ws)
}

/// Whether the characters `from..to` of `cs` name a directory that is left out.
fn range_is_excluded(cs: &Vec<char>, from: usize, to: usize) -> (yes: bool)
    requires
        from <= to <= cs.len(),
    ensures
        yes == is_excluded_segment(cs@.subrange(from as int, to as int)),
{
    proof {
        reveal_strlit(".");
        reveal_strlit("..");
        assert("."@ =~= seq!['.']);
        assert(".."@ =~= seq!['.', '.']);
    }
    if from < to && cs[from] == '.' && !range_is(cs, from, to, ".") && !range_is(cs, from, to, "..") {
        return true;
    }
    range_is(cs, from, to, "vendor") || range_is(cs, from, to, "node_modules") || range_is(
        cs,
        from,
        to,
        "target",
    ) || range_is(cs, from, to, "testdata")
}

/// Whether some segment of `path` names a directory that is left out.
pub fn is_excluded_path(path: &str) -> (yes: bool)
    ensures
        yes == path_is_excluded(path@),
{
    let cs = chars_of(path);
    let mut hi: usize = cs.len();
    assert(cs@.take(hi as int) =~= cs@);
    loop
        invariant
            hi <= cs.len(),
            cs@ == path@,
            path_is_excluded(path@) == path_is_excluded(cs@.take(hi as int)),
        decreases hi,
    {
        let ghost prefix = cs@.take(hi as int);
        // the last slash before `hi`
        let mut p: usize = hi;
        assert(prefix.take(prefix.len() as int) =~= prefix);
        while p > 0 && cs[p - 1] != '/'
            invariant
                p <= hi <= cs.len(),
                prefix == cs@.take(hi as int),
                last_pos(prefix, '/') == last_pos(prefix.take(p as int), '/'),
            decreases p,
        {
            assert(prefix.take(p as int).drop_last() =~= prefix.take(p - 1));
            p -= 1;
        }
        if p == 0 {
            assert(prefix.take(0).len() == 0);
            assert(prefix =~= cs@.subrange(0, hi as int));
            return range_is_excluded(&cs, 0, hi);
        }
        assert(last_pos(prefix, '/') == p - 1);
        assert(prefix.skip(p as int) =~= cs@.subrange(p as int, hi as int));
        if range_is_excluded(&cs, p, hi) {
            return true;
        }
        assert(prefix.take(p - 1) =~= cs@.take(p - 1));
        hi = p - 1;
    }
}

/// `path` as seen from `root`.
pub fn relative_path(path: &str, root: &str) -> (out: String)
    ensures
        out@ == relative_to(path@, root@),
{
    let cs = chars_of(path);
    let rs = chars_of(root);
    if rs.len() == 0 || !holds_at(&cs, 0, &rs) {
        proof {
            if root@.len() > 0 && root@.is_prefix_of(path@) {
                assert(path@.subrange(0, root@.len() as int) =~= root@);
            }
        }
        return String::from_str(path);
    }
    assert(root@.is_prefix_of(path@)) by {
        assert(path@.subrange(0, root@.len() as int) =~= path@.take(root@.len() as int));
    }
    let n = rs.len();
    if rs[n - 1] == '/' || cs.len() == n || cs[n] == '/' {
        let rest = slice_chars(path, n, cs.len());
        assert(rest@ =~= path@.skip(n as int));
        crate::text::text_trim_start_char(rest.as_str(), '/')
    } else {
        String::from_str(path)
    }
}

} // verus!
