//! Splitting a path into the directory that holds it and its base name.
//!
//! A path's parent is everything before its last `/`; its base name is
//! everything after. A path with no `/` at all has no parent.

use vstd::prelude::*;
use vstd::string::*;

verus! {

/// Index of the last `/` in `s`, or `-1` when `s` has none.
pub open spec fn last_slash(s: Seq<char>) -> int
    decreases s.len(),
{
    if s.len() == 0 {
        -1
    } else if s[s.len() - 1] == '/' {
        s.len() - 1
    } else {
        last_slash(s.drop_last())
    }
}

/// Whether `s` names a location inside some directory.
pub open spec fn has_parent(s: Seq<char>) -> bool {
    last_slash(s) >= 0
}

/// The directory part of `s`: everything before the last `/`.
pub open spec fn parent_of(s: Seq<char>) -> Seq<char>
    recommends
        has_parent(s),
{
    s.subrange(0, last_slash(s))
}

/// The base name of `s`: everything after the last `/`.
pub open spec fn base_name_of(s: Seq<char>) -> Seq<char>
    recommends
        has_parent(s),
{
    s.subrange(last_slash(s) + 1, s.len() as int)
}

/// Whether `p` names a location directly inside the directory `d`.
pub open spec fn is_child(p: Seq<char>, d: Seq<char>) -> bool {
    has_parent(p) && parent_of(p) == d
}

/// The base name of `entry` when `entry` lies directly in `dir`.
pub fn child_base(entry: &str, dir: &String) -> (r: Option<String>)
    ensures
        match r {
            Some(n) => is_child(entry@, dir@) && n@ == base_name_of(entry@),
            None => !is_child(entry@, dir@),
        },
{
    match split_path(entry) {
        Some((parent, name)) => {
            if parent == *dir {
                Some(name)
            } else {
                None
            }
        },
        None => None,
    }
}

/// Splits `path` into its parent directory and base name, or reports that
/// it has no parent.
pub fn split_path(path: &str) -> (r: Option<(String, String)>)
    ensures
        match r {
            Some(parts) => {
                &&& has_parent(path@)
                &&& parts.0@ == parent_of(path@)
                &&& parts.1@ == base_name_of(path@)
            },
            None => !has_parent(path@),
        },
{
    let n = path.unicode_len();
    let mut i: usize = 0;
    let mut last: Option<usize> = None;
    while i < n
        invariant
            i <= n,
            n == path@.len(),
            match last {
                Some(k) => k < i && last_slash(path@.take(i as int)) == k as int,
                None => last_slash(path@.take(i as int)) == -1,
            },
        decreases n - i,
    {
        let c = path.get_char(i);
        proof {
            assert(path@.take(i + 1).drop_last() =~= path@.take(i as int));
            assert(path@.take(i + 1).last() == path@[i as int]);
        }
        if c == '/' {
            last = Some(i);
        }
        i = i + 1;
    }
    proof {
        assert(path@.take(n as int) =~= path@);
    }
    match last {
        Some(k) => {
            let dir = path.substring_char(0, k).to_owned();
            let name = path.substring_char(k + 1, n).to_owned();
            Some((dir, name))
        },
        None => None,
    }
}

} // verus!
