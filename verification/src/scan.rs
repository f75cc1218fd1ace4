//! Index-level scans over a path's characters: the boundaries that the
//! backward-scanning decomposition of `parse`, `dirname` and `basename`
//! is defined by, as spec functions, with verified loops that compute them.

use vstd::prelude::*;

use crate::model::is_sep;

verus! {

/// One past the last non-separator character of `s` within `[lo, hi)`,
/// or `-1` when that range holds only separators.
pub open spec fn content_end(s: Seq<char>, lo: int, hi: int, windows: bool) -> int
    recommends
        0 <= lo,
        hi <= s.len(),
    decreases hi - lo,
{
    if hi <= lo {
        -1
    } else if !is_sep(s[hi - 1], windows) {
        hi
    } else {
        content_end(s, lo, hi - 1, windows)
    }
}

/// The index of the last separator of `s` within `[lo, hi)`, or `-1`.
pub open spec fn last_sep(s: Seq<char>, lo: int, hi: int, windows: bool) -> int
    recommends
        0 <= lo,
        hi <= s.len(),
    decreases hi - lo,
{
    if hi <= lo {
        -1
    } else if is_sep(s[hi - 1], windows) {
        hi - 1
    } else {
        last_sep(s, lo, hi - 1, windows)
    }
}

/// The index of the last `.` of `s` within `[lo, hi)`, or `-1`.
pub open spec fn last_dot(s: Seq<char>, lo: int, hi: int) -> int
    recommends
        0 <= lo,
        hi <= s.len(),
    decreases hi - lo,
{
    if hi <= lo {
        -1
    } else if s[hi - 1] == '.' {
        hi - 1
    } else {
        last_dot(s, lo, hi - 1)
    }
}

/// The index of the first separator of `s` at or after `i`, or `s.len()`.
pub open spec fn first_sep(s: Seq<char>, i: int, windows: bool) -> int
    recommends
        0 <= i <= s.len(),
    decreases s.len() - i,
{
    if i >= s.len() {
        s.len() as int
    } else if is_sep(s[i], windows) {
        i
    } else {
        first_sep(s, i + 1, windows)
    }
}

/// The index of the first non-separator of `s` at or after `i`, or `s.len()`.
pub open spec fn first_non_sep(s: Seq<char>, i: int, windows: bool) -> int
    recommends
        0 <= i <= s.len(),
    decreases s.len() - i,
{
    if i >= s.len() {
        s.len() as int
    } else if !is_sep(s[i], windows) {
        i
    } else {
        first_non_sep(s, i + 1, windows)
    }
}

/// Computes `content_end` over `[lo, v.len())`.
pub fn scan_content_end(v: &Vec<char>, lo: usize, windows: bool) -> (e: Option<usize>)
    requires
        lo <= v@.len(),
    ensures
        match e {
            Some(x) => content_end(v@, lo as int, v@.len() as int, windows) == x && lo < x
                <= v@.len(),
            None => content_end(v@, lo as int, v@.len() as int, windows) == -1,
        },
{
    let mut i: usize = v.len();
    while i > lo
        invariant
            lo <= i <= v@.len(),
            content_end(v@, lo as int, v@.len() as int, windows) == content_end(
                v@,
                lo as int,
                i as int,
                windows,
            ),
        decreases i,
    {
        let c = v[i - 1];
        if !(c == '/' || (windows && c == '\\')) {
            return Some(i);
        }
        i = i - 1;
    }
    None
}

/// Computes `last_sep` over `[lo, hi)`.
pub fn scan_last_sep(v: &Vec<char>, lo: usize, hi: usize, windows: bool) -> (e: Option<usize>)
    requires
        lo <= hi <= v@.len(),
    ensures
        match e {
            Some(x) => last_sep(v@, lo as int, hi as int, windows) == x && lo <= x < hi,
            None => last_sep(v@, lo as int, hi as int, windows) == -1,
        },
{
    let mut i: usize = hi;
    while i > lo
        invariant
            lo <= i <= hi <= v@.len(),
            last_sep(v@, lo as int, hi as int, windows) == last_sep(
                v@,
                lo as int,
                i as int,
                windows,
            ),
        decreases i,
    {
        let c = v[i - 1];
        if c == '/' || (windows && c == '\\') {
            return Some(i - 1);
        }
        i = i - 1;
    }
    None
}

/// Computes `last_dot` over `[lo, hi)`.
pub fn scan_last_dot(v: &Vec<char>, lo: usize, hi: usize) -> (e: Option<usize>)
    requires
        lo <= hi <= v@.len(),
    ensures
        match e {
            Some(x) => last_dot(v@, lo as int, hi as int) == x && lo <= x < hi,
            None => last_dot(v@, lo as int, hi as int) == -1,
        },
{
    let mut i: usize = hi;
    while i > lo
        invariant
            lo <= i <= hi <= v@.len(),
            last_dot(v@, lo as int, hi as int) == last_dot(v@, lo as int, i as int),
        decreases i,
    {
        if v[i - 1] == '.' {
            return Some(i - 1);
        }
        i = i - 1;
    }
    None
}

/// Computes `first_sep` at or after `i`.
pub fn scan_first_sep(v: &Vec<char>, from: usize, windows: bool) -> (e: usize)
    requires
        from <= v@.len(),
    ensures
        first_sep(v@, from as int, windows) == e,
        from <= e <= v@.len(),
{
    let mut i: usize = from;
    while i < v.len()
        invariant
            from <= i <= v@.len(),
            first_sep(v@, from as int, windows) == first_sep(v@, i as int, windows),
        decreases v@.len() - i,
    {
        let c = v[i];
        if c == '/' || (windows && c == '\\') {
            return i;
        }
        i = i + 1;
    }
    i
}

/// Computes `first_non_sep` at or after `i`.
pub fn scan_first_non_sep(v: &Vec<char>, from: usize, windows: bool) -> (e: usize)
    requires
        from <= v@.len(),
    ensures
        first_non_sep(v@, from as int, windows) == e,
        from <= e <= v@.len(),
{
    let mut i: usize = from;
    while i < v.len()
        invariant
            from <= i <= v@.len(),
            first_non_sep(v@, from as int, windows) == first_non_sep(v@, i as int, windows),
        decreases v@.len() - i,
    {
        let c = v[i];
        if !(c == '/' || (windows && c == '\\')) {
            return i;
        }
        i = i + 1;
    }
    i
}

} // verus!
