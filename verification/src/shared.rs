//! Machinery shared by the two dialects: the `Parsed` record, character
//! vector conversions, and the verified segment splitter, `.`/`..` resolver
//! and joiner that `normalize`, `join` and `resolve` are built from.

use vstd::prelude::*;
use vstd::string::StrSliceExecFns;

use crate::model::{
    dot_seg, dotdot_seg, dots_step, is_sep, join_segments, normalized_body, resolve_dots,
    seg_scan, segments,
};

verus! {

/// The structural decomposition of a path string: its dialect root, its
/// directory part, its final component, and that component split into stem
/// and extension. `base` is always `name` followed by `ext`.
#[derive(Debug, Clone, PartialEq, Eq)]
pub struct Parsed {
    pub dir: String,
    pub root: String,
    pub base: String,
    pub name: String,
    pub ext: String,
}

impl Default for Parsed {
    /// All five fields empty.
    fn default() -> (r: Self)
        ensures
            r.dir@ == Seq::<char>::empty(),
            r.root@ == Seq::<char>::empty(),
            r.base@ == Seq::<char>::empty(),
            r.name@ == Seq::<char>::empty(),
            r.ext@ == Seq::<char>::empty(),
    {
        Parsed {
            dir: String::new(),
            root: String::new(),
            base: String::new(),
            name: String::new(),
            ext: String::new(),
        }
    }
}

/// Whether a character is a separator of the POSIX dialect.
pub fn is_posix_path_separator(code: char) -> (r: bool)
    ensures
        r == is_sep(code, false),
{
    code == '/'
}

/// Whether a character is a separator of the drive/UNC dialect.
pub fn is_path_separator(code: char) -> (r: bool)
    ensures
        r == is_sep(code, true),
{
    code == '/' || code == '\\'
}

/// Whether a string is empty.
pub fn is_empty(s: &str) -> (r: bool)
    ensures
        r == (s@.len() == 0),
{
    s.unicode_len() == 0
}

/// The characters of a string, in order.
pub fn chars_of(s: &str) -> (r: Vec<char>)
    ensures
        r@ == s@,
{
    let n = s.unicode_len();
    let mut r: Vec<char> = Vec::new();
    let mut i: usize = 0;
    while i < n
        invariant
            n == s@.len(),
            i <= n,
            r@ == s@.take(i as int),
        decreases n - i,
    {
        r.push(s.get_char(i));
        i = i + 1;
        proof {
            assert(s@.take(i as int) =~= s@.take(i as int - 1).push(s@[i as int - 1]));
        }
    }
    proof {
        assert(s@.take(n as int) =~= s@);
    }
    r
}

/// Relies on `String`'s `FromIterator` impl, through `Iterator::collect`:
/// the returned string holds exactly the given characters, in order.
#[verifier::external_body]
pub fn string_from_chars(v: Vec<char>) -> (r: String)
    ensures
        r@ == v@,
{
    v.into_iter().collect()
}

/// A copy of a character vector.
pub fn clone_chars(v: &Vec<char>) -> (r: Vec<char>)
    ensures
        r@ == v@,
{
    let r = v.clone();
    proof {
        assert(r@ =~= v@);
    }
    r
}

/// The characters of `v` in positions `[from, to)`.
pub fn sub_chars(v: &Vec<char>, from: usize, to: usize) -> (r: Vec<char>)
    requires
        from <= to <= v@.len(),
    ensures
        r@ == v@.subrange(from as int, to as int),
{
    let mut r: Vec<char> = Vec::new();
    let mut i: usize = from;
    while i < to
        invariant
            from <= i <= to <= v@.len(),
            r@ == v@.subrange(from as int, i as int),
        decreases to - i,
    {
        r.push(v[i]);
        i = i + 1;
        proof {
            assert(v@.subrange(from as int, i as int) =~= v@.subrange(
                from as int,
                i as int - 1,
            ).push(v@[i as int - 1]));
        }
    }
    r
}

/// Whether a segment is exactly `.`.
fn is_dot_segment(seg: &Vec<char>) -> (r: bool)
    ensures
        r == (seg@ == dot_seg()),
{
    let r = seg.len() == 1 && seg[0] == '.';
    proof {
        if r {
            assert(seg@ =~= dot_seg());
        }
    }
    r
}

/// Whether a segment is exactly `..`.
fn is_dotdot_segment(seg: &Vec<char>) -> (r: bool)
    ensures
        r == (seg@ == dotdot_seg()),
{
    let r = seg.len() == 2 && seg[0] == '.' && seg[1] == '.';
    proof {
        if r {
            assert(seg@ =~= dotdot_seg());
        }
    }
    r
}

/// The non-empty separator-delimited segments of a character vector.
pub fn split_segments(v: &Vec<char>, windows: bool) -> (r: Vec<Vec<char>>)
    ensures
        r.deep_view() == segments(v@, windows),
{
    let mut done: Vec<Vec<char>> = Vec::new();
    let mut pending: Vec<char> = Vec::new();
    let mut i: usize = 0;
    while i < v.len()
        invariant
            i <= v@.len(),
            done.deep_view() == seg_scan(v@.take(i as int), windows).0,
            pending@ == seg_scan(v@.take(i as int), windows).1,
        decreases v@.len() - i,
    {
        let ghost prev = v@.take(i as int);
        let c = v[i];
        let c_is_sep = if windows {
            is_path_separator(c)
        } else {
            is_posix_path_separator(c)
        };
        if c_is_sep {
            if pending.len() > 0 {
                let ghost old_done = done.deep_view();
                done.push(pending);
                pending = Vec::new();
                proof {
                    assert(done.deep_view() =~~= old_done.push(seg_scan(prev, windows).1));
                }
            }
        } else {
            pending.push(c);
        }
        i = i + 1;
        proof {
            assert(v@.take(i as int).drop_last() =~= prev);
            assert(v@.take(i as int).last() == c);
        }
    }
    proof {
        assert(v@.take(v@.len() as int) =~= v@);
    }
    if pending.len() > 0 {
        let ghost old_done = done.deep_view();
        done.push(pending);
        proof {
            assert(done.deep_view() =~~= old_done.push(seg_scan(v@, windows).1));
        }
    }
    done
}

/// `.`/`..` resolution folded over a segment list.
pub fn apply_dot_segments(segs: &Vec<Vec<char>>, allow_above: bool) -> (r: Vec<Vec<char>>)
    ensures
        r.deep_view() == resolve_dots(segs.deep_view(), allow_above),
{
    let mut stack: Vec<Vec<char>> = Vec::new();
    let mut i: usize = 0;
    while i < segs.len()
        invariant
            i <= segs@.len(),
            stack.deep_view() == resolve_dots(
                segs.deep_view().take(i as int),
                allow_above,
            ),
        decreases segs@.len() - i,
    {
        let ghost prev_stack = stack.deep_view();
        let ghost prev_segs = segs.deep_view().take(i as int);
        let seg = &segs[i];
        if is_dot_segment(seg) {
            // dropped
        } else if is_dotdot_segment(seg) {
            proof {
                if stack@.len() > 0 {
                    assert(prev_stack.last() =~= stack@[stack@.len() - 1]@);
                }
            }
            let keep = stack.len() > 0 && !is_dotdot_segment(&stack[stack.len() - 1]);
            if keep {
                stack.pop();
                proof {
                    assert(stack.deep_view() =~~= prev_stack.drop_last());
                }
            } else if allow_above {
                let copy = clone_chars(seg);
                let ghost old_stack = stack.deep_view();
                stack.push(copy);
                proof {
                    assert(stack.deep_view() =~~= old_stack.push(seg@));
                }
            }
        } else {
            let copy = clone_chars(seg);
            let ghost old_stack = stack.deep_view();
            stack.push(copy);
            proof {
                assert(stack.deep_view() =~~= old_stack.push(seg@));
            }
        }
        i = i + 1;
        proof {
            assert(segs.deep_view().take(i as int).drop_last() =~= prev_segs);
            assert(segs.deep_view().take(i as int).last() == seg@);
            assert(stack.deep_view() == dots_step(prev_stack, seg@, allow_above));
        }
    }
    proof {
        assert(segs.deep_view().take(segs@.len() as int) =~~= segs.deep_view());
    }
    stack
}

/// The segments joined with a single separator character.
pub fn join_with(segs: &Vec<Vec<char>>, sep_char: char) -> (r: Vec<char>)
    ensures
        r@ == join_segments(segs.deep_view(), sep_char),
{
    let mut out: Vec<char> = Vec::new();
    let mut i: usize = 0;
    while i < segs.len()
        invariant
            i <= segs@.len(),
            out@ == join_segments(segs.deep_view().take(i as int), sep_char),
        decreases segs@.len() - i,
    {
        let ghost prev = segs.deep_view().take(i as int);
        let ghost before = out@;
        if i > 0 {
            out.push(sep_char);
        }
        let seg = &segs[i];
        let mut j: usize = 0;
        while j < seg.len()
            invariant
                j <= seg@.len(),
                out@ == (if i > 0 {
                    before + seq![sep_char]
                } else {
                    before
                }) + seg@.take(j as int),
            decreases seg@.len() - j,
        {
            out.push(seg[j]);
            j = j + 1;
            proof {
                assert(seg@.take(j as int) =~= seg@.take(j as int - 1).push(
                    seg@[j as int - 1],
                ));
                assert((if i > 0 {
                    before + seq![sep_char]
                } else {
                    before
                }) + seg@.take(j as int) =~= (if i > 0 {
                    before + seq![sep_char]
                } else {
                    before
                }) + seg@.take(j as int - 1) + seq![seg@[j as int - 1]]);
            }
        }
        i = i + 1;
        proof {
            assert(seg@.take(seg@.len() as int) =~= seg@);
            let cur = segs.deep_view().take(i as int);
            assert(cur.drop_last() =~= prev);
            assert(cur.last() == seg@);
            if i == 1 {
                assert(out@ =~= join_segments(cur, sep_char));
            } else {
                assert(out@ =~= join_segments(prev, sep_char) + seq![sep_char] + seg@);
            }
        }
    }
    proof {
        assert(segs.deep_view().take(segs@.len() as int) =~~= segs.deep_view());
    }
    out
}

/// The segment-normalised form of a path string: its non-empty segments
/// with `.` and `..` resolved, joined by the canonical separator. The
/// result carries no root and no trailing separator; callers restore those.
pub fn normalize_string(path: &str, allow_above_root: bool, separator: char, windows: bool) -> (r:
    String)
    ensures
        r@ == normalized_body(path@, allow_above_root, separator, windows),
{
    let v = chars_of(path);
    let segs = split_segments(&v, windows);
    let stack = apply_dot_segments(&segs, allow_above_root);
    let joined = join_with(&stack, separator);
    string_from_chars(joined)
}

/// What `format` reconstructs from a `Parsed` record: the directory part
/// (or, failing that, the root), then the final component (or, failing
/// that, the stem and extension), with a separator inserted between the two
/// unless the directory part is empty or is exactly the root.
pub open spec fn format_spec(
    dir: Seq<char>,
    root: Seq<char>,
    base: Seq<char>,
    name: Seq<char>,
    ext: Seq<char>,
    sep_char: char,
) -> Seq<char> {
    let d = if dir.len() > 0 {
        dir
    } else {
        root
    };
    let b = if base.len() > 0 {
        base
    } else {
        name + ext
    };
    if d.len() == 0 {
        b
    } else if d == root {
        d + b
    } else {
        d + seq![sep_char] + b
    }
}

/// Rebuilds a path string from a `Parsed` record with the given separator.
pub fn format_inner(sep_str: char, path_object: &Parsed) -> (r: String)
    ensures
        r@ == format_spec(
            path_object.dir@,
            path_object.root@,
            path_object.base@,
            path_object.name@,
            path_object.ext@,
            sep_str,
        ),
{
    let root = chars_of(path_object.root.as_str());
    let dir = if !is_empty(path_object.dir.as_str()) {
        chars_of(path_object.dir.as_str())
    } else {
        chars_of(path_object.root.as_str())
    };
    let base = if !is_empty(path_object.base.as_str()) {
        chars_of(path_object.base.as_str())
    } else {
        let mut b = chars_of(path_object.name.as_str());
        let mut e = chars_of(path_object.ext.as_str());
        b.append(&mut e);
        b
    };
    let mut out: Vec<char> = Vec::new();
    if dir.len() == 0 {
        out = base;
    } else {
        let mut d = dir;
        let same = eq_chars(&d, &root);
        out.append(&mut d);
        if !same {
            out.push(sep_str);
        }
        let mut b = base;
        out.append(&mut b);
    }
    string_from_chars(out)
}

/// An element of the deep view of a segment vector is the view of that
/// element.
pub proof fn lemma_deep_elem(v: &Vec<Vec<char>>, i: int)
    requires
        0 <= i < v@.len(),
    ensures
        v.deep_view()[i] == v@[i]@,
{
    assert(v.deep_view()[i] =~= v@[i]@);
}

/// Whether two character vectors hold the same characters.
pub fn eq_chars(a: &Vec<char>, b: &Vec<char>) -> (r: bool)
    ensures
        r == (a@ == b@),
{
    if a.len() != b.len() {
        proof {
            assert(a@.len() != b@.len());
        }
        return false;
    }
    let mut i: usize = 0;
    while i < a.len()
        invariant
            i <= a@.len(),
            a@.len() == b@.len(),
            forall|k: int| 0 <= k < i ==> a@[k] == b@[k],
        decreases a@.len() - i,
    {
        if a[i] != b[i] {
            return false;
        }
        i = i + 1;
    }
    proof {
        assert(a@ =~= b@);
    }
    true
}

} // verus!
