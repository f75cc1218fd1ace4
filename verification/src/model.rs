//! The mathematical model that the contracts speak of: a path string is a
//! `Seq<char>`, its separator-delimited non-empty segments are a
//! `Seq<Seq<char>>`, and normalisation is a fold of a `.`/`..` rule over
//! those segments.

use vstd::prelude::*;

verus! {

/// Separator test for the two dialects: the POSIX dialect recognises only
/// `/`, the drive/UNC dialect recognises both `/` and `\`.
pub open spec fn is_sep(c: char, windows: bool) -> bool {
    c == '/' || (windows && c == '\\')
}

/// A path is absolute in the POSIX dialect when its first character is `/`.
pub open spec fn is_abs_posix(s: Seq<char>) -> bool {
    s.len() > 0 && s[0] == '/'
}

/// The single-segment path `.`.
pub open spec fn dot_seg() -> Seq<char> {
    seq!['.']
}

/// The single-segment path `..`.
pub open spec fn dotdot_seg() -> Seq<char> {
    seq!['.', '.']
}

/// One character of a left-to-right segment scan: a separator closes the
/// pending segment when it is non-empty; any other character extends it.
pub open spec fn scan_step(
    st: (Seq<Seq<char>>, Seq<char>),
    c: char,
    windows: bool,
) -> (Seq<Seq<char>>, Seq<char>) {
    if is_sep(c, windows) {
        if st.1.len() > 0 {
            (st.0.push(st.1), Seq::empty())
        } else {
            (st.0, Seq::empty())
        }
    } else {
        (st.0, st.1.push(c))
    }
}

/// State of a left-to-right segment scan over a path string: the non-empty
/// segments completed so far, and the pending characters of the segment
/// currently open (empty when the last character seen was a separator).
pub open spec fn seg_scan(s: Seq<char>, windows: bool) -> (Seq<Seq<char>>, Seq<char>)
    decreases s.len(),
{
    if s.len() == 0 {
        (Seq::empty(), Seq::empty())
    } else {
        scan_step(seg_scan(s.drop_last(), windows), s.last(), windows)
    }
}

/// The segment scan continued over further characters from a given state.
pub open spec fn scan_onto(
    st: (Seq<Seq<char>>, Seq<char>),
    s: Seq<char>,
    windows: bool,
) -> (Seq<Seq<char>>, Seq<char>)
    decreases s.len(),
{
    if s.len() == 0 {
        st
    } else {
        scan_step(scan_onto(st, s.drop_last(), windows), s.last(), windows)
    }
}

/// The non-empty separator-delimited segments of a path string, in order.
pub open spec fn segments(s: Seq<char>, windows: bool) -> Seq<Seq<char>> {
    let (done, pending) = seg_scan(s, windows);
    if pending.len() > 0 {
        done.push(pending)
    } else {
        done
    }
}

/// One step of `.`/`..` resolution: `.` is dropped; `..` cancels the last
/// kept segment when there is one that is itself not a literal `..`, is kept
/// literally when climbing above the start is allowed, and is dropped
/// otherwise; any other segment is kept.
pub open spec fn dots_step(stack: Seq<Seq<char>>, seg: Seq<char>, allow_above: bool) -> Seq<
    Seq<char>,
> {
    if seg == dot_seg() {
        stack
    } else if seg == dotdot_seg() {
        if stack.len() > 0 && stack.last() != dotdot_seg() {
            stack.drop_last()
        } else if allow_above {
            stack.push(seg)
        } else {
            stack
        }
    } else {
        stack.push(seg)
    }
}

/// `dots_step` folded over a segment sequence, starting from an empty stack.
pub open spec fn resolve_dots(segs: Seq<Seq<char>>, allow_above: bool) -> Seq<Seq<char>>
    decreases segs.len(),
{
    if segs.len() == 0 {
        Seq::empty()
    } else {
        dots_step(resolve_dots(segs.drop_last(), allow_above), segs.last(), allow_above)
    }
}

/// `dots_step` folded over a segment sequence, starting from a given stack.
pub open spec fn fold_dots(
    stack: Seq<Seq<char>>,
    segs: Seq<Seq<char>>,
    allow_above: bool,
) -> Seq<Seq<char>>
    decreases segs.len(),
{
    if segs.len() == 0 {
        stack
    } else {
        dots_step(fold_dots(stack, segs.drop_last(), allow_above), segs.last(), allow_above)
    }
}

/// A well-formed segment: non-empty and free of separator characters.
pub open spec fn seg_wf(seg: Seq<char>, windows: bool) -> bool {
    seg.len() > 0 && forall|i: int| 0 <= i < seg.len() ==> !is_sep(#[trigger] seg[i], windows)
}

/// Every segment of the sequence is well-formed.
pub open spec fn all_wf(segs: Seq<Seq<char>>, windows: bool) -> bool {
    forall|i: int| 0 <= i < segs.len() ==> seg_wf(#[trigger] segs[i], windows)
}

/// The shape of a `.`/`..`-resolved stack: well-formed segments, none
/// equal to `.`, and literal `..` segments only as a leading run, only
/// when climbing above the start was allowed.
pub open spec fn stack_wf(st: Seq<Seq<char>>, allow_above: bool, windows: bool) -> bool {
    all_wf(st, windows) && (forall|i: int|
        0 <= i < st.len() ==> #[trigger] st[i] != dot_seg()) && (forall|i: int|
        0 <= i < st.len() && #[trigger] st[i] == dotdot_seg() ==> allow_above && (forall|j: int|
            0 <= j < i ==> #[trigger] st[j] == dotdot_seg()))
}

/// The segments joined by a single separator character, with no leading or
/// trailing separator.
pub open spec fn join_segments(segs: Seq<Seq<char>>, sep_char: char) -> Seq<char>
    decreases segs.len(),
{
    if segs.len() == 0 {
        Seq::empty()
    } else if segs.len() == 1 {
        segs[0]
    } else {
        join_segments(segs.drop_last(), sep_char) + seq![sep_char] + segs.last()
    }
}

/// The `.`/`..`-resolved segments of a path string, joined canonically:
/// what `normalize_string` computes.
pub open spec fn normalized_body(
    s: Seq<char>,
    allow_above: bool,
    sep_char: char,
    windows: bool,
) -> Seq<char> {
    join_segments(resolve_dots(segments(s, windows), allow_above), sep_char)
}

/// Full POSIX normalisation: segments are `.`/`..`-resolved (climbing above
/// the root is only allowed for relative paths), the root is restored, an
/// empty result becomes `.`, and a trailing separator of the input is kept
/// unless the result is the bare root.
pub open spec fn normalize_spec(s: Seq<char>) -> Seq<char> {
    if s.len() == 0 {
        dot_seg()
    } else {
        let abs = is_abs_posix(s);
        let trail = s.last() == '/';
        let body = normalized_body(s, !abs, '/', false);
        let with_root = if abs {
            seq!['/'] + body
        } else {
            body
        };
        let nonempty = if with_root.len() == 0 {
            dot_seg()
        } else {
            with_root
        };
        if trail && nonempty != seq!['/'] {
            nonempty.push('/')
        } else {
            nonempty
        }
    }
}

/// The accumulated string of right-to-left fragment stacking, as `resolve`
/// performs it: fragments are taken from the right, empty ones are skipped,
/// each taken fragment is prepended with a separator appended, and stacking
/// stops at the first absolute fragment.
pub open spec fn stacked_path(frags: Seq<Seq<char>>) -> Seq<char>
    decreases frags.len(),
{
    if frags.len() == 0 {
        Seq::empty()
    } else {
        let x = frags.last();
        if x.len() == 0 {
            stacked_path(frags.drop_last())
        } else if is_abs_posix(x) {
            x + seq!['/']
        } else {
            stacked_path(frags.drop_last()) + x + seq!['/']
        }
    }
}

/// Whether right-to-left stacking reached an absolute fragment.
pub open spec fn stacked_abs(frags: Seq<Seq<char>>) -> bool
    decreases frags.len(),
{
    if frags.len() == 0 {
        false
    } else {
        let x = frags.last();
        if x.len() == 0 {
            stacked_abs(frags.drop_last())
        } else {
            is_abs_posix(x) || stacked_abs(frags.drop_last())
        }
    }
}

/// POSIX resolution of a fragment sequence against a working-directory
/// string: the working directory acts as one further fragment to the left
/// of all the given ones.
pub open spec fn resolve_spec(frags: Seq<Seq<char>>, cwd: Seq<char>) -> Seq<char> {
    let all = seq![cwd] + frags;
    let abs = stacked_abs(all);
    let body = normalized_body(stacked_path(all), !abs, '/', false);
    if abs {
        seq!['/'] + body
    } else if body.len() > 0 {
        body
    } else {
        dot_seg()
    }
}

/// Length of the longest common prefix of two segment sequences.
pub open spec fn common_prefix_len(a: Seq<Seq<char>>, b: Seq<Seq<char>>) -> int
    decreases a.len(),
{
    if a.len() == 0 || b.len() == 0 || a[0] != b[0] {
        0
    } else {
        1 + common_prefix_len(a.skip(1), b.skip(1))
    }
}

/// `n` literal `..` segments.
pub open spec fn dotdots(n: int) -> Seq<Seq<char>> {
    if n <= 0 {
        Seq::empty()
    } else {
        Seq::new(n as nat, |i| dotdot_seg())
    }
}

/// The relative path from one resolved absolute path to another: one `..`
/// per segment of `from` past the common segment prefix, then the segments
/// of `to` past it.
pub open spec fn relative_parts(f: Seq<char>, t: Seq<char>) -> Seq<char> {
    let fs = segments(f, false);
    let ts = segments(t, false);
    let c = common_prefix_len(fs, ts);
    join_segments(dotdots(fs.len() - c) + ts.skip(c), '/')
}

/// What `relative` returns: the empty string when the two inputs are equal
/// textually or after resolution, else the `..`-chain walk between the two
/// resolved forms.
pub open spec fn relative_spec(from: Seq<char>, to: Seq<char>, cwd: Seq<char>) -> Seq<char> {
    if from == to {
        Seq::empty()
    } else {
        let f = resolve_spec(seq![from], cwd);
        let t = resolve_spec(seq![to], cwd);
        if f == t {
            Seq::empty()
        } else {
            relative_parts(f, t)
        }
    }
}

} // verus!
