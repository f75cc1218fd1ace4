//! The general laws of the library, stated over the model and proved once
//! and for all: idempotence of normalisation, the parse/format round trip,
//! absoluteness of resolution, and that the relative path between two
//! absolute paths resolves back to its target.

use vstd::prelude::*;

use crate::posix::{
    base_of, dir_of, ext_of, name_of, p_base_start, p_end, p_has_ext, p_last_dot, p_start_part,
    root_len_posix, root_of,
};
use crate::scan::{content_end, last_dot, last_sep};
use crate::shared::format_spec;

use crate::model::{
    all_wf, common_prefix_len, dot_seg, dotdot_seg, dotdots, dots_step, fold_dots, is_abs_posix,
    is_sep, join_segments, normalize_spec, normalized_body, relative_parts, relative_spec,
    resolve_dots, resolve_spec, scan_onto, scan_step, seg_scan, seg_wf, segments, stack_wf,
    stacked_abs, stacked_path,
};

verus! {

/// Scanning a concatenation continues the scan of the left part over the
/// characters of the right part.
proof fn lemma_scan_concat(x: Seq<char>, y: Seq<char>, windows: bool)
    ensures
        seg_scan(x + y, windows) == scan_onto(seg_scan(x, windows), y, windows),
    decreases y.len(),
{
    if y.len() == 0 {
        assert(x + y =~= x);
    } else {
        lemma_scan_concat(x, y.drop_last(), windows);
        assert((x + y).drop_last() =~= x + y.drop_last());
        assert((x + y).last() == y.last());
    }
}

/// Continuing a scan never disturbs the segments already completed: they
/// stay as a prefix, and the new state is the scan of the remaining
/// characters alone, grafted on.
proof fn lemma_scan_onto_prefix(
    d0: Seq<Seq<char>>,
    y: Seq<char>,
    windows: bool,
)
    ensures
        scan_onto((d0, Seq::<char>::empty()), y, windows).0 == d0 + seg_scan(y, windows).0,
        scan_onto((d0, Seq::<char>::empty()), y, windows).1 == seg_scan(y, windows).1,
    decreases y.len(),
{
    if y.len() == 0 {
        assert(d0 + seg_scan(y, windows).0 =~= d0);
    } else {
        lemma_scan_onto_prefix(d0, y.drop_last(), windows);
        let prev = scan_onto((d0, Seq::<char>::empty()), y.drop_last(), windows);
        let prev_plain = seg_scan(y.drop_last(), windows);
        let c = y.last();
        if is_sep(c, windows) {
            if prev.1.len() > 0 {
                assert(prev.0.push(prev.1) =~= d0 + prev_plain.0.push(prev_plain.1));
            }
        } else {
        }
    }
}

/// The segments of `x`, a separator, then `y`, are the segments of `x`
/// followed by the segments of `y`.
proof fn lemma_segments_concat(x: Seq<char>, y: Seq<char>, c: char, windows: bool)
    requires
        is_sep(c, windows),
    ensures
        segments(x + seq![c] + y, windows) == segments(x, windows) + segments(y, windows),
{
    let xc = x + seq![c];
    lemma_scan_concat(x, seq![c], windows);
    assert(seq![c].drop_last() =~= Seq::<char>::empty());
    assert(seq![c].last() == c);
    assert(scan_onto(seg_scan(x, windows), Seq::<char>::empty(), windows) == seg_scan(
        x,
        windows,
    ));
    assert(scan_onto(seg_scan(x, windows), seq![c], windows) == scan_step(
        seg_scan(x, windows),
        c,
        windows,
    ));
    assert(seg_scan(xc, windows).0 == segments(x, windows));
    assert(seg_scan(xc, windows).1 == Seq::<char>::empty());
    lemma_scan_concat(xc, y, windows);
    lemma_scan_onto_prefix(segments(x, windows), y, windows);
    assert(xc + y =~= x + seq![c] + y);
    let (dy, py) = seg_scan(y, windows);
    if py.len() > 0 {
        assert((segments(x, windows) + dy).push(py) =~= segments(x, windows) + dy.push(py));
    }
}

/// A trailing separator adds no segment.
proof fn lemma_segments_trailing_sep(x: Seq<char>, c: char, windows: bool)
    requires
        is_sep(c, windows),
    ensures
        segments(x.push(c), windows) == segments(x, windows),
{
    assert(x.push(c).drop_last() =~= x);
    assert(x.push(c).last() == c);
}

/// A leading separator adds no segment.
proof fn lemma_segments_leading_sep(y: Seq<char>, c: char, windows: bool)
    requires
        is_sep(c, windows),
    ensures
        segments(seq![c] + y, windows) == segments(y, windows),
{
    lemma_segments_concat(Seq::empty(), y, c, windows);
    assert(Seq::<char>::empty() + seq![c] + y =~= seq![c] + y);
    assert(segments(Seq::<char>::empty(), windows) =~= Seq::<Seq<char>>::empty());
    assert(Seq::<Seq<char>>::empty() + segments(y, windows) =~= segments(y, windows));
}

/// Every completed segment of a scan is well-formed, and the pending
/// characters hold no separator.
proof fn lemma_seg_scan_wf(s: Seq<char>, windows: bool)
    ensures
        all_wf(seg_scan(s, windows).0, windows),
        forall|i: int|
            0 <= i < seg_scan(s, windows).1.len() ==> !is_sep(
                #[trigger] seg_scan(s, windows).1[i],
                windows,
            ),
    decreases s.len(),
{
    if s.len() > 0 {
        lemma_seg_scan_wf(s.drop_last(), windows);
        let prev = seg_scan(s.drop_last(), windows);
        let c = s.last();
        if is_sep(c, windows) {
            if prev.1.len() > 0 {
                assert(forall|i: int|
                    0 <= i < prev.0.push(prev.1).len() ==> seg_wf(
                        #[trigger] prev.0.push(prev.1)[i],
                        windows,
                    ));
            }
        }
    }
}

/// The segments of any string are well-formed.
proof fn lemma_segments_wf(s: Seq<char>, windows: bool)
    ensures
        all_wf(segments(s, windows), windows),
{
    lemma_seg_scan_wf(s, windows);
    let (done, pending) = seg_scan(s, windows);
    if pending.len() > 0 {
        assert(forall|i: int|
            0 <= i < done.push(pending).len() ==> seg_wf(
                #[trigger] done.push(pending)[i],
                windows,
            ));
    }
}

/// One resolution step keeps a stack well-shaped.
proof fn lemma_dots_step_wf(
    st: Seq<Seq<char>>,
    seg: Seq<char>,
    allow_above: bool,
    windows: bool,
)
    requires
        stack_wf(st, allow_above, windows),
        seg_wf(seg, windows),
    ensures
        stack_wf(dots_step(st, seg, allow_above), allow_above, windows),
{
    let out = dots_step(st, seg, allow_above);
    if seg == dot_seg() {
    } else if seg == dotdot_seg() {
        if st.len() > 0 && st.last() != dotdot_seg() {
            assert(forall|i: int|
                0 <= i < st.drop_last().len() ==> #[trigger] st.drop_last()[i] == st[i]);
        } else if allow_above {
            assert forall|i: int|
                0 <= i < out.len() && #[trigger] out[i] == dotdot_seg() implies allow_above
                && (forall|j: int| 0 <= j < i ==> #[trigger] out[j] == dotdot_seg()) by {
                if i < st.len() {
                    assert(st[i] == dotdot_seg());
                } else {
                    assert forall|j: int| 0 <= j < i implies #[trigger] out[j]
                        == dotdot_seg() by {
                        if st.len() > 0 {
                            assert(st.last() == dotdot_seg());
                            assert(st[st.len() - 1] == dotdot_seg());
                            assert(st[j] == dotdot_seg());
                        }
                    }
                }
            }
        }
    } else {
        assert forall|i: int|
            0 <= i < out.len() && #[trigger] out[i] == dotdot_seg() implies allow_above && (
        forall|j: int| 0 <= j < i ==> #[trigger] out[j] == dotdot_seg()) by {
            assert(i < st.len());
            assert(st[i] == dotdot_seg());
            assert(forall|j: int| 0 <= j < i ==> #[trigger] st[j] == dotdot_seg());
        }
    }
}

/// Resolving the dots of well-formed segments yields a well-shaped stack.
proof fn lemma_resolve_dots_wf(segs: Seq<Seq<char>>, allow_above: bool, windows: bool)
    requires
        all_wf(segs, windows),
    ensures
        stack_wf(resolve_dots(segs, allow_above), allow_above, windows),
    decreases segs.len(),
{
    if segs.len() > 0 {
        assert(all_wf(segs.drop_last(), windows));
        lemma_resolve_dots_wf(segs.drop_last(), allow_above, windows);
        assert(seg_wf(segs.last(), windows));
        lemma_dots_step_wf(
            resolve_dots(segs.drop_last(), allow_above),
            segs.last(),
            allow_above,
            windows,
        );
    }
}

/// Resolving the dots of a concatenation folds the right part onto the
/// resolved left part.
proof fn lemma_resolve_dots_concat(s1: Seq<Seq<char>>, s2: Seq<Seq<char>>, allow_above: bool)
    ensures
        resolve_dots(s1 + s2, allow_above) == fold_dots(
            resolve_dots(s1, allow_above),
            s2,
            allow_above,
        ),
    decreases s2.len(),
{
    if s2.len() == 0 {
        assert(s1 + s2 =~= s1);
    } else {
        lemma_resolve_dots_concat(s1, s2.drop_last(), allow_above);
        assert((s1 + s2).drop_last() =~= s1 + s2.drop_last());
        assert((s1 + s2).last() == s2.last());
    }
}

/// A string of well-formed segments joined by a separator splits back into
/// exactly those segments.
proof fn lemma_segments_of_join(segs: Seq<Seq<char>>, c: char, windows: bool)
    requires
        all_wf(segs, windows),
        is_sep(c, windows),
    ensures
        segments(join_segments(segs, c), windows) == segs,
    decreases segs.len(),
{
    if segs.len() == 0 {
        assert(segments(join_segments(segs, c), windows) =~= segs);
    } else if segs.len() == 1 {
        lemma_segments_single(segs[0], windows);
        assert(segments(join_segments(segs, c), windows) =~= segs);
    } else {
        assert(all_wf(segs.drop_last(), windows));
        lemma_segments_of_join(segs.drop_last(), c, windows);
        lemma_segments_concat(
            join_segments(segs.drop_last(), c),
            segs.last(),
            c,
            windows,
        );
        assert(seg_wf(segs.last(), windows));
        lemma_segments_single(segs.last(), windows);
        assert(segs.drop_last() + seq![segs.last()] =~= segs);
    }
}

/// A non-empty separator-free string is its own single segment.
proof fn lemma_segments_single(seg: Seq<char>, windows: bool)
    requires
        seg_wf(seg, windows),
    ensures
        segments(seg, windows) == seq![seg],
    decreases seg.len(),
{
    lemma_scan_plain(seg, windows);
    assert(segments(seg, windows) =~= seq![seg]);
}

/// Scanning a separator-free string completes nothing and leaves the whole
/// string pending.
proof fn lemma_scan_plain(seg: Seq<char>, windows: bool)
    requires
        forall|i: int| 0 <= i < seg.len() ==> !is_sep(#[trigger] seg[i], windows),
    ensures
        seg_scan(seg, windows).0 == Seq::<Seq<char>>::empty(),
        seg_scan(seg, windows).1 == seg,
    decreases seg.len(),
{
    if seg.len() == 0 {
    } else {
        assert(forall|i: int|
            0 <= i < seg.drop_last().len() ==> !is_sep(#[trigger] seg.drop_last()[i], windows));
        lemma_scan_plain(seg.drop_last(), windows);
        assert(!is_sep(seg.last(), windows));
        assert(seg.drop_last().push(seg.last()) =~= seg);
    }
}

/// A well-shaped stack is a fixed point of dot resolution.
proof fn lemma_resolve_dots_fixed(st: Seq<Seq<char>>, allow_above: bool, windows: bool)
    requires
        stack_wf(st, allow_above, windows),
    ensures
        resolve_dots(st, allow_above) == st,
    decreases st.len(),
{
    if st.len() > 0 {
        let front = st.drop_last();
        assert(stack_wf(front, allow_above, windows)) by {
            assert(forall|i: int| 0 <= i < front.len() ==> #[trigger] front[i] == st[i]);
        }
        lemma_resolve_dots_fixed(front, allow_above, windows);
        let last = st.last();
        assert(last == st[st.len() - 1]);
        if last == dotdot_seg() {
            assert(allow_above);
            assert(forall|j: int| 0 <= j < st.len() - 1 ==> #[trigger] st[j] == dotdot_seg());
            if front.len() > 0 {
                assert(front.last() == st[st.len() - 2]);
                assert(front.last() == dotdot_seg());
            }
            assert(dots_step(front, last, allow_above) =~= st);
        } else {
            assert(last != dot_seg());
            assert(dots_step(front, last, allow_above) =~= st);
        }
    }
}

/// A joined non-empty well-formed stack starts with the first character of
/// its first segment and ends with the last character of its last segment.
proof fn lemma_join_ends(segs: Seq<Seq<char>>, c: char, windows: bool)
    requires
        all_wf(segs, windows),
        segs.len() > 0,
    ensures
        join_segments(segs, c).len() > 0,
        join_segments(segs, c)[0] == segs[0][0],
        join_segments(segs, c).last() == segs.last().last(),
    decreases segs.len(),
{
    if segs.len() == 1 {
        assert(seg_wf(segs[0], windows));
    } else {
        assert(all_wf(segs.drop_last(), windows));
        lemma_join_ends(segs.drop_last(), c, windows);
        assert(seg_wf(segs.last(), windows));
        let j = join_segments(segs.drop_last(), c) + seq![c] + segs.last();
        assert(j[0] == join_segments(segs.drop_last(), c)[0]);
        assert(j.last() == segs.last().last());
        assert(segs.drop_last()[0] == segs[0]);
    }
}

/// `normalize` maps `.` to itself.
proof fn lemma_norm_of_dot()
    ensures
        normalize_spec(dot_seg()) == dot_seg(),
{
    let s = dot_seg();
    assert(s.drop_last() =~= Seq::<char>::empty());
    assert(s.last() == '.');
    assert(seg_scan(Seq::<char>::empty(), false) == (
        Seq::<Seq<char>>::empty(),
        Seq::<char>::empty(),
    ));
    assert(Seq::<char>::empty().push('.') =~= dot_seg());
    assert(seg_scan(s, false).1 =~= dot_seg());
    assert(segments(s, false) =~= Seq::<Seq<char>>::empty().push(dot_seg()));
    let segs = segments(s, false);
    assert(segs.drop_last() =~= Seq::<Seq<char>>::empty());
    assert(segs.last() == dot_seg());
    assert(resolve_dots(Seq::<Seq<char>>::empty(), true) == Seq::<Seq<char>>::empty());
    assert(resolve_dots(segs, true) =~= Seq::<Seq<char>>::empty());
    assert(join_segments(Seq::<Seq<char>>::empty(), '/') == Seq::<char>::empty());
    assert(normalize_spec(s) == dot_seg());
}

/// `normalize` maps `./` to itself.
proof fn lemma_norm_of_dot_slash()
    ensures
        normalize_spec(seq!['.', '/']) == seq!['.', '/'],
{
    let s = seq!['.', '/'];
    assert(s.drop_last() =~= dot_seg());
    assert(s.last() == '/');
    assert(dot_seg().drop_last() =~= Seq::<char>::empty());
    assert(dot_seg().last() == '.');
    assert(seg_scan(Seq::<char>::empty(), false) == (
        Seq::<Seq<char>>::empty(),
        Seq::<char>::empty(),
    ));
    assert(Seq::<char>::empty().push('.') =~= dot_seg());
    assert(seg_scan(dot_seg(), false).1 =~= dot_seg());
    assert(seg_scan(dot_seg(), false).0 =~= Seq::<Seq<char>>::empty());
    assert(seg_scan(s, false).0 =~= Seq::<Seq<char>>::empty().push(dot_seg()));
    assert(seg_scan(s, false).1 =~= Seq::<char>::empty());
    let segs = segments(s, false);
    assert(segs =~= Seq::<Seq<char>>::empty().push(dot_seg()));
    assert(segs.drop_last() =~= Seq::<Seq<char>>::empty());
    assert(segs.last() == dot_seg());
    assert(resolve_dots(Seq::<Seq<char>>::empty(), true) == Seq::<Seq<char>>::empty());
    assert(resolve_dots(segs, true) =~= Seq::<Seq<char>>::empty());
    assert(join_segments(Seq::<Seq<char>>::empty(), '/') == Seq::<char>::empty());
    assert(is_abs_posix(s) == false);
    assert(normalize_spec(s) == dot_seg().push('/'));
    assert(dot_seg().push('/') =~= seq!['.', '/']);
}

/// `normalize` maps `/` to itself.
proof fn lemma_norm_of_root()
    ensures
        normalize_spec(seq!['/']) == seq!['/'],
{
    let s = seq!['/'];
    assert(s.drop_last() =~= Seq::<char>::empty());
    assert(s.last() == '/');
    assert(seg_scan(Seq::<char>::empty(), false) == (
        Seq::<Seq<char>>::empty(),
        Seq::<char>::empty(),
    ));
    assert(seg_scan(s, false).0 =~= Seq::<Seq<char>>::empty());
    assert(seg_scan(s, false).1 =~= Seq::<char>::empty());
    assert(segments(s, false) =~= Seq::<Seq<char>>::empty());
    assert(resolve_dots(Seq::<Seq<char>>::empty(), false) == Seq::<Seq<char>>::empty());
    assert(join_segments(Seq::<Seq<char>>::empty(), '/') == Seq::<char>::empty());
    assert(seq!['/'] + Seq::<char>::empty() =~= seq!['/']);
    assert(normalize_spec(s) == seq!['/']);
}

/// Normalisation is idempotent: normalising a normalised path changes
/// nothing.
pub proof fn lemma_normalize_idempotent(p: Seq<char>)
    ensures
        normalize_spec(normalize_spec(p)) == normalize_spec(p),
{
    let q = normalize_spec(p);
    if p.len() == 0 {
        lemma_norm_of_dot();
    } else {
        let abs = is_abs_posix(p);
        let trail = p.last() == '/';
        let segs = segments(p, false);
        let st = resolve_dots(segs, !abs);
        let body = join_segments(st, '/');
        lemma_segments_wf(p, false);
        lemma_resolve_dots_wf(segs, !abs, false);
        if st.len() == 0 {
            if abs {
                assert(q =~= seq!['/']);
                lemma_norm_of_root();
            } else {
                if trail {
                    assert(dot_seg()[0] == '.');
                    assert(dot_seg() != seq!['/']);
                    assert(q == dot_seg().push('/'));
                    assert(q =~= seq!['.', '/']);
                    lemma_norm_of_dot_slash();
                } else {
                    assert(q =~= dot_seg());
                    lemma_norm_of_dot();
                }
            }
        } else {
            lemma_join_ends(st, '/', false);
            assert(seg_wf(st[0], false));
            assert(seg_wf(st.last(), false));
            let with_root = if abs {
                seq!['/'] + body
            } else {
                body
            };
            assert(with_root.len() > 0);
            assert(with_root[0] == (if abs {
                '/'
            } else {
                st[0][0]
            }));
            assert(with_root.last() == body.last());
            assert(with_root != seq!['/']) by {
                if abs {
                    assert(with_root.len() >= 2);
                } else {
                    assert(with_root[0] == st[0][0]);
                    assert(!is_sep(st[0][0], false));
                }
            }
            assert(q == (if trail {
                with_root.push('/')
            } else {
                with_root
            }));
            assert(q.len() > 0);
            assert(q[0] == with_root[0]);
            assert(is_abs_posix(q) == abs);
            assert(q.last() == '/' ==> trail) by {
                if !trail {
                    assert(q.last() == body.last());
                    assert(body.last() == st.last().last());
                    assert(!is_sep(st.last().last(), false));
                }
            }
            assert((q.last() == '/') == trail);
            assert(segments(q, false) == st) by {
                lemma_segments_of_join(st, '/', false);
                if abs {
                    lemma_segments_leading_sep(body, '/', false);
                }
                if trail {
                    lemma_segments_trailing_sep(with_root, '/', false);
                }
            }
            lemma_resolve_dots_fixed(st, !abs, false);
            assert(normalized_body(q, !abs, '/', false) == body);
            assert(normalize_spec(q) == q);
        }
    }
}

/// A sequence whose first non-empty fragment, read from the left, is the
/// absolute working directory makes the whole stacking absolute.
proof fn lemma_stacked_abs_of_abs_head(frags: Seq<Seq<char>>)
    requires
        frags.len() > 0,
        is_abs_posix(frags[0]),
    ensures
        stacked_abs(frags),
    decreases frags.len(),
{
    if frags.len() == 1 {
        assert(frags.last() == frags[0]);
    } else {
        lemma_stacked_abs_of_abs_head(frags.drop_last());
        assert(frags.drop_last()[0] == frags[0]);
    }
}

/// Resolution against an absolute working directory is absolute, whatever
/// the fragments: either one of them is absolute, or the directory itself
/// ends the stacking.
pub proof fn lemma_resolve_absolute(frags: Seq<Seq<char>>, cwd: Seq<char>)
    requires
        is_abs_posix(cwd),
    ensures
        is_abs_posix(resolve_spec(frags, cwd)),
{
    let all = seq![cwd] + frags;
    assert(all[0] == cwd);
    lemma_stacked_abs_of_abs_head(all);
    let body = normalized_body(stacked_path(all), !stacked_abs(all), '/', false);
    assert(resolve_spec(frags, cwd) == seq!['/'] + body);
    assert((seq!['/'] + body)[0] == '/');
}

/// Folding dots over a concatenation folds the parts in order.
proof fn lemma_fold_dots_concat(
    st: Seq<Seq<char>>,
    s1: Seq<Seq<char>>,
    s2: Seq<Seq<char>>,
    allow_above: bool,
)
    ensures
        fold_dots(st, s1 + s2, allow_above) == fold_dots(
            fold_dots(st, s1, allow_above),
            s2,
            allow_above,
        ),
    decreases s2.len(),
{
    if s2.len() == 0 {
        assert(s1 + s2 =~= s1);
    } else {
        lemma_fold_dots_concat(st, s1, s2.drop_last(), allow_above);
        assert((s1 + s2).drop_last() =~= s1 + s2.drop_last());
        assert((s1 + s2).last() == s2.last());
    }
}

/// Folding `k` literal `..` segments over a `..`-free stack pops its last
/// `k` entries.
proof fn lemma_fold_dotdots(st: Seq<Seq<char>>, k: int, allow_above: bool)
    requires
        0 <= k <= st.len(),
        forall|i: int| 0 <= i < st.len() ==> #[trigger] st[i] != dotdot_seg(),
    ensures
        fold_dots(st, dotdots(k), allow_above) == st.take(st.len() - k),
    decreases k,
{
    if k == 0 {
        assert(dotdots(0) =~= Seq::<Seq<char>>::empty());
        assert(st.take(st.len() as int) =~= st);
    } else {
        lemma_fold_dotdots(st, k - 1, allow_above);
        assert(dotdots(k).drop_last() =~= dotdots(k - 1));
        assert(dotdots(k).last() == dotdot_seg());
        let prev = st.take(st.len() - (k - 1));
        assert(prev.len() > 0);
        assert(prev.last() == st[st.len() - k]);
        assert(prev.last() != dotdot_seg());
        assert(dots_step(prev, dotdot_seg(), allow_above) == prev.drop_last());
        assert(prev.drop_last() =~= st.take(st.len() - k));
    }
}

/// Folding segments that are neither `.` nor `..` appends them all.
proof fn lemma_fold_plain(st: Seq<Seq<char>>, segs: Seq<Seq<char>>, allow_above: bool)
    requires
        forall|i: int|
            0 <= i < segs.len() ==> #[trigger] segs[i] != dot_seg() && segs[i] != dotdot_seg(),
    ensures
        fold_dots(st, segs, allow_above) == st + segs,
    decreases segs.len(),
{
    if segs.len() == 0 {
        assert(st + segs =~= st);
    } else {
        assert(forall|i: int|
            0 <= i < segs.drop_last().len() ==> #[trigger] segs.drop_last()[i] != dot_seg()
                && segs.drop_last()[i] != dotdot_seg());
        lemma_fold_plain(st, segs.drop_last(), allow_above);
        assert(segs.last() != dot_seg() && segs.last() != dotdot_seg());
        assert((st + segs.drop_last()).push(segs.last()) =~= st + segs);
    }
}

/// The common prefix length is bounded by both lengths.
proof fn lemma_common_bounds(a: Seq<Seq<char>>, b: Seq<Seq<char>>)
    ensures
        0 <= common_prefix_len(a, b) <= a.len(),
        common_prefix_len(a, b) <= b.len(),
    decreases a.len(),
{
    if a.len() == 0 || b.len() == 0 || a[0] != b[0] {
    } else {
        lemma_common_bounds(a.skip(1), b.skip(1));
    }
}

/// The two sequences agree on their common prefix.
proof fn lemma_common_take(a: Seq<Seq<char>>, b: Seq<Seq<char>>)
    ensures
        a.take(common_prefix_len(a, b)) == b.take(common_prefix_len(a, b)),
    decreases a.len(),
{
    lemma_common_bounds(a, b);
    let c = common_prefix_len(a, b);
    if a.len() == 0 || b.len() == 0 || a[0] != b[0] {
        assert(a.take(0) =~= b.take(0));
    } else {
        lemma_common_take(a.skip(1), b.skip(1));
        lemma_common_bounds(a.skip(1), b.skip(1));
        let c1 = common_prefix_len(a.skip(1), b.skip(1));
        assert(c == 1 + c1);
        assert(a.take(c) =~= seq![a[0]] + a.skip(1).take(c1));
        assert(b.take(c) =~= seq![b[0]] + b.skip(1).take(c1));
    }
}

/// Resolution of one absolute fragment ignores the working directory: the
/// fragment's own segments, dots resolved without climbing, behind `/`.
proof fn lemma_resolve_single_abs(x: Seq<char>, cwd: Seq<char>)
    requires
        is_abs_posix(x),
    ensures
        stacked_path(seq![cwd, x]) == x + seq!['/'],
        stacked_abs(seq![cwd, x]),
        resolve_spec(seq![x], cwd) == seq!['/'] + join_segments(
            resolve_dots(segments(x, false), false),
            '/',
        ),
{
    let all = seq![cwd] + seq![x];
    assert(all =~= seq![cwd, x]);
    assert(all.last() == x);
    assert(stacked_path(all) == x + seq!['/']);
    assert(stacked_abs(all));
    assert(x + seq!['/'] =~= x.push('/'));
    lemma_segments_trailing_sep(x, '/', false);
    assert(segments(x.push('/'), false) == segments(x, false));
}

/// The relative path from one absolute path to another resolves, against
/// the first, to exactly what the second resolves to.
pub proof fn lemma_relative_resolves_back(a: Seq<char>, b: Seq<char>, cwd: Seq<char>)
    requires
        is_abs_posix(a),
        is_abs_posix(b),
    ensures
        resolve_spec(seq![a, relative_spec(a, b, cwd)], cwd) == resolve_spec(seq![b], cwd),
{
    let rel = relative_spec(a, b, cwd);
    let f = resolve_spec(seq![a], cwd);
    let t = resolve_spec(seq![b], cwd);
    lemma_resolve_single_abs(a, cwd);
    lemma_resolve_single_abs(b, cwd);
    let sa = segments(a, false);
    let sb = segments(b, false);
    let aa = resolve_dots(sa, false);
    let bb = resolve_dots(sb, false);
    lemma_segments_wf(a, false);
    lemma_segments_wf(b, false);
    lemma_resolve_dots_wf(sa, false, false);
    lemma_resolve_dots_wf(sb, false, false);
    if a == b || f == t {
        // The relative path is empty; an empty fragment is skipped, so
        // resolving [a, ""] is resolving [a].
        assert(rel == Seq::<char>::empty());
        let all2 = seq![cwd] + seq![a, rel];
        assert(all2.last() == rel);
        assert(all2.drop_last() =~= seq![cwd, a]);
        assert(stacked_path(all2) == stacked_path(seq![cwd, a]));
        assert(stacked_abs(all2) == stacked_abs(seq![cwd, a]));
        assert(resolve_spec(seq![a, rel], cwd) == f);
        if a == b {
            assert(f == t);
        }
    } else {
        assert(rel == relative_parts(f, t));
        // The segments of the resolved forms are the resolved stacks.
        assert(segments(f, false) == aa) by {
            lemma_segments_of_join(aa, '/', false);
            lemma_segments_leading_sep(join_segments(aa, '/'), '/', false);
        }
        assert(segments(t, false) == bb) by {
            lemma_segments_of_join(bb, '/', false);
            lemma_segments_leading_sep(join_segments(bb, '/'), '/', false);
        }
        let c = common_prefix_len(aa, bb);
        lemma_common_bounds(aa, bb);
        lemma_common_take(aa, bb);
        let k = aa.len() - c;
        let parts = dotdots(k) + bb.skip(c);
        assert(rel == join_segments(parts, '/'));
        // The stacks hold no `.` or `..`, and all their segments are
        // well-formed; so are the literal `..` parts.
        assert(forall|i: int| 0 <= i < aa.len() ==> #[trigger] aa[i] != dotdot_seg());
        assert(forall|i: int| 0 <= i < bb.len() ==> #[trigger] bb[i] != dotdot_seg());
        assert(seg_wf(dotdot_seg(), false)) by {
            assert(dotdot_seg()[0] == '.' && dotdot_seg()[1] == '.');
        }
        assert(all_wf(parts, false)) by {
            assert(forall|i: int|
                0 <= i < parts.len() ==> #[trigger] parts[i] == (if i < k {
                    dotdot_seg()
                } else {
                    bb[c + i - k]
                }));
        }
        // The two resolved forms differ, so some segment differs and the
        // relative parts are non-empty.
        assert(parts.len() > 0) by {
            if parts.len() == 0 {
                assert(k == 0 && bb.len() == c);
                assert(aa.take(c) =~= aa);
                assert(bb.take(c) =~= bb);
                assert(aa == bb);
                assert(f == t);
            }
        }
        lemma_join_ends(parts, '/', false);
        assert(rel.len() > 0);
        assert(rel[0] == parts[0][0]);
        assert(seg_wf(parts[0], false));
        assert(!is_abs_posix(rel));
        // Stack [cwd, a, rel]: a is absolute, rel is appended after it.
        let all2 = seq![cwd] + seq![a, rel];
        assert(all2.last() == rel);
        assert(all2.drop_last() =~= seq![cwd, a]);
        assert(stacked_path(all2) == (a + seq!['/']) + rel + seq!['/']);
        assert(stacked_abs(all2));
        let s2 = stacked_path(all2);
        assert(s2 =~= (a + seq!['/'] + rel).push('/'));
        lemma_segments_trailing_sep(a + seq!['/'] + rel, '/', false);
        lemma_segments_concat(a, rel, '/', false);
        lemma_segments_of_join(parts, '/', false);
        assert(segments(s2, false) == sa + parts);
        // Resolve the dots of the combined segments: first a's stack, then
        // the `..` parts pop back to the common prefix, then b's tail goes
        // on top.
        lemma_resolve_dots_concat(sa, parts, false);
        assert(resolve_dots(sa + parts, false) == fold_dots(aa, parts, false));
        lemma_fold_dots_concat(aa, dotdots(k), bb.skip(c), false);
        lemma_fold_dotdots(aa, k, false);
        assert(aa.take(aa.len() - k) =~= aa.take(c));
        assert(forall|i: int|
            0 <= i < bb.skip(c).len() ==> #[trigger] bb.skip(c)[i] == bb[c + i]);
        assert(forall|i: int|
            0 <= i < bb.skip(c).len() ==> #[trigger] bb.skip(c)[i] != dot_seg() && bb.skip(
                c,
            )[i] != dotdot_seg());
        lemma_fold_plain(aa.take(c), bb.skip(c), false);
        assert(aa.take(c) + bb.skip(c) =~= bb.take(c) + bb.skip(c));
        assert(bb.take(c) + bb.skip(c) =~= bb);
        assert(resolve_dots(segments(s2, false), false) == bb);
        assert(resolve_spec(seq![a, rel], cwd) == seq!['/'] + join_segments(bb, '/'));
    }
}

/// Facts about `content_end`: when it finds an end, the character before
/// it is no separator and everything from it on is; when it finds none,
/// the whole range is separators.
proof fn lemma_content_end_props(s: Seq<char>, lo: int, hi: int, windows: bool)
    requires
        0 <= lo,
        hi <= s.len(),
    ensures
        content_end(s, lo, hi, windows) == -1 ==> forall|i: int|
            lo <= i < hi ==> is_sep(#[trigger] s[i], windows),
        content_end(s, lo, hi, windows) != -1 ==> lo < content_end(s, lo, hi, windows) <= hi
            && !is_sep(s[content_end(s, lo, hi, windows) - 1], windows) && forall|i: int|
            content_end(s, lo, hi, windows) <= i < hi ==> is_sep(#[trigger] s[i], windows),
    decreases hi - lo,
{
    if hi <= lo {
    } else if !is_sep(s[hi - 1], windows) {
    } else {
        lemma_content_end_props(s, lo, hi - 1, windows);
    }
}

/// Facts about `last_sep`: the found index is a separator with none after
/// it; when none is found, the range holds none.
proof fn lemma_last_sep_props(s: Seq<char>, lo: int, hi: int, windows: bool)
    requires
        0 <= lo,
        hi <= s.len(),
    ensures
        last_sep(s, lo, hi, windows) == -1 ==> forall|i: int|
            lo <= i < hi ==> !is_sep(#[trigger] s[i], windows),
        last_sep(s, lo, hi, windows) != -1 ==> lo <= last_sep(s, lo, hi, windows) < hi
            && is_sep(s[last_sep(s, lo, hi, windows)], windows) && forall|i: int|
            last_sep(s, lo, hi, windows) < i < hi ==> !is_sep(#[trigger] s[i], windows),
    decreases hi - lo,
{
    if hi <= lo {
    } else if is_sep(s[hi - 1], windows) {
    } else {
        lemma_last_sep_props(s, lo, hi - 1, windows);
    }
}

/// `last_dot` finds an index inside its range or nothing.
proof fn lemma_last_dot_bounds(s: Seq<char>, lo: int, hi: int)
    requires
        0 <= lo,
        hi <= s.len(),
    ensures
        last_dot(s, lo, hi) == -1 || lo <= last_dot(s, lo, hi) < hi,
    decreases hi - lo,
{
    if hi <= lo {
    } else if s[hi - 1] == '.' {
    } else {
        lemma_last_dot_bounds(s, lo, hi - 1);
    }
}

/// `base` is always `name` followed by `ext`.
pub proof fn lemma_name_ext_base(p: Seq<char>)
    ensures
        name_of(p) + ext_of(p) == base_of(p),
{
    if p_has_ext(p) {
        let e = p_end(p);
        let bs = p_base_start(p);
        let sd = p_last_dot(p);
        lemma_content_end_props(p, root_len_posix(p), p.len() as int, false);
        if p_end(p) != -1 {
            lemma_last_sep_props(p, root_len_posix(p), e, false);
        }
        lemma_last_dot_bounds(p, bs, e);
        assert(p.subrange(bs, sd) + p.subrange(sd, e) =~= p.subrange(bs, e));
    } else {
        assert(name_of(p) + ext_of(p) =~= base_of(p));
    }
}

/// The directory part of a decomposition always begins with the root: for
/// an absolute path, `dir` starts with `/`.
pub proof fn lemma_dir_starts_with_root(p: Seq<char>)
    requires
        is_abs_posix(p),
    ensures
        dir_of(p).len() > 0,
        dir_of(p)[0] == '/',
{
    let sp = p_start_part(p);
    if sp > 0 {
        let e = p_end(p);
        assert(e != -1);
        lemma_content_end_props(p, root_len_posix(p), p.len() as int, false);
        assert(e <= p.len());
        lemma_last_sep_props(p, root_len_posix(p), e, false);
        let j = last_sep(p, root_len_posix(p), e, false);
        assert(j != -1);
        assert(j >= 1);
        assert(sp == j + 1);
        assert(dir_of(p) == p.subrange(0, j as int));
        assert(dir_of(p)[0] == p[0]);
    }
}

/// A canonical path string: no two adjacent separators, and no trailing
/// separator unless the path is the bare root.
pub open spec fn canonical_posix(p: Seq<char>) -> bool {
    (forall|i: int| 0 <= i < p.len() - 1 ==> !(#[trigger] p[i] == '/' && p[i + 1] == '/')) && (
    p.len() > 1 ==> p.last() != '/')
}

/// Rebuilding a canonical path from its decomposition gives the path back:
/// the parse/format round trip. Paths with redundant separators, such as
/// `//a`, or with trailing separators are outside this law; they collapse
/// under the rebuild.
pub proof fn lemma_parse_format_round_trip(p: Seq<char>)
    requires
        canonical_posix(p),
    ensures
        format_spec(dir_of(p), root_of(p), base_of(p), name_of(p), ext_of(p), '/') == p,
{
    lemma_name_ext_base(p);
    if p.len() == 0 {
        assert(format_spec(dir_of(p), root_of(p), base_of(p), name_of(p), ext_of(p), '/')
            =~= p);
    } else if p.len() == 1 {
        if p[0] == '/' {
            assert(p_end(p) == -1);
            assert(root_of(p) =~= p);
            assert(dir_of(p) =~= p);
            assert(format_spec(dir_of(p), root_of(p), base_of(p), name_of(p), ext_of(p), '/')
                =~= p);
        } else {
            assert(p_end(p) == 1);
            lemma_last_sep_props(p, 0, 1, false);
            assert(last_sep(p, 0, 1, false) == -1);
            assert(p_start_part(p) == 0);
            assert(base_of(p) =~= p);
            assert(dir_of(p) =~= Seq::<char>::empty());
            assert(root_of(p) =~= Seq::<char>::empty());
            assert(format_spec(dir_of(p), root_of(p), base_of(p), name_of(p), ext_of(p), '/')
                =~= p);
        }
    } else {
        let abs = is_abs_posix(p);
        let rl = root_len_posix(p);
        assert(p.last() != '/');
        assert(p[p.len() - 1] != '/');
        let e = p_end(p);
        assert(e == p.len()) by {
            assert(!is_sep(p[p.len() - 1], false));
        }
        let j = last_sep(p, rl, e, false);
        lemma_last_sep_props(p, rl, e, false);
        if j == -1 {
            assert(p_start_part(p) == 0);
            if abs {
                assert(p_base_start(p) == 1);
                assert(base_of(p) == p.subrange(1, p.len() as int));
                assert(dir_of(p) =~= seq!['/']);
                assert(root_of(p) =~= seq!['/']);
                assert(base_of(p).len() > 0);
                assert(seq!['/'] + p.subrange(1, p.len() as int) =~= p);
            } else {
                assert(p_base_start(p) == 0);
                assert(base_of(p) =~= p);
                assert(dir_of(p) =~= Seq::<char>::empty());
                assert(root_of(p) =~= Seq::<char>::empty());
                assert(base_of(p).len() > 0);
            }
        } else {
            let sp = j + 1;
            assert(p_start_part(p) == sp);
            assert(is_sep(p[j], false));
            assert(j >= 1) by {
                if j == 0 {
                    assert(p[0] == '/');
                }
            }
            assert(p_base_start(p) == sp);
            assert(j <= p.len() - 2) by {
                assert(!is_sep(p[p.len() - 1], false));
            }
            assert(base_of(p) == p.subrange(sp as int, p.len() as int));
            assert(base_of(p).len() > 0);
            assert(dir_of(p) == p.subrange(0, j as int));
            assert(dir_of(p).len() == j);
            assert(dir_of(p) != root_of(p)) by {
                if abs {
                    assert(j >= 2) by {
                        if j == 1 {
                            assert(p[0] == '/' && p[1] == '/');
                        }
                    }
                    assert(root_of(p).len() == 1);
                } else {
                    assert(root_of(p).len() == 0);
                }
            }
            assert(p.subrange(0, j as int) + seq!['/'] + p.subrange(sp as int, p.len() as int)
                =~= p);
        }
    }
}

} // verus!
