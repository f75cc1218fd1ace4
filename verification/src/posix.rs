//! The POSIX-dialect path operations: `/` is the only separator, a path is
//! absolute exactly when it starts with `/`.

use vstd::prelude::*;
use vstd::string::StrSliceExecFns;

use crate::model::{
    common_prefix_len, dotdot_seg, dotdots, is_abs_posix, normalize_spec, normalized_body,
    relative_parts, relative_spec, resolve_spec, stacked_abs, stacked_path,
};
use crate::scan::{content_end, last_dot, last_sep, scan_content_end, scan_last_dot, scan_last_sep};
use crate::shared::{
    apply_dot_segments, chars_of, clone_chars, eq_chars, format_inner, format_spec, is_empty,
    join_with, lemma_deep_elem, normalize_string, split_segments, string_from_chars, sub_chars,
    Parsed,
};

verus! {

/// The path segment separator of this dialect.
#[allow(non_upper_case_globals)]
pub const sep: char = '/';

/// The search-path delimiter of this dialect.
#[allow(non_upper_case_globals)]
pub const delimiter: char = ':';

/// Whether a path is absolute: true exactly when it starts with `/`; the
/// empty string is not absolute.
pub fn is_absolute(path: &str) -> (r: bool)
    ensures
        r == is_abs_posix(path@),
{
    if is_empty(path) {
        false
    } else {
        path.get_char(0) == '/'
    }
}

/// Normalises a path: resolves `.` and `..` segments, collapses repeated
/// separators, keeps a trailing separator, and returns `.` for an input
/// that normalises to nothing.
pub fn normalize(path: &str) -> (r: String)
    ensures
        r@ == normalize_spec(path@),
{
    let v = chars_of(path);
    if v.len() == 0 {
        let r = string_from_chars(vec!['.']);
        proof {
            assert(r@ =~= normalize_spec(path@));
        }
        return r;
    }
    let abs = v[0] == '/';
    let trail = v[v.len() - 1] == '/';
    let segs = split_segments(&v, false);
    let stack = apply_dot_segments(&segs, !abs);
    let body = join_with(&stack, '/');
    let mut out: Vec<char> = Vec::new();
    if abs {
        out.push('/');
    }
    let mut b = body;
    out.append(&mut b);
    proof {
        if abs {
            assert(out@ =~= seq!['/'] + normalized_body(path@, !abs, '/', false));
        }
    }
    if out.len() == 0 {
        out.push('.');
        proof {
            assert(out@ =~= crate::model::dot_seg());
        }
    }
    let is_bare_root = out.len() == 1 && out[0] == '/';
    proof {
        if is_bare_root {
            assert(out@ =~= seq!['/']);
        } else {
            assert(out@ != seq!['/']);
        }
    }
    if trail && !is_bare_root {
        out.push('/');
    }
    string_from_chars(out)
}

/// The surface behind the variadic `join`: the non-empty fragments joined
/// by `/`, normalised; `.` when nothing remains.
pub fn join_impl(args: &[&str]) -> (r: String)
    ensures
        r@ == normalize_spec(
            crate::model::join_segments(nonempty_frags(args.deep_view()), '/'),
        ),
{
    let mut joined: Vec<char> = Vec::new();
    let mut any = false;
    let mut i: usize = 0;
    while i < args.len()
        invariant
            i <= args@.len(),
            any == (nonempty_frags(args.deep_view().take(i as int)).len() > 0),
            joined@ == crate::model::join_segments(
                nonempty_frags(args.deep_view().take(i as int)),
                '/',
            ),
        decreases args@.len() - i,
    {
        let ghost prevfrags = nonempty_frags(args.deep_view().take(i as int));
        let arg = args[i];
        if !is_empty(arg) {
            let ghost before = joined@;
            if any {
                joined.push('/');
            }
            let mut a = chars_of(arg);
            joined.append(&mut a);
            any = true;
            proof {
                if prevfrags.len() > 0 {
                    assert(joined@ =~= crate::model::join_segments(prevfrags, '/')
                        + seq!['/'] + arg@);
                } else {
                    assert(joined@ =~= arg@);
                }
            }
        }
        i = i + 1;
        proof {
            let cur = args.deep_view().take(i as int);
            assert(cur.drop_last() =~= args.deep_view().take(i as int - 1));
            assert(cur.last() == arg@);
            let nf = nonempty_frags(cur);
            if arg@.len() == 0 {
                assert(nf =~= prevfrags);
            } else {
                assert(nf =~= prevfrags.push(arg@));
                if prevfrags.len() > 0 {
                    assert(nf.drop_last() =~= prevfrags);
                    assert(joined@ == crate::model::join_segments(nf, '/'));
                } else {
                    assert(nf =~= seq![arg@]);
                    assert(joined@ == crate::model::join_segments(nf, '/'));
                }
            }
        }
    }
    proof {
        assert(args.deep_view().take(args@.len() as int) =~= args.deep_view());
    }
    let joined_str = string_from_chars(joined);
    normalize(joined_str.as_str())
}

/// The fragments that are not empty, in order.
pub open spec fn nonempty_frags(frags: Seq<Seq<char>>) -> Seq<Seq<char>>
    decreases frags.len(),
{
    if frags.len() == 0 {
        Seq::empty()
    } else {
        let rest = nonempty_frags(frags.drop_last());
        if frags.last().len() > 0 {
            rest.push(frags.last())
        } else {
            rest
        }
    }
}

/// Namespace prefixes do not exist in this dialect, so there is nothing
/// for this entry point to do.
pub fn to_namespaced_path() {
}

/// The surface behind the variadic `resolve`: stacks the fragments from the
/// right against the given working-directory string until one is absolute,
/// then normalises. The working directory is the implicit leftmost
/// fragment; callers obtain it from their environment and pass it in.
pub fn resolve_impl(args: &[&str], cwd: &str) -> (r: String)
    ensures
        r@ == resolve_spec(args.deep_view(), cwd@),
        is_abs_posix(cwd@) ==> is_abs_posix(r@),
{
    proof {
        if is_abs_posix(cwd@) {
            crate::laws::lemma_resolve_absolute(args.deep_view(), cwd@);
        }
    }
    let ghost all = seq![cwd@] + args.deep_view();
    let mut acc: Vec<char> = Vec::new();
    let mut abs = false;
    let mut k: usize = args.len();
    proof {
        assert(all.take(all.len() as int) =~= all);
        assert(stacked_path(all) =~= stacked_path(all.take(k + 1)) + acc@);
    }
    while k > 0 && !abs
        invariant
            k <= args@.len(),
            all == seq![cwd@] + args.deep_view(),
            abs ==> stacked_path(all) == acc@ && stacked_abs(all),
            !abs ==> stacked_path(all) == stacked_path(all.take(k as int + 1)) + acc@
                && stacked_abs(all) == stacked_abs(all.take(k as int + 1)),
        decreases k,
    {
        let frag = args[k - 1];
        let ghost prev_acc = acc@;
        proof {
            assert(all.take(k as int + 1).last() == frag@);
            assert(all.take(k as int + 1).drop_last() =~= all.take(k as int));
        }
        if !is_empty(frag) {
            let mut newacc = chars_of(frag);
            newacc.push('/');
            let fabs = newacc[0] == '/';
            newacc.append(&mut acc);
            acc = newacc;
            proof {
                assert(acc@ == frag@ + seq!['/'] + prev_acc);
                assert(is_abs_posix(frag@) == fabs);
            }
            if fabs {
                abs = true;
            }
            proof {
                if fabs {
                    assert(stacked_path(all.take(k as int + 1)) == frag@ + seq!['/']);
                    assert(stacked_path(all) =~= acc@);
                } else {
                    assert(stacked_path(all.take(k as int + 1)) == stacked_path(
                        all.take(k as int),
                    ) + frag@ + seq!['/']);
                    assert(stacked_path(all.take(k as int)) + acc@ =~= stacked_path(
                        all.take(k as int + 1),
                    ) + prev_acc);
                }
            }
        }
        k = k - 1;
    }
    if !abs {
        let ghost prev_acc = acc@;
        proof {
            assert(all.take(1).last() == cwd@);
            assert(all.take(1).drop_last() =~= Seq::<Seq<char>>::empty());
        }
        if !is_empty(cwd) {
            let mut newacc = chars_of(cwd);
            newacc.push('/');
            let fabs = newacc[0] == '/';
            newacc.append(&mut acc);
            acc = newacc;
            if fabs {
                abs = true;
            }
            proof {
                assert(acc@ == cwd@ + seq!['/'] + prev_acc);
                assert(is_abs_posix(cwd@) == fabs);
                assert(stacked_path(Seq::<Seq<char>>::empty()) == Seq::<char>::empty());
                assert(!stacked_abs(Seq::<Seq<char>>::empty()));
                assert(stacked_path(all.take(1)) =~= cwd@ + seq!['/']);
                assert(stacked_path(all) =~= acc@);
                assert(stacked_abs(all.take(1)) == is_abs_posix(cwd@));
            }
        } else {
            proof {
                assert(stacked_path(Seq::<Seq<char>>::empty()) == Seq::<char>::empty());
                assert(!stacked_abs(Seq::<Seq<char>>::empty()));
                assert(stacked_path(all.take(1)) =~= Seq::<char>::empty());
                assert(stacked_path(all) =~= acc@);
                assert(!stacked_abs(all.take(1)));
            }
        }
    }
    proof {
        assert(stacked_path(all) == acc@);
        assert(stacked_abs(all) == abs);
    }
    let acc_str = string_from_chars(acc);
    let body_str = normalize_string(acc_str.as_str(), !abs, '/', false);
    let body = chars_of(body_str.as_str());
    if abs {
        let mut out: Vec<char> = Vec::new();
        out.push('/');
        let mut b = body;
        out.append(&mut b);
        proof {
            assert(out@ =~= seq!['/'] + normalized_body(stacked_path(all), !abs, '/', false));
        }
        string_from_chars(out)
    } else if body.len() > 0 {
        body_str
    } else {
        let r = string_from_chars(vec!['.']);
        r
    }
}

/// The relative path from `from` to `to`: empty when the two are equal
/// textually or after resolution against `cwd`, else one `..` per segment
/// of the resolved `from` past the common segment prefix, followed by the
/// remaining segments of the resolved `to`.
pub fn relative(from: &str, to: &str, cwd: &str) -> (r: String)
    ensures
        r@ == relative_spec(from@, to@, cwd@),
{
    let fv0 = chars_of(from);
    let tv0 = chars_of(to);
    if eq_chars(&fv0, &tv0) {
        return String::new();
    }
    let one_f: [&str; 1] = [from];
    let one_t: [&str; 1] = [to];
    let slice_f: &[&str] = one_f.as_slice();
    let slice_t: &[&str] = one_t.as_slice();
    proof {
        assert(slice_f.deep_view() =~= seq![from@]);
        assert(slice_t.deep_view() =~= seq![to@]);
    }
    let f = resolve_impl(slice_f, cwd);
    let t = resolve_impl(slice_t, cwd);
    proof {
        assert(f@ == resolve_spec(seq![from@], cwd@));
        assert(t@ == resolve_spec(seq![to@], cwd@));
    }
    let fv = chars_of(f.as_str());
    let tv = chars_of(t.as_str());
    if eq_chars(&fv, &tv) {
        return String::new();
    }
    let fsegs = split_segments(&fv, false);
    let tsegs = split_segments(&tv, false);
    let ghost fs = fsegs.deep_view();
    let ghost ts = tsegs.deep_view();
    let mut c: usize = 0;
    proof {
        assert(fs.skip(0) =~= fs);
        assert(ts.skip(0) =~= ts);
    }
    loop
        invariant
            c <= fs.len() && c <= ts.len(),
            fs == fsegs.deep_view() && ts == tsegs.deep_view(),
            fs.len() == fsegs@.len() && ts.len() == tsegs@.len(),
            common_prefix_len(fs, ts) == c + common_prefix_len(
                fs.skip(c as int),
                ts.skip(c as int),
            ),
        ensures
            c <= fs.len() && c <= ts.len(),
            common_prefix_len(fs, ts) == c,
        decreases fs.len() - c,
    {
        if !(c < fsegs.len() && c < tsegs.len()) {
            proof {
                assert(fs.skip(c as int).len() == 0 || ts.skip(c as int).len() == 0);
                assert(common_prefix_len(fs.skip(c as int), ts.skip(c as int)) == 0);
            }
            break;
        }
        let same = eq_chars(&fsegs[c], &tsegs[c]);
        proof {
            lemma_deep_elem(&fsegs, c as int);
            lemma_deep_elem(&tsegs, c as int);
            assert(fs.skip(c as int)[0] == fs[c as int]);
            assert(ts.skip(c as int)[0] == ts[c as int]);
        }
        if !same {
            proof {
                assert(common_prefix_len(fs.skip(c as int), ts.skip(c as int)) == 0);
            }
            break;
        }
        proof {
            assert(fs.skip(c as int).skip(1) =~= fs.skip(c as int + 1));
            assert(ts.skip(c as int).skip(1) =~= ts.skip(c as int + 1));
            assert(common_prefix_len(fs.skip(c as int), ts.skip(c as int)) == 1
                + common_prefix_len(fs.skip(c as int + 1), ts.skip(c as int + 1)));
        }
        c = c + 1;
    }
    let mut parts: Vec<Vec<char>> = Vec::new();
    proof {
        assert(parts.deep_view() =~= dotdots(0));
    }
    let mut j: usize = c;
    while j < fsegs.len()
        invariant
            c <= j <= fs.len(),
            fs == fsegs.deep_view(),
            fs.len() == fsegs@.len(),
            parts.deep_view() == dotdots(j as int - c as int),
        decreases fs.len() - j,
    {
        let mut dd: Vec<char> = Vec::new();
        dd.push('.');
        dd.push('.');
        proof {
            assert(dd@ =~= dotdot_seg());
        }
        let ghost old_parts = parts.deep_view();
        parts.push(dd);
        proof {
            assert(parts.deep_view() =~~= old_parts.push(dotdot_seg()));
            assert(old_parts.push(dotdot_seg()) =~= dotdots(j as int + 1 - c as int));
        }
        j = j + 1;
    }
    let mut j2: usize = c;
    while j2 < tsegs.len()
        invariant
            c <= j2 <= ts.len(),
            ts == tsegs.deep_view(),
            ts.len() == tsegs@.len(),
            fs == fsegs.deep_view(),
            fs.len() == fsegs@.len(),
            c <= fs.len(),
            parts.deep_view() == dotdots(fs.len() - c) + ts.subrange(c as int, j2 as int),
        decreases ts.len() - j2,
    {
        let copy = clone_chars(&tsegs[j2]);
        proof {
            lemma_deep_elem(&tsegs, j2 as int);
        }
        let ghost old_parts = parts.deep_view();
        parts.push(copy);
        proof {
            assert(parts.deep_view() =~~= old_parts.push(ts[j2 as int]));
            assert(old_parts.push(ts[j2 as int]) =~= dotdots(fs.len() - c) + ts.subrange(
                c as int,
                j2 as int + 1,
            ));
        }
        j2 = j2 + 1;
    }
    proof {
        assert(ts.subrange(c as int, ts.len() as int) =~= ts.skip(c as int));
        assert(parts.deep_view() == dotdots(fs.len() - c) + ts.skip(c as int));
    }
    let outv = join_with(&parts, '/');
    let r = string_from_chars(outv);
    proof {
        assert(r@ == relative_parts(f@, t@));
    }
    r
}

/// Length of the POSIX root prefix: 1 for an absolute path, else 0.
pub open spec fn root_len_posix(s: Seq<char>) -> int {
    if is_abs_posix(s) {
        1
    } else {
        0
    }
}

/// One past the last character of the final component, or `-1` when the
/// path holds no component beyond its root.
pub open spec fn p_end(s: Seq<char>) -> int {
    content_end(s, root_len_posix(s), s.len() as int, false)
}

/// Where the final component begins as the backward scan reports it: one
/// past the last separator before the component, and 0 when the scan,
/// which stops at the root, saw no separator.
pub open spec fn p_start_part(s: Seq<char>) -> int {
    if p_end(s) == -1 {
        0
    } else {
        let j = last_sep(s, root_len_posix(s), p_end(s), false);
        if j == -1 {
            0
        } else {
            j + 1
        }
    }
}

/// The first index of the final component as sliced for `base`.
pub open spec fn p_base_start(s: Seq<char>) -> int {
    if p_start_part(s) == 0 && is_abs_posix(s) {
        1
    } else {
        p_start_part(s)
    }
}

/// The index of the last `.` within the final component, or `-1`.
pub open spec fn p_last_dot(s: Seq<char>) -> int {
    last_dot(s, p_base_start(s), p_end(s))
}

/// Whether the final component carries an extension: it must hold a dot
/// that is not its first character, and must not be the component `..`
/// sitting directly after a separator-reported boundary.
pub open spec fn p_has_ext(s: Seq<char>) -> bool {
    let e = p_end(s);
    let bs = p_base_start(s);
    let sd = p_last_dot(s);
    e != -1 && sd != -1 && sd != bs && !(s[bs] == '.' && sd == e - 1 && sd == p_start_part(s)
        + 1)
}

/// The `root` field of `parse`.
pub open spec fn root_of(s: Seq<char>) -> Seq<char> {
    if is_abs_posix(s) {
        seq!['/']
    } else {
        Seq::empty()
    }
}

/// The `base` field of `parse`.
pub open spec fn base_of(s: Seq<char>) -> Seq<char> {
    if p_end(s) == -1 {
        Seq::empty()
    } else {
        s.subrange(p_base_start(s), p_end(s))
    }
}

/// The `name` field of `parse`.
pub open spec fn name_of(s: Seq<char>) -> Seq<char> {
    if p_has_ext(s) {
        s.subrange(p_base_start(s), p_last_dot(s))
    } else {
        base_of(s)
    }
}

/// The `ext` field of `parse`.
pub open spec fn ext_of(s: Seq<char>) -> Seq<char> {
    if p_has_ext(s) {
        s.subrange(p_last_dot(s), p_end(s))
    } else {
        Seq::empty()
    }
}

/// The `dir` field of `parse`.
pub open spec fn dir_of(s: Seq<char>) -> Seq<char> {
    if p_start_part(s) > 0 {
        s.subrange(0, p_start_part(s) - 1)
    } else if is_abs_posix(s) {
        seq!['/']
    } else {
        Seq::empty()
    }
}

/// Decomposes a path into root, directory, final component, stem and
/// extension, scanning the final component backward from the end with
/// trailing separators ignored.
pub fn parse(path: &str) -> (r: Parsed)
    ensures
        r.root@ == root_of(path@),
        r.dir@ == dir_of(path@),
        r.base@ == base_of(path@),
        r.name@ == name_of(path@),
        r.ext@ == ext_of(path@),
{
    let v = chars_of(path);
    if v.len() == 0 {
        return Parsed::default();
    }
    let abs = v[0] == '/';
    let start: usize = if abs {
        1
    } else {
        0
    };
    let root_s = if abs {
        string_from_chars(vec!['/'])
    } else {
        String::new()
    };
    proof {
        if abs {
            assert(root_s@ =~= root_of(path@));
        }
    }
    let e_opt = scan_content_end(&v, start, false);
    match e_opt {
        None => {
            let dir_s = if abs {
                string_from_chars(vec!['/'])
            } else {
                String::new()
            };
            proof {
                if abs {
                    assert(dir_s@ =~= dir_of(path@));
                }
            }
            Parsed {
                dir: dir_s,
                root: root_s,
                base: String::new(),
                name: String::new(),
                ext: String::new(),
            }
        },
        Some(e) => {
            let sp: usize = match scan_last_sep(&v, start, e, false) {
                None => 0,
                Some(j) => j + 1,
            };
            let bs: usize = if sp == 0 && abs {
                1
            } else {
                sp
            };
            let base_s = string_from_chars(sub_chars(&v, bs, e));
            let sd_opt = scan_last_dot(&v, bs, e);
            let has = match sd_opt {
                None => false,
                Some(sd) => sd != bs && !(v[bs] == '.' && sd == e - 1 && sd == sp + 1),
            };
            let (name_s, ext_s) = if has {
                let sd = match sd_opt {
                    Some(sd) => sd,
                    None => 0,
                };
                (
                    string_from_chars(sub_chars(&v, bs, sd)),
                    string_from_chars(sub_chars(&v, sd, e)),
                )
            } else {
                let name_copy = string_from_chars(sub_chars(&v, bs, e));
                (name_copy, String::new())
            };
            let dir_s = if sp > 0 {
                string_from_chars(sub_chars(&v, 0, sp - 1))
            } else if abs {
                string_from_chars(vec!['/'])
            } else {
                String::new()
            };
            proof {
                if sp == 0 && abs {
                    assert(dir_s@ =~= dir_of(path@));
                }
            }
            Parsed { dir: dir_s, root: root_s, base: base_s, name: name_s, ext: ext_s }
        },
    }
}

/// The extension of the final component of a path, with its leading dot,
/// or the empty string when the component carries none.
pub fn extname(path: &str) -> (r: String)
    ensures
        r@ == ext_of(path@),
{
    let parsed = parse(path);
    parsed.ext
}

/// Rebuilds a path string from a `Parsed` record: the inverse of `parse`
/// on canonical paths.
pub fn format(path_object: Parsed) -> (r: String)
    ensures
        r@ == format_spec(
            path_object.dir@,
            path_object.root@,
            path_object.base@,
            path_object.name@,
            path_object.ext@,
            '/',
        ),
{
    format_inner('/', &path_object)
}

/// The directory part of a path: everything before the final component,
/// with trailing separators ignored; `.` when there is none, `/` for the
/// root, and `//` for the double-separator root form.
pub fn dirname(path: &str) -> (r: String)
    ensures
        r@ == dirname_spec(path@),
{
    let v = chars_of(path);
    if v.len() == 0 {
        let r = string_from_chars(vec!['.']);
        proof {
            assert(r@ =~= dirname_spec(path@));
        }
        return r;
    }
    let has_root = v[0] == '/';
    let ne_opt = scan_content_end(&v, 1, false);
    let end_opt = match ne_opt {
        None => None,
        Some(ne) => scan_last_sep(&v, 1, ne, false),
    };
    match end_opt {
        None => {
            let r = if has_root {
                string_from_chars(vec!['/'])
            } else {
                string_from_chars(vec!['.'])
            };
            proof {
                assert(r@ =~= dirname_spec(path@));
            }
            r
        },
        Some(end) => {
            if has_root && end == 1 {
                let r = string_from_chars(vec!['/', '/']);
                proof {
                    assert(r@ =~= dirname_spec(path@));
                }
                r
            } else {
                string_from_chars(sub_chars(&v, 0, end))
            }
        },
    }
}

/// Where the final component begins when the whole string is scanned,
/// the root included.
pub open spec fn comp_start(s: Seq<char>) -> int {
    let e = content_end(s, 0, s.len() as int, false);
    if e == -1 {
        0
    } else {
        let j = last_sep(s, 0, e, false);
        if j == -1 {
            0
        } else {
            j + 1
        }
    }
}

/// The final component of a path, trailing separators stripped; empty when
/// the path holds only separators.
pub open spec fn component_of(s: Seq<char>) -> Seq<char> {
    let e = content_end(s, 0, s.len() as int, false);
    if e == -1 {
        Seq::empty()
    } else {
        s.subrange(comp_start(s), e)
    }
}

/// Whether the last `m` characters of the final component (ending at `e`)
/// agree with the last `m` characters of `x`.
pub open spec fn tail_agrees(s: Seq<char>, x: Seq<char>, e: int, m: int) -> bool {
    forall|q: int| 0 <= q < m ==> #[trigger] s[e - 1 - q] == x[x.len() - 1 - q]
}

/// What `basename` with a suffix argument returns. The backward scan
/// matches the suffix against the end of the final component: a full
/// proper-suffix match strips it; a match of the whole component keeps the
/// component; when the suffix is longer than the component and the
/// comparison never disagreed, the scan runs out and the slice extends to
/// the end of the string, trailing separators included; any disagreement
/// keeps the component.
pub open spec fn basename_ext_spec(p: Seq<char>, x: Seq<char>) -> Seq<char> {
    if x.len() == 0 || x.len() > p.len() {
        component_of(p)
    } else if x == p {
        Seq::empty()
    } else {
        let e = content_end(p, 0, p.len() as int, false);
        if e == -1 {
            p
        } else {
            let cs = comp_start(p);
            let clen = e - cs;
            let m = if x.len() < clen {
                x.len() as int
            } else {
                clen
            };
            if !tail_agrees(p, x, e, m) {
                p.subrange(cs, e)
            } else if x.len() < clen {
                p.subrange(cs, e - x.len())
            } else if x.len() == clen {
                p.subrange(cs, e)
            } else {
                p.subrange(cs, p.len() as int)
            }
        }
    }
}

/// The final component of a path, trailing separators ignored.
pub fn basename_impl(path: &str) -> (r: String)
    ensures
        r@ == component_of(path@),
{
    proof {
        reveal_strlit("");
    }
    basename_impl_without_ext(path, "")
}

/// The final component of a path with a given suffix stripped when it
/// matches properly; the whole path maps to the empty string.
pub fn basename_impl_without_ext(path: &str, ext: &str) -> (r: String)
    ensures
        r@ == basename_ext_spec(path@, ext@),
{
    let p = chars_of(path);
    let x = chars_of(ext);
    let e_opt = scan_content_end(&p, 0, false);
    if x.len() == 0 || x.len() > p.len() {
        return match e_opt {
            None => {
                proof {
                    assert(component_of(path@) =~= Seq::<char>::empty());
                }
                String::new()
            },
            Some(e) => {
                let cs: usize = match scan_last_sep(&p, 0, e, false) {
                    None => 0,
                    Some(j) => j + 1,
                };
                string_from_chars(sub_chars(&p, cs, e))
            },
        };
    }
    if eq_chars(&p, &x) {
        return String::new();
    }
    match e_opt {
        None => string_from_chars(p),
        Some(e) => {
            let cs: usize = match scan_last_sep(&p, 0, e, false) {
                None => 0,
                Some(j) => j + 1,
            };
            let clen: usize = e - cs;
            let m: usize = if x.len() < clen {
                x.len()
            } else {
                clen
            };
            let mut k: usize = 0;
            let mut agree = true;
            while k < m && agree
                invariant
                    k <= m,
                    m <= clen <= e <= p@.len(),
                    cs + clen == e,
                    m <= x@.len(),
                    x@.len() >= 1,
                    agree ==> tail_agrees(p@, x@, e as int, k as int),
                    !agree ==> k < m && !tail_agrees(p@, x@, e as int, m as int),
                decreases (if agree { 1int } else { 0int }), m - k,
            {
                if p[e - 1 - k] != x[x.len() - 1 - k] {
                    proof {
                        assert(!tail_agrees(p@, x@, e as int, m as int)) by {
                            if tail_agrees(p@, x@, e as int, m as int) {
                                assert(p@[e as int - 1 - k] == x@[x@.len() - 1 - k]);
                            }
                        }
                    }
                    agree = false;
                } else {
                    proof {
                        assert(tail_agrees(p@, x@, e as int, k as int + 1)) by {
                            assert(forall|q: int|
                                0 <= q < k as int + 1 ==> #[trigger] p@[e as int - 1 - q]
                                    == x@[x@.len() - 1 - q]);
                        }
                    }
                    k = k + 1;
                }
            }
            if !agree {
                string_from_chars(sub_chars(&p, cs, e))
            } else if x.len() < clen {
                string_from_chars(sub_chars(&p, cs, e - x.len()))
            } else if x.len() == clen {
                string_from_chars(sub_chars(&p, cs, e))
            } else {
                string_from_chars(sub_chars(&p, cs, p.len()))
            }
        },
    }
}

/// What `dirname` returns.
pub open spec fn dirname_spec(s: Seq<char>) -> Seq<char> {
    if s.len() == 0 {
        seq!['.']
    } else {
        let ne = content_end(s, 1, s.len() as int, false);
        let end = if ne == -1 {
            -1
        } else {
            last_sep(s, 1, ne, false)
        };
        if end == -1 {
            if is_abs_posix(s) {
                seq!['/']
            } else {
                seq!['.']
            }
        } else if is_abs_posix(s) && end == 1 {
            seq!['/', '/']
        } else {
            s.subrange(0, end)
        }
    }
}

} // verus!
