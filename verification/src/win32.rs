//! The drive/UNC-dialect path operations: both `\` and `/` separate
//! segments, and a path may be rooted by a single separator, a drive
//! letter, or a UNC host-and-share prefix.

use vstd::prelude::*;
use vstd::string::StrSliceExecFns;

use crate::model::is_sep;
use crate::scan::{
    content_end, first_non_sep, first_sep, last_dot, last_sep, scan_content_end, scan_first_non_sep,
    scan_first_sep, scan_last_dot, scan_last_sep,
};
use crate::shared::{chars_of, string_from_chars, sub_chars, Parsed};

verus! {

/// The path segment separator of this dialect.
#[allow(non_upper_case_globals)]
pub const sep: char = '\\';

/// The search-path delimiter of this dialect.
#[allow(non_upper_case_globals)]
pub const delimiter: char = ';';

/// Whether a character can name a drive: an ASCII letter.
pub open spec fn is_drive(c: char) -> bool {
    (65 <= c as u32 && c as u32 <= 90) || (97 <= c as u32 && c as u32 <= 122)
}

/// Whether a character can name a drive: an ASCII letter.
pub fn is_windows_device_root(code: char) -> (r: bool)
    ensures
        r == is_drive(code),
{
    let u = code as u32;
    (u >= 65 && u <= 90) || (u >= 97 && u <= 122)
}

/// A path of this dialect is absolute when it starts with a separator or
/// with a drive letter, a colon and a separator.
pub open spec fn is_abs_win(s: Seq<char>) -> bool {
    s.len() > 0 && (is_sep(s[0], true) || (s.len() > 2 && is_drive(s[0]) && s[1] == ':'
        && is_sep(s[2], true)))
}

/// Whether a path is absolute in this dialect; a bare drive prefix such as
/// `C:` is drive-relative, not absolute, and the empty string is not
/// absolute.
pub fn is_absolute(path: &str) -> (r: bool)
    ensures
        r == is_abs_win(path@),
{
    let n = path.unicode_len();
    if n == 0 {
        return false;
    }
    let c0 = path.get_char(0);
    if c0 == '/' || c0 == '\\' {
        return true;
    }
    if n > 2 && is_windows_device_root(c0) && path.get_char(1) == ':' {
        let c2 = path.get_char(2);
        return c2 == '/' || c2 == '\\';
    }
    false
}

/// Length of the recognised root of a path of length at least 2: one
/// separator, a UNC host-and-share prefix (through the separator after the
/// share name when present), or a drive prefix with or without its
/// separator.
pub open spec fn w_root_end(s: Seq<char>) -> int {
    if s.len() == 0 {
        0
    } else if is_sep(s[0], true) {
        if s.len() >= 2 && is_sep(s[1], true) {
            let j1 = first_sep(s, 2, true);
            if j1 < s.len() && j1 != 2 {
                let j2 = first_non_sep(s, j1, true);
                if j2 < s.len() && j2 != j1 {
                    let j3 = first_sep(s, j2, true);
                    if j3 == s.len() {
                        j3
                    } else {
                        j3 + 1
                    }
                } else {
                    1
                }
            } else {
                1
            }
        } else {
            1
        }
    } else if s.len() >= 2 && is_drive(s[0]) && s[1] == ':' {
        if s.len() > 2 && is_sep(s[2], true) {
            3
        } else {
            2
        }
    } else {
        0
    }
}

/// The drive-prefix paths that are nothing but their root: `C:`, and
/// `C:` followed by one separator.
pub open spec fn w_drive_special(s: Seq<char>) -> bool {
    s.len() >= 2 && is_drive(s[0]) && s[1] == ':' && (s.len() == 2 || (s.len() == 3 && is_sep(
        s[2],
        true,
    )))
}

/// One past the last character of the final component, or `-1`.
pub open spec fn w_end(s: Seq<char>) -> int {
    content_end(s, w_root_end(s), s.len() as int, true)
}

/// Where the final component begins as the backward scan reports it; the
/// scan stops at the root, so this is never less than the root length.
pub open spec fn w_start_part(s: Seq<char>) -> int {
    if w_end(s) == -1 {
        w_root_end(s)
    } else {
        let j = last_sep(s, w_root_end(s), w_end(s), true);
        if j == -1 {
            w_root_end(s)
        } else {
            j + 1
        }
    }
}

/// The index of the last `.` within the final component, or `-1`.
pub open spec fn w_last_dot(s: Seq<char>) -> int {
    last_dot(s, w_start_part(s), w_end(s))
}

/// Whether the final component carries an extension, by the same rule as
/// the POSIX dialect.
pub open spec fn w_has_ext(s: Seq<char>) -> bool {
    let e = w_end(s);
    let sp = w_start_part(s);
    let sd = w_last_dot(s);
    e != -1 && sd != -1 && sd != sp && !(s[sp] == '.' && sd == e - 1 && sd == sp + 1)
}

/// The `root` field of this dialect's `parse`.
pub open spec fn w_root_of(s: Seq<char>) -> Seq<char> {
    if s.len() == 0 {
        Seq::empty()
    } else if s.len() == 1 {
        if is_sep(s[0], true) {
            s
        } else {
            Seq::empty()
        }
    } else if w_drive_special(s) {
        s
    } else {
        s.take(w_root_end(s))
    }
}

/// The `dir` field of this dialect's `parse`: everything before the final
/// component, except that a directory equal to the root keeps the root's
/// own trailing separator.
pub open spec fn w_dir_of(s: Seq<char>) -> Seq<char> {
    if s.len() == 0 {
        Seq::empty()
    } else if s.len() == 1 {
        if is_sep(s[0], true) {
            s
        } else {
            Seq::empty()
        }
    } else if w_drive_special(s) {
        s
    } else {
        let sp = w_start_part(s);
        if sp > 0 && sp != w_root_end(s) {
            s.take(sp - 1)
        } else {
            w_root_of(s)
        }
    }
}

/// The `base` field of this dialect's `parse`.
pub open spec fn w_base_of(s: Seq<char>) -> Seq<char> {
    if s.len() == 0 {
        Seq::empty()
    } else if s.len() == 1 {
        if is_sep(s[0], true) {
            Seq::empty()
        } else {
            s
        }
    } else if w_drive_special(s) {
        Seq::empty()
    } else if w_end(s) == -1 {
        Seq::empty()
    } else {
        s.subrange(w_start_part(s), w_end(s))
    }
}

/// The `name` field of this dialect's `parse`.
pub open spec fn w_name_of(s: Seq<char>) -> Seq<char> {
    if w_has_ext(s) && s.len() >= 2 && !w_drive_special(s) {
        s.subrange(w_start_part(s), w_last_dot(s))
    } else {
        w_base_of(s)
    }
}

/// The `ext` field of this dialect's `parse`.
pub open spec fn w_ext_of(s: Seq<char>) -> Seq<char> {
    if w_has_ext(s) && s.len() >= 2 && !w_drive_special(s) {
        s.subrange(w_last_dot(s), w_end(s))
    } else {
        Seq::empty()
    }
}

/// Decomposes a path of this dialect into root, directory, final
/// component, stem and extension: root detection first (lone separator,
/// UNC host and share, or drive prefix), then the same backward component
/// scan as the POSIX dialect, bounded below by the root.
pub fn parse(raw_path: &str) -> (r: Parsed)
    ensures
        r.root@ == w_root_of(raw_path@),
        r.dir@ == w_dir_of(raw_path@),
        r.base@ == w_base_of(raw_path@),
        r.name@ == w_name_of(raw_path@),
        r.ext@ == w_ext_of(raw_path@),
{
    let v = chars_of(raw_path);
    if v.len() == 0 {
        return Parsed::default();
    }
    if v.len() == 1 {
        let c = v[0];
        if c == '/' || c == '\\' {
            let d = string_from_chars(sub_chars(&v, 0, 1));
            let d2 = string_from_chars(sub_chars(&v, 0, 1));
            proof {
                assert(v@.subrange(0, 1) =~= raw_path@);
            }
            return Parsed {
                dir: d,
                root: d2,
                base: String::new(),
                name: String::new(),
                ext: String::new(),
            };
        } else {
            let b = string_from_chars(sub_chars(&v, 0, 1));
            let b2 = string_from_chars(sub_chars(&v, 0, 1));
            proof {
                assert(v@.subrange(0, 1) =~= raw_path@);
            }
            return Parsed {
                dir: String::new(),
                root: String::new(),
                base: b,
                name: b2,
                ext: String::new(),
            };
        }
    }
    // Root detection.
    let mut root_end: usize = 0;
    let c0 = v[0];
    if c0 == '/' || c0 == '\\' {
        root_end = 1;
        let c1 = v[1];
        if c1 == '/' || c1 == '\\' {
            let j1 = scan_first_sep(&v, 2, true);
            if j1 < v.len() && j1 != 2 {
                let j2 = scan_first_non_sep(&v, j1, true);
                if j2 < v.len() && j2 != j1 {
                    let j3 = scan_first_sep(&v, j2, true);
                    if j3 == v.len() {
                        root_end = j3;
                    } else {
                        root_end = j3 + 1;
                    }
                }
            }
        }
    } else if is_windows_device_root(c0) && v[1] == ':' {
        if v.len() == 2 {
            let d = string_from_chars(sub_chars(&v, 0, 2));
            let d2 = string_from_chars(sub_chars(&v, 0, 2));
            proof {
                assert(v@.subrange(0, 2) =~= raw_path@);
            }
            return Parsed {
                dir: d,
                root: d2,
                base: String::new(),
                name: String::new(),
                ext: String::new(),
            };
        }
        root_end = 2;
        let c2 = v[2];
        if c2 == '/' || c2 == '\\' {
            if v.len() == 3 {
                let d = string_from_chars(sub_chars(&v, 0, 3));
                let d2 = string_from_chars(sub_chars(&v, 0, 3));
                proof {
                    assert(v@.subrange(0, 3) =~= raw_path@);
                }
                return Parsed {
                    dir: d,
                    root: d2,
                    base: String::new(),
                    name: String::new(),
                    ext: String::new(),
                };
            }
            root_end = 3;
        }
    }
    proof {
        assert(root_end == w_root_end(raw_path@));
        assert(!w_drive_special(raw_path@));
    }
    let root_s = string_from_chars(sub_chars(&v, 0, root_end));
    proof {
        assert(v@.subrange(0, root_end as int) =~= raw_path@.take(w_root_end(raw_path@)));
    }
    let e_opt = scan_content_end(&v, root_end, true);
    match e_opt {
        None => {
            let dir_s = string_from_chars(sub_chars(&v, 0, root_end));
            proof {
                assert(v@.subrange(0, root_end as int) =~= w_dir_of(raw_path@));
            }
            Parsed {
                dir: dir_s,
                root: root_s,
                base: String::new(),
                name: String::new(),
                ext: String::new(),
            }
        },
        Some(e) => {
            let sp: usize = match scan_last_sep(&v, root_end, e, true) {
                None => root_end,
                Some(j) => j + 1,
            };
            let base_s = string_from_chars(sub_chars(&v, sp, e));
            let sd_opt = scan_last_dot(&v, sp, e);
            let has = match sd_opt {
                None => false,
                Some(sd) => sd != sp && !(v[sp] == '.' && sd == e - 1 && sd == sp + 1),
            };
            let (name_s, ext_s) = if has {
                let sd = match sd_opt {
                    Some(sd) => sd,
                    None => 0,
                };
                (
                    string_from_chars(sub_chars(&v, sp, sd)),
                    string_from_chars(sub_chars(&v, sd, e)),
                )
            } else {
                (string_from_chars(sub_chars(&v, sp, e)), String::new())
            };
            let dir_s = if sp > 0 && sp != root_end {
                string_from_chars(sub_chars(&v, 0, sp - 1))
            } else {
                string_from_chars(sub_chars(&v, 0, root_end))
            };
            proof {
                if !(sp > 0 && sp != root_end) {
                    assert(v@.subrange(0, root_end as int) =~= w_dir_of(raw_path@));
                }
            }
            Parsed { dir: dir_s, root: root_s, base: base_s, name: name_s, ext: ext_s }
        },
    }
}

} // verus!
