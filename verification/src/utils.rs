//! Component-level path cleaning, modelled on the standard library's path
//! component iteration: a path is a sequence of parts (an optional prefix,
//! an optional root, and named components, with `.` and `..` markers), and
//! cleaning folds the parts left to right, dropping `.`, popping on `..`,
//! and restarting at a root.

use vstd::prelude::*;

verus! {

/// One component of a path, as the standard library's component iteration
/// reports them: a platform prefix (a drive or share spec), the root
/// separator, the current-directory marker, the parent-directory marker,
/// or a named component.
#[derive(Debug, PartialEq, Eq)]
pub enum PathPart {
    Prefix(String),
    RootDir,
    CurDir,
    ParentDir,
    Normal(String),
}

/// The fold that cleaning performs: whether a root has been seen, and the
/// named components kept so far. A root restarts the kept components; `.`
/// changes nothing; `..` drops the last kept component and is absorbed at
/// the start (popping a bare root or prefix does nothing); a named
/// component is kept. A prefix part does not take part in the fold.
pub open spec fn clean_fold(parts: Seq<PathPart>) -> (bool, Seq<PathPart>)
    decreases parts.len(),
{
    if parts.len() == 0 {
        (false, Seq::empty())
    } else {
        let (root, kept) = clean_fold(parts.drop_last());
        match parts.last() {
            PathPart::RootDir => (true, Seq::empty()),
            PathPart::CurDir => (root, kept),
            PathPart::ParentDir => if kept.len() > 0 {
                (root, kept.drop_last())
            } else {
                (root, kept)
            },
            PathPart::Normal(_) => (root, kept.push(parts.last())),
            PathPart::Prefix(_) => (root, kept),
        }
    }
}

/// What `normalize_path` returns: the leading prefix when there is one,
/// then the root when one was seen, then the kept named components.
pub open spec fn clean_spec(parts: Seq<PathPart>) -> Seq<PathPart> {
    let (root, kept) = clean_fold(parts);
    let pfx: Seq<PathPart> = if parts.len() > 0 && parts[0] is Prefix {
        seq![parts[0]]
    } else {
        Seq::empty()
    };
    let rt: Seq<PathPart> = if root {
        seq![PathPart::RootDir]
    } else {
        Seq::empty()
    };
    pfx + rt + kept
}

/// Cleans a component sequence without touching the filesystem: `.` parts
/// vanish, `..` parts cancel the preceding named component where one
/// exists and vanish at the start, and the result is the prefix and root,
/// if any, followed by the surviving named components. A prefix may only
/// stand first, as the standard library's iteration reports it.
pub fn normalize_path(parts: &Vec<PathPart>) -> (r: Vec<PathPart>)
    requires
        forall|i: int| 1 <= i < parts@.len() ==> !(#[trigger] parts@[i] is Prefix),
    ensures
        r@ == clean_spec(parts@),
{
    let mut pfx: Vec<PathPart> = Vec::new();
    if parts.len() > 0 {
        match &parts[0] {
            PathPart::Prefix(s) => {
                pfx.push(PathPart::Prefix(s.clone()));
            },
            _ => {},
        }
    }
    proof {
        if parts@.len() > 0 && parts@[0] is Prefix {
            assert(pfx@ =~= seq![parts@[0]]);
        } else {
            assert(pfx@ =~= Seq::<PathPart>::empty());
        }
    }
    let mut root = false;
    let mut kept: Vec<PathPart> = Vec::new();
    let mut i: usize = 0;
    while i < parts.len()
        invariant
            i <= parts@.len(),
            root == clean_fold(parts@.take(i as int)).0,
            kept@ == clean_fold(parts@.take(i as int)).1,
        decreases parts@.len() - i,
    {
        let ghost prev = parts@.take(i as int);
        match &parts[i] {
            PathPart::RootDir => {
                root = true;
                kept = Vec::new();
            },
            PathPart::CurDir => {},
            PathPart::ParentDir => {
                if kept.len() > 0 {
                    kept.pop();
                }
            },
            PathPart::Normal(s) => {
                kept.push(PathPart::Normal(s.clone()));
            },
            PathPart::Prefix(_) => {},
        }
        i = i + 1;
        proof {
            assert(parts@.take(i as int).drop_last() =~= prev);
            assert(parts@.take(i as int).last() == parts@[i as int - 1]);
        }
    }
    proof {
        assert(parts@.take(parts@.len() as int) =~= parts@);
    }
    let mut out = pfx;
    if root {
        out.push(PathPart::RootDir);
    }
    let mut k = kept;
    out.append(&mut k);
    proof {
        assert(out@ =~= clean_spec(parts@));
    }
    out
}

} // verus!
