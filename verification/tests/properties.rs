use nodejs_path::posix;
use nodejs_path::utils::{normalize_path, PathPart};
use nodejs_path::win32;
use nodejs_path::Parsed;

#[test]
fn join_scenarios() {
    assert_eq!(posix::join_impl(&["/foo", "bar", "baz/asdf", "quux", ".."]), "/foo/bar/baz/asdf");
    assert_eq!(posix::join_impl(&[]), ".");
    assert_eq!(posix::join_impl(&["", ""]), ".");
    assert_eq!(posix::join_impl(&["foo", "", "bar"]), "foo/bar");
    assert_eq!(posix::join_impl(&["/", "a", "..", ".."]), "/");
}

#[test]
fn resolve_scenarios() {
    let cwd = "/base/dir";
    assert_eq!(posix::resolve_impl(&["/foo/bar", "./baz"], cwd), "/foo/bar/baz");
    assert_eq!(posix::resolve_impl(&["/foo/bar", "/tmp/file/"], cwd), "/tmp/file");
    assert_eq!(
        posix::resolve_impl(
            &["/home/myself/node", "wwwroot", "static_files/png/", "../gif/image.gif"],
            cwd
        ),
        "/home/myself/node/wwwroot/static_files/gif/image.gif"
    );
    // Empty-input defaults: with nothing to resolve, the working directory
    // itself comes back.
    assert_eq!(posix::resolve_impl(&[], cwd), cwd);
    assert_eq!(posix::normalize(""), ".");
}

#[test]
fn normalize_idempotent_cases() {
    let inputs = [
        "/foo/../../../bar",
        "a//b//./c/",
        "../.../.././.../../../bar",
        "",
        "/",
        "./",
        "bar/foo../../",
    ];
    for p in inputs {
        let once = posix::normalize(p);
        let twice = posix::normalize(&once);
        assert_eq!(twice, once, "for input {:?}", p);
    }
}

#[test]
fn join_matches_normalize_of_concatenation() {
    let fragment_sets: [&[&str]; 4] = [
        &["/foo", "bar", "baz/asdf", "quux", ".."],
        &["a", "", "b//c", "."],
        &["", ""],
        &["..", "x"],
    ];
    for frags in fragment_sets {
        let joined: Vec<&str> = frags.iter().copied().filter(|f| !f.is_empty()).collect();
        let concatenated = joined.join("/");
        assert_eq!(
            posix::join_impl(frags),
            posix::normalize(&concatenated),
            "for fragments {:?}",
            frags
        );
    }
}

#[test]
fn resolve_is_absolute() {
    let cwd = "/base";
    let fragment_sets: [&[&str]; 4] = [
        &[],
        &["a/b", "../c"],
        &["/x", "y"],
        &["", "."],
    ];
    for frags in fragment_sets {
        let resolved = posix::resolve_impl(frags, cwd);
        assert!(posix::is_absolute(&resolved), "for fragments {:?}: {:?}", frags, resolved);
    }
}

#[test]
fn relative_resolves_back() {
    let cwd = "/base";
    let cases = [
        ("/var/lib", "/var/apache"),
        ("/a/b/c", "/a"),
        ("/", "/x/y"),
        ("/same", "/same"),
        ("/deep/one/two", "/deep/one/two/three"),
    ];
    for (a, b) in cases {
        let rel = posix::relative(a, b, cwd);
        assert_eq!(
            posix::resolve_impl(&[a, &rel], cwd),
            posix::resolve_impl(&[b], cwd),
            "for a {:?} b {:?}",
            a,
            b
        );
    }
}

#[test]
fn parse_scenario() {
    assert_eq!(
        posix::parse("/home/user/dir/file.txt"),
        Parsed {
            root: "/".to_string(),
            dir: "/home/user/dir".to_string(),
            base: "file.txt".to_string(),
            ext: ".txt".to_string(),
            name: "file".to_string(),
        }
    );
}

#[test]
fn format_round_trip_cases() {
    let canonical = ["", "/", "/foo", "/foo/bar.baz", "a", "a/b", "..", "a/.."];
    for p in canonical {
        assert_eq!(posix::format(posix::parse(p)), p, "for path {:?}", p);
    }
}

#[test]
fn separator_constants() {
    assert_eq!(posix::sep, '/');
    assert_eq!(posix::delimiter, ':');
    assert_eq!(win32::sep, '\\');
    assert_eq!(win32::delimiter, ';');
}

#[test]
fn win32_parse_cases() {
    assert_eq!(
        win32::parse("C:\\path\\dir\\index.html"),
        Parsed {
            root: "C:\\".to_string(),
            dir: "C:\\path\\dir".to_string(),
            base: "index.html".to_string(),
            name: "index".to_string(),
            ext: ".html".to_string(),
        }
    );
    assert_eq!(
        win32::parse("\\\\server\\share\\file_path"),
        Parsed {
            root: "\\\\server\\share\\".to_string(),
            dir: "\\\\server\\share\\".to_string(),
            base: "file_path".to_string(),
            name: "file_path".to_string(),
            ext: "".to_string(),
        }
    );
    assert_eq!(
        win32::parse("C:"),
        Parsed {
            root: "C:".to_string(),
            dir: "C:".to_string(),
            base: "".to_string(),
            name: "".to_string(),
            ext: "".to_string(),
        }
    );
    assert_eq!(
        win32::parse("C:abc"),
        Parsed {
            root: "C:".to_string(),
            dir: "C:".to_string(),
            base: "abc".to_string(),
            name: "abc".to_string(),
            ext: "".to_string(),
        }
    );
    assert_eq!(
        win32::parse("\\"),
        Parsed {
            root: "\\".to_string(),
            dir: "\\".to_string(),
            base: "".to_string(),
            name: "".to_string(),
            ext: "".to_string(),
        }
    );
    assert_eq!(
        win32::parse("file:stream"),
        Parsed {
            root: "".to_string(),
            dir: "".to_string(),
            base: "file:stream".to_string(),
            name: "file:stream".to_string(),
            ext: "".to_string(),
        }
    );
    assert_eq!(
        win32::parse("\\foo\\C:"),
        Parsed {
            root: "\\".to_string(),
            dir: "\\foo".to_string(),
            base: "C:".to_string(),
            name: "C:".to_string(),
            ext: "".to_string(),
        }
    );
}

#[test]
fn normalize_path_components() {
    let parts = vec![
        PathPart::RootDir,
        PathPart::Normal("a".to_string()),
        PathPart::CurDir,
        PathPart::Normal("b".to_string()),
        PathPart::ParentDir,
        PathPart::Normal("c".to_string()),
    ];
    assert_eq!(
        normalize_path(&parts),
        vec![
            PathPart::RootDir,
            PathPart::Normal("a".to_string()),
            PathPart::Normal("c".to_string()),
        ]
    );

    let relative_parts = vec![
        PathPart::Normal("a".to_string()),
        PathPart::ParentDir,
        PathPart::ParentDir,
        PathPart::Normal("b".to_string()),
    ];
    assert_eq!(normalize_path(&relative_parts), vec![PathPart::Normal("b".to_string())]);

    let prefixed = vec![
        PathPart::Prefix("C:".to_string()),
        PathPart::RootDir,
        PathPart::Normal("x".to_string()),
        PathPart::ParentDir,
    ];
    assert_eq!(
        normalize_path(&prefixed),
        vec![PathPart::Prefix("C:".to_string()), PathPart::RootDir]
    );

    assert_eq!(normalize_path(&vec![]), vec![]);
}
