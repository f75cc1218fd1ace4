use nodejs_path::posix;

#[test]
fn extname_unix() {
    // In the POSIX dialect, a backslash is a valid name character like any
    // other.
    assert_eq!(&posix::extname(".\\"), "");
    assert_eq!(&posix::extname("..\\"), ".\\");
    assert_eq!(&posix::extname("file.ext\\"), ".ext\\");
    assert_eq!(&posix::extname("file.ext\\\\"), ".ext\\\\");
    assert_eq!(&posix::extname("file\\"), "");
    assert_eq!(&posix::extname("file\\\\"), "");
    assert_eq!(&posix::extname("file.\\"), ".\\");
    assert_eq!(&posix::extname("file.\\\\"), ".\\\\");
}

#[test]
fn basic() {
    let cases = [
        ("", ""),
        ("/path/to/file", ""),
        ("/path/to/file.ext", ".ext"),
        ("/path.to/file.ext", ".ext"),
        ("/path.to/file", ""),
        ("/path.to/.file", ""),
        ("/path.to/.file.ext", ".ext"),
        ("/path/to/f.ext", ".ext"),
        ("/path/to/..ext", ".ext"),
        ("/path/to/..", ""),
        ("file", ""),
        ("file.ext", ".ext"),
        (".file", ""),
        (".file.ext", ".ext"),
        ("/file", ""),
        ("/file.ext", ".ext"),
        ("/.file", ""),
        ("/.file.ext", ".ext"),
        (".path/file.ext", ".ext"),
        ("file.ext.ext", ".ext"),
        ("file.", "."),
        (".", ""),
        ("./", ""),
        (".file.ext", ".ext"),
        (".file", ""),
        (".file.", "."),
        (".file..", "."),
        ("..", ""),
        ("../", ""),
        ("..file.ext", ".ext"),
        ("..file", ".file"),
        ("..file.", "."),
        ("..file..", "."),
        ("...", "."),
        ("...ext", ".ext"),
        ("....", "."),
        ("file.ext/", ".ext"),
        ("file.ext//", ".ext"),
        ("file/", ""),
        ("file//", ""),
        ("file./", "."),
        ("file.//", "."),
    ];

    cases.into_iter().for_each(|(input, right)| {
        assert_eq!(&posix::extname(input), right);
    })
}
