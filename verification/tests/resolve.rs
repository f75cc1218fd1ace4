use nodejs_path::posix;

#[test]
fn posix_test() {
    // The working directory is an explicit argument of the library; a fixed
    // absolute string stands in for what a program would read from its
    // environment.
    let cwd = "/base/dir";
    let tests: [(Vec<&str>, &str); 6] = [
        (vec!["/var/lib", "../", "file/"], "/var/file"),
        (vec!["/var/lib", "/../", "file/"], "/file"),
        (vec!["a/b/c/", "../../.."], cwd),
        (vec!["."], cwd),
        (vec!["/some/dir", ".", "/absolute/"], "/absolute"),
        (vec!["/foo/tmp.3/", "../tmp.3/cycles/root.js"], "/foo/tmp.3/cycles/root.js"),
    ];

    tests.iter().for_each(|(input, right)| {
        assert_eq!(posix::resolve_impl(&input, cwd), *right);
    });
}
