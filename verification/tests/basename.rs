use nodejs_path::posix;

#[test]
fn universal() {
    assert_eq!(posix::basename_impl_without_ext(".js", ".js"), "".to_string());
    assert_eq!(posix::basename_impl(""), "".to_string());
    assert_eq!(posix::basename_impl("/dir/basename.ext"), "basename.ext".to_string());
    assert_eq!(posix::basename_impl("/basename.ext"), "basename.ext".to_string());
    assert_eq!(posix::basename_impl("basename.ext"), "basename.ext".to_string());
    assert_eq!(posix::basename_impl("basename.ext/"), "basename.ext".to_string());
    assert_eq!(posix::basename_impl("basename.ext//"), "basename.ext".to_string());
    assert_eq!(posix::basename_impl_without_ext("aaa/bbb", "/bbb"), "bbb".to_string());
    assert_eq!(posix::basename_impl_without_ext("aaa/bbb", "a/bbb"), "bbb".to_string());
    assert_eq!(posix::basename_impl_without_ext("aaa/bbb", "bbb"), "bbb".to_string());
    assert_eq!(posix::basename_impl_without_ext("aaa/bbb//", "bbb"), "bbb".to_string());
    assert_eq!(posix::basename_impl_without_ext("aaa/bbb", "bb"), "b".to_string());
    assert_eq!(posix::basename_impl_without_ext("aaa/bbb", "b"), "bb".to_string());
    assert_eq!(posix::basename_impl_without_ext("/aaa/bbb", "/bbb"), "bbb".to_string());
    assert_eq!(posix::basename_impl_without_ext("/aaa/bbb", "a/bbb"), "bbb".to_string());
    assert_eq!(posix::basename_impl_without_ext("/aaa/bbb", "bbb"), "bbb".to_string());
    assert_eq!(posix::basename_impl_without_ext("/aaa/bbb//", "bbb"), "bbb".to_string());
    assert_eq!(posix::basename_impl_without_ext("/aaa/bbb", "bb"), "b".to_string());
    assert_eq!(posix::basename_impl_without_ext("/aaa/bbb", "b"), "bb".to_string());
    assert_eq!(posix::basename_impl("/aaa/bbb"), "bbb".to_string());
    assert_eq!(posix::basename_impl("/aaa/"), "aaa".to_string());
    assert_eq!(posix::basename_impl("/aaa/b"), "b".to_string());
    assert_eq!(posix::basename_impl("/a/b"), "b".to_string());
    assert_eq!(posix::basename_impl("//a"), "a".to_string());
    assert_eq!(posix::basename_impl_without_ext("a", "a"), "".to_string());
}

#[test]
fn basename_unix() {
    // In the POSIX dialect a backslash is just another character.
    assert_eq!(posix::basename_impl("\\dir\\basename.ext"), "\\dir\\basename.ext".to_string());
    assert_eq!(posix::basename_impl("\\basename.ext"), "\\basename.ext".to_string());
    assert_eq!(posix::basename_impl("basename.ext"), "basename.ext".to_string());
    assert_eq!(posix::basename_impl("basename.ext\\"), "basename.ext\\".to_string());
    assert_eq!(posix::basename_impl("basename.ext\\\\"), "basename.ext\\\\".to_string());
    assert_eq!(posix::basename_impl("foo"), "foo".to_string());

    // POSIX filenames may include control characters.
    let mut control_char_filename = "Icon".to_owned();
    control_char_filename.push(13 as char);
    assert_eq!(
        posix::basename_impl(&("/a/b/".to_owned() + &control_char_filename)),
        control_char_filename
    );
}
