use nodejs_path::posix;

#[test]
fn test_posix() {
    assert_eq!(posix::dirname("/a/b/"), "/a".to_string());
    assert_eq!(posix::dirname("/a/b"), "/a".to_string());
    assert_eq!(posix::dirname("/a"), "/".to_string());
    assert_eq!(posix::dirname(""), ".".to_string());
    assert_eq!(posix::dirname("/"), "/".to_string());
    assert_eq!(posix::dirname("////"), "/".to_string());
    assert_eq!(posix::dirname("//a"), "//".to_string());
    assert_eq!(posix::dirname("foo"), ".".to_string());
}
