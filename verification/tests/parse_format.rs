use nodejs_path::posix;
use nodejs_path::Parsed;

fn check_parse_format_for_posix(paths: &[(&str, &str)]) {
    paths.iter().for_each(|(element, root)| {
        let output = posix::parse(element);
        println!("{:#?} for {:?}", output, element);
        assert_eq!(&posix::format(output.clone()), element);
        assert_eq!(&output.root, root);
        assert!(output.dir.starts_with(&output.root));
        assert_eq!(
            output.dir,
            if output.dir.len() != 0 {
                posix::dirname(element)
            } else {
                "".to_owned()
            }
        );
        assert_eq!(output.base, posix::basename_impl(element));
        assert_eq!(output.ext, posix::extname(element));
    });
}

fn check_format_for_posix(test_cases: &[(Parsed, String)]) {
    test_cases.iter().for_each(|(input, right)| {
        println!("input {:#?}", input);
        assert_eq!(&posix::format(input.clone()), right);
    });
}

#[test]
fn posix_tests() {
    let unix_paths = [
        // (path, root)
        ("/home/user/dir/file.txt", "/"),
        ("/home/user/a dir/another File.zip", "/"),
        ("/home/user/a dir//another&File.", "/"),
        ("/home/user/a$$$dir//another File.zip", "/"),
        ("user/dir/another File.zip", ""),
        ("file", ""),
        (".\\file", ""),
        ("./file", ""),
        ("C:\\foo", ""),
        ("/", "/"),
        ("", ""),
        (".", ""),
        ("..", ""),
        ("/foo", "/"),
        ("/foo.", "/"),
        ("/foo.bar", "/"),
        ("/.", "/"),
        ("/.foo", "/"),
        ("/.foo.bar", "/"),
        ("/foo/bar.baz", "/"),
    ];

    check_parse_format_for_posix(&unix_paths);

    let unix_special_case_format_tests = [
        (
            Parsed { dir: "some/dir".to_owned(), ..Parsed::default() },
            "some/dir/".to_owned(),
        ),
        (
            Parsed { base: "index.html".to_owned(), ..Parsed::default() },
            "index.html".to_owned(),
        ),
        (Parsed { root: "/".to_owned(), ..Parsed::default() }, "/".to_owned()),
        (
            Parsed { name: "index".to_owned(), ext: ".html".to_owned(), ..Parsed::default() },
            "index.html".to_owned(),
        ),
        (
            Parsed {
                dir: "some/dir".to_owned(),
                name: "index".to_owned(),
                ext: ".html".to_owned(),
                ..Parsed::default()
            },
            "some/dir/index.html".to_owned(),
        ),
        (
            Parsed {
                root: "/".to_owned(),
                name: "index".to_owned(),
                ext: ".html".to_owned(),
                ..Parsed::default()
            },
            "/index.html".to_owned(),
        ),
        (Parsed { ..Parsed::default() }, "".to_owned()),
    ];

    check_format_for_posix(&unix_special_case_format_tests);

    let trailing_tests_posix = [
        (
            "./".to_owned(),
            Parsed {
                root: "".to_owned(),
                dir: "".to_owned(),
                base: ".".to_owned(),
                ext: "".to_owned(),
                name: ".".to_owned(),
            },
        ),
        (
            "//".to_owned(),
            Parsed {
                root: "/".to_owned(),
                dir: "/".to_owned(),
                base: "".to_owned(),
                ext: "".to_owned(),
                name: "".to_owned(),
            },
        ),
        (
            "///".to_owned(),
            Parsed {
                root: "/".to_owned(),
                dir: "/".to_owned(),
                base: "".to_owned(),
                ext: "".to_owned(),
                name: "".to_owned(),
            },
        ),
        (
            "/foo///".to_owned(),
            Parsed {
                root: "/".to_owned(),
                dir: "/".to_owned(),
                base: "foo".to_owned(),
                ext: "".to_owned(),
                name: "foo".to_owned(),
            },
        ),
        (
            "/foo///bar.baz".to_owned(),
            Parsed {
                root: "/".to_owned(),
                dir: "/foo//".to_owned(),
                base: "bar.baz".to_owned(),
                ext: ".baz".to_owned(),
                name: "bar".to_owned(),
            },
        ),
    ];

    trailing_tests_posix.iter().for_each(|(input, right)| {
        let left = posix::parse(&input);
        assert_eq!(&left, right);
    })
}
