use rdirstat::path::FsPath;

fn path(text: &str) -> FsPath {
    FsPath::from_bytes(&text.as_bytes().to_vec())
}

const SPELLINGS: [&str; 24] = [
    "/", "//", "", "a", "/a", "a/b", "/a/b.c/", ".", "..", "./x.y", "/a/..", "a//b/./c.d.e", ".hid", "x.",
    "//a///b/", "/a//b/", "a/./b", "./a", "a/../b", "/./a", "/a/.", "/a/b/./", "a/b/.//c/.", "./.",
];

#[test]
fn the_spelling_stays() {
    for given in SPELLINGS {
        assert_eq!(path(given).to_bytes(), given.as_bytes().to_vec());
        assert_eq!(path(given).clone().to_bytes(), given.as_bytes().to_vec());
    }
}

#[test]
fn spellings_of_one_path_are_equal() {
    assert_eq!(path("//a///b/"), path("/a/b"));
    assert_eq!(path("a/./b"), path("a/b"));
    assert_ne!(path("./a"), path("a"));
    assert_ne!(path("/a"), path("a"));
    assert!(path("/a//b/").same(&path("/a/b")));
}

#[test]
fn a_parent_is_spelled_as_in_the_standard_library() {
    for given in SPELLINGS {
        let std_path = std::path::Path::new(given);
        assert_eq!(
            path(given).parent().map(|p| p.to_bytes()),
            std_path.parent().map(|p| p.to_str().unwrap().as_bytes().to_vec()),
            "parent of {given}"
        );
    }
    assert_eq!(path("/a//b/").parent().unwrap().to_bytes(), b"/a".to_vec());
}

#[test]
fn parts_are_those_of_the_standard_library() {
    for given in ["/", "", "a", "/a", "a/b", "/a/b.c/", ".", "..", "./x.y", "/a/..", "a//b/./c.d.e", ".hid", "x."] {
        let std_path = std::path::Path::new(given);
        let ours = path(given);
        assert_eq!(ours.is_absolute(), std_path.is_absolute());
        assert_eq!(
            ours.parent(),
            std_path.parent().map(|p| path(p.to_str().unwrap())),
            "parent of {given}"
        );
        assert_eq!(
            ours.file_name(),
            std_path.file_name().map(|n| n.to_str().unwrap().as_bytes().to_vec())
        );
        assert_eq!(
            ours.extension(),
            std_path.extension().map(|n| n.to_str().unwrap().as_bytes().to_vec())
        );
    }
}

#[test]
fn starting_with_is_by_component() {
    for (a, b) in [("/a/b", "/a"), ("/ab", "/a"), ("/a", "/"), ("a", ""), ("/a", ""), ("/a", "a"), ("/a", "/a")] {
        assert_eq!(
            path(a).starts_with(&path(b)),
            std::path::Path::new(a).starts_with(b),
            "{a} {b}"
        );
    }
}

#[test]
fn trail_runs_from_the_top() {
    assert_eq!(path("/a/b").trail(), vec![path("/"), path("/a"), path("/a/b")]);
    assert_eq!(path("a/b").trail(), vec![path("a"), path("a/b")]);
    assert!(path("").trail().is_empty());
}

#[test]
fn a_trail_is_spelled_as_the_path_is() {
    let spelled: Vec<Vec<u8>> = path("//a//b/").trail().iter().map(|p| p.to_bytes()).collect();
    let expected: Vec<Vec<u8>> = std::path::Path::new("//a//b/")
        .ancestors()
        .map(|p| p.to_str().unwrap().as_bytes().to_vec())
        .collect::<Vec<_>>()
        .into_iter()
        .rev()
        .collect();
    assert_eq!(spelled, expected);
}
