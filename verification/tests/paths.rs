use stagedir::path::valid_entry_name;
use stagedir::{StageError, StagePath};
use std::path::{Component, Path};

fn parts(p: &StagePath) -> Vec<String> {
    let mut out = Vec::new();
    let mut i = 0;
    while let Some(part) = p.part(i) {
        out.push(part.to_string());
        i += 1;
    }
    out
}

fn std_parts(text: &str) -> Vec<String> {
    Path::new(text)
        .components()
        .map(|c| match c {
            Component::RootDir => "/".to_string(),
            Component::CurDir => ".".to_string(),
            Component::ParentDir => "..".to_string(),
            other => other.as_os_str().to_str().unwrap().to_string(),
        })
        .collect()
}

const SAMPLES: [&str; 24] = [
    "",
    "/",
    "//",
    ".",
    "..",
    "./",
    "a",
    "a/",
    "a/b",
    "a//b",
    "a/./b",
    "a/b/.",
    "./a",
    ".//a",
    "././a",
    "/a",
    "/./a",
    "//a//b//",
    "/..",
    "a/../b",
    "src/sub/b.txt",
    "/out/build/pkg-1f2e/out",
    "caf\u{e9}/na\u{ef}ve",
    ".hidden/..dots",
];

#[test]
fn parse_splits_at_separators() {
    assert_eq!(parts(&StagePath::parse("src/sub/b.txt")), vec!["src", "sub", "b.txt"]);
}

#[test]
fn parse_of_nothing_has_no_component() {
    let p = StagePath::parse("");
    assert_eq!(p.len(), 0);
    assert_eq!(p, StagePath::new());
    assert_eq!(p.part(0), None);
}

#[test]
fn parse_keeps_the_root_as_a_component() {
    assert_eq!(parts(&StagePath::parse("/a")), vec!["/", "a"]);
    assert_eq!(parts(&StagePath::parse("/")), vec!["/"]);
    assert!(StagePath::parse("/a").is_absolute());
    assert!(!StagePath::parse("a").is_absolute());
    assert!(!StagePath::parse("").is_absolute());
}

#[test]
fn parse_drops_empty_pieces_and_inner_dots() {
    assert_eq!(parts(&StagePath::parse("a//b/./c/")), vec!["a", "b", "c"]);
    assert_eq!(parts(&StagePath::parse("/./a")), vec!["/", "a"]);
}

#[test]
fn parse_keeps_a_leading_dot_and_every_dot_dot() {
    assert_eq!(parts(&StagePath::parse("./a")), vec![".", "a"]);
    assert_eq!(parts(&StagePath::parse(".")), vec!["."]);
    assert_eq!(parts(&StagePath::parse("a/../b")), vec!["a", "..", "b"]);
}

#[test]
fn parse_gives_the_components_of_the_standard_library() {
    for text in SAMPLES {
        assert_eq!(parts(&StagePath::parse(text)), std_parts(text), "{:?}", text);
    }
}

#[test]
fn render_puts_one_separator_between_components() {
    assert_eq!(StagePath::parse("a//b/./c/").render(), "a/b/c");
    assert_eq!(StagePath::parse("/").render(), "/");
    assert_eq!(StagePath::parse("//a//b").render(), "/a/b");
    assert_eq!(StagePath::parse("./a").render(), "./a");
    assert_eq!(StagePath::parse("").render(), "");
}

#[test]
fn render_then_parse_gives_the_path_back() {
    for text in SAMPLES {
        let p = StagePath::parse(text);
        assert_eq!(StagePath::parse(&p.render()), p, "{:?}", text);
    }
}

#[test]
fn join_appends_the_components() {
    let joined = StagePath::parse("/out/pkg").join(&StagePath::parse("dep/include"));
    assert_eq!(joined.render(), "/out/pkg/dep/include");
    assert_eq!(joined.len(), 5);
}

#[test]
fn join_with_a_rooted_path_gives_that_path() {
    let joined = StagePath::parse("/out/pkg").join(&StagePath::parse("/etc"));
    assert_eq!(joined, StagePath::parse("/etc"));
}

#[test]
fn join_from_the_empty_path_gives_the_other() {
    assert_eq!(StagePath::new().join(&StagePath::parse("./a")), StagePath::parse("./a"));
    assert_eq!(StagePath::parse("a").join(&StagePath::new()), StagePath::parse("a"));
}

#[test]
fn join_drops_a_leading_dot_of_the_second_path() {
    assert_eq!(StagePath::parse("a").join(&StagePath::parse("./b")), StagePath::parse("a/b"));
    assert_eq!(StagePath::parse("a").join(&StagePath::parse(".")), StagePath::parse("a"));
}

#[test]
fn join_gives_the_components_of_the_standard_library() {
    for a in SAMPLES {
        for b in SAMPLES {
            let joined = StagePath::parse(a).join(&StagePath::parse(b));
            let std_joined = Path::new(a).join(b);
            assert_eq!(parts(&joined), std_parts(std_joined.to_str().unwrap()), "{:?} {:?}", a, b);
        }
    }
}

#[test]
fn strip_prefix_gives_what_lies_below_the_base() {
    let p = StagePath::parse("src/sub/b.txt");
    assert_eq!(p.strip_prefix(&StagePath::parse("src")), Some(StagePath::parse("sub/b.txt")));
    assert_eq!(p.strip_prefix(&StagePath::new()), Some(StagePath::parse("src/sub/b.txt")));
    assert_eq!(p.strip_prefix(&p), Some(StagePath::new()));
}

#[test]
fn strip_prefix_of_a_path_elsewhere_is_none() {
    let p = StagePath::parse("src/sub/b.txt");
    assert_eq!(p.strip_prefix(&StagePath::parse("sub")), None);
    assert_eq!(p.strip_prefix(&StagePath::parse("sr")), None);
    assert_eq!(p.strip_prefix(&StagePath::parse("src/sub/b.txt/c")), None);
    assert_eq!(p.strip_prefix(&StagePath::parse("./src")), None);
}

#[test]
fn strip_prefix_agrees_with_the_standard_library() {
    for a in SAMPLES {
        for b in SAMPLES {
            let ours = StagePath::parse(a).strip_prefix(&StagePath::parse(b));
            let theirs = Path::new(a).strip_prefix(b).ok();
            assert_eq!(
                ours.map(|p| parts(&p)),
                theirs.map(|p| std_parts(p.to_str().unwrap())),
                "{:?} {:?}",
                a,
                b
            );
        }
    }
}

#[test]
fn starts_with_compares_whole_components() {
    let p = StagePath::parse("src/sub");
    assert!(p.starts_with(&StagePath::parse("src")));
    assert!(p.starts_with(&p));
    assert!(p.starts_with(&StagePath::new()));
    assert!(!p.starts_with(&StagePath::parse("sr")));
    assert!(!p.starts_with(&StagePath::parse("src/sub/x")));
}

#[test]
fn child_adds_one_component() {
    let p = StagePath::parse("src").child("a.txt");
    assert_eq!(p, StagePath::parse("src/a.txt"));
    assert_eq!(p.part(1), Some("a.txt"));
}

#[test]
fn clone_and_same_as_agree() {
    let p = StagePath::parse("/a/b");
    assert!(p.clone().same_as(&p));
    assert!(!p.same_as(&StagePath::parse("/a")));
    assert!(!p.same_as(&StagePath::parse("/a/c")));
}

#[test]
fn entry_names_are_plain_names() {
    assert!(valid_entry_name("a.txt"));
    assert!(valid_entry_name("..."));
    assert!(valid_entry_name(".hidden"));
    assert!(valid_entry_name("caf\u{e9}"));
    assert!(!valid_entry_name(""));
    assert!(!valid_entry_name("."));
    assert!(!valid_entry_name(".."));
    assert!(!valid_entry_name("a/b"));
    assert!(!valid_entry_name("/"));
}

#[test]
fn relative_to_gives_what_lies_below_the_root() {
    let p = StagePath::parse("/w/src/sub/b.txt");
    assert_eq!(p.relative_to(&StagePath::parse("/w/src")), Ok(StagePath::parse("sub/b.txt")));
    assert_eq!(p.relative_to(&p), Ok(StagePath::new()));
}

#[test]
fn relative_to_a_root_elsewhere_is_a_path_error() {
    let p = StagePath::parse("/w/src/a");
    let root = StagePath::parse("/w/other");
    let error = p.relative_to(&root).unwrap_err();
    assert_eq!(error, StageError::PathError { path: p.clone(), root: root.clone() });
    assert_eq!(error.message(), "prefix not found");
    assert!(StagePath::parse("a").relative_to(&StagePath::parse("a/b")).is_err());
}
