use epub_mgr::path::{
    is_epub, join_path, normalize_path_lexically, paths_overlap, sort_paths, split_path, PathPart,
    Resolution,
};
use epub_mgr::text::{
    decimal_chars, is_control_char, is_space_char, lower_char, same_text, string_of, trimmed,
    upper_char,
};

fn all_chars() -> Vec<char> {
    (0..=0x10ffffu32).filter_map(char::from_u32).collect()
}

fn name(text: &str) -> PathPart {
    PathPart::Normal(text.to_string())
}

#[test]
fn white_space_is_what_unicode_says() {
    for c in all_chars() {
        assert_eq!(is_space_char(c), c.is_whitespace(), "{c:?}");
    }
}

#[test]
fn control_characters_are_what_unicode_says() {
    for c in all_chars() {
        assert_eq!(is_control_char(c), c.is_control(), "{c:?}");
    }
}

#[test]
fn ascii_letters_change_case() {
    for c in all_chars() {
        assert_eq!(lower_char(c), c.to_ascii_lowercase());
        assert_eq!(upper_char(c), c.to_ascii_uppercase());
    }
}

#[test]
fn texts_are_trimmed_and_compared() {
    assert_eq!(trimmed(" \t\u{a0}a b\u{3000}\n"), "a b");
    assert_eq!(trimmed(" \n "), "");
    assert!(same_text("héllo", "héllo"));
    assert!(!same_text("héllo", "hello"));
    assert!(!same_text("a", "ab"));
}

#[test]
fn numbers_have_decimal_digits() {
    for n in [0u64, 7, 10, 42, 1000, 987_654_321, u64::MAX] {
        assert_eq!(string_of(&decimal_chars(n)), n.to_string());
    }
}

#[test]
fn drives_and_shares_are_roots() {
    let drive = || PathPart::Prefix("C:".to_string());
    let share = || PathPart::Prefix(r"\\server\share".to_string());
    for (path, parts) in [
        ("C:/new", vec![drive(), name("new")]),
        ("C:/", vec![drive()]),
        ("C:/../x", vec![drive(), PathPart::ParentDir, name("x")]),
        (r"\\server\share/x", vec![share(), name("x")]),
        ("/a/C:", vec![PathPart::Root, name("a"), name("C:")]),
        ("CD:/x", vec![name("CD:"), name("x")]),
        (r"\x", vec![name(r"\x")]),
    ] {
        assert_eq!(split_path(path), parts, "{path}");
    }
    assert_eq!(
        normalize_path_lexically("C:/../../x/./y/..", ""),
        vec![drive(), name("x")]
    );
    assert_eq!(
        normalize_path_lexically("../../x", r"\\server\share/a"),
        vec![share(), name("x")]
    );
    assert!(!paths_overlap(&split_path("C:/x"), &split_path("D:/x")));
    assert!(paths_overlap(&split_path("C:/"), &split_path("C:/x")));
}

#[test]
fn missing_paths_are_not_looked_for_above_their_drive() {
    let state = Resolution::start(normalize_path_lexically("C:/new", ""));
    assert_eq!(state.path(), Some("C:/new".to_string()));
    let state = state.after_probe(Some(false));
    assert_eq!(state.path(), Some("C:/".to_string()));
    assert_eq!(
        state.after_probe(Some(false)),
        Resolution::Resolved {
            parts: split_path("C:/new")
        }
    );
}

#[test]
fn paths_have_the_parts_that_std_finds() {
    for path in [
        "", "/", "a", "/a", "a/b", "a//b/", "./a", "a/./b", "../a", "a/..", "/../a", ".", "..",
        "//x", "a/.", "/.",
    ] {
        let expected: Vec<PathPart> = std::path::Path::new(path)
            .components()
            .map(|part| match part {
                std::path::Component::RootDir => PathPart::Root,
                std::path::Component::CurDir => PathPart::CurDir,
                std::path::Component::ParentDir => PathPart::ParentDir,
                other => name(other.as_os_str().to_str().expect("text")),
            })
            .collect();
        assert_eq!(split_path(path), expected, "{path}");
    }
}

#[test]
fn paths_join_as_std_joins_them() {
    for (base, path) in [
        ("/a", "b"),
        ("/a/", "b"),
        ("", "b"),
        ("/a", "/b"),
        ("a", ""),
        ("a", "b/c"),
    ] {
        let expected = std::path::Path::new(base).join(path);
        assert_eq!(join_path(base, path), expected.to_str().expect("text"));
    }
}

#[test]
fn epub_files_are_known_by_their_extension() {
    for path in [
        "book.epub", "/a/b.EPUB", "x.y.ePub", "a.epub/", "a.epub/.", ".epub", "epub", "a.epub.zip",
        "a.epub/b", "..epub", "a.", "a.epub/..", "", "/",
    ] {
        let expected = std::path::Path::new(path)
            .extension()
            .and_then(|extension| extension.to_str())
            .is_some_and(|extension| extension.eq_ignore_ascii_case("epub"));
        assert_eq!(is_epub(path), expected, "{path}");
    }
    assert!(is_epub("book.EPUB"));
    assert!(!is_epub("notes.txt"));
}

#[test]
fn paths_are_sorted_part_by_part() {
    let mut paths: Vec<String> = [
        "/l/b.epub", "/l/a/z.epub", "/l/a.epub", "/l/a b/c.epub", "/l/é.epub", "/l/A.epub", "l/x",
        "./l", "../l", "/l", "/l/a/z.epub",
    ]
    .iter()
    .map(|path| path.to_string())
    .collect();
    let sorted = sort_paths(paths.clone());
    paths.sort_by(|a, b| std::path::Path::new(a).cmp(std::path::Path::new(b)));
    assert_eq!(sorted, paths);
}

#[test]
fn dots_are_taken_out_of_paths() {
    assert_eq!(
        normalize_path_lexically("/a/missing/../b/./c", "/cwd"),
        vec![PathPart::Root, name("a"), name("b"), name("c")]
    );
    assert_eq!(
        normalize_path_lexically("../x", "/cwd/here"),
        vec![PathPart::Root, name("cwd"), name("x")]
    );
    assert_eq!(
        normalize_path_lexically("/../..", "/cwd"),
        vec![PathPart::Root]
    );
}

#[test]
fn folders_overlap_with_what_lies_below() {
    let library = split_path("/data/library");
    assert!(paths_overlap(&library, &library));
    assert!(paths_overlap(&library, &split_path("/data/library/out")));
    assert!(paths_overlap(&split_path("/data/library/out"), &library));
    assert!(paths_overlap(&split_path("/"), &library));
    assert!(!paths_overlap(&library, &split_path("/data/library2")));
    assert!(!paths_overlap(&library, &split_path("/data/other")));
}

#[test]
fn paths_that_do_not_exist_are_resolved_from_what_does() {
    let parts = normalize_path_lexically("/link/new/deep", "/");
    let state = Resolution::start(parts);
    assert_eq!(state.path().as_deref(), Some("/link/new/deep"));
    let state = state.after_probe(Some(false));
    assert_eq!(state.path().as_deref(), Some("/link/new"));
    let state = state.after_probe(Some(false));
    assert_eq!(state.path().as_deref(), Some("/link"));
    let state = state.after_probe(Some(true));
    assert_eq!(state.path().as_deref(), Some("/link"));
    let state = state.after_canonicalize(Some("/real/place".to_string()));
    assert_eq!(
        state,
        Resolution::Resolved {
            parts: split_path("/real/place/new/deep")
        }
    );
    assert_eq!(state.path(), None);
}

#[test]
fn paths_that_cannot_be_resolved_say_so() {
    let parts = || split_path("/a");
    assert_eq!(
        Resolution::start(parts()).after_probe(None),
        Resolution::Failed
    );
    assert_eq!(
        Resolution::start(parts())
            .after_probe(Some(true))
            .after_canonicalize(None),
        Resolution::Failed
    );
    assert_eq!(
        Resolution::start(parts())
            .after_probe(Some(false))
            .after_probe(Some(false)),
        Resolution::Resolved { parts: parts() }
    );
}
