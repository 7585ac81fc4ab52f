use disk_tree::TreePath;

#[test]
fn a_text_is_split_at_its_slashes() {
    assert_eq!(TreePath::parse("a/b/c").len(), 3);
    assert_eq!(TreePath::parse("abc").len(), 1);
    assert_eq!(TreePath::parse("").len(), 1);
    assert_eq!(TreePath::parse("/usr/lib").len(), 3);
    assert_eq!(TreePath::parse("a//b/").len(), 4);
    assert_eq!(TreePath::parse("IN 512 prog système/testt").len(), 2);
}

#[test]
fn display_gives_the_text_back() {
    for text in ["a/b/c", "abc", "", "/", "/usr/lib", "a//b/", "C:/IN 512 prog système/testt", "日本/語.txt"] {
        assert_eq!(TreePath::parse(text).display(), text);
    }
}

#[test]
fn join_goes_one_step_down() {
    let base = TreePath::parse("a/b");
    assert_eq!(base.join("c"), TreePath::parse("a/b/c"));
    assert_eq!(base.join("c").len(), 3);
    assert_eq!(base.join("").display(), "a/b/");
    assert_eq!(base.join("x/y").display(), "a/b/x/y");
    assert_eq!(base.join("x/y").len(), 3);
    assert!(!base.join("x/y").same(&TreePath::parse("a/b/x/y")));
}

#[test]
fn same_compares_segment_by_segment() {
    assert!(TreePath::parse("a/b").same(&TreePath::parse("a/b")));
    assert!(!TreePath::parse("a/b").same(&TreePath::parse("a/c")));
    assert!(!TreePath::parse("a/b").same(&TreePath::parse("a/b/c")));
    assert!(!TreePath::parse("a/b").same(&TreePath::parse("a")));
    assert!(TreePath::parse("a/b").clone().same(&TreePath::parse("a/b")));
}

#[test]
fn starts_with_goes_by_segments() {
    let path = TreePath::parse("a/bc/d");
    assert!(path.starts_with(&TreePath::parse("a")));
    assert!(path.starts_with(&TreePath::parse("a/bc")));
    assert!(path.starts_with(&TreePath::parse("a/bc/d")));
    assert!(!path.starts_with(&TreePath::parse("a/b")));
    assert!(!path.starts_with(&TreePath::parse("a/bc/d/e")));
    assert!(!path.starts_with(&TreePath::parse("bc")));
    assert!(!path.starts_with(&TreePath::parse("")));
}

#[test]
fn an_extension_is_what_follows_the_last_dot() {
    assert!(TreePath::parse("d/a.txt").has_extension(".txt"));
    assert!(!TreePath::parse("d/a.txt").has_extension(".log"));
    assert!(!TreePath::parse("d/a.txt").has_extension("txt"));
    assert!(!TreePath::parse("d/a.txt").has_extension(".tx"));
    assert!(!TreePath::parse("d/a.txt").has_extension("a.txt"));
    assert!(TreePath::parse("d/a.tar.gz").has_extension(".gz"));
    assert!(!TreePath::parse("d/a.tar.gz").has_extension(".tar.gz"));
    assert!(!TreePath::parse("d.txt/a").has_extension(".txt"));
    assert!(TreePath::parse("a.").has_extension("."));
}

#[test]
fn a_name_without_an_extension_matches_no_filter() {
    assert!(!TreePath::parse("d/Makefile").has_extension(".txt"));
    assert!(!TreePath::parse("d/Makefile").has_extension(""));
    assert!(!TreePath::parse("d/.bashrc").has_extension(".bashrc"));
    assert!(!TreePath::parse("").has_extension(""));
    assert!(!TreePath::parse("").has_extension("."));
    assert!(TreePath::parse("d/.config.toml").has_extension(".toml"));
}

#[test]
fn extensions_agree_with_std() {
    for name in ["a.txt", "a", ".a", "a.", "a.b.c", ".a.b", "..a", "a..", "é.ñ", "x.tar.gz", "..", ".", "...", ".. "] {
        for filter in [".txt", ".", "", ".a", ".b", ".c", ".ñ", ".gz", ".tar.gz", "a", ".b.c"] {
            let expected = match std::path::Path::new(name).extension() {
                Some(extension) => format!(".{}", extension.to_str().unwrap()) == filter,
                None => false,
            };
            assert_eq!(TreePath::parse(name).has_extension(filter), expected, "{} {}", name, filter);
        }
    }
}

#[test]
fn starts_with_agrees_with_std() {
    let texts = ["a", "a/b", "a/bc", "a/b/c", "ab", "b", "a/b/c/d", "x/a/b"];
    for path in texts {
        for base in texts {
            assert_eq!(
                TreePath::parse(path).starts_with(&TreePath::parse(base)),
                std::path::Path::new(path).starts_with(base),
                "{} {}",
                path,
                base
            );
        }
    }
}

#[test]
fn join_agrees_with_std() {
    for (base, name) in [("a", "b"), ("a/b", "c.txt"), ("/usr", "lib"), ("C:/x y", "é")] {
        assert_eq!(
            TreePath::parse(base).join(name).display(),
            std::path::Path::new(base).join(name).to_str().unwrap()
        );
    }
}
