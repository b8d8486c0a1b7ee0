//! Text and path helpers agree with what the standard library does.

use std::path::Path;

use git_stack::paths;
use git_stack::text;

#[test]
fn white_space_is_what_unicode_says() {
    for code in 0..=0x10FFFF_u32 {
        if let Some(c) = char::from_u32(code) {
            assert_eq!(text::is_whitespace(c), c.is_whitespace(), "U+{code:04X}");
        }
    }
}

#[test]
fn trimming_and_splitting() {
    for s in ["", " ", "a", "  a b \n", "\u{a0}x\u{3000}", "\t\r\n", "αβ "] {
        assert_eq!(text::trim(s), s.trim());
        assert_eq!(text::lines(s), s.lines().collect::<Vec<_>>());
        assert_eq!(text::words(s), s.split_whitespace().collect::<Vec<_>>());
    }
    for s in ["", "/", "a/b", "a//b/", "héé/ö"] {
        assert_eq!(text::split(s, '/'), s.split('/').collect::<Vec<_>>());
        let halves = s.split_once('/').map(|(a, b)| (a.to_string(), b.to_string()));
        assert_eq!(text::split_once(s, '/'), halves);
    }
    for s in ["one\ntwo", "one\r\ntwo\r\n", "\n\n", "a\r", "x\n\ny"] {
        assert_eq!(text::lines(s), s.lines().collect::<Vec<_>>());
    }
}

#[test]
fn prefixes_and_suffixes() {
    assert_eq!(text::strip_prefix("feat/auth", "feat"), Some("/auth".to_string()));
    assert_eq!(text::strip_prefix("fix", "feat"), None);
    assert_eq!(text::strip_prefix("x", ""), Some("x".to_string()));
    assert!(text::starts_with("Resolved 'a'", "Resolved '"));
    assert!(text::ends_with("abc", "bc"));
    assert!(!text::ends_with("c", "bc"));
    for s in ["a.git", "a.git.git", ".git", "git", "a.gitx", ""] {
        assert_eq!(text::trim_end_matches(s, ".git"), s.trim_end_matches(".git"));
    }
}

#[test]
fn numbers_read_and_written() {
    for n in [0, 7, 10, 99, 100, 12345, u64::MAX] {
        assert_eq!(text::to_decimal(n), n.to_string());
        assert_eq!(text::parse_number(&n.to_string()), Some(n));
    }
    for s in ["", "+", "+5", "-5", "5a", " 5", "007", "18446744073709551616", "٣"] {
        assert_eq!(text::parse_number(s), s.parse::<u64>().ok(), "{s:?}");
    }
}

#[test]
fn words_are_capitalised_by_their_first_letter() {
    assert_eq!(text::capitalise("auth"), "Auth");
    assert_eq!(text::capitalise("éclair"), "Éclair");
    assert_eq!(text::capitalise("ßa"), "SSa");
    assert_eq!(text::capitalise(""), "");
    assert_eq!(text::replace_two("a-b_c", '-', '_', ' '), "a b c");
}

#[test]
fn padding_counts_bytes() {
    assert_eq!(text::pad("ab", 5), "   ");
    assert_eq!(text::pad("äb", 5), "  ");
    assert_eq!(text::pad("long", 2), "");
    assert_eq!(text::make_blanks(3), "   ");
}

#[test]
fn joining_and_copying() {
    let list = vec!["a".to_string(), "b".to_string(), "c".to_string()];
    assert_eq!(text::join(&list, ", "), "a, b, c");
    assert_eq!(text::join(&[], ", "), "");
    assert!(text::list_contains(&list, "b"));
    assert!(!text::list_contains(&list, "d"));
    assert_eq!(text::copy_list(&list), list);
    assert_eq!(text::own_all(&["a", "b", "c"]), list);
    assert_eq!(text::shorten("0123456789", 7), "0123456");
    assert_eq!(text::shorten("012", 7), "012");
}

#[test]
fn paths_are_compared_by_component() {
    let cases = [
        ("/a/b/c", "/a/b"),
        ("/a/bc", "/a/b"),
        ("/a/b", "/a/b/"),
        ("/a//b/./c", "/a/b"),
        ("/a", "/"),
        ("/a/b", "a"),
        ("a/b", "a"),
        ("/a/../b", "/b"),
    ];
    for (path, base) in cases {
        assert_eq!(
            paths::starts_with(path, base),
            Path::new(path).starts_with(base),
            "{path} under {base}"
        );
    }
}

#[test]
fn paths_are_joined_as_usual() {
    for (dir, name) in [("/a", "b"), ("/a/", "b"), ("/a", "/b"), ("", "b"), ("a", "b/c"), ("/", "x")] {
        assert_eq!(paths::join(dir, name), Path::new(dir).join(name).to_string_lossy());
    }
}

#[test]
fn file_names_are_the_last_component() {
    for path in ["/src/git-stack", "/src/git-stack/", "repo", "/a/b/."] {
        let name = Path::new(path).file_name().unwrap().to_string_lossy().into_owned();
        assert_eq!(paths::file_name(path), name, "{path}");
    }
}

#[test]
fn the_home_directory_is_shown_as_a_tilde() {
    assert_eq!(paths::shorten_home("/home/u/wt", Some("/home/u")), "~/wt");
    assert_eq!(paths::shorten_home("/home/u", Some("/home/u")), "~");
    assert_eq!(paths::shorten_home("/home/user", Some("/home/u")), "/home/user");
    assert_eq!(paths::shorten_home("/opt", None), "/opt");
}

#[test]
fn what_is_below_a_directory_is_what_the_standard_library_says() {
    let texts = [
        "", "/", ".", "./", "a", "a/", "a/b", "./a", "./a/b", "a//b/./c/", "/a", "/a/b", "/a//b/.",
        "/./a/b/", "//", "/.", "./.", "a/./b", "..", "../a", "a/..", "/a/b/c",
    ];
    for path in texts {
        for dir in texts {
            let expected = Path::new(path)
                .strip_prefix(dir)
                .ok()
                .map(|p| p.to_str().unwrap().to_string());
            assert_eq!(paths::strip_dir(path, dir), expected, "{path:?} below {dir:?}");
        }
    }
    assert_eq!(paths::shorten_home("a/b", Some("a")), "~/b");
}
