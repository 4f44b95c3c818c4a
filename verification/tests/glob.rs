use nexcore_fs::glob::Pattern;
use std::path::Path;

#[test]
fn star_matches_any_chars() {
    let p = Pattern::new("*.rs").ok();
    assert!(p.is_some());
    let p = p.unwrap();
    assert!(p.matches("lib.rs"));
    assert!(p.matches("main.rs"));
    assert!(!p.matches("lib.txt"));
    assert!(!p.matches("src/lib.rs")); // star doesn't cross /
}

#[test]
fn question_mark_matches_single() {
    let p = Pattern::new("file?.txt").unwrap();
    assert!(p.matches("file1.txt"));
    assert!(p.matches("fileA.txt"));
    assert!(!p.matches("file12.txt"));
    assert!(!p.matches("file.txt"));
}

#[test]
fn character_class() {
    let p = Pattern::new("[abc].txt").unwrap();
    assert!(p.matches("a.txt"));
    assert!(p.matches("b.txt"));
    assert!(!p.matches("d.txt"));
}

#[test]
fn character_range() {
    let p = Pattern::new("[a-z].txt").unwrap();
    assert!(p.matches("m.txt"));
    assert!(!p.matches("M.txt"));
    assert!(!p.matches("1.txt"));
}

#[test]
fn negated_class() {
    let p = Pattern::new("[!0-9].txt").unwrap();
    assert!(p.matches("a.txt"));
    assert!(!p.matches("5.txt"));
}

#[test]
fn exact_match() {
    let p = Pattern::new("hello.rs").unwrap();
    assert!(p.matches("hello.rs"));
    assert!(!p.matches("hello.txt"));
}

#[test]
fn empty_pattern() {
    let p = Pattern::new("").unwrap();
    assert!(p.matches(""));
    assert!(!p.matches("a"));
}

#[test]
fn star_at_start() {
    let p = Pattern::new("*test*").unwrap();
    assert!(p.matches("test"));
    assert!(p.matches("mytest.rs"));
    assert!(p.matches("testing"));
}

#[test]
fn unclosed_bracket_errors() {
    assert!(Pattern::new("[abc").is_err());
}

#[test]
fn matches_path() {
    let p = Pattern::new("*.rs").unwrap();
    assert!(p.matches_path(Path::new("lib.rs")));
    assert!(!p.matches_path(Path::new("lib.txt")));
}

#[test]
fn escaped_special_chars() {
    let p = Pattern::new("file\\*.txt").unwrap();
    assert!(p.matches("file*.txt"));
    assert!(!p.matches("file1.txt"));
}

// ---------------------------------------------------------------------------

#[test]
fn as_str_gives_back_the_source() {
    for src in ["*.rs", "", "[a-z]?\\*", "**x"] {
        assert_eq!(Pattern::new(src).unwrap().as_str(), src);
        assert_eq!(Pattern::new(src).unwrap().to_string(), src);
    }
}

#[test]
fn unclosed_class_positions() {
    let e = Pattern::new("[abc").unwrap_err();
    assert_eq!(e.pos, 4);
    assert_eq!(e.msg, "unclosed character class");
    assert_eq!(e.to_string(), "invalid glob at position 4: unclosed character class");
    let e = Pattern::new("ab[").unwrap_err();
    assert_eq!(e.pos, 2);
    assert_eq!(e.to_string(), "invalid glob at position 2: unclosed character class");
    let e = Pattern::new("[!").unwrap_err();
    assert_eq!(e.pos, 2);
    let e = Pattern::new("x[a-").unwrap_err();
    assert_eq!(e.pos, 4);
}

#[test]
fn long_error_position_in_decimal() {
    let src = format!("{}[", "a".repeat(1234));
    let e = Pattern::new(&src).unwrap_err();
    assert_eq!(e.pos, 1234);
    assert_eq!(e.to_string(), "invalid glob at position 1234: unclosed character class");
}

#[test]
fn plain_pattern_matches_only_itself() {
    let p = Pattern::new("src-main.rs").unwrap();
    assert!(p.matches("src-main.rs"));
    assert!(!p.matches("src-main.r"));
    assert!(!p.matches("src-main.rss"));
    assert!(!p.matches(""));
}

#[test]
fn lone_star_rejects_separators() {
    let p = Pattern::new("*").unwrap();
    assert!(p.matches(""));
    assert!(p.matches("anything.at_all"));
    assert!(!p.matches("a/b"));
    assert!(!p.matches("a\\b"));
    assert!(!p.matches("/"));
}

#[test]
fn question_mark_takes_one_non_separator() {
    let p = Pattern::new("?").unwrap();
    assert!(p.matches("x"));
    assert!(!p.matches("/"));
    assert!(!p.matches("\\"));
    assert!(!p.matches(""));
    assert!(!p.matches("xy"));
}

#[test]
fn escape_makes_characters_literal() {
    for c in ['*', '?', '[', '\\', 'a'] {
        let p = Pattern::new(&format!("\\{c}")).unwrap();
        assert!(p.matches(&c.to_string()));
        assert!(!p.matches("b"));
    }
    // a trailing backslash is dropped
    let p = Pattern::new("ab\\").unwrap();
    assert!(p.matches("ab"));
}

#[test]
fn double_star_is_one_star() {
    for text in ["x.rs", ".rs", "a/b.rs", "abc"] {
        assert_eq!(
            Pattern::new("**.rs").unwrap().matches(text),
            Pattern::new("*.rs").unwrap().matches(text)
        );
    }
    assert!(Pattern::new("***").unwrap().matches("abc"));
    for text in ["ab.rs", "a?x.rs", "ab/c.rs", "a.rs", "abx"] {
        assert_eq!(
            Pattern::new("a?**.rs").unwrap().matches(text),
            Pattern::new("a?*.rs").unwrap().matches(text)
        );
    }
}

#[test]
fn negated_class_splits_characters() {
    for c in ['a', 'b', 'z', '0', '/', '-', ']'] {
        let s = c.to_string();
        let pos = Pattern::new("[a-c0]").unwrap().matches(&s);
        assert_ne!(Pattern::new("[!a-c0]").unwrap().matches(&s), pos);
        assert_ne!(Pattern::new("[^a-c0]").unwrap().matches(&s), pos);
    }
}

#[test]
fn class_edge_cases() {
    // `]` first closes the class: an empty class matches nothing
    let p = Pattern::new("[]").unwrap();
    assert!(!p.matches("]"));
    assert!(!p.matches("a"));
    // `-` before the closing `]` is a plain member
    let p = Pattern::new("[a-]").unwrap();
    assert!(p.matches("a"));
    assert!(p.matches("-"));
    assert!(!p.matches("b"));
    // a class may match a separator
    assert!(Pattern::new("a[/]b").unwrap().matches("a/b"));
}

#[test]
fn star_never_takes_a_separator() {
    // `*` matches any run of non-separator characters, wherever it stands
    let p = Pattern::new("*a[!z]*b").unwrap();
    assert!(p.matches("aaa/b"));
    assert!(!p.matches("a/xb/b"));
    let p = Pattern::new("src/*.rs").unwrap();
    assert!(p.matches("src/lib.rs"));
    assert!(!p.matches("src/a/lib.rs"));
}

#[test]
fn matches_path_reads_the_path_text() {
    let p = Pattern::new("src/*.rs").unwrap();
    assert!(p.matches_path(Path::new("src/lib.rs")));
    assert!(!p.matches_path(Path::new("lib.rs")));
}

#[test]
fn clone_keeps_the_pattern() {
    let p = Pattern::new("[a-c]?*.txt").unwrap();
    let q = p.clone();
    assert_eq!(q.as_str(), p.as_str());
    assert!(q.matches("b1xyz.txt"));
    assert!(!q.matches("d1.txt"));
}
