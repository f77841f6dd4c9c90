use dumbo_rs::path::{extension, file_name};
use dumbo_rs::text::{chars_of, is_white_char, line_ranges, split_ranges, str_equal, trimmed};
use std::path::Path;

fn pieces(s: &str, ranges: &[(usize, usize)]) -> Vec<String> {
    let v: Vec<char> = s.chars().collect();
    ranges.iter().map(|&(a, b)| v[a..b].iter().collect()).collect()
}

const SAMPLES: &[&str] = &[
    "",
    "a",
    "\n",
    "\n\n",
    "a\nb",
    "a\nb\n",
    "a\r\nb\r\n",
    "a\r",
    "a\r\r\nb",
    "\r\n",
    "x\n\ny",
    "  lead and trail  ",
    "\u{3000}wide\u{2029}",
    "é\nü\r\n😀",
    ",a,,b,",
];

#[test]
fn white_space_matches_std_for_every_char() {
    for u in 0u32..=0x10FFFF {
        if let Some(c) = char::from_u32(u) {
            assert_eq!(is_white_char(c), c.is_whitespace(), "U+{:04X}", u);
        }
    }
}

#[test]
fn trim_matches_std() {
    for s in SAMPLES {
        assert_eq!(trimmed(s), s.trim());
    }
    assert_eq!(trimmed(" \t rs \n"), "rs");
}

#[test]
fn lines_match_std() {
    for s in SAMPLES {
        let v = chars_of(s);
        let got = pieces(s, &line_ranges(&v));
        let want: Vec<String> = s.lines().map(|l| l.to_string()).collect();
        assert_eq!(got, want, "{:?}", s);
    }
}

#[test]
fn split_matches_std() {
    for s in SAMPLES {
        let v = chars_of(s);
        let got = pieces(s, &split_ranges(&v, ','));
        let want: Vec<String> = s.split(',').map(|l| l.to_string()).collect();
        assert_eq!(got, want, "{:?}", s);
    }
}

#[test]
fn str_equal_compares_text() {
    assert!(str_equal("abc", "abc"));
    assert!(!str_equal("abc", "abd"));
    assert!(!str_equal("ab", "abc"));
    assert!(str_equal("", ""));
}

const PATHS: &[&str] = &[
    "",
    "/",
    ".",
    "..",
    "./",
    "a",
    "a/",
    "a//",
    "a/.",
    "a/./",
    "a/..",
    "/a/b.rs",
    "src/main.rs",
    "./src/lib.rs",
    ".gitignore",
    "dir/.gitignore",
    "archive.tar.gz",
    "name.",
    "...",
    "..a",
    "a..b",
    "/usr/lib/",
    "Makefile",
    "docker-compose.yml",
    "x/y/z.md/",
    "./.",
    "//",
    "é/ü.tsx",
];

#[test]
fn file_name_matches_std_path() {
    for p in PATHS {
        let want = Path::new(p).file_name().map(|n| n.to_str().unwrap().to_string());
        assert_eq!(file_name(p), want, "{:?}", p);
    }
}

#[test]
fn extension_matches_std_path() {
    for p in PATHS {
        let want = Path::new(p).extension().map(|n| n.to_str().unwrap().to_string());
        assert_eq!(extension(p), want, "{:?}", p);
    }
}

#[test]
fn extension_of_hidden_file_is_none() {
    assert_eq!(extension(".gitignore"), None);
    assert_eq!(extension("a.b.rs"), Some("rs".to_string()));
    assert_eq!(file_name("src/a.b.rs"), Some("a.b.rs".to_string()));
}
