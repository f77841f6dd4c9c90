use dumbo_rs::clipboard::{clipboard_may_be_slow, CLIPBOARD_WARN_BYTES};
use dumbo_rs::config::{format_size, is_included_file, lang_hint, Config};
use dumbo_rs::lang::{find_lang, languages};

fn cfg(s: &str) -> Config {
    Config::from_ext_str(s).ok().unwrap()
}

#[test]
fn find_lang_finds_each_language() {
    let rs = find_lang("rs").unwrap();
    assert_eq!(rs.name, "rs");
    assert_eq!(rs.extensions, &["rs"]);
    assert_eq!(rs.ignored_dirs, &["target", ".git"]);
    let cpp = find_lang("cpp").unwrap();
    assert_eq!(cpp.extensions, &["cpp", "cc", "cxx", "hpp", "h"]);
    for l in languages() {
        assert_eq!(find_lang(l.name).unwrap().name, l.name);
    }
    assert_eq!(languages().len(), 8);
}

#[test]
fn find_lang_rejects_unknown_names() {
    assert!(find_lang("rust").is_none());
    assert!(find_lang("").is_none());
    assert!(find_lang(" rs").is_none());
    assert!(find_lang("RS").is_none());
}

#[test]
fn from_ext_str_single_language() {
    let c = cfg("rs");
    assert_eq!(c.extensions, vec!["rs"]);
    assert_eq!(c.ignored_dirs, vec!["target", ".git"]);
}

#[test]
fn from_ext_str_combines_languages_in_order_without_repeats() {
    let c = cfg("rs,ts");
    assert_eq!(c.extensions, vec!["rs", "ts", "tsx"]);
    assert_eq!(c.ignored_dirs, vec!["target", ".git", "node_modules", "dist"]);
    let c = cfg("c,cpp");
    assert_eq!(c.extensions, vec!["c", "h", "cpp", "cc", "cxx", "hpp"]);
    assert_eq!(c.ignored_dirs, vec!["build", "cmake-build-debug", "cmake-build-release", ".git"]);
}

#[test]
fn from_ext_str_trims_names() {
    let c = cfg(" py , js ");
    assert_eq!(c.extensions, vec!["py", "js", "jsx"]);
    assert_eq!(c.ignored_dirs, vec!["__pycache__", "venv", ".venv", ".git", "node_modules", "dist"]);
}

#[test]
fn from_ext_str_naming_twice_changes_nothing() {
    let a = cfg("go");
    let b = cfg("go,go");
    assert_eq!(a.extensions, b.extensions);
    assert_eq!(a.ignored_dirs, b.ignored_dirs);
}

#[test]
fn from_ext_str_reports_first_unknown_name() {
    assert_eq!(Config::from_ext_str("xx").err(), Some("xx".to_string()));
    assert_eq!(Config::from_ext_str("rs, kotlin ,zz").err(), Some("kotlin".to_string()));
    assert_eq!(Config::from_ext_str("rs,").err(), Some("".to_string()));
    assert_eq!(Config::from_ext_str("").err(), Some("".to_string()));
}

#[test]
fn universal_lists() {
    assert_eq!(
        Config::universal_files(),
        &["Dockerfile", "docker-compose.yml", "docker-compose.yaml", "Makefile"]
    );
    assert_eq!(Config::universal_extensions(), &["yaml", "yml", "md", "toml"]);
}

#[test]
fn is_included_file_follows_languages_and_universal_files() {
    let c = cfg("rs");
    assert!(is_included_file("src/main.rs", &c));
    assert!(is_included_file("Dockerfile", &c));
    assert!(is_included_file("deploy/docker-compose.yaml", &c));
    assert!(is_included_file("Cargo.toml", &c));
    assert!(is_included_file("README.md", &c));
    assert!(is_included_file("ci.yml", &c));
    assert!(!is_included_file("main.py", &c));
    assert!(!is_included_file("Cargo.lock", &c));
    assert!(!is_included_file(".rs", &c));
    assert!(!is_included_file("noext", &c));
    let t = cfg("ts");
    assert!(is_included_file("App.tsx", &t));
    assert!(!is_included_file("main.rs", &t));
}

#[test]
fn lang_hint_by_extension() {
    assert_eq!(lang_hint("a/b.rs"), "rust");
    assert_eq!(lang_hint("x.py"), "python");
    assert_eq!(lang_hint("x.jsx"), "javascript");
    assert_eq!(lang_hint("x.ts"), "typescript");
    assert_eq!(lang_hint("x.go"), "go");
    assert_eq!(lang_hint("X.java"), "java");
    assert_eq!(lang_hint("x.h"), "c");
    assert_eq!(lang_hint("x.hpp"), "cpp");
    assert_eq!(lang_hint("Cargo.toml"), "toml");
    assert_eq!(lang_hint("c.yml"), "yaml");
    assert_eq!(lang_hint("README.md"), "markdown");
    assert_eq!(lang_hint("Makefile"), "");
    assert_eq!(lang_hint("x.txt"), "");
}

fn reference_size(bytes: u64) -> String {
    if bytes < 1024 {
        format!("{} B", bytes)
    } else if bytes < 1024 * 1024 {
        format!("{:.1} KB", bytes as f64 / 1024.0)
    } else {
        format!("{:.1} MB", bytes as f64 / (1024.0 * 1024.0))
    }
}

#[test]
fn format_size_examples() {
    assert_eq!(format_size(0), "0 B");
    assert_eq!(format_size(1023), "1023 B");
    assert_eq!(format_size(1024), "1.0 KB");
    assert_eq!(format_size(1536), "1.5 KB");
    assert_eq!(format_size(1024 * 1024), "1.0 MB");
    assert_eq!(format_size(10 * 1024 * 1024 + 512 * 1024), "10.5 MB");
}

#[test]
fn format_size_rounds_halves_to_even() {
    assert_eq!(format_size(1280), "1.2 KB");
    assert_eq!(format_size(1792), "1.8 KB");
}

#[test]
fn format_size_matches_float_formatting() {
    let mut samples: Vec<u64> = Vec::new();
    for b in 0..300_000u64 {
        samples.push(b);
    }
    for b in (300_000..3_000_000u64).step_by(7) {
        samples.push(b);
    }
    let mut x: u64 = 0x9E37_79B9_7F4A_7C15;
    for _ in 0..200_000 {
        x ^= x << 13;
        x ^= x >> 7;
        x ^= x << 17;
        samples.push(x);
        samples.push(x >> (x % 64));
    }
    for k in 0..64u32 {
        let p = 1u64 << k;
        samples.push(p);
        samples.push(p.wrapping_sub(1));
        samples.push(p.wrapping_add(1));
        samples.push(p + (p >> 1));
    }
    samples.push(u64::MAX);
    samples.push((1u64 << 53) + 1);
    samples.push((1u64 << 54) + 2);
    samples.push((1u64 << 54) + 6);
    for b in samples {
        assert_eq!(format_size(b), reference_size(b), "{}", b);
    }
}

#[test]
fn clipboard_warning_threshold() {
    assert_eq!(CLIPBOARD_WARN_BYTES, 512_000);
    assert!(!clipboard_may_be_slow(512_000));
    assert!(clipboard_may_be_slow(512_001));
    assert!(!clipboard_may_be_slow(0));
}
