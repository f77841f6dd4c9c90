use dumbo_rs::cli::{parse_args, Command};
use dumbo_rs::config::{format_size, is_included_file, lang_hint, Config};
use dumbo_rs::lang::{find_lang, languages};
use dumbo_rs::path::{extension, file_name};
use dumbo_rs::run::{output_file_name, section_name};
use dumbo_rs::tree::{generate_tree, is_listed, TreeEntry};

fn cfg(s: &str) -> Config {
    Config::from_ext_str(s).ok().unwrap()
}

#[test]
fn supported_language_table() {
    let want: &[(&str, &[&str], &[&str])] = &[
        ("rs", &["rs"], &["target", ".git"]),
        ("py", &["py"], &["__pycache__", "venv", ".venv", ".git"]),
        ("js", &["js", "jsx"], &["node_modules", "dist", ".git"]),
        ("ts", &["ts", "tsx"], &["node_modules", "dist", ".git"]),
        ("go", &["go"], &["vendor", ".git"]),
        ("java", &["java"], &["target", "build", ".gradle", ".git"]),
        ("c", &["c", "h"], &["build", "cmake-build-debug", "cmake-build-release", ".git"]),
        ("cpp", &["cpp", "cc", "cxx", "hpp", "h"], &["build", "cmake-build-debug", "cmake-build-release", ".git"]),
    ];
    assert_eq!(languages().len(), want.len());
    for (l, (name, exts, dirs)) in languages().iter().zip(want) {
        assert_eq!(l.name, *name);
        assert_eq!(l.extensions, *exts);
        assert_eq!(l.ignored_dirs, *dirs);
        let c = cfg(name);
        assert_eq!(c.extensions, exts.to_vec());
        assert_eq!(c.ignored_dirs, dirs.to_vec());
        assert_eq!(find_lang(name).unwrap().name, *name);
    }
}

#[test]
fn every_language_at_once_lists_each_name_once() {
    let c = cfg("rs,py,js,ts,go,java,c,cpp");
    let mut e = c.extensions.clone();
    e.sort();
    e.dedup();
    assert_eq!(e.len(), c.extensions.len());
    let mut d = c.ignored_dirs.clone();
    d.sort();
    d.dedup();
    assert_eq!(d.len(), c.ignored_dirs.len());
    assert_eq!(c.extensions, vec!["rs", "py", "js", "jsx", "ts", "tsx", "go", "java", "c", "h", "cpp", "cc", "cxx", "hpp"]);
}

#[test]
fn more_languages_add_at_the_end() {
    let a = cfg("rs");
    let b = cfg("rs,java");
    assert_eq!(&b.extensions[..a.extensions.len()], &a.extensions[..]);
    assert_eq!(&b.ignored_dirs[..a.ignored_dirs.len()], &a.ignored_dirs[..]);
    assert_eq!(b.ignored_dirs, vec!["target", ".git", "build", ".gradle"]);
}

#[test]
fn extension_ends_the_file_name() {
    for p in ["a/b.tar.gz", "x.", "...", "dir/file.rs", "a..b"] {
        let n = file_name(p).unwrap();
        let e = extension(p).unwrap();
        assert!(n.ends_with(&format!(".{}", e)));
        assert!(!e.contains('.'));
        assert!(!n.contains('/'));
    }
}

#[test]
fn universal_files_whatever_the_language() {
    for lang in ["rs", "py", "go", "c"] {
        let c = cfg(lang);
        for f in ["Dockerfile", "a/docker-compose.yml", "docker-compose.yaml", "Makefile", "x.yaml", "y.yml", "z.md", "w.toml"] {
            assert!(is_included_file(f, &c), "{} under {}", f, lang);
        }
    }
}

#[test]
fn extra_ignored_names_apply_at_every_depth() {
    let extra = vec!["fixtures".to_string()];
    let c = cfg("rs");
    assert!(!is_listed("fixtures", true, &c, &extra));
    assert!(!is_listed("fixtures", false, &c, &extra));
    let entries = vec![TreeEntry {
        name: "src".to_string(),
        is_dir: true,
        children: vec![
            TreeEntry { name: "fixtures".to_string(), is_dir: true, children: Vec::new() },
            TreeEntry { name: "lib.rs".to_string(), is_dir: false, children: Vec::new() },
        ],
    }];
    assert_eq!(generate_tree(&entries, "", &c, &extra), "└── src/\n    └── lib.rs\n");
}

#[test]
fn size_below_two_to_fifty_three_is_exact() {
    let b: u64 = (1 << 53) - 1;
    assert_eq!(format_size(b), format!("{:.1} MB", b as f64 / (1024.0 * 1024.0)));
}

fn run_output_for(argv: &[&str]) -> (String, bool) {
    let args: Vec<String> = argv.iter().map(|s| s.to_string()).collect();
    match parse_args(&args) {
        Command::Run { dirs, clipboard } => {
            let sections: Vec<String> = dirs.iter().map(|d| section_name(d)).collect();
            (output_file_name(&sections), clipboard)
        }
        _ => panic!("expected run"),
    }
}

#[test]
fn help_examples_of_run() {
    assert_eq!(run_output_for(&["dumbo", "run"]), ("dumbo_output.md".to_string(), false));
    assert_eq!(run_output_for(&["dumbo", "run", "frontend"]), ("dumbo_frontend.md".to_string(), false));
    assert_eq!(
        run_output_for(&["dumbo", "run", "frontend", "backend", "-c"]),
        ("dumbo_frontend_backend.md".to_string(), true)
    );
}

fn first_occurrences(lists: &[&[&'static str]]) -> Vec<&'static str> {
    let mut out: Vec<&'static str> = Vec::new();
    for list in lists {
        for x in list.iter() {
            if !out.contains(x) {
                out.push(x);
            }
        }
    }
    out
}

#[test]
fn config_is_first_occurrences_of_the_named_lists() {
    let names = ["cpp", "c", "java", "rs"];
    let langs: Vec<_> = names.iter().map(|n| find_lang(n).unwrap()).collect();
    let exts: Vec<&[&'static str]> = langs.iter().map(|l| l.extensions).collect();
    let dirs: Vec<&[&'static str]> = langs.iter().map(|l| l.ignored_dirs).collect();
    let c = cfg("cpp,c,java,rs");
    assert_eq!(c.extensions, first_occurrences(&exts));
    assert_eq!(c.ignored_dirs, first_occurrences(&dirs));
    assert_eq!(c.extensions, vec!["cpp", "cc", "cxx", "hpp", "h", "c", "java", "rs"]);
    assert_eq!(c.ignored_dirs, vec!["build", "cmake-build-debug", "cmake-build-release", ".git", "target", ".gradle"]);
}

#[test]
fn repeating_the_whole_list_changes_nothing() {
    for s in ["rs", "rs,ts", "py, go", "c,cpp,java", "js,ts,js"] {
        let once = cfg(s);
        let twice = cfg(&format!("{},{}", s, s));
        assert_eq!(once.extensions, twice.extensions);
        assert_eq!(once.ignored_dirs, twice.ignored_dirs);
    }
    assert_eq!(Config::from_ext_str("rs,nope,rs,nope").err(), Some("nope".to_string()));
}

#[test]
fn universal_files_under_any_parent() {
    for c in ["rs", "py", "go,java"] {
        let config = cfg(c);
        for p in ["Dockerfile", "docker-compose.yml", "docker-compose.yaml", "Makefile", "a.yaml", "a.yml", "Cargo.toml", "README.md"] {
            assert!(is_included_file(p, &config));
            assert!(is_included_file(&format!("svc/api/{}", p), &config));
            assert!(is_included_file(&format!("./{}", p), &config));
        }
    }
}

#[test]
fn every_listed_extension_has_a_hint() {
    let allowed = ["rust", "python", "javascript", "typescript", "go", "java", "c", "cpp", "toml", "yaml", "markdown", ""];
    for l in languages() {
        for e in l.extensions {
            let h = lang_hint(&format!("f.{}", e));
            assert!(!h.is_empty());
            assert!(allowed.contains(&h));
        }
    }
    for e in Config::universal_extensions() {
        assert!(!lang_hint(&format!("dir/f.{}", e)).is_empty());
    }
    assert_eq!(lang_hint("f.txt"), "");
    assert_eq!(lang_hint("Makefile"), "");
}
