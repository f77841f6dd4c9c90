use dumbo_rs::config::Config;
use dumbo_rs::tree::{gathered_files, generate_tree, is_listed, join_path_exec, name_less, tree_order_exec, TreeEntry};

fn file(name: &str) -> TreeEntry {
    TreeEntry { name: name.to_string(), is_dir: false, children: Vec::new() }
}

fn dir(name: &str, children: Vec<TreeEntry>) -> TreeEntry {
    TreeEntry { name: name.to_string(), is_dir: true, children }
}

fn rs() -> Config {
    Config::from_ext_str("rs").ok().unwrap()
}

#[test]
fn tree_lists_directories_first_then_by_name() {
    let entries = vec![
        file("README.md"),
        file("Cargo.toml"),
        dir("src", vec![file("main.rs"), file("lib.rs"), file("notes.txt")]),
        dir("target", vec![file("build.rs")]),
        file("Cargo.lock"),
        dir("docs", vec![]),
    ];
    let t = generate_tree(&entries, "", &rs(), &Vec::new());
    let want = "├── docs/\n\
                ├── src/\n\
                │   ├── lib.rs\n\
                │   └── main.rs\n\
                ├── Cargo.toml\n\
                └── README.md\n";
    assert_eq!(t, want);
}

#[test]
fn tree_nests_prefixes() {
    let entries = vec![
        dir("a", vec![dir("b", vec![file("x.rs")]), file("y.rs")]),
        dir("c", vec![file("z.rs")]),
    ];
    let t = generate_tree(&entries, "> ", &rs(), &Vec::new());
    let want = "> ├── a/\n\
                > │   ├── b/\n\
                > │   │   └── x.rs\n\
                > │   └── y.rs\n\
                > └── c/\n\
                >     └── z.rs\n";
    assert_eq!(t, want);
}

#[test]
fn tree_leaves_out_extra_ignored_names() {
    let entries = vec![dir("fixtures", vec![file("a.rs")]), file("secret.toml"), file("ok.rs")];
    let extra = vec!["fixtures".to_string(), "secret.toml".to_string()];
    let t = generate_tree(&entries, "", &rs(), &extra);
    assert_eq!(t, "└── ok.rs\n");
}

#[test]
fn tree_of_empty_listing_is_empty() {
    assert_eq!(generate_tree(&Vec::new(), "", &rs(), &Vec::new()), "");
}

#[test]
fn order_is_by_code_point() {
    assert!(name_less("B", "a"));
    assert!(name_less("a", "ab"));
    assert!(!name_less("ab", "ab"));
    assert!(name_less("z", "é"));
    let entries = vec![file("b.rs"), file("B.rs"), file("a.rs"), dir("z", vec![])];
    let ord = tree_order_exec(&entries, &rs(), &Vec::new());
    assert_eq!(ord, vec![3, 1, 2, 0]);
}

#[test]
fn listed_entries() {
    let c = rs();
    let none: Vec<String> = Vec::new();
    assert!(is_listed("src", true, &c, &none));
    assert!(!is_listed("target", true, &c, &none));
    assert!(!is_listed(".git", true, &c, &none));
    assert!(is_listed("main.rs", false, &c, &none));
    assert!(!is_listed("main.py", false, &c, &none));
    assert!(!is_listed("main.rs", false, &c, &vec!["main.rs".to_string()]));
}

#[test]
fn join_path_adds_one_separator() {
    assert_eq!(join_path_exec("a", "b"), "a/b");
    assert_eq!(join_path_exec("a/", "b"), "a/b");
    assert_eq!(join_path_exec("", "b"), "b");
    assert_eq!(join_path_exec(".", "src"), "./src");
}

#[test]
fn gathered_files_in_listing_order() {
    let entries = vec![
        file("README.md"),
        dir("src", vec![file("main.rs"), file("notes.txt"), file("lib.rs")]),
        dir("target", vec![file("build.rs")]),
        file("Cargo.toml"),
    ];
    let paths = gathered_files(&entries, ".", &rs(), &Vec::new());
    assert_eq!(paths, vec!["./README.md", "./src/main.rs", "./src/lib.rs", "./Cargo.toml"]);
    let nested = gathered_files(&entries, "proj/", &rs(), &vec!["lib.rs".to_string()]);
    assert_eq!(nested, vec!["proj/README.md", "proj/src/main.rs", "proj/Cargo.toml"]);
    assert_eq!(gathered_files(&Vec::new(), ".", &rs(), &Vec::new()), Vec::<String>::new());
}

#[test]
fn tree_shows_exactly_the_gathered_files() {
    let entries = vec![
        file("b.rs"),
        dir("z", vec![file("y.rs"), dir("deep", vec![file("x.rs"), file("skip.py")])]),
        file("a.rs"),
        dir("node", vec![file("n.rs")]),
    ];
    let extra = vec!["node".to_string()];
    let mut paths = gathered_files(&entries, "", &rs(), &extra);
    assert_eq!(paths, vec!["b.rs", "z/y.rs", "z/deep/x.rs", "a.rs"]);
    let t = generate_tree(&entries, "", &rs(), &extra);
    let want = "├── z/\n\
                │   ├── deep/\n\
                │   │   └── x.rs\n\
                │   └── y.rs\n\
                ├── a.rs\n\
                └── b.rs\n";
    assert_eq!(t, want);
    paths.sort();
    assert_eq!(paths, vec!["a.rs", "b.rs", "z/deep/x.rs", "z/y.rs"]);
}
