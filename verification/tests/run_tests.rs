use dumbo_rs::dumbo_toml::{read_section_lang, value_section_lang};
use dumbo_rs::run::{file_block, output_file_name, parse_dumboignore, section_name, tree_header, Stats};

#[test]
fn dumboignore_skips_blank_lines_and_comments() {
    let text = "# .dumboignore\n\n# directories\ntests_data\n  fixtures  \n\n# files\nCargo.lock\r\nsecrets.toml";
    assert_eq!(parse_dumboignore(text), vec!["tests_data", "fixtures", "Cargo.lock", "secrets.toml"]);
    assert!(parse_dumboignore("").is_empty());
    assert!(parse_dumboignore("  # only a comment\n\t\n").is_empty());
}

#[test]
fn section_names() {
    assert_eq!(section_name("."), "root");
    assert_eq!(section_name("frontend"), "frontend");
    assert_eq!(section_name("./apps/backend"), "backend");
    assert_eq!(section_name("apps/backend/"), "backend");
    assert_eq!(section_name(".."), "root");
}

#[test]
fn output_names() {
    assert_eq!(output_file_name(&vec!["root".to_string()]), "dumbo_output.md");
    assert_eq!(output_file_name(&vec!["frontend".to_string()]), "dumbo_frontend.md");
    assert_eq!(
        output_file_name(&vec!["frontend".to_string(), "backend".to_string()]),
        "dumbo_frontend_backend.md"
    );
    assert_eq!(output_file_name(&vec!["root".to_string(), "api".to_string()]), "dumbo_output_api.md");
}

#[test]
fn tree_header_layout() {
    let h = tree_header("root", ".", "└── main.rs\n");
    assert_eq!(h, "# [root] — .\n\n```\n./\n└── main.rs\n```\n\n# File Contents\n\n");
}

#[test]
fn file_block_layout() {
    let b = file_block("src/main.rs", "fn main() {}\n\n  \n");
    assert_eq!(b, "### `src/main.rs`\n\n```rust\nfn main() {}\n```\n\n");
    let b = file_block("notes", "");
    assert_eq!(b, "### `notes`\n\n```\n\n```\n\n");
}

#[test]
fn stats_count_files_and_bytes() {
    let mut s = Stats::new();
    s.record_file(10);
    s.record_file(0);
    s.record_file(5);
    assert_eq!(s.file_count, 3);
    assert_eq!(s.total_bytes, 15);
    let mut total = Stats::new();
    total.absorb(&s);
    total.absorb(&s);
    assert_eq!(total.file_count, 6);
    assert_eq!(total.total_bytes, 30);
}

#[test]
fn section_lang_from_dumbo_toml() {
    let doc = "[root]\nlang = \"rs\"\n\n[frontend]\nlang = \"ts,js\"\n\n[odd]\nlang = 3\n";
    assert_eq!(read_section_lang(doc, "root"), Some("rs".to_string()));
    assert_eq!(read_section_lang(doc, "frontend"), Some("ts,js".to_string()));
    assert_eq!(read_section_lang(doc, "odd"), None);
    assert_eq!(read_section_lang(doc, "backend"), None);
    assert_eq!(read_section_lang("not [valid", "root"), None);
    assert_eq!(read_section_lang("lang = \"rs\"\n", "lang"), None);
}

#[test]
fn section_lang_from_parsed_value() {
    let v: toml::Value = "[api]\nlang = \"go\"\nname = \"x\"\n".parse().unwrap();
    assert_eq!(value_section_lang(&v, "api"), Some("go".to_string()));
    assert_eq!(value_section_lang(&v, "web"), None);
    let v: toml::Value = "api = \"go\"\n".parse().unwrap();
    assert_eq!(value_section_lang(&v, "api"), None);
}
