use dumbo_rs::diff::{
    changed_file_block, changed_paths, commit_object, diff_args, diff_document, diff_label, diff_output_name,
    diff_text, diff_title, stat_text, with_line_numbers, DiffQuery,
};

fn reference_numbers(content: &str) -> String {
    content.lines().enumerate().map(|(i, line)| format!("{:4} | {}", i + 1, line)).collect::<Vec<_>>().join("\n")
}

#[test]
fn line_numbers_examples() {
    assert_eq!(with_line_numbers("a\nb"), "   1 | a\n   2 | b");
    assert_eq!(with_line_numbers(""), "");
    assert_eq!(with_line_numbers("x\r\ny\n"), "   1 | x\n   2 | y");
}

#[test]
fn line_numbers_match_reference() {
    let mut long = String::new();
    for i in 0..12_005 {
        long.push_str(&format!("line {}\n", i));
    }
    for s in ["", "\n", "a\n\nb", "a\r", "one\r\ntwo\r\n\r\n", long.as_str()] {
        assert_eq!(with_line_numbers(s), reference_numbers(s));
    }
}

#[test]
fn titles() {
    assert_eq!(diff_title(Some("abc1234")), "# Diff since `abc1234`\n\n");
    assert_eq!(diff_title(None), "# Staged changes\n\n");
}

#[test]
fn labels_and_names() {
    assert_eq!(diff_label(Some("abc1234")), "abc1234");
    assert_eq!(diff_label(Some("0123456789abcdef")), "01234567");
    assert_eq!(diff_label(None), "staged");
    assert_eq!(diff_label(Some("main~3")), "main~3");
    assert_eq!(diff_output_name("abc1234"), "dumbo_diff_abc1234.md");
    assert_eq!(diff_output_name(&diff_label(None)), "dumbo_diff_staged.md");
}

#[test]
fn stat_and_diff_texts() {
    assert_eq!(stat_text("  \n"), "");
    assert_eq!(stat_text(" a | 2 +-\n"), " a | 2 +-\n");
    assert_eq!(diff_text(Some("abc"), "\n\n"), "No differences found between abc and current state.\n");
    assert_eq!(diff_text(None, ""), "No staged changes.\n");
    assert_eq!(diff_text(None, "diff --git a b\n"), "diff --git a b\n");
}

#[test]
fn changed_path_lines() {
    assert_eq!(changed_paths("src/a.rs\n  b.py \n\nc\r\n"), vec!["src/a.rs", "b.py", "", "c"]);
    assert!(changed_paths("").is_empty());
}

#[test]
fn git_arguments() {
    assert_eq!(diff_args(DiffQuery::Stat, Some("abc"), "."), vec!["diff", "--stat", "abc", "--", "."]);
    assert_eq!(diff_args(DiffQuery::Patch, None, "web"), vec!["diff", "--staged", "--", "web"]);
    assert_eq!(diff_args(DiffQuery::Names, None, "."), vec!["diff", "--name-only", "--staged", "--", "."]);
    assert_eq!(commit_object("HEAD~1"), "HEAD~1^{commit}");
}

#[test]
fn changed_file_layout() {
    let b = changed_file_block("a.py", "x = 1\ny = 2\n\n");
    assert_eq!(b, "### `a.py`\n\n```python\n   1 | x = 1\n   2 | y = 2\n```\n\n");
}

#[test]
fn diff_document_sections() {
    let stats = vec![" a.rs | 2 +-\n".to_string(), "".to_string()];
    let diffs = vec!["-x\n+y\n".to_string(), "".to_string()];
    let changed = vec![vec![("src/a.rs".to_string(), "fn a() {}\n".to_string())], vec![]];
    let doc = diff_document(Some("abc1234"), &stats, &diffs, &changed);
    let want = format!(
        "# Diff since `abc1234`\n\n## Summary\n\n```\n a.rs | 2 +-\n```\n\n## Changes\n\n```diff\n-x\n+y\n```\n\n## Current state of changed files\n\n{}_No changed files._\n\n",
        changed_file_block("src/a.rs", "fn a() {}\n")
    );
    assert_eq!(doc, want);
    assert_eq!(
        diff_document(None, &Vec::new(), &Vec::new(), &Vec::new()),
        "# Staged changes\n\n## Summary\n\n```\n```\n\n## Changes\n\n```diff\n```\n\n## Current state of changed files\n\n"
    );
}
