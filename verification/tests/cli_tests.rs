use dumbo_rs::cli::{parse_args, Command};

fn args(a: &[&str]) -> Vec<String> {
    a.iter().map(|s| s.to_string()).collect()
}

#[test]
fn help_and_version_win() {
    assert!(matches!(parse_args(&args(&["dumbo", "run", "-h"])), Command::Help));
    assert!(matches!(parse_args(&args(&["dumbo", "--help"])), Command::Help));
    assert!(matches!(parse_args(&args(&["dumbo", "-v"])), Command::Version));
    assert!(matches!(parse_args(&args(&["dumbo", "diff", "--version", "-h"])), Command::Help));
}

#[test]
fn run_directories() {
    match parse_args(&args(&["dumbo", "run"])) {
        Command::Run { dirs, clipboard } => {
            assert_eq!(dirs, vec!["."]);
            assert!(!clipboard);
        }
        _ => panic!("expected run"),
    }
    match parse_args(&args(&["dumbo", "run", "frontend/", "-c", "backend//"])) {
        Command::Run { dirs, clipboard } => {
            assert_eq!(dirs, vec!["frontend", "backend"]);
            assert!(clipboard);
        }
        _ => panic!("expected run"),
    }
}

#[test]
fn diff_commands() {
    match parse_args(&args(&["dumbo", "diff", "abc1234", "backend"])) {
        Command::Diff { commit, dirs, clipboard } => {
            assert_eq!(commit, Some("abc1234".to_string()));
            assert_eq!(dirs, vec!["backend"]);
            assert!(!clipboard);
        }
        _ => panic!("expected diff"),
    }
    match parse_args(&args(&["dumbo", "diff", "--staged", "--clipboard"])) {
        Command::Diff { commit, dirs, clipboard } => {
            assert_eq!(commit, None);
            assert_eq!(dirs, vec!["."]);
            assert!(clipboard);
        }
        _ => panic!("expected diff"),
    }
    assert!(matches!(parse_args(&args(&["dumbo", "diff"])), Command::MissingCommit));
    assert!(matches!(parse_args(&args(&["dumbo", "diff", "-c"])), Command::MissingCommit));
}

#[test]
fn other_commands() {
    match parse_args(&args(&["dumbo", "list"])) {
        Command::List { dir } => assert_eq!(dir, "."),
        _ => panic!("expected list"),
    }
    match parse_args(&args(&["dumbo", "update", "apps"])) {
        Command::Update { dir } => assert_eq!(dir, "apps"),
        _ => panic!("expected update"),
    }
    match parse_args(&args(&["dumbo", "init", "-r", "mono"])) {
        Command::Init { recursive, dir } => {
            assert!(recursive);
            assert_eq!(dir, "mono");
        }
        _ => panic!("expected init"),
    }
    match parse_args(&args(&["dumbo", "init"])) {
        Command::Init { recursive, dir } => {
            assert!(!recursive);
            assert_eq!(dir, ".");
        }
        _ => panic!("expected init"),
    }
    match parse_args(&args(&["dumbo", "frobnicate"])) {
        Command::Unknown { command } => assert_eq!(command, "frobnicate"),
        _ => panic!("expected unknown"),
    }
    match parse_args(&args(&["dumbo"])) {
        Command::Unknown { command } => assert_eq!(command, ""),
        _ => panic!("expected unknown"),
    }
}
