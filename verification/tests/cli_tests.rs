use frecency::cli::{help, parse_args, Action};
use frecency::error::{Args, Error};

fn parse(args: &[&str]) -> Result<Action, Args> {
    parse_args(args.iter().map(|s| s.to_string()).collect())
}

#[test]
fn parse_no_action() {
    assert!(matches!(parse(&[]), Err(Args::NoAction)));
}

#[test]
fn parse_query() {
    match parse(&["q", "co/ru"]) {
        Ok(Action::Query(q)) => assert_eq!(q, "co/ru"),
        other => panic!("expected Query, got {:?}", other),
    }
}

#[test]
fn parse_access() {
    match parse(&["a", "/tmp"]) {
        Ok(Action::Access(p)) => assert_eq!(p, "/tmp"),
        other => panic!("expected Access, got {:?}", other),
    }
}

#[test]
fn parse_help_both_forms() {
    assert!(matches!(parse(&["h"]), Ok(Action::Help)));
    assert!(matches!(parse(&["-h"]), Ok(Action::Help)));
}

#[test]
fn parse_missing_operand() {
    assert!(matches!(parse(&["q"]), Err(Args::Missing)));
    assert!(matches!(parse(&["a"]), Err(Args::Missing)));
}

#[test]
fn parse_unknown_action() {
    match parse(&["frobnicate", "x"]) {
        Err(Args::UnknownAction(u)) => assert_eq!(u, "frobnicate"),
        other => panic!("expected UnknownAction, got {:?}", other),
    }
}

#[test]
fn help_text_mentions_usage_and_actions() {
    let text = help();
    assert!(text.starts_with("Usage: frecency"));
    assert!(text.contains("q <query>"));
    assert!(text.contains("a <path>"));
    assert!(text.contains("h          Show this help message"));
}

#[test]
fn args_messages() {
    assert_eq!(Args::NoAction.message(), "No action provided");
    assert_eq!(Args::UnknownAction("x".to_string()).message(), "Unknown action provided");
    assert_eq!(Args::Missing.message(), "Missing expected argument");
}

#[test]
fn error_messages() {
    assert_eq!(Error::Resolve.message(), "Failed to resolve data dir");
    assert_eq!(Error::Open.message(), "Failed to open entries");
    assert_eq!(Error::Write.message(), "Failed to write entries");
    assert_eq!(Error::Lock.message(), "Failed to acquire file lock");
    assert_eq!(Error::Init.message(), "Failed to initialize data dir");
    assert_eq!(Error::Encode.message(), "Failed to encode");
    assert_eq!(Error::SystemTime.message(), "Failed to get current time");
    assert_eq!(Error::InvalidPath(b"x".to_vec()).message(), "Invalid path");
    assert_eq!(Error::NotDir(b"x".to_vec()).message(), "Path is not a directory");
}
