use wire_core::error::Error;
use wire_core::node::{
    confirm_matches, default_policy, gate_needs_confirm, optional, parse_policy, parse_ttl, require, require_name,
    DEFAULT_MAX_FRAME,
};

fn args(words: &[&str]) -> Vec<String> {
    words.iter().map(|w| w.to_string()).collect()
}

#[test]
fn flags_are_read_by_name() {
    let a = args(&["--vault", "/tmp/v", "--name", "bot-1", "--ttl"]);
    assert_eq!(optional(&a, "vault"), Some("/tmp/v".to_string()));
    assert_eq!(optional(&a, "ttl"), None);
    assert_eq!(optional(&a, "missing"), None);
    assert_eq!(require(&a, "name").unwrap(), "bot-1");
    assert!(matches!(require(&a, "channel"), Err(Error::MissingFlag(n)) if n == "channel"));
}

#[test]
fn runtime_names_are_checked() {
    assert_eq!(require_name(&args(&["--name", "Agent_7-b"])).unwrap(), "Agent_7-b");
    assert!(matches!(require_name(&args(&["--name", "bad name"])), Err(Error::BadRuntimeName)));
    assert!(matches!(require_name(&args(&["--name", "a/b"])), Err(Error::BadRuntimeName)));
    let long = "x".repeat(65);
    assert!(matches!(require_name(&args(&["--name", &long])), Err(Error::BadRuntimeName)));
    let max = "y".repeat(64);
    assert_eq!(require_name(&args(&["--name", &max])).unwrap(), max);
    assert!(matches!(require_name(&args(&["--vault", "v"])), Err(Error::MissingFlag(n)) if n == "name"));
}

#[test]
fn ttl_takes_units() {
    assert_eq!(parse_ttl("90").unwrap(), 90);
    assert_eq!(parse_ttl("90s").unwrap(), 90);
    assert_eq!(parse_ttl("2m").unwrap(), 120);
    assert_eq!(parse_ttl("2h").unwrap(), 7200);
    assert_eq!(parse_ttl("+3").unwrap(), 3);
    assert_eq!(parse_ttl("18446744073709551615h").unwrap(), u64::MAX);
    assert!(matches!(parse_ttl("x"), Err(Error::BadTtl)));
    assert!(matches!(parse_ttl("h"), Err(Error::BadTtl)));
    assert!(matches!(parse_ttl(""), Err(Error::BadTtl)));
    assert!(matches!(parse_ttl("-1"), Err(Error::BadTtl)));
}

#[test]
fn policy_file_sets_limit_and_gates() {
    let p = parse_policy("# node policy\n\n  max_frame_bytes 32  \r\nconfirm share-identity\nconfirm receipt-proceed\n")
        .unwrap();
    assert_eq!(p.max_frame_bytes, 32);
    assert_eq!(p.confirm, vec!["share-identity".to_string(), "receipt-proceed".to_string()]);
    assert!(gate_needs_confirm(&p, "share-identity"));
    assert!(gate_needs_confirm(&p, "receipt-proceed"));
    assert!(!gate_needs_confirm(&p, "receipt-accept"));
    let d = default_policy();
    assert_eq!(d.max_frame_bytes, DEFAULT_MAX_FRAME);
    assert_eq!(d.max_frame_bytes, 4 * 1024 * 1024);
    let empty = parse_policy("").unwrap();
    assert_eq!(empty.max_frame_bytes, DEFAULT_MAX_FRAME);
    assert!(empty.confirm.is_empty());
}

#[test]
fn policy_file_faults() {
    assert!(matches!(parse_policy("confirm"), Err(Error::BadPolicyLine(l)) if l == "confirm"));
    assert!(matches!(parse_policy("confirm a b"), Err(Error::BadPolicyLine(l)) if l == "confirm a b"));
    assert!(matches!(parse_policy("max_frame_bytes lots"), Err(Error::BadMaxFrameBytes)));
    assert!(matches!(parse_policy("confirm launch"), Err(Error::UnknownConfirmGate(v)) if v == "launch"));
    assert!(matches!(parse_policy("speed 3"), Err(Error::UnknownPolicyKey(k)) if k == "speed"));
}

#[test]
fn confirm_tokens_compare_trimmed() {
    assert!(confirm_matches("  abc123\n", "abc123"));
    assert!(confirm_matches("abc123", "\tabc123 \n"));
    assert!(!confirm_matches("abc124", "abc123"));
    assert!(!confirm_matches("", "abc123"));
}
