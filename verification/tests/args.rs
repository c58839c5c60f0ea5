use rpi_provision::cli::args::{parse, Command, Invocation, UsageError};

fn arguments(list: &[&str]) -> Vec<String> {
    list.iter().map(|s| s.to_string()).collect()
}

fn parsed(list: &[&str]) -> Invocation {
    parse(&arguments(list)).unwrap()
}

fn refused(list: &[&str]) -> UsageError {
    parse(&arguments(list)).unwrap_err()
}

#[test]
fn no_arguments_shows_help() {
    assert_eq!(parsed(&[]).command, Command::Help);
}

#[test]
fn parses_validate() {
    assert_eq!(parsed(&["validate", "pi.toml"]).command, Command::Validate { spec: "pi.toml".to_string() });
}

#[test]
fn parses_apply_with_options() {
    let invocation = parsed(&[
        "apply",
        "pi.toml",
        "--boot",
        "/media/bootfs",
        "--yes",
        "--set",
        "system.hostname=other",
        "--set-secret",
        "user.password_hash=env:HASH",
    ]);
    assert_eq!(
        invocation.command,
        Command::Apply { spec: "pi.toml".into(), boot: "/media/bootfs".into() }
    );
    assert!(invocation.options.yes);
    assert_eq!(invocation.options.sets, vec!["system.hostname=other"]);
    assert_eq!(invocation.options.set_secrets, vec!["user.password_hash=env:HASH"]);
}

#[test]
fn options_may_precede_the_command() {
    let invocation = parsed(&["--quiet", "validate", "pi.toml"]);
    assert!(invocation.options.quiet);
    assert_eq!(invocation.command, Command::Validate { spec: "pi.toml".into() });
}

#[test]
fn repeated_sets_accumulate() {
    let invocation = parsed(&["validate", "pi.toml", "--set", "a=1", "--set", "b=2"]);
    assert_eq!(invocation.options.sets, vec!["a=1", "b=2"]);
}

#[test]
fn apply_requires_boot() {
    assert!(parse(&arguments(&["apply", "pi.toml"])).is_err());
}

#[test]
fn render_requires_out() {
    assert!(parse(&arguments(&["render", "pi.toml"])).is_err());
}

#[test]
fn rejects_unknown_option_and_command() {
    assert!(parse(&arguments(&["validate", "pi.toml", "--nope"])).is_err());
    assert!(parse(&arguments(&["frobnicate"])).is_err());
}

#[test]
fn rejects_a_missing_option_value() {
    let err = refused(&["apply", "pi.toml", "--boot"]);
    assert!(err.0.contains("needs a value"));
}

#[test]
fn rejects_extra_positionals() {
    let err = refused(&["validate", "a.toml", "b.toml"]);
    assert!(err.0.contains("takes one specification file"));
}

#[test]
fn help_and_version_short_circuit() {
    assert_eq!(parsed(&["apply", "--help"]).command, Command::Help);
    assert_eq!(parsed(&["--version"]).command, Command::Version);
    assert_eq!(parsed(&["version"]).command, Command::Version);
}

#[test]
fn every_command_is_recognised() {
    assert_eq!(parsed(&["detect"]).command, Command::Detect);
    assert_eq!(parsed(&["help"]).command, Command::Help);
    assert_eq!(
        parsed(&["render", "pi.toml", "--out", "out"]).command,
        Command::Render { spec: "pi.toml".into(), out: "out".into() }
    );
    assert_eq!(
        parsed(&["diff", "pi.toml", "--boot", "/b"]).command,
        Command::Diff { spec: "pi.toml".into(), boot: "/b".into() }
    );
    assert_eq!(
        parsed(&["revert", "pi.toml", "--boot", "/b"]).command,
        Command::Revert { spec: "pi.toml".into(), boot: "/b".into() }
    );
}

#[test]
fn flags_set_their_options() {
    let invocation = parsed(&[
        "apply",
        "pi.toml",
        "--boot",
        "/b",
        "-y",
        "-v",
        "--allow-unverified-boot",
        "--ignore-conflicts",
    ]);
    assert!(invocation.options.yes);
    assert!(invocation.options.verbose);
    assert!(invocation.options.allow_unverified_boot);
    assert!(invocation.options.ignore_conflicts);
    assert!(!invocation.options.quiet);
}

#[test]
fn a_lone_dash_is_a_value() {
    let invocation = parsed(&["render", "pi.toml", "--out", "-"]);
    assert_eq!(invocation.command, Command::Render { spec: "pi.toml".into(), out: "-".into() });
}
