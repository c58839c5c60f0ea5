use rpi_provision::render::cmdline::{apply, cleanup_ops, Ops};

const STOCK: &str = "console=serial0,115200 console=tty1 root=PARTUUID=abcd1234-02 \
rootfstype=ext4 fsck.repair=yes rootwait quiet init=/usr/lib/raspberrypi-sys-mods/firstboot\n";

fn hooks() -> Ops {
    Ops {
        remove_prefixes: vec![
            "systemd.run=".into(),
            "systemd.run_success_action=".into(),
            "systemd.unit=".into(),
            "console=serial0".into(),
            "console=ttyAMA0".into(),
            "console=ttyAMA10".into(),
        ],
        remove_tokens: vec![],
        append: vec![
            "systemd.run=/boot/firmware/rpi-provision/firstrun.sh".into(),
            "systemd.run_success_action=reboot".into(),
            "systemd.unit=kernel-command-line.target".into(),
        ],
    }
}

#[test]
fn appends_hooks_and_drops_serial_console() {
    let result = apply(STOCK, &hooks()).unwrap();
    assert!(!result.contains("console=serial0"));
    assert!(result.contains("console=tty1"), "the virtual console must survive");
    assert!(result.contains("root=PARTUUID=abcd1234-02"));
    assert!(result.contains("init=/usr/lib/raspberrypi-sys-mods/firstboot"));
    assert!(result.ends_with("systemd.unit=kernel-command-line.target\n"));
    assert_eq!(result.lines().count(), 1);
}

#[test]
fn cmdline_is_idempotent() {
    let once = apply(STOCK, &hooks()).unwrap();
    let twice = apply(&once, &hooks()).unwrap();
    assert_eq!(once, twice);
}

#[test]
fn replaces_a_previous_runner_path() {
    let mut previous = hooks();
    previous.append[0] = "systemd.run=/boot/firmware/old-dir/firstrun.sh".into();
    let first = apply(STOCK, &previous).unwrap();
    let second = apply(&first, &hooks()).unwrap();
    assert!(!second.contains("old-dir"));
    assert_eq!(second.matches("systemd.run=").count(), 1, "exactly one runner hook");
    assert!(second.contains("systemd.run=/boot/firmware/rpi-provision/firstrun.sh"));
}

#[test]
fn cleanup_removes_only_the_hooks() {
    let applied = apply(STOCK, &hooks()).unwrap();
    let cleaned = apply(&applied, &cleanup_ops()).unwrap();
    assert!(!cleaned.contains("systemd.run"));
    assert!(!cleaned.contains("systemd.unit"));
    assert!(cleaned.contains("root=PARTUUID=abcd1234-02"));
    assert!(cleaned.contains("rootwait"));
}

#[test]
fn adds_a_gpio_console_when_requested() {
    let ops = Ops {
        remove_prefixes: vec!["console=serial0".into(), "console=ttyAMA0".into()],
        remove_tokens: vec![],
        append: vec!["console=ttyAMA0,115200".into()],
    };
    let result = apply(STOCK, &ops).unwrap();
    assert!(result.contains("console=ttyAMA0,115200"));
    assert!(!result.contains("console=serial0"));
}

#[test]
fn removes_explicit_tokens() {
    let ops = Ops { remove_tokens: vec!["quiet".into()], ..Ops::default() };
    let result = apply(STOCK, &ops).unwrap();
    assert!(!result.contains("quiet"));
    assert!(result.contains("rootwait"));
}

#[test]
fn rejects_multi_line_input() {
    assert!(apply("a=1\nb=2\n", &Ops::default()).is_err());
}

#[test]
fn tolerates_missing_trailing_newline_and_extra_spaces() {
    let result = apply("  a=1   b=2  ", &Ops::default()).unwrap();
    assert_eq!(result, "a=1 b=2\n");
}

#[test]
fn an_exact_edit() {
    let ops = Ops {
        remove_prefixes: vec!["console=".into()],
        remove_tokens: vec!["quiet".into()],
        append: vec!["rootwait".into(), "splash".into()],
    };
    assert_eq!(
        apply("console=tty1 root=x quiet rootwait\n", &ops).unwrap(),
        "root=x rootwait splash\n"
    );
}

#[test]
fn the_multi_line_error_names_the_rule() {
    let err = apply("a\nb\n", &Ops::default()).unwrap_err();
    assert!(err.contains("exactly one line"), "{err}");
}

#[test]
fn cleanup_drops_the_three_hook_prefixes() {
    let ops = cleanup_ops();
    assert_eq!(ops.remove_prefixes, vec!["systemd.run=", "systemd.run_success_action=", "systemd.unit="]);
    assert!(ops.remove_tokens.is_empty());
    assert!(ops.append.is_empty());
}

#[test]
fn an_appended_token_that_a_removal_matches_stays_put() {
    let ops = Ops {
        remove_prefixes: vec!["run=".into()],
        remove_tokens: vec![],
        append: vec!["run=A".into(), "q".into()],
    };
    let once = apply("x\n", &ops).unwrap();
    assert_eq!(once, "x run=A q\n");
    assert_eq!(apply(&once, &ops).unwrap(), once);
    assert_eq!(apply("x run=B run=A\n", &ops).unwrap(), "x run=A q\n");
}

#[test]
fn appended_text_is_split_into_words() {
    let ops = Ops { append: vec!["a  b".into(), "".into()], ..Ops::default() };
    let once = apply("x\n", &ops).unwrap();
    assert_eq!(once, "x a b\n");
    assert_eq!(apply(&once, &ops).unwrap(), once);
}
