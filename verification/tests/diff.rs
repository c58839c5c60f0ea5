use rpi_provision::apply::diff::unified;

#[test]
fn identical_input_has_no_diff() {
    assert_eq!(unified("a\nb\n", "a\nb\n"), None);
}

#[test]
fn shows_insertions_and_deletions() {
    let diff = unified("a\nb\nc\n", "a\nB\nc\n").unwrap();
    assert!(diff.contains("- b"));
    assert!(diff.contains("+ B"));
    assert!(diff.contains("  a"));
    assert!(diff.contains("  c"));
}

#[test]
fn pure_append_is_reported_as_insertions() {
    let diff = unified("a\n", "a\nb\n").unwrap();
    assert!(diff.contains("+ b"));
    assert!(!diff.contains("- "));
}

#[test]
fn elides_distant_unchanged_lines() {
    let before: String = (0..40).map(|n| format!("line{n}\n")).collect();
    let after = before.replace("line20", "CHANGED");
    let diff = unified(&before, &after).unwrap();
    assert!(diff.contains("unchanged line(s)"));
    assert!(diff.contains("+ CHANGED"));
    assert!(diff.contains("- line20"));
    assert!(!diff.contains("line0\n"), "distant lines must be elided");
}

#[test]
fn creation_from_empty() {
    let diff = unified("", "a\nb\n").unwrap();
    assert!(diff.contains("+ a"));
    assert!(diff.contains("+ b"));
}

#[test]
fn oversized_files_fall_back_to_a_summary() {
    let before: String = (0..rpi_provision::apply::diff::MAX_LINES + 1).map(|n| format!("{n}\n")).collect();
    let diff = unified(&before, "x\n").unwrap();
    assert!(diff.contains("too large to diff"));
}

#[test]
fn a_changed_line_shows_exact_hunk() {
    let diff = unified("a\nb\nc\n", "a\nB\nc\n").unwrap();
    assert_eq!(diff, "  a\n- b\n+ B\n  c\n");
}
