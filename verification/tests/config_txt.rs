use rpi_provision::render::config_txt::{merge, strip, BEGIN, END};

const ORIGINAL: &str = "# original config\ndtparam=audio=on\ncamera_auto_detect=1\n";

fn block(body: &str) -> String {
    format!("{BEGIN}\n{body}{END}\n")
}

#[test]
fn appends_when_absent() {
    let merged = merge(ORIGINAL, &block("[all]\ndtparam=spi=on\n")).unwrap();
    assert!(merged.starts_with(ORIGINAL));
    assert!(merged.contains("dtparam=spi=on"));
    assert!(merged.ends_with(&format!("{END}\n")));
}

#[test]
fn replaces_previous_block() {
    let first = merge(ORIGINAL, &block("[all]\ndtparam=spi=on\n")).unwrap();
    let second = merge(&first, &block("[all]\ndtparam=i2c_arm=on\n")).unwrap();
    assert!(second.contains("dtparam=i2c_arm=on"));
    assert!(!second.contains("dtparam=spi=on"));
    assert_eq!(second.matches(BEGIN).count(), 1);
    assert!(second.starts_with(ORIGINAL));
}

#[test]
fn config_txt_is_idempotent() {
    let body = block("[all]\ndtparam=spi=on\n");
    let once = merge(ORIGINAL, &body).unwrap();
    let twice = merge(&once, &body).unwrap();
    assert_eq!(once, twice);
}

#[test]
fn preserves_content_after_the_block() {
    let with_tail = format!("{}{}# trailing user content\n", ORIGINAL, block("[all]\nx=1\n"));
    let merged = merge(&with_tail, &block("[all]\ny=2\n")).unwrap();
    assert!(merged.contains("# trailing user content"));
    assert!(merged.contains("y=2"));
    assert!(!merged.contains("x=1"));
    // The block always ends up last.
    let block_start = merged.find(BEGIN).unwrap();
    let tail_start = merged.find("# trailing user content").unwrap();
    assert!(tail_start < block_start);
}

#[test]
fn handles_missing_trailing_newline() {
    let merged = merge("dtparam=audio=on", &block("[all]\nx=1\n")).unwrap();
    assert!(merged.starts_with("dtparam=audio=on\n"));
    assert!(merged.ends_with(&format!("{END}\n")));
}

#[test]
fn handles_crlf_markers() {
    let existing = format!("a=1\r\n{BEGIN}\r\nold=1\r\n{END}\r\nb=2\r\n");
    let merged = merge(&existing, &block("[all]\nnew=1\n")).unwrap();
    assert!(!merged.contains("old=1"));
    assert!(merged.contains("new=1"));
    assert!(merged.contains("b=2"));
}

#[test]
fn rejects_unbalanced_markers() {
    assert!(merge(&format!("a=1\n{BEGIN}\nx=1\n"), "block\n").is_err());
    assert!(merge(&format!("a=1\n{END}\n"), "block\n").is_err());
}

#[test]
fn strip_removes_everything_generated() {
    let merged = merge(ORIGINAL, &block("[all]\nx=1\n")).unwrap();
    assert_eq!(strip(&merged).unwrap(), ORIGINAL);
}

#[test]
fn empty_input_yields_only_the_block() {
    let body = block("[all]\nx=1\n");
    assert_eq!(merge("", &body).unwrap(), body);
}

#[test]
fn an_unclosed_block_names_the_closing_marker() {
    let err = merge(&format!("a=1\n{BEGIN}\nx=1\n"), "block\n").unwrap_err();
    assert!(err.contains("closing"), "{err}");
}

#[test]
fn merging_exactly() {
    let existing = format!("a=1\n{}b=2\n", block("old=1\n"));
    assert_eq!(merge(&existing, &block("new=1\n")).unwrap(), format!("a=1\nb=2\n{}", block("new=1\n")));
}

#[test]
fn strip_of_a_file_without_a_block_is_the_identity() {
    assert_eq!(strip(ORIGINAL).unwrap(), ORIGINAL);
}
