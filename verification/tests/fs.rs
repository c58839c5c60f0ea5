use rpi_provision::apply::fs::{validate_relative, BootFs, IoErrorKind, MemBootFs, RealBootFs};

#[test]
fn rejects_escaping_paths() {
    assert!(validate_relative("../etc/passwd").is_err());
    assert!(validate_relative("/etc/passwd").is_err());
    assert!(validate_relative("a/../../b").is_err());
    assert!(validate_relative("a\\b").is_err());
    assert!(validate_relative("").is_err());
    assert!(validate_relative("rpi-provision/steps/10-hostname.sh").is_ok());
}

#[test]
fn memory_filesystem_round_trips() {
    let mut fs = MemBootFs::new();
    assert!(!fs.exists_path("a.txt"));
    fs.write("a.txt", b"hello", false).unwrap();
    assert!(fs.exists_path("a.txt"));
    assert_eq!(fs.read("a.txt").unwrap(), b"hello");
    fs.remove("a.txt").unwrap();
    assert!(!fs.exists_path("a.txt"));
    // Removing something absent is not an error.
    fs.remove("a.txt").unwrap();
}

#[test]
fn memory_filesystem_enforces_path_rules() {
    let mut fs = MemBootFs::new();
    assert!(fs.write("../escape", b"x", false).is_err());
}

#[test]
fn path_errors_carry_their_kind_and_message() {
    let empty = validate_relative("").unwrap_err();
    assert_eq!(empty.kind, IoErrorKind::InvalidInput);
    assert_eq!(empty.message, "empty path");
    let absolute = validate_relative("/etc/passwd").unwrap_err();
    assert_eq!(absolute.message, "`/etc/passwd` must be relative");
    let backslash = validate_relative("a\\b").unwrap_err();
    assert_eq!(backslash.message, "`a\\b` must use `/` as the separator");
    let parent = validate_relative("a/../b").unwrap_err();
    assert_eq!(parent.message, "`a/../b` must not contain `.` or `..`");
    let current = validate_relative("./a").unwrap_err();
    assert_eq!(current.message, "`./a` must not contain `.` or `..`");
    // A dot inside a name is not a component.
    assert_eq!(validate_relative("a/..b/c.txt").unwrap(), "a/..b/c.txt");
}

#[test]
fn reading_a_missing_file_is_not_found() {
    let fs = MemBootFs::new();
    let error = fs.read("missing.txt").unwrap_err();
    assert_eq!(error.kind, IoErrorKind::NotFound);
}

#[test]
fn listing_is_sorted_and_complete() {
    let mut fs = MemBootFs::new();
    fs.put("b.txt", "2");
    fs.put("a/c.txt", "3");
    fs.put("a.txt", "1");
    assert_eq!(fs.list().unwrap(), vec!["a.txt", "a/c.txt", "b.txt"]);
    assert_eq!(fs.paths(), vec!["a.txt", "a/c.txt", "b.txt"]);
}

#[test]
fn the_executable_flag_follows_the_last_write() {
    let mut fs = MemBootFs::new();
    fs.write("run.sh", b"#!/bin/sh\n", true).unwrap();
    assert_eq!(fs.executable("run.sh"), Some(true));
    fs.write("run.sh", b"#!/bin/sh\n", false).unwrap();
    assert_eq!(fs.executable("run.sh"), Some(false));
    fs.put("plain.txt", "x");
    assert_eq!(fs.executable("plain.txt"), None);
    assert_eq!(fs.text("plain.txt"), Some("x".to_string()));
    assert_eq!(fs.get("nothing"), None);
}

#[test]
fn a_duplicate_is_independent() {
    let mut fs = MemBootFs::raspberry_pi_os("a=1\n", "root=x\n");
    let copy = fs.duplicate();
    fs.put("config.txt", "changed\n");
    assert_eq!(copy.text("config.txt"), Some("a=1\n".to_string()));
    assert_eq!(copy.paths(), fs.paths());
}

#[test]
fn a_real_directory_resolves_below_its_root() {
    let fs = RealBootFs::new("/media/boot");
    assert_eq!(fs.root(), "/media/boot");
    assert_eq!(fs.resolve("config.txt").unwrap(), "/media/boot/config.txt");
    assert!(fs.resolve("../x").is_err());
}
