use rpi_provision::apply::fs::MemBootFs;
use rpi_provision::cli::detect::{candidates, inspect, unescape, Candidate};

#[test]
fn recognises_a_pi5_boot_partition() {
    let mut fs = MemBootFs::new();
    fs.put("config.txt", "");
    fs.put("cmdline.txt", "");
    fs.put("bcm2712-rpi-5-b.dtb", "");
    let candidate = inspect("/media/pi5", &fs).unwrap();
    assert_eq!(candidate.model, Some("Raspberry Pi 5"));
    assert_eq!(candidate.path, "/media/pi5");
}

#[test]
fn reports_an_unknown_model_without_a_blob() {
    let mut fs = MemBootFs::new();
    fs.put("config.txt", "");
    fs.put("cmdline.txt", "");
    assert_eq!(inspect("/media/unknown", &fs).unwrap().model, None);
}

#[test]
fn ignores_an_unrelated_directory() {
    let mut fs = MemBootFs::new();
    fs.put("notes.txt", "");
    assert!(inspect("/media/unrelated", &fs).is_none());
}

#[test]
fn the_most_recent_model_wins() {
    let mut fs = MemBootFs::new();
    fs.put("config.txt", "");
    fs.put("cmdline.txt", "");
    fs.put("bcm2711-rpi-4-b.dtb", "");
    fs.put("bcm2710-rpi-3-b-plus.dtb", "");
    assert_eq!(inspect("/m", &fs).unwrap().model, Some("Raspberry Pi 4"));
}

#[test]
fn unescapes_octal_sequences_in_mount_points() {
    assert_eq!(unescape("/media/user/BOOT"), "/media/user/BOOT");
    assert_eq!(unescape("/media/my\\040card"), "/media/my card");
}

#[test]
fn a_short_escape_is_kept() {
    // Three digits are needed for the escape to apply.
    assert_eq!(unescape("/media/x\\040"), "/media/x ");
    assert_eq!(unescape("/media/x\\04"), "/media/x\\04");
    assert_eq!(unescape("/media/\\011tab"), "/media/\ttab");
    assert_eq!(unescape("/media/\\999x"), "/media/\\999x");
}

#[test]
fn enumeration_does_not_panic() {
    let _ = candidates(Vec::new());
}

#[test]
fn candidates_are_sorted_and_unique_by_path() {
    let found = vec![
        Candidate { path: "/media/b".to_string(), model: None },
        Candidate { path: "/media/a".to_string(), model: Some("Raspberry Pi 5") },
        Candidate { path: "/media/b".to_string(), model: Some("Raspberry Pi 4") },
    ];
    assert_eq!(
        candidates(found),
        vec![
            Candidate { path: "/media/a".to_string(), model: Some("Raspberry Pi 5") },
            Candidate { path: "/media/b".to_string(), model: None },
        ]
    );
}
