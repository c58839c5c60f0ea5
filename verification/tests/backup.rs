use rpi_provision::apply::backup::{self, check_storable, Entry, Manifest, MANIFEST_NAME};
use rpi_provision::apply::fs::{BootFs, MemBootFs};
use rpi_provision::apply::ChangeKind;

const STOCK_CONFIG: &str = "# For more options and information see\n\
# http://rptl.io/configtxt\n\
dtparam=audio=on\n\
camera_auto_detect=1\n\
display_auto_detect=1\n\
auto_initramfs=1\n\
arm_64bit=1\n";

const STOCK_CMDLINE: &str = "console=serial0,115200 console=tty1 root=PARTUUID=1c8a4d3f-02 \
rootfstype=ext4 fsck.repair=yes rootwait quiet init=/usr/lib/raspberrypi-sys-mods/firstboot\n";

fn card() -> MemBootFs {
    MemBootFs::raspberry_pi_os(STOCK_CONFIG, STOCK_CMDLINE)
}

/// Take a snapshot of `source` into a fresh in-memory directory.
fn snapshot_of(source: &MemBootFs) -> (MemBootFs, Manifest) {
    let mut destination = MemBootFs::new();
    let manifest =
        backup::create(source, &mut destination, "rpi-provision 0.0.0-test", "2026-08-12T00:00:00Z").unwrap();
    (destination, manifest)
}

#[test]
fn a_snapshot_records_every_file() {
    let card = card();
    let (stored, manifest) = snapshot_of(&card);

    assert_eq!(manifest.entries.len(), card.paths().len());
    let total: u64 = card.paths().iter().map(|path| card.get(path).unwrap().len() as u64).sum();
    assert_eq!(manifest.total_bytes(), total);
    for path in card.paths() {
        assert_eq!(stored.get(&path), card.get(&path), "{path} was not copied verbatim");
    }
    // The manifest itself is in the snapshot but not one of its entries.
    assert!(stored.exists_path(MANIFEST_NAME));
    assert!(!manifest.entries.iter().any(|entry| entry.path == MANIFEST_NAME));
}

#[test]
fn a_snapshot_survives_a_round_trip_through_its_manifest() {
    let (_, manifest) = snapshot_of(&card());
    let reparsed = Manifest::parse(&manifest.render()).unwrap();
    assert_eq!(reparsed, manifest);
}

#[test]
fn restoring_undoes_an_apply() {
    let original = card();
    let (stored, manifest) = snapshot_of(&original);

    let mut fs = card();
    fs.put("config.txt", "changed\n");
    fs.put("rpi-provision/firstrun.sh", "#!/bin/sh\n");
    fs.remove("cmdline.txt").unwrap();

    let changes = backup::restore_changes(&stored, &manifest, &fs).unwrap();
    backup::restore(&stored, &changes, &mut fs).unwrap();
    assert_eq!(fs.paths(), original.paths());
    for path in original.paths() {
        assert_eq!(fs.get(&path), original.get(&path), "the card must be byte-for-byte as it was");
    }
}

#[test]
fn restoring_removes_files_that_postdate_the_snapshot() {
    let (stored, manifest) = snapshot_of(&card());
    let mut fs = card();
    fs.put("rpi-provision/firstrun.sh", "#!/bin/sh\n");
    fs.put("stray.txt", "written later\n");

    let changes = backup::restore_changes(&stored, &manifest, &fs).unwrap();
    let deleted: Vec<&str> = changes
        .iter()
        .filter(|change| change.kind == ChangeKind::Delete)
        .map(|change| change.path.as_str())
        .collect();
    assert_eq!(deleted, vec!["rpi-provision/firstrun.sh", "stray.txt"]);

    let summary = backup::restore(&stored, &changes, &mut fs).unwrap();
    assert_eq!(summary.deleted, 2);
    assert!(!fs.exists_path("stray.txt"));
}

#[test]
fn restoring_an_untouched_card_changes_nothing() {
    let (stored, manifest) = snapshot_of(&card());
    let fs = card();
    let changes = backup::restore_changes(&stored, &manifest, &fs).unwrap();
    assert!(changes.iter().all(|change| change.kind == ChangeKind::Unchanged), "{changes:?}");
}

#[test]
fn a_snapshot_refuses_a_destination_that_is_not_empty() {
    let mut destination = MemBootFs::new();
    destination.put("something.txt", "already here\n");
    let error = backup::create(&card(), &mut destination, "g", "t").unwrap_err();
    assert!(error.message.contains("is not empty"), "{}", error.message);
}

#[test]
fn a_snapshot_refuses_a_card_that_would_collide_with_the_manifest() {
    let mut card = card();
    card.put(MANIFEST_NAME, "not ours\n");
    let error = backup::create(&card, &mut MemBootFs::new(), "g", "t").unwrap_err();
    assert!(error.message.contains("already contains"), "{}", error.message);
}

#[test]
fn an_incomplete_snapshot_is_refused() {
    // A snapshot writes its manifest last, so this is what an interrupted
    // run leaves behind.
    let mut stored = MemBootFs::new();
    stored.put("config.txt", STOCK_CONFIG);
    let error = backup::read_manifest(&stored).unwrap_err();
    assert!(error.message.contains("not a complete snapshot"), "{}", error.message);
}

#[test]
fn a_damaged_snapshot_is_refused_before_anything_is_written() {
    let (mut stored, manifest) = snapshot_of(&card());
    // Same length, different content: the kind of damage a size check alone
    // would wave through.
    let mut damaged = stored.get("config.txt").unwrap();
    damaged[0] ^= 0xff;
    stored.write("config.txt", &damaged, false).unwrap();

    let error = backup::restore_changes(&stored, &manifest, &card()).unwrap_err();
    assert!(error.message.contains("does not match its digest"), "{}", error.message);
}

#[test]
fn a_truncated_file_is_refused() {
    let (mut stored, mut manifest) = snapshot_of(&card());
    stored.put("config.txt", STOCK_CONFIG);
    // Claim a size the file does not have.
    for entry in &mut manifest.entries {
        if entry.path == "config.txt" {
            entry.bytes += 1;
        }
    }
    let error = backup::restore_changes(&stored, &manifest, &card()).unwrap_err();
    assert!(error.message.contains("the snapshot is damaged"), "{}", error.message);
}

#[test]
fn a_snapshot_of_a_snapshot_is_identical() {
    // Snapshots are plain directories, so taking one of a restored card must
    // produce the same manifest entries.
    let (first, manifest) = snapshot_of(&card());
    let mut card = card();
    let changes = backup::restore_changes(&first, &manifest, &card).unwrap();
    backup::restore(&first, &changes, &mut card).unwrap();
    let (_, again) = snapshot_of(&card);
    assert_eq!(again.entries, manifest.entries);
}

#[test]
fn a_snapshot_reads_back_its_own_manifest() {
    let (stored, manifest) = snapshot_of(&card());
    assert_eq!(backup::read_manifest(&stored).unwrap(), manifest);
    assert_eq!(manifest.generator, "rpi-provision 0.0.0-test");
    assert_eq!(manifest.created, "2026-08-12T00:00:00Z");
    assert_eq!(manifest.source, "<in-memory boot partition>");
}

#[test]
fn an_entry_carries_the_sha256_of_the_file() {
    let mut source = MemBootFs::new();
    source.put("a.txt", "abc");
    let (_, manifest) = snapshot_of(&source);
    assert_eq!(
        manifest.entries,
        vec![Entry {
            digest: "ba7816bf8f01cfea414140de5dae2223b00361a396177a9cb410ff61f20015ad".to_string(),
            bytes: 3,
            path: "a.txt".to_string(),
        }]
    );
}

#[test]
fn an_empty_card_cannot_be_snapshotted() {
    let error = backup::create(&MemBootFs::new(), &mut MemBootFs::new(), "g", "t").unwrap_err();
    assert_eq!(error.message, "<in-memory boot partition> holds no files");
}

#[test]
fn manifest_text_has_a_fixed_shape() {
    let manifest = Manifest {
        generator: "g".to_string(),
        source: "/media/boot".to_string(),
        created: "2026-01-01T00:00:00Z".to_string(),
        entries: vec![Entry { digest: "00".to_string(), bytes: 7, path: "config.txt".to_string() }],
    };
    let text = manifest.render();
    assert!(text.ends_with("00\t7\tconfig.txt\n"), "{text}");
    assert_eq!(Manifest::parse(&text).unwrap(), manifest);
}

#[test]
fn malformed_manifests_are_refused() {
    let header = "# rpi-provision snapshot\n";
    assert!(Manifest::parse(&format!("{header}00\t7\n")).is_err());
    assert!(Manifest::parse(&format!("{header}00\tseven\tconfig.txt\n")).is_err());
}

#[test]
fn only_storable_paths_are_accepted() {
    assert!(check_storable("config.txt").is_ok());
    assert!(check_storable("a\tb").is_err());
    assert!(check_storable("a\nb").is_err());
}

#[test]
fn a_refused_snapshot_leaves_the_destination_as_it_was() {
    let mut destination = MemBootFs::new();
    destination.put("something.txt", "already here\n");
    let before = destination.paths();
    backup::create(&card(), &mut destination, "g", "t").unwrap_err();
    assert_eq!(destination.paths(), before);
    assert!(!destination.exists_path(MANIFEST_NAME));
    let error = backup::create(&MemBootFs::new(), &mut MemBootFs::new(), "g", "t").unwrap_err();
    assert_eq!(error.message, "<in-memory boot partition> holds no files");
}

#[test]
fn restoring_twice_changes_nothing_the_second_time() {
    let original = card();
    let (stored, manifest) = snapshot_of(&original);
    let mut fs = card();
    fs.put("stray.txt", "written later\n");
    fs.put("config.txt", "changed\n");
    let changes = backup::restore_changes(&stored, &manifest, &fs).unwrap();
    backup::restore(&stored, &changes, &mut fs).unwrap();
    let again = backup::restore_changes(&stored, &manifest, &fs).unwrap();
    assert!(again.iter().all(|change| change.kind == ChangeKind::Unchanged), "{again:?}");
    assert_eq!(fs.paths(), original.paths());
}

#[test]
fn a_readable_manifest_is_read_back() {
    let (stored, manifest) = snapshot_of(&card());
    let read = backup::read_manifest(&stored).unwrap();
    assert_eq!(read, manifest);
}

#[test]
fn a_snapshot_lists_its_entries_in_the_order_the_card_lists_its_files() {
    let card = card();
    let (_, manifest) = snapshot_of(&card);
    let listed = card.list().unwrap();
    let recorded: Vec<String> = manifest.entries.iter().map(|entry| entry.path.clone()).collect();
    assert_eq!(recorded, listed);
}
