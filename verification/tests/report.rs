use rpi_provision::apply::{Change, ChangeKind};
use rpi_provision::cli::detect::{fat_mount_points, mount_table_readable};
use rpi_provision::cli::report::{
    after_apply, change_report, conflict_check, conflict_warning, diff_totals, is_yes, summary_lines,
};
use rpi_provision::specification::load::{load_str, LoadOptions};
use rpi_provision::specification::model::Provisioning;
use rpi_provision::specification::overrides::{assignment_readable, path_outcome_of, Outcome};
use rpi_provision::specification::secret::MapSecrets;

fn change(kind: ChangeKind, path: &str, diff: Option<&str>, sensitive: bool) -> Change {
    Change { path: path.to_string(), kind, sensitive, diff: diff.map(str::to_string) }
}

#[test]
fn a_change_report_skips_what_stays_and_shows_differences() {
    let changes = vec![
        change(ChangeKind::Unchanged, "same.txt", None, false),
        change(ChangeKind::Update, "config.txt", Some("-a\n+b\n"), false),
        change(ChangeKind::Create, "new.sh", Some("+x\n+y\n+z\n"), false),
        change(ChangeKind::AlreadyAbsent, "gone", None, false),
        change(ChangeKind::Delete, "old", None, false),
    ];
    assert_eq!(
        change_report(&changes, false, false),
        vec![
            "   update  config.txt",
            "           -a",
            "           +b",
            "   create  new.sh",
            "           (new file, 3 lines)",
            "   delete  old",
        ]
    );
    assert_eq!(
        change_report(&changes, false, true)[3..6].to_vec(),
        vec!["   create  new.sh", "           +x", "           +y"]
    );
    assert_eq!(
        change_report(&changes, true, true),
        vec!["   update  config.txt", "   create  new.sh", "   delete  old"]
    );
    let secret = vec![change(ChangeKind::Create, "secrets/pw", Some("+hidden\n"), true)];
    assert_eq!(change_report(&secret, false, false), vec!["   create  secrets/pw", "           +hidden"]);
    let long = vec![change(ChangeKind::Unchanged, "x", None, false)];
    assert!(change_report(&long, false, false).is_empty());
}

#[test]
fn the_validate_summary_lists_what_was_loaded() {
    let source = r#"
[meta]
schema_version = 1
[system]
hostname = "dev-pi-01"
[user]
name = "engineer"
authorized_keys = ["ssh-ed25519 AAAAC3NzaC1lZDI1NTE5AAAAIExampleKeyBodyThatIsLongEnough user@host"]
[network.usb_gadget]
enabled = true
address = "10.55.0.1/24"
[hardware.uart]
debug_connector = true
"#;
    let provider = MapSecrets::new();
    let loaded = load_str(source, LoadOptions::new(&provider)).unwrap();
    let lines = summary_lines(&loaded);
    assert_eq!(lines[0], "target:      pi5");
    assert_eq!(lines[1], "hostname:    dev-pi-01");
    assert_eq!(lines[2], "user:        engineer");
    assert_eq!(lines[3], "ssh:         enabled, password auth off, 1 authorized key(s)");
    assert_eq!(lines[4], "network:     0 wired, 0 wireless, usb gadget ecm on 10.55.0.1/24");
    assert_eq!(lines[5], "hardware:    debug-uart");
    assert_eq!(lines[6], format!("spec digest: {}", loaded.digest));
}

#[test]
fn conflicts_are_refused_unless_ignored() {
    let none: Vec<(&'static str, &'static str)> = Vec::new();
    assert_eq!(conflict_check("/boot", &none, false), Ok(None));
    let some = vec![("firstrun.sh", "Raspberry Pi Imager"), ("custom.toml", "cloud-init")];
    let listed = "  firstrun.sh  (Raspberry Pi Imager)\n  custom.toml  (cloud-init)";
    assert_eq!(
        conflict_check("/boot", &some, true),
        Ok(Some(format!("warning: another first-boot mechanism is present and will be overridden:\n{listed}")))
    );
    assert_eq!(
        conflict_check("/boot", &some, false),
        Err(format!(
            "/boot already carries another first-boot mechanism:\n{listed}\nApplying would rewrite cmdline.txt and silently disable it. Delete the\nfile(s) above, or pass --ignore-conflicts if that is what you intend."
        ))
    );
    assert_eq!(
        conflict_warning("firstrun.sh", "Raspberry Pi Imager"),
        "warning: `firstrun.sh` (Raspberry Pi Imager) is present and would conflict with apply"
    );
}

#[test]
fn totals_and_closing_words() {
    assert_eq!(diff_totals(1, 2, 3, 0), "1 to create, 2 to update, 3 unchanged, 0 to delete");
    let mut provisioning = Provisioning {
        boot_mount: "/boot/firmware".to_string(),
        runner_dir: "rpi-provision".to_string(),
        wipe_payload: true,
        reboot_after: true,
        log_path: "/var/log/rpi-provision.log".to_string(),
    };
    let words = after_apply(&provisioning);
    assert!(words[0].contains("The run is logged to /var/log/rpi-provision.log on the device"));
    assert_eq!(
        words[1],
        "The payload under /boot/firmware/rpi-provision is deleted on the device after a successful run."
    );
    provisioning.wipe_payload = false;
    assert!(after_apply(&provisioning)[1].starts_with("warning: `provisioning.wipe_payload` is false"));
}

#[test]
fn answers_that_mean_yes() {
    for yes in ["y", "Y", "yes", "Yes", "  yes\n"] {
        assert!(is_yes(yes), "{yes:?}");
    }
    for no in ["", "n", "YES", "yep", "y e s"] {
        assert!(!is_yes(no), "{no:?}");
    }
}

#[test]
fn fat_mount_points_are_read_from_the_mount_table() {
    let table = "/dev/sda2 / ext4 rw 0 0\n/dev/sdb1 /media/user/boot\\040fs vfat rw 0 0\nproc /proc proc rw 0 0\n/dev/sdc1 /mnt/card exfat rw 0 0\nshort line\n";
    assert!(mount_table_readable(table));
    assert_eq!(fat_mount_points(table), vec!["/media/user/boot fs".to_string(), "/mnt/card".to_string()]);
    assert!(fat_mount_points("").is_empty());
}

#[test]
fn paths_that_would_panic_are_recognised() {
    assert_eq!(path_outcome_of("network.ethernet[0].id"), Outcome::Done);
    assert_eq!(path_outcome_of(""), Outcome::Refused);
    assert_eq!(path_outcome_of("a[x]"), Outcome::Refused);
    assert_eq!(path_outcome_of("a b"), Outcome::Refused);
    assert_eq!(path_outcome_of("a[é]"), Outcome::Refused);
    assert_eq!(path_outcome_of("a[0]]"), Outcome::Panics);
    assert_eq!(path_outcome_of("a[0]é]"), Outcome::Panics);
    assert!(assignment_readable("network.ethernet[0].id=x"));
    assert!(assignment_readable("no equals sign"));
    assert!(!assignment_readable("a[0]]=1"));
}
