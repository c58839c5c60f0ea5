use rpi_provision::apply::fs::{BootFs, MemBootFs};
use rpi_provision::apply::{
    conflicting_first_boot_files, execute, plan_changes, resolve, revert_plan, verify_boot_partition,
    ChangeKind, Resolution, Summary,
};
use rpi_provision::render::cmdline::{cleanup_ops, Ops};
use rpi_provision::render::config_txt::{BEGIN, END};
use rpi_provision::render::{Action, Plan, GENERATOR};

const STOCK_CONFIG: &str = "# For more options and information see\n\
# http://rptl.io/configtxt\n\
dtparam=audio=on\n\
camera_auto_detect=1\n\
display_auto_detect=1\n\
auto_initramfs=1\n\
arm_64bit=1\n";

const STOCK_CMDLINE: &str = "console=serial0,115200 console=tty1 root=PARTUUID=1c8a4d3f-02 \
rootfstype=ext4 fsck.repair=yes rootwait quiet init=/usr/lib/raspberrypi-sys-mods/firstboot\n";

fn card() -> MemBootFs {
    MemBootFs::raspberry_pi_os(STOCK_CONFIG, STOCK_CMDLINE)
}

fn hooks() -> Ops {
    Ops {
        remove_prefixes: vec![
            "systemd.run=".into(),
            "systemd.run_success_action=".into(),
            "systemd.unit=".into(),
            "console=serial0".into(),
            "console=ttyAMA0".into(),
            "console=ttyAMA10".into(),
        ],
        remove_tokens: vec![],
        append: vec![
            "systemd.run=/boot/firmware/rpi-provision/firstrun.sh".into(),
            "systemd.run_success_action=reboot".into(),
            "systemd.unit=kernel-command-line.target".into(),
        ],
    }
}

/// A small plan of the shape the renderer produces.
fn plan() -> Plan {
    Plan {
        generator: GENERATOR.to_string(),
        digest: "0123abcd".to_string(),
        target_dtb: "bcm2712-rpi-5-b.dtb".to_string(),
        actions: vec![
            Action::MergeManagedBlock {
                path: "config.txt".into(),
                block: format!("{BEGIN}\n[all]\ndtoverlay=dwc2,dr_mode=peripheral\ndtparam=uart0=on\n{END}\n"),
            },
            Action::EditCmdline { path: "cmdline.txt".into(), ops: hooks() },
            Action::Write {
                path: "rpi-provision/firstrun.sh".into(),
                contents: "#!/bin/sh\nset -eu\n".into(),
                executable: true,
                sensitive: false,
            },
            Action::Write {
                path: "rpi-provision/manifest.tsv".into(),
                contents: "# mode\towner\tgroup\tsource\tdestination\n".into(),
                executable: false,
                sensitive: false,
            },
            Action::Write {
                path: "rpi-provision/payload/home.nmconnection".into(),
                contents: "[wifi-security]\npsk=correct-horse-battery\n".into(),
                executable: false,
                sensitive: true,
            },
            Action::WriteBytes {
                path: "rpi-provision/payload/blob".into(),
                contents: vec![0, 1, 2],
                sensitive: false,
            },
        ],
    }
}

// ------------------------------------------------------------ verification

#[test]
fn accepts_a_raspberry_pi_5_boot_partition() {
    verify_boot_partition(&card(), "bcm2712-rpi-5-b.dtb").unwrap();
}

#[test]
fn rejects_an_unrelated_directory() {
    let mut fs = MemBootFs::new();
    fs.put("notes.txt", "hello");
    let err = verify_boot_partition(&fs, "bcm2712-rpi-5-b.dtb").unwrap_err();
    assert!(err.message.contains("does not look like"), "{}", err.message);
    assert!(err.message.contains("config.txt"), "{}", err.message);
}

#[test]
fn rejects_a_boot_partition_for_another_model() {
    let mut fs = MemBootFs::new();
    fs.put("config.txt", STOCK_CONFIG);
    fs.put("cmdline.txt", STOCK_CMDLINE);
    fs.put("bcm2711-rpi-4-b.dtb", "\0");
    let err = verify_boot_partition(&fs, "bcm2712-rpi-5-b.dtb").unwrap_err();
    assert!(err.message.contains("not a Raspberry Pi 5"), "{}", err.message);
}

// ------------------------------------------------------------------- apply

#[test]
fn applies_cleanly_to_a_fresh_card() {
    let mut fs = card();
    let summary = execute(&plan(), &mut fs).unwrap();
    assert_eq!(summary.updated, 2, "config.txt and cmdline.txt");
    assert_eq!(summary.created, 4);
    assert_eq!(summary.deleted, 0);

    let config = fs.text("config.txt").unwrap();
    assert!(config.starts_with(STOCK_CONFIG), "the stock content must be preserved");
    assert!(config.contains("dtoverlay=dwc2,dr_mode=peripheral"));
    assert!(config.contains("dtparam=uart0=on"));

    let cmdline = fs.text("cmdline.txt").unwrap();
    assert_eq!(cmdline.lines().count(), 1);
    assert!(cmdline.contains("root=PARTUUID=1c8a4d3f-02"));
    assert!(cmdline.contains("systemd.run=/boot/firmware/rpi-provision/firstrun.sh"));
    assert!(!cmdline.contains("console=serial0"));

    assert!(fs.exists_path("rpi-provision/firstrun.sh"));
    assert!(fs.exists_path("rpi-provision/manifest.tsv"));
    assert_eq!(fs.executable("rpi-provision/firstrun.sh"), Some(true));
    assert_eq!(fs.executable("rpi-provision/manifest.tsv"), Some(false));
    assert_eq!(fs.get("rpi-provision/payload/blob"), Some(vec![0, 1, 2]));
}

#[test]
fn applying_twice_changes_nothing_the_second_time() {
    let mut fs = card();
    execute(&plan(), &mut fs).unwrap();
    let after_first = fs.duplicate();

    let summary = execute(&plan(), &mut fs).unwrap();
    assert_eq!(summary.total_changes(), 0, "the second apply must be a no-op");
    assert_eq!(summary.unchanged, plan().actions.len());
    for path in after_first.paths() {
        assert_eq!(fs.get(&path), after_first.get(&path), "{path} changed");
    }
    assert_eq!(fs.paths(), after_first.paths(), "the card must be byte-identical");
}

#[test]
fn foreign_edits_between_runs_survive() {
    let mut fs = card();
    execute(&plan(), &mut fs).unwrap();
    let config = fs.text("config.txt").unwrap();
    fs.put("config.txt", &format!("{config}dtoverlay=vc4-kms-v3d\n"));

    execute(&plan(), &mut fs).unwrap();
    let config = fs.text("config.txt").unwrap();
    assert!(config.contains("dtoverlay=vc4-kms-v3d"));
    assert_eq!(config.matches(BEGIN).count(), 1);
}

#[test]
fn a_missing_config_txt_is_created_rather_than_corrupted() {
    let mut fs = MemBootFs::new();
    execute(&plan(), &mut fs).unwrap();
    let config = fs.text("config.txt").unwrap();
    assert!(config.starts_with(BEGIN));
}

#[test]
fn refuses_to_edit_a_broken_managed_block() {
    let mut fs = card();
    fs.put("config.txt", &format!("{STOCK_CONFIG}{BEGIN}\ndtparam=spi=on\n"));
    let err = execute(&plan(), &mut fs).unwrap_err();
    assert!(err.message.contains("closing"), "{}", err.message);
}

#[test]
fn refuses_a_multi_line_cmdline() {
    let mut fs = card();
    fs.put("cmdline.txt", "console=tty1\nroot=PARTUUID=x\n");
    let err = execute(&plan(), &mut fs).unwrap_err();
    assert!(err.message.contains("exactly one line"), "{}", err.message);
}

#[test]
fn a_failure_leaves_nothing_half_written() {
    let mut fs = card();
    fs.put("cmdline.txt", "a\nb\n");
    let before = fs.duplicate();
    assert!(execute(&plan(), &mut fs).is_err());
    assert_eq!(fs.paths(), before.paths());
    for path in before.paths() {
        assert_eq!(fs.get(&path), before.get(&path), "no action may run before every action resolves");
    }
}

// -------------------------------------------------------------------- diff

#[test]
fn dry_run_reports_creations_on_a_fresh_card() {
    let fs = card();
    let changes = plan_changes(&plan(), &fs).unwrap();
    let config = changes.iter().find(|change| change.path == "config.txt").unwrap();
    assert_eq!(config.kind, ChangeKind::Update);
    assert!(config.diff.as_ref().unwrap().contains("+ dtoverlay=dwc2,dr_mode=peripheral"));

    let runner = changes.iter().find(|change| change.path == "rpi-provision/firstrun.sh").unwrap();
    assert_eq!(runner.kind, ChangeKind::Create);
}

#[test]
fn dry_run_changes_nothing() {
    let fs = card();
    let before = fs.duplicate();
    plan_changes(&plan(), &fs).unwrap();
    assert_eq!(fs.paths(), before.paths());
    for path in before.paths() {
        assert_eq!(fs.get(&path), before.get(&path));
    }
}

#[test]
fn dry_run_after_apply_reports_no_changes() {
    let mut fs = card();
    execute(&plan(), &mut fs).unwrap();
    let changes = plan_changes(&plan(), &fs).unwrap();
    assert!(changes.iter().all(|change| change.kind == ChangeKind::Unchanged));
}

#[test]
fn secret_content_is_withheld_from_the_diff() {
    let fs = card();
    let changes = plan_changes(&plan(), &fs).unwrap();
    let profile = changes.iter().find(|change| change.path.ends_with("home.nmconnection")).unwrap();
    assert!(profile.sensitive);
    let diff = profile.diff.as_ref().unwrap();
    assert!(diff.contains("withheld"), "{diff}");
    assert!(!diff.contains("correct-horse-battery"), "the pre-shared key leaked into the diff");
}

#[test]
fn no_diff_anywhere_contains_the_pre_shared_key() {
    let fs = card();
    for change in plan_changes(&plan(), &fs).unwrap() {
        if let Some(diff) = &change.diff {
            assert!(!diff.contains("correct-horse-battery"), "secret leaked in the diff for {}", change.path);
        }
    }
}

// ------------------------------------------------------------------ revert

#[test]
fn revert_restores_the_original_card() {
    let mut fs = card();
    let plan = plan();
    execute(&plan, &mut fs).unwrap();
    assert_ne!(fs.paths(), card().paths());

    execute(&revert_plan(&plan), &mut fs).unwrap();
    assert_eq!(fs.text("config.txt").unwrap(), STOCK_CONFIG, "config.txt must return to its original content");
    assert!(!fs.text("cmdline.txt").unwrap().contains("systemd.run"));
    assert!(fs.paths().iter().all(|path| !path.starts_with("rpi-provision/")));
}

#[test]
fn revert_on_an_untouched_card_is_a_no_op_for_the_payload() {
    let mut fs = card();
    let summary = execute(&revert_plan(&plan()), &mut fs).unwrap();
    assert_eq!(summary.deleted, 0);
    assert_eq!(fs.text("config.txt").unwrap(), STOCK_CONFIG);
}

#[test]
fn the_revert_plan_strips_edits_and_removes_writes() {
    let reverted = revert_plan(&plan());
    assert_eq!(reverted.actions.len(), plan().actions.len());
    assert_eq!(reverted.actions[0], Action::MergeManagedBlock { path: "config.txt".into(), block: String::new() });
    assert_eq!(reverted.actions[1], Action::EditCmdline { path: "cmdline.txt".into(), ops: cleanup_ops() });
    assert_eq!(reverted.actions[2], Action::Remove { path: "rpi-provision/firstrun.sh".into() });
    assert_eq!(reverted.actions[5], Action::Remove { path: "rpi-provision/payload/blob".into() });
}

// --------------------------------------------------------------- conflicts

#[test]
fn a_clean_card_has_no_conflicting_first_boot_files() {
    assert!(conflicting_first_boot_files(&card()).is_empty());
}

#[test]
fn an_imager_customisation_is_reported() {
    let mut fs = card();
    fs.put("custom.toml", "[user]\n");
    fs.put("userconf.txt", "pi:$6$x\n");
    let found: Vec<&str> = conflicting_first_boot_files(&fs).into_iter().map(|(name, _)| name).collect();
    assert_eq!(found, vec!["custom.toml", "userconf.txt"]);
}

#[test]
fn our_own_runner_is_not_mistaken_for_a_foreign_one() {
    let mut fs = card();
    execute(&plan(), &mut fs).unwrap();
    assert!(conflicting_first_boot_files(&fs).is_empty());
}

// ---------------------------------------------------------------- summaries

#[test]
fn a_summary_counts_and_describes_itself() {
    let summary = Summary { created: 3, updated: 2, unchanged: 5, deleted: 1 };
    assert_eq!(summary.total_changes(), 6);
    assert_eq!(summary.to_string(), "3 created, 2 updated, 5 unchanged, 1 deleted");
    assert_eq!(Summary::default(), Summary { created: 0, updated: 0, unchanged: 0, deleted: 0 });
}

#[test]
fn change_kinds_have_labels() {
    assert_eq!(ChangeKind::Create.label(), "create");
    assert_eq!(ChangeKind::Update.label(), "update");
    assert_eq!(ChangeKind::Unchanged.label(), "unchanged");
    assert_eq!(ChangeKind::Delete.label(), "delete");
    assert_eq!(ChangeKind::AlreadyAbsent.label(), "absent");
    assert!(ChangeKind::Create.is_write());
    assert!(!ChangeKind::Unchanged.is_write());
}

#[test]
fn removing_an_absent_file_resolves_to_nothing() {
    let fs = card();
    let resolution = resolve(&Action::Remove { path: "nothing.txt".into() }, &fs).unwrap();
    assert_eq!(resolution, Resolution::Remove { path: "nothing.txt".into() });
    assert_eq!(resolution.path(), "nothing.txt");
}
