use rpi_provision::render::cmdline::Ops;
use rpi_provision::render::{action_rank, trailing_name, Action, PayloadFile, Plan, GENERATOR};

fn plan() -> Plan {
    Plan {
        generator: GENERATOR.to_string(),
        digest: "abcd".to_string(),
        target_dtb: "bcm2712-rpi-5-b.dtb".to_string(),
        actions: vec![
            Action::MergeManagedBlock { path: "config.txt".into(), block: "x=1".into() },
            Action::EditCmdline {
                path: "cmdline.txt".into(),
                ops: Ops {
                    remove_prefixes: vec!["console=".into()],
                    remove_tokens: vec!["quiet".into()],
                    append: vec!["splash".into()],
                },
            },
            Action::Write {
                path: "rpi-provision/firstrun.sh".into(),
                contents: "#!/bin/sh\n".into(),
                executable: true,
                sensitive: false,
            },
            Action::WriteBytes { path: "rpi-provision/payload/a".into(), contents: b"hi".to_vec(), sensitive: true },
            Action::WriteBytes { path: "rpi-provision/payload/b".into(), contents: vec![0xff, 0xfe], sensitive: false },
            Action::Remove { path: "old.txt".into() },
        ],
    }
}

#[test]
fn rendering_is_deterministic() {
    assert_eq!(plan().to_text(), plan().to_text());
}

#[test]
fn the_plan_dump_is_exact() {
    let digest = rpi_provision::specification::sha256::sha256_hex(&[0xff, 0xfe]);
    let expected = format!(
        "generator: rpi-provision 0.1.0\n\
spec-digest: abcd\n\
target-dtb: bcm2712-rpi-5-b.dtb\n\
\n\
--- merge-managed-block config.txt\n\
x=1\n\
\n\
--- edit-cmdline cmdline.txt\n\
remove-prefix console=\n\
remove-token quiet\n\
append splash\n\
\n\
--- write rpi-provision/firstrun.sh (executable)\n\
#!/bin/sh\n\
\n\
--- write-bytes rpi-provision/payload/a (2 bytes) (sensitive)\n\
hi\n\
\n\
--- write-bytes rpi-provision/payload/b (2 bytes)\n\
sha256: {digest}\n\
\n\
--- remove old.txt\n"
    );
    assert_eq!(plan().to_text(), expected);
}

#[test]
fn plan_orders_boot_files_first() {
    let plan = plan();
    assert_eq!(plan.actions[0].path(), "config.txt");
    assert_eq!(plan.actions[1].path(), "cmdline.txt");
    assert_eq!(action_rank(&plan.actions[0]), 0);
    assert_eq!(action_rank(&plan.actions[1]), 1);
    assert_eq!(action_rank(&plan.actions[2]), 2);
}

#[test]
fn plan_records_the_expected_device_tree_blob() {
    assert_eq!(plan().target_dtb, "bcm2712-rpi-5-b.dtb");
}

#[test]
fn sensitivity_is_read_from_the_action() {
    let plan = plan();
    assert!(!plan.actions[2].is_sensitive());
    assert!(plan.actions[3].is_sensitive());
    assert!(!plan.actions[5].is_sensitive());
}

#[test]
fn the_trailing_name_is_the_last_component() {
    assert_eq!(trailing_name("/etc/motd"), "motd");
    assert_eq!(trailing_name("motd"), "motd");
    assert_eq!(trailing_name("/etc/"), "");
}

#[test]
fn a_generated_payload_file_is_root_owned() {
    let file = PayloadFile::generated("payload/a".into(), "/etc/a".into(), "0644", "text".into());
    assert_eq!(file.mode, "0644");
    assert_eq!((file.owner.as_str(), file.group.as_str()), ("root", "root"));
    assert_eq!(file.contents, b"text");
    assert!(!file.sensitive);
    let secret = file.sensitive(true);
    assert!(secret.sensitive);
    assert_eq!(secret.text(), "text");
}
