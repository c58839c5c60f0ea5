use rpi_provision::desktop::edit::{assignment, get_values, set_value, Assigned, FieldValue, FormValue};
use rpi_provision::desktop::{summarise, validate, validation_of, SpecInput, Validation};
use rpi_provision::specification::load::{load_str, LoadOptions};
use rpi_provision::specification::secret::MapSecrets;

const SPEC: &str = r#"# A comment that must survive being edited.
[meta]
schema_version = 1

[system]
hostname = "dev-pi-01"   # and a trailing one

[user]
name = "engineer"
authorized_keys = ["ssh-ed25519 AAAAC3NzaC1lZDI1NTE5AAAAIExampleKeyBodyThatIsLongEnough user@host"]
"#;

fn spec_input(text: &str) -> SpecInput {
    SpecInput { text: text.to_string(), base_dir: ".".to_string(), secrets: Vec::new() }
}

/// The window's validation, with nothing behind the typed secrets.
fn check(input: SpecInput) -> Validation {
    validate(input, &MapSecrets::new())
}

fn text(t: &str) -> FormValue {
    FormValue::Text(t.to_string())
}

fn whole(n: i64) -> FormValue {
    FormValue::Number { whole: Some(n), shown: n.to_string() }
}

#[test]
fn a_valid_specification_is_summarised() {
    let result = check(spec_input(SPEC));
    assert!(result.ok, "{:?}", result.error);
    let summary = result.summary.expect("a summary");
    assert_eq!(summary.hostname, "dev-pi-01");
    assert_eq!(summary.user, "engineer");
    assert_eq!(summary.target, "pi5");
    assert_eq!(summary.hardware, "none");
    assert!(summary.ssh.contains("1 key(s)"), "{}", summary.ssh);
    assert!(!summary.digest.is_empty());
}

#[test]
fn an_invalid_specification_reports_the_message_the_cli_would() {
    let result = check(spec_input("[meta]\nschema_version = 1\n"));
    assert!(!result.ok);
    let error = result.error.expect("an error");
    assert!(error.contains("system"), "{error}");
}

#[test]
fn a_warning_is_passed_through_rather_than_being_an_error() {
    // A gateway outside the subnet is accepted with a warning.
    let text = format!(
        "{SPEC}\n[[network.ethernet]]\nid = \"eth0\"\nmethod = \"manual\"\n\
         address = \"192.168.1.50/24\"\ngateway = \"10.0.0.1\"\n"
    );
    let result = check(spec_input(&text));
    assert!(result.ok, "{:?}", result.error);
    assert!(!result.warnings.is_empty(), "the gateway warning must reach the window");
}

#[test]
fn secrets_typed_into_the_window_are_used() {
    let text = format!("{SPEC}password_hash = {{ env = \"GUI_TEST_HASH\" }}\n");
    let mut input = spec_input(&text);

    // Without the value, loading fails on the missing variable.
    let missing = check(SpecInput { secrets: Vec::new(), ..spec_input(&text) });
    assert!(!missing.ok);
    assert!(missing.error.unwrap().contains("GUI_TEST_HASH"));

    input.secrets.push(("GUI_TEST_HASH".to_string(), "$6$rounds=4096$abcdefgh$0123456789abcdef".to_string()));
    let result = check(input);
    assert!(result.ok, "{:?}", result.error);
}

fn set(text: &str, path: &str, value: FormValue) -> String {
    set_value(text, path, value).expect("the edit must apply")
}

#[test]
fn editing_a_key_keeps_the_comments_around_it() {
    let edited = set(SPEC, "system.hostname", text("dev-pi-02"));
    assert!(edited.contains("dev-pi-02"));
    assert!(!edited.contains("dev-pi-01"));
    assert!(
        edited.contains("# A comment that must survive being edited."),
        "a specification is meant to stay in version control:\n{edited}"
    );
    assert!(edited.contains("# and a trailing one"), "{edited}");
    assert!(check(spec_input(&edited)).ok);
}

#[test]
fn a_missing_table_is_created() {
    let edited = set(SPEC, "ssh.port", whole(2222));
    assert!(edited.contains("[ssh]"), "{edited}");
    let result = check(spec_input(&edited));
    assert!(result.ok, "{:?}", result.error);
}

#[test]
fn types_survive_the_round_trip() {
    let edited = set(SPEC, "ssh.password_authentication", FormValue::Flag(true));
    assert!(edited.contains("password_authentication = true"), "{edited}");

    let edited = set(&edited, "hardware.i2c.baudrate", whole(400000));
    assert!(edited.contains("baudrate = 400000"), "{edited}");

    let list = FormValue::List { items: vec![text("gpio"), text("i2c")], shown: r#"["gpio","i2c"]"#.to_string() };
    let edited = set(&edited, "user.groups", list);
    assert!(edited.contains(r#"["gpio", "i2c"]"#), "{edited}");
    assert!(check(spec_input(&edited)).ok);
}

#[test]
fn clearing_a_key_removes_it_so_the_default_applies() {
    let with = set(SPEC, "system.timezone", text("Asia/Tokyo"));
    assert!(with.contains("Asia/Tokyo"));

    let without = set(&with, "system.timezone", text(""));
    assert!(!without.contains("timezone"), "{without}");
    assert!(check(spec_input(&without)).ok);
}

#[test]
fn clearing_a_key_in_a_table_that_does_not_exist_is_harmless() {
    let unchanged = set(SPEC, "hardware.uart.baudrate", text(""));
    assert_eq!(unchanged, SPEC, "nothing to remove must not create the table");
}

#[test]
fn an_edit_that_would_corrupt_the_document_is_refused() {
    // `system` is a table, so it cannot also hold a value at `system.x.y`.
    let error = set_value("[system]\nhostname = \"a\"\n", "system.hostname.deeper", text("x")).unwrap_err();
    assert!(error.contains("not a table"), "{error}");
}

#[test]
fn a_specification_that_does_not_parse_is_reported_before_editing() {
    let error = set_value("[system", "system.hostname", text("a")).unwrap_err();
    assert!(error.contains("does not parse"), "{error}");
}

// ------------------------------------------------------------ further cases

#[test]
fn values_that_cannot_be_stored_are_refused_with_their_text() {
    let half = FormValue::Number { whole: None, shown: "1.5".to_string() };
    assert_eq!(assignment("ssh.port", &half).unwrap_err(), "`ssh.port`: only whole numbers are supported");
    let mixed = FormValue::List { items: vec![text("a"), whole(3)], shown: "[\"a\",3]".to_string() };
    assert_eq!(assignment("user.groups", &mixed).unwrap_err(), "`user.groups`: cannot store 3 in a list");
    let flag_in_list = FormValue::List { items: vec![FormValue::Flag(false)], shown: "[false]".to_string() };
    assert_eq!(assignment("x", &flag_in_list).unwrap_err(), "`x`: cannot store false in a list");
    assert_eq!(
        assignment("x", &FormValue::Other("null".to_string())).unwrap_err(),
        "`x`: unsupported value null"
    );
    assert_eq!(assignment("x", &whole(7)).unwrap(), Assigned::Whole(7));
    assert_eq!(
        assignment("x", &FormValue::List { items: vec![text("a")], shown: String::new() }).unwrap(),
        Assigned::Texts(vec!["a".to_string()])
    );
    let error = set_value(SPEC, "system.hostname", half).unwrap_err();
    assert_eq!(error, "`system.hostname`: only whole numbers are supported");
}

#[test]
fn values_read_back_for_the_form() {
    let edited = set(SPEC, "user.groups", FormValue::List { items: vec![text("gpio")], shown: String::new() });
    let edited = set(&edited, "ssh.port", whole(2200));
    let edited = set(&edited, "ssh.enabled", FormValue::Flag(false));
    let paths = vec![
        "system.hostname".to_string(),
        "ssh.port".to_string(),
        "ssh.enabled".to_string(),
        "user.groups".to_string(),
        "user.missing".to_string(),
        "system".to_string(),
    ];
    let found = get_values(&edited, &paths).unwrap();
    assert_eq!(
        found,
        vec![
            ("system.hostname".to_string(), FieldValue::Text("dev-pi-01".to_string())),
            ("ssh.port".to_string(), FieldValue::Integer(2200)),
            ("ssh.enabled".to_string(), FieldValue::Flag(false)),
            ("user.groups".to_string(), FieldValue::Texts(vec!["gpio".to_string()])),
            ("user.missing".to_string(), FieldValue::Absent),
            ("system".to_string(), FieldValue::Absent),
        ]
    );
    assert!(get_values("[x", &paths).unwrap_err().starts_with("the specification does not parse: "));
}

#[test]
fn the_summary_lines_are_exact() {
    let text = format!("{SPEC}\n[hardware.i2c]\nenabled = true\n[hardware.spi]\nenabled = true\n");
    let provider = MapSecrets::new();
    let loaded = load_str(&text, LoadOptions::new(&provider)).unwrap();
    let summary = summarise(&loaded);
    assert_eq!(summary.ssh, "enabled, password auth off, 1 key(s)");
    assert_eq!(summary.network, "0 wired, 0 wireless, gadget off");
    assert_eq!(summary.hardware, "i2c, spi");
    let failed = validation_of(Err("line 1: bad".to_string()));
    assert!(!failed.ok);
    assert_eq!(failed.error.as_deref(), Some("line 1: bad"));
    assert!(failed.summary.is_none() && failed.warnings.is_empty());
}

#[test]
fn an_empty_typed_secret_falls_back() {
    let text = format!("{SPEC}password_hash = {{ env = \"GUI_TEST_HASH\" }}\n[ssh]\npassword_authentication = true\n");
    let mut input = spec_input(&text);
    input.secrets.push(("GUI_TEST_HASH".to_string(), String::new()));
    let fallback = MapSecrets::new().with_env("GUI_TEST_HASH", "$6$abc$def");
    let result = validate(input, &fallback);
    assert!(result.ok, "{:?}", result.error);
}

#[test]
fn an_overwritten_value_keeps_its_trailing_comment() {
    let edited = set("[system]\nhostname = \"old\"   # the machine's name\n", "system.hostname", text("new"));
    assert_eq!(edited, "[system]\nhostname = \"new\"   # the machine's name\n");
}
