use rpi_provision::specification::overrides::{apply, parse_path, parse_set, parse_set_secret, Segment};
use rpi_provision::toml::{parse, Table, Value};

fn doc(text: &str) -> Table {
    parse(text).unwrap()
}

#[test]
fn parses_scalar_types() {
    assert_eq!(parse_set("a=1").unwrap().value, Value::Integer(1));
    assert_eq!(parse_set("a=true").unwrap().value, Value::Boolean(true));
    assert_eq!(parse_set("a=0xff").unwrap().value, Value::Integer(255));
    assert_eq!(parse_set("a=\"quoted\"").unwrap().value, Value::String("quoted".into()));
    // Bare words fall back to strings, which is what a host name needs.
    assert_eq!(parse_set("a=dev-pi-01").unwrap().value, Value::String("dev-pi-01".into()));
    assert_eq!(parse_set("a=192.168.1.5/24").unwrap().value, Value::String("192.168.1.5/24".into()));
}

#[test]
fn sets_nested_key() {
    let mut table = doc("[system]\nhostname = \"old\"\n");
    apply(&mut table, parse_set("system.hostname=new-name").unwrap()).unwrap();
    let Value::Table(system) = &table.get("system").unwrap().value else { panic!() };
    assert_eq!(system.get("hostname").unwrap().value, Value::String("new-name".into()));
}

#[test]
fn creates_missing_tables() {
    let mut table = doc("");
    apply(&mut table, parse_set("ssh.port=2222").unwrap()).unwrap();
    let Value::Table(ssh) = &table.get("ssh").unwrap().value else { panic!() };
    assert_eq!(ssh.get("port").unwrap().value, Value::Integer(2222));
}

#[test]
fn indexes_array_of_tables() {
    let mut table = doc("[[network.ethernet]]\nid = \"a\"\n\n[[network.ethernet]]\nid = \"b\"\n");
    apply(&mut table, parse_set("network.ethernet[1].id=changed").unwrap()).unwrap();
    let Value::Table(network) = &table.get("network").unwrap().value else { panic!() };
    let Value::Array(items) = &network.get("ethernet").unwrap().value else { panic!() };
    let Value::Table(second) = &items[1].value else { panic!() };
    assert_eq!(second.get("id").unwrap().value, Value::String("changed".into()));
}

#[test]
fn rejects_out_of_range_index() {
    let mut table = doc("[[network.ethernet]]\nid = \"a\"\n");
    let err = apply(&mut table, parse_set("network.ethernet[5].id=x").unwrap()).unwrap_err();
    assert!(err.message.contains("out of range"), "{}", err.message);
}

#[test]
fn set_secret_builds_inline_table() {
    let over = parse_set_secret("user.password_hash=env:RPI_HASH").unwrap();
    let Value::Table(table) = &over.value else { panic!() };
    assert_eq!(table.get("env").unwrap().value, Value::String("RPI_HASH".into()));
}

#[test]
fn set_secret_replaces_existing_source() {
    let mut table = doc("[user]\npassword_hash = { file = \"secrets/pw\" }\n");
    apply(&mut table, parse_set_secret("user.password_hash=env:RPI_HASH").unwrap()).unwrap();
    let Value::Table(user) = &table.get("user").unwrap().value else { panic!() };
    let Value::Table(secret) = &user.get("password_hash").unwrap().value else { panic!() };
    assert_eq!(secret.len(), 1, "the previous source must be replaced, not merged");
    assert_eq!(secret.get("env").unwrap().value, Value::String("RPI_HASH".into()));
}

#[test]
fn rejects_malformed_secret_source() {
    assert!(parse_set_secret("user.password_hash=nonsense").is_err());
    assert!(parse_set_secret("user.password_hash").is_err());
}

#[test]
fn rejects_traversal_through_scalar() {
    let mut table = doc("[system]\nhostname = \"pi\"\n");
    let err = apply(&mut table, parse_set("system.hostname.oops=1").unwrap()).unwrap_err();
    assert!(err.message.contains("cannot be traversed"), "{}", err.message);
}

// ------------------------------------------------------------ further cases

#[test]
fn a_path_reads_keys_and_indexes() {
    let path = parse_path("network.ethernet[0].id").unwrap();
    assert_eq!(
        path,
        vec![
            Segment::Key("network".to_string()),
            Segment::Key("ethernet".to_string()),
            Segment::Index(0),
            Segment::Key("id".to_string()),
        ]
    );
    assert_eq!(parse_path("").unwrap_err().message, "the override path is empty");
    assert!(parse_path("a..b").is_err());
    assert!(parse_path("a[x]").is_err());
    assert!(parse_path("a b").is_err());
}

#[test]
fn a_set_without_an_equals_sign_is_refused() {
    assert_eq!(parse_set("hostname").unwrap_err().message, "`hostname` is not of the form `path=value`");
    assert_eq!(
        parse_set_secret("user.password_hash").unwrap_err().message,
        "`user.password_hash` is not of the form `path=source`"
    );
}

#[test]
fn a_written_value_reads_back() {
    let mut table = doc("[ssh]\nport = 22\n");
    apply(&mut table, parse_set("ssh.port=2200").unwrap()).unwrap();
    apply(&mut table, parse_set("ssh.enabled=false").unwrap()).unwrap();
    let Value::Table(ssh) = &table.get("ssh").unwrap().value else { panic!() };
    assert_eq!(ssh.get("port").unwrap().value, Value::Integer(2200));
    assert_eq!(ssh.get("enabled").unwrap().value, Value::Boolean(false));
}

#[test]
fn an_index_into_a_table_or_a_key_into_an_array_is_refused() {
    let mut table = doc("[system]\nhostname = \"pi\"\n[[network.ethernet]]\nid = \"a\"\n");
    let err = apply(&mut table, parse_set("system[0].x=1").unwrap()).unwrap_err();
    assert!(err.message.contains("was indexed with [0]"), "{}", err.message);
    let err = apply(&mut table, parse_set("network.ethernet.id.x=1").unwrap()).unwrap_err();
    assert!(err.message.contains("use an index before `id`"), "{}", err.message);
    let err = apply(&mut table, parse_set("network.ethernet.id=1").unwrap()).unwrap_err();
    assert!(err.message.contains("cannot assign to `id`"), "{}", err.message);
    let err = apply(&mut table, parse_set("system[0]=1").unwrap()).unwrap_err();
    assert_eq!(err.message, "`system[0]=1`: cannot assign to `[0]` at this position");
    apply(&mut table, parse_set("network.ethernet[0]=1").unwrap()).unwrap();
    let Value::Table(network) = &table.get("network").unwrap().value else { panic!() };
    let Value::Array(items) = &network.get("ethernet").unwrap().value else { panic!() };
    assert_eq!(items[0].value, Value::Integer(1));
}

#[test]
fn a_value_that_does_not_read_stays_text() {
    assert_eq!(parse_set("a=1 2").unwrap().value, Value::String("1 2".to_string()));
    assert_eq!(parse_set("a=tru").unwrap().value, Value::String("tru".to_string()));
    assert_eq!(parse_set("a=\"x\"").unwrap().value, Value::String("x".to_string()));
    assert_eq!(parse_set("a=  7").unwrap().value, Value::Integer(7));
}
