use rpi_provision::toml::{parse, Node, Table, Value};

fn get<'a>(table: &'a Table, path: &str) -> &'a Value {
    let mut node: Option<&Node> = None;
    let mut cursor = table;
    for segment in path.split('.') {
        node = cursor.get(segment);
        let n = node.unwrap_or_else(|| panic!("missing key `{segment}` in path `{path}`"));
        if let Value::Table(next) = &n.value {
            cursor = next;
        }
    }
    &node.expect("empty path").value
}

fn text(s: &str) -> Value {
    Value::String(s.to_string())
}

#[test]
fn parses_scalars() {
    let table = parse(
        r#"
        # a comment
        name = "dev-pi-01"
        literal = 'raw\nstring'
        count = 1_000
        hex = 0xff
        oct = 0o755
        bin = 0b1010
        negative = -42
        ratio = 1.5
        yes = true
        no = false
        "#,
    )
    .unwrap();

    assert_eq!(get(&table, "name"), &text("dev-pi-01"));
    assert_eq!(get(&table, "literal"), &text("raw\\nstring"));
    assert_eq!(get(&table, "count"), &Value::Integer(1000));
    assert_eq!(get(&table, "hex"), &Value::Integer(255));
    assert_eq!(get(&table, "oct"), &Value::Integer(0o755));
    assert_eq!(get(&table, "bin"), &Value::Integer(10));
    assert_eq!(get(&table, "negative"), &Value::Integer(-42));
    assert_eq!(get(&table, "ratio"), &Value::Float("1.5".to_string()));
    assert_eq!(get(&table, "yes"), &Value::Boolean(true));
    assert_eq!(get(&table, "no"), &Value::Boolean(false));
}

#[test]
fn parses_escapes() {
    let table = parse(r#"s = "tab:\t nl:\n quote:\" back:\\ uni:é""#).unwrap();
    assert_eq!(get(&table, "s"), &text("tab:\t nl:\n quote:\" back:\\ uni:é"));
}

#[test]
fn parses_unicode_escapes() {
    let table = parse("s = \"\\u00e9\\U0001F600\"\n").unwrap();
    assert_eq!(get(&table, "s"), &text("é😀"));
    let err = parse("s = \"\\uD800\"\n").unwrap_err();
    assert_eq!(err.message, "`\\uD800` is not a valid Unicode scalar value");
    let err = parse("s = \"\\u00g0\"\n").unwrap_err();
    assert_eq!(err.message, "invalid hexadecimal digit 'g'");
    assert_eq!((err.line, err.col), (1, 11));
}

#[test]
fn parses_multiline_strings() {
    let table = parse("basic = \"\"\"\nline one\nline two\"\"\"\nliteral = '''\nraw \\n here'''\n").unwrap();
    assert_eq!(get(&table, "basic"), &text("line one\nline two"));
    assert_eq!(get(&table, "literal"), &text("raw \\n here"));
}

#[test]
fn multiline_backslash_trims_whitespace() {
    let table = parse("s = \"\"\"a \\\n      b\"\"\"\n").unwrap();
    assert_eq!(get(&table, "s"), &text("a b"));
}

#[test]
fn parses_tables_and_dotted_keys() {
    let table = parse(
        r#"
        [system]
        hostname = "pi"

        [hardware]
        uart.enabled = true
        i2c = { enabled = true, baudrate = 400000 }
        "#,
    )
    .unwrap();

    assert_eq!(get(&table, "system.hostname"), &text("pi"));
    assert_eq!(get(&table, "hardware.uart.enabled"), &Value::Boolean(true));
    assert_eq!(get(&table, "hardware.i2c.baudrate"), &Value::Integer(400_000));
}

#[test]
fn parses_arrays_and_array_tables() {
    let table = parse(
        r#"
        keys = [
          "one",
          "two",
        ]

        [[network.ethernet]]
        id = "a"

        [[network.ethernet]]
        id = "b"
        "#,
    )
    .unwrap();

    let Value::Array(keys) = get(&table, "keys") else { panic!("expected array") };
    assert_eq!(keys.len(), 2);

    let Value::Array(items) = get(&table, "network.ethernet") else { panic!("expected array") };
    assert_eq!(items.len(), 2);
    let Value::Table(second) = &items[1].value else { panic!("expected table") };
    assert_eq!(second.get("id").unwrap().value, text("b"));
}

#[test]
fn records_positions() {
    let table = parse("a = 1\n\nb = 2\n").unwrap();
    let a = table.get("a").unwrap();
    let b = table.get("b").unwrap();
    assert_eq!((a.line, a.col), (1, 5));
    assert_eq!((b.line, b.col), (3, 5));
}

#[test]
fn rejects_duplicate_keys() {
    let err = parse("a = 1\na = 2\n").unwrap_err();
    assert!(err.message.contains("more than once"), "{}", err.message);
    assert_eq!(err.line, 2);
}

#[test]
fn rejects_duplicate_tables() {
    let err = parse("[a]\n[a]\n").unwrap_err();
    assert!(err.message.contains("more than once"), "{}", err.message);
}

#[test]
fn rejects_datetime() {
    let err = parse("when = 2026-08-11T00:00:00Z\n").unwrap_err();
    assert!(err.message.contains("date-time"), "{}", err.message);
}

#[test]
fn rejects_trailing_garbage() {
    let err = parse("a = 1 oops\n").unwrap_err();
    assert!(err.message.contains("unexpected trailing character"), "{}", err.message);
    assert_eq!(err.message, "unexpected trailing character 'o'");
}

#[test]
fn rejects_unterminated_string() {
    let err = parse("a = \"oops\n").unwrap_err();
    assert!(err.message.contains("unterminated"), "{}", err.message);
}

#[test]
fn accepts_crlf_line_endings() {
    let table = parse("a = 1\r\n[t]\r\nb = 2\r\n").unwrap();
    assert_eq!(get(&table, "a"), &Value::Integer(1));
    assert_eq!(get(&table, "t.b"), &Value::Integer(2));
}

#[test]
fn empty_table_is_materialised() {
    let table = parse("[empty]\n").unwrap();
    assert_eq!(get(&table, "empty"), &Value::Table(Table::new()));
}

#[test]
fn numbers_in_every_base_and_their_errors() {
    let table = parse("a = +7\nb = 0x_10\nc = 9223372036854775807\nd = -9223372036854775808\ne = 1e5\nf = 1.\n").unwrap();
    assert_eq!(get(&table, "a"), &Value::Integer(7));
    assert_eq!(get(&table, "b"), &Value::Integer(16));
    assert_eq!(parse("x = -0x10\n").unwrap_err().message, "invalid integer `-0x10`");
    assert_eq!(get(&table, "c"), &Value::Integer(i64::MAX));
    assert_eq!(get(&table, "d"), &Value::Integer(i64::MIN));
    assert_eq!(get(&table, "e"), &Value::Float("1e5".to_string()));
    assert_eq!(get(&table, "f"), &Value::Float("1.".to_string()));
    assert_eq!(parse("x = 9223372036854775808\n").unwrap_err().message, "invalid integer `9223372036854775808`");
    assert_eq!(parse("x = 0xfg\n").unwrap_err().message, "invalid hexadecimal integer `0xfg`");
    assert_eq!(parse("x = 1.2.3\n").unwrap_err().message, "invalid float `1.2.3`");
    let err = parse("\nx = 0o9\n").unwrap_err();
    assert_eq!((err.message.as_str(), err.line, err.col), ("invalid octal integer `0o9`", 2, 5));
}

#[test]
fn structural_errors_name_the_problem() {
    assert_eq!(parse("a = 1\na.b = 2\n").unwrap_err().message, "`a` is a integer and cannot contain sub-keys");
    assert_eq!(parse("[[a]]\n[a]\n").unwrap_err().message, "`a` is already defined as an array of tables");
    assert_eq!(parse("[a]\n[[a]]\n").unwrap_err().message, "`a` is already defined as a table");
    assert_eq!(parse("a = [1\n").unwrap_err().message, "expected `,` or `]` in array");
    assert_eq!(parse("a = {b = 1\n").unwrap_err().message, "expected `,` or `}` in inline table");
    assert_eq!(parse("a = \n").unwrap_err().message, "unexpected value starting with '\\n'");
    assert_eq!(parse("a = @\n").unwrap_err().message, "unexpected value starting with '@'");
    assert_eq!(parse("a = tru\n").unwrap_err().message, "expected `true` or `false`");
    assert_eq!(parse("= 1\n").unwrap_err().message, "invalid key character '='");
    assert_eq!(parse("a 1\n").unwrap_err().message, "expected `=` after the key");
}

#[test]
fn an_empty_document_is_an_empty_table() {
    assert_eq!(parse("# only a comment\n\n").unwrap().len(), 0);
    assert_eq!(parse("").unwrap(), Table::new());
}

#[test]
fn parse_errors_describe_themselves() {
    let err = parse("a = 1\na = 2\n").unwrap_err();
    assert_eq!(err.to_string(), "line 2, column 1: key `a` is defined more than once");
}

#[test]
fn empty_brackets_read_as_empty_values() {
    let table = parse("a = [ \n # nothing\n ]\nb = {  }\n").unwrap();
    assert_eq!(get(&table, "a"), &Value::Array(Vec::new()));
    assert_eq!(get(&table, "b"), &Value::Table(Table::new()));
    assert_eq!(parse("a = [\n").unwrap_err().message, "unterminated array");
}

#[test]
fn the_first_binding_holds_its_value() {
    let table = parse("\n# lead\n  port = 2222\n[other]\nport = 1\n").unwrap();
    assert_eq!(get(&table, "port"), &Value::Integer(2222));
    assert_eq!(get(&table, "other.port"), &Value::Integer(1));
}

#[test]
fn headers_extend_arrays_and_reopen_nothing() {
    let table = parse("[[a]]\nx = 1\n[[a]]\nx = 2\n").unwrap();
    match get(&table, "a") {
        Value::Array(items) => assert_eq!(items.len(), 2),
        other => panic!("expected an array, found {other:?}"),
    }
    assert_eq!(parse("[a]\n[a]\n").unwrap_err().message, "table `a` is defined more than once");
    assert_eq!(parse("[a] x\n").unwrap_err().line, 1);
    assert!(parse("a = 1\n[a]\n").is_err());
}

#[test]
fn bindings_land_in_the_table_their_header_opens() {
    let table = parse("top = 1\n[first]\nkey = \"a\"\n[second]\nkey = \"b\"\nother = true\n").unwrap();
    assert_eq!(get(&table, "top"), &Value::Integer(1));
    assert_eq!(get(&table, "first.key"), &text("a"));
    assert_eq!(get(&table, "second.key"), &text("b"));
    assert_eq!(get(&table, "second.other"), &Value::Boolean(true));
    assert!(table.get("key").is_none());
    assert!(table.get("other").is_none());
}

#[test]
fn a_header_that_names_a_top_key_is_refused() {
    let err = parse("name = 1\n[name]\n").unwrap_err();
    assert_eq!(err.line, 2);
}

#[test]
fn a_header_given_twice_is_refused() {
    let err = parse("[a]\nx = 1\n[a]\n").unwrap_err();
    assert!(err.message.contains("defined more than once"), "{}", err.message);
}

#[test]
fn arrays_land_in_the_table_their_header_opens() {
    let table = parse("[user]\nname = \"pi\"\ngroups = [\"adm\", \"video\",]\n[hardware]\noverlays = []\n").unwrap();
    assert_eq!(get(&table, "user.name"), &text("pi"));
    match get(&table, "user.groups") {
        Value::Array(items) => {
            assert_eq!(items.len(), 2);
            assert_eq!(items[0].value, text("adm"));
            assert_eq!(items[1].value, text("video"));
        },
        other => panic!("expected an array, got {other:?}"),
    }
    match get(&table, "hardware.overlays") {
        Value::Array(items) => assert!(items.is_empty()),
        other => panic!("expected an array, got {other:?}"),
    }
    assert!(table.get("groups").is_none());
}

#[test]
fn an_inline_table_lands_under_its_key_in_the_table_its_header_opens() {
    let table = parse("[user]\nname = \"pi\"\npassword_hash = { env = \"HASH\", }\n").unwrap();
    assert_eq!(get(&table, "user.password_hash.env"), &text("HASH"));
    assert!(table.get("password_hash").is_none());
}

#[test]
fn a_key_given_twice_in_an_inline_table_is_refused() {
    assert!(parse("[user]\nsecret = { env = \"A\", env = \"B\" }\n").is_err());
}
