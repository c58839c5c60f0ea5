use rpi_provision::specification::error::{message, Error};
use rpi_provision::specification::model::{
    validate_authorized_key, validate_connection_id, validate_hostname, validate_password_hash, validate_psk,
    validate_ssid, validate_username, Context, GadgetFunction, IpMethod, Target,
};
use rpi_provision::specification::secret::{finish_secret, join, resolve, MapSecrets, SecretProvider, SecretSource};
use rpi_provision::specification::sha256::{sha256, sha256_hex, to_hex};

const KEY: &str = "ssh-ed25519 AAAAC3NzaC1lZDI1NTE5AAAAIExampleKeyBodyThatIsLongEnough user@host";

// ------------------------------------------------------------------ sha256

#[test]
fn sha256_matches_the_standard_vectors() {
    assert_eq!(sha256_hex(b""), "e3b0c44298fc1c149afbf4c8996fb92427ae41e4649b934ca495991b7852b855");
    assert_eq!(sha256_hex(b"abc"), "ba7816bf8f01cfea414140de5dae2223b00361a396177a9cb410ff61f20015ad");
    assert_eq!(
        sha256_hex(b"abcdbcdecdefdefgefghfghighijhijkijkljklmklmnlmnomnopnopq"),
        "248d6a61d20638b8e5c026930c3e6039a33ce45964ff2167f6ecedd419db06c1"
    );
    assert_eq!(sha256(b"abc").len(), 32);
}

#[test]
fn sha256_handles_a_block_boundary() {
    let block = [b'x'; 64];
    assert_eq!(sha256(&block).len(), 32);
    assert_ne!(sha256(&block), sha256(&block[..63]));
    let long = vec![b'a'; 1000];
    assert_eq!(sha256_hex(&long), "41edece42d63e8d9bf515a9ba6932e1c20cbc9f5a5d134645adb5db1b9737ea3");
}

#[test]
fn hex_is_lowercase_and_two_digits_per_byte() {
    assert_eq!(to_hex(&[0x00, 0x0f, 0xa0, 0xff]), "000fa0ff");
    assert_eq!(to_hex(&[]), "");
}

// -------------------------------------------------------------- validators

#[test]
fn hostnames() {
    assert!(validate_hostname("dev-pi-01").is_ok());
    assert_eq!(validate_hostname("").unwrap_err().message, "must be between 1 and 63 characters");
    assert_eq!(
        validate_hostname("dev_pi").unwrap_err().message,
        "may only contain ASCII letters, digits and hyphens"
    );
    assert_eq!(validate_hostname("-pi").unwrap_err().message, "must not start or end with a hyphen");
    assert!(validate_hostname(&"a".repeat(63)).is_ok());
    assert!(validate_hostname(&"a".repeat(64)).is_err());
}

#[test]
fn usernames() {
    assert!(validate_username("engineer").is_ok());
    assert!(validate_username("_svc-1").is_ok());
    assert_eq!(validate_username("").unwrap_err().message, "must be between 1 and 32 characters");
    assert_eq!(
        validate_username("1user").unwrap_err().message,
        "must start with a lowercase letter or underscore"
    );
    assert_eq!(
        validate_username("User").unwrap_err().message,
        "must start with a lowercase letter or underscore"
    );
    assert_eq!(
        validate_username("us.er").unwrap_err().message,
        "may only contain lowercase letters, digits, `_` and `-`"
    );
}

#[test]
fn password_hashes() {
    assert!(validate_password_hash("$6$rounds=4096$abcdefgh$0123456789abcdef").is_ok());
    assert!(validate_password_hash("$y$j9T$salt$hash").is_ok());
    assert!(validate_password_hash("hunter2").unwrap_err().message.contains("crypt(3)"));
    assert_eq!(validate_password_hash("$6$a:b").unwrap_err().message, "must not contain `:`");
}

#[test]
fn authorized_keys() {
    assert!(validate_authorized_key(KEY).is_ok());
    assert!(validate_authorized_key("ssh-dss AAAAB3NzaC1kc3MAAACBAP user@host")
        .unwrap_err()
        .message
        .starts_with("`ssh-dss` is not a recognised SSH key type"));
    assert_eq!(
        validate_authorized_key("ssh-ed25519 short").unwrap_err().message,
        "the key body is not valid base64"
    );
    assert_eq!(
        validate_authorized_key("ssh-ed25519 AAAAC3NzaC1lZDI1NTE5!!!!").unwrap_err().message,
        "the key body is not valid base64"
    );
}

#[test]
fn connection_ids_ssids_and_keys() {
    assert!(validate_connection_id("eth0-static").is_ok());
    assert!(validate_connection_id("a/b").is_err());
    assert!(validate_connection_id("").is_err());
    assert!(validate_ssid("MySSID").is_ok());
    assert_eq!(validate_ssid("").unwrap_err().message, "must be between 1 and 32 bytes");
    assert!(validate_ssid(&"x".repeat(33)).is_err());
    assert_eq!(validate_ssid("a\u{7}b").unwrap_err().message, "must not contain control characters");
    assert!(validate_psk("correct-horse-battery").is_ok());
    assert!(validate_psk(&"a".repeat(64)).is_ok());
    assert!(validate_psk("short").is_err());
    assert!(validate_psk(&"g".repeat(64)).is_err());
    assert_eq!(validate_psk("caf\u{e9}-password").unwrap_err().message, "must contain only printable ASCII characters");
}

#[test]
fn names_of_the_enumerations() {
    assert_eq!(Target::Pi5.as_str(), "pi5");
    assert_eq!(Target::Pi5.device_tree_blob(), "bcm2712-rpi-5-b.dtb");
    assert_eq!(IpMethod::Auto.as_nm(), "auto");
    assert_eq!(IpMethod::Manual.as_nm(), "manual");
    assert_eq!(IpMethod::Disabled.as_nm(), "disabled");
    assert_eq!(GadgetFunction::Ecm.as_str(), "ecm");
    assert_eq!(GadgetFunction::Ncm.configfs_name(), "ncm");
    assert_eq!(GadgetFunction::Rndis.configfs_name(), "rndis");
}

// ----------------------------------------------------------------- errors

#[test]
fn errors_describe_themselves() {
    assert_eq!(message("bad").to_string(), "bad");
    assert_eq!(Error::at(3, 7, "bad".to_string()).to_string(), "line 3, column 7: bad");
    assert_eq!(
        Error::at(3, 7, "bad".to_string()).in_file("pi.toml".to_string()).to_string(),
        "pi.toml: line 3, column 7: bad"
    );
    assert_eq!(Error::new("x".to_string()).position, None);
}

// ---------------------------------------------------------------- secrets

#[test]
fn secret_sources_parse_from_the_command_line() {
    assert_eq!(SecretSource::parse_cli("env:HASH").unwrap(), SecretSource::Env("HASH".to_string()));
    assert_eq!(SecretSource::parse_cli("file:/run/psk").unwrap(), SecretSource::File("/run/psk".to_string()));
    assert_eq!(SecretSource::parse_cli("value:").unwrap(), SecretSource::Value(String::new()));
    assert!(SecretSource::parse_cli("env:").is_err());
    assert!(SecretSource::parse_cli("vault:x").is_err());
    assert!(SecretSource::parse_cli("plain").is_err());
}

#[test]
fn secret_sources_describe_themselves() {
    assert_eq!(SecretSource::Env("A".to_string()).describe(), "environment variable `A`");
    assert_eq!(SecretSource::File("p".to_string()).describe(), "file `p`");
    assert_eq!(SecretSource::Value("v".to_string()).describe(), "inline literal");
}

#[test]
fn secrets_are_resolved_from_the_provider() {
    let provider = MapSecrets::new().with_env("WIFI_PSK", "correct-horse-battery").with_file("./psk", "from-file\n");
    assert_eq!(provider.env("WIFI_PSK"), Some("correct-horse-battery".to_string()));
    assert_eq!(provider.env("OTHER"), None);
    let env = SecretSource::Env("WIFI_PSK".to_string());
    assert_eq!(resolve(&env, &provider, ".", "psk").unwrap(), "correct-horse-battery");
    let file = SecretSource::File("psk".to_string());
    assert_eq!(resolve(&file, &provider, ".", "psk").unwrap(), "from-file", "a trailing newline is trimmed");
    let missing = SecretSource::Env("NOPE".to_string());
    assert_eq!(
        resolve(&missing, &provider, ".", "psk").unwrap_err().message,
        "psk: environment variable `NOPE` is not set"
    );
    let literal = SecretSource::Value("inline".to_string());
    assert_eq!(resolve(&literal, &provider, ".", "psk").unwrap(), "inline");
}

#[test]
fn an_empty_or_multi_line_secret_is_refused() {
    let source = SecretSource::Value(String::new());
    assert_eq!(finish_secret("\n\n", &source, "psk").unwrap_err().message, "psk: inline literal is empty");
    assert_eq!(
        finish_secret("a\nb", &source, "psk").unwrap_err().message,
        "psk: inline literal contains a line break"
    );
    assert_eq!(finish_secret("abc\r\n", &source, "psk").unwrap(), "abc");
}

#[test]
fn relative_paths_join_the_base_directory() {
    assert_eq!(join(".", "files/motd"), "./files/motd");
    assert_eq!(join("/etc/", "motd"), "/etc/motd");
    assert_eq!(join("/etc", "/abs"), "/abs");
    assert_eq!(join("", "x"), "x");
}

#[test]
fn warnings_accumulate_in_the_context() {
    let provider = MapSecrets::new();
    let mut context = Context::new(&provider, ".");
    context.warn("first".to_string());
    context.warn("second".to_string());
    assert_eq!(context.warnings, vec!["first", "second"]);
    assert_eq!(context.base_dir, ".");
}
