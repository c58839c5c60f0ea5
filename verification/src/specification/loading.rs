//! Reading the specification model out of a parsed document.
//!
//! Every section is read through a [`Reader`], which rejects unknown keys,
//! and validated eagerly so that later stages can assume a well-formed
//! specification.

use vstd::prelude::*;
use vstd::utf8::encode_utf8;
use crate::specification::bytes::{all_bytes_in, all_in, ByteClass};
use crate::specification::error::Error;
use crate::specification::model::{
    Context, EthernetConnection, Hardware, I2c, IpConfig, IpMethod, Meta, Network, OneWire,
    Provisioning, Spec, Spi, Ssh, SudoMode, System, Target, Uart, UsbGadget, User, WifiConnection,
    WifiSecurity, GadgetFunction, SCHEMA_VERSION, validate_authorized_key, validate_connection_id,
    validate_hostname, validate_password_hash, validate_psk, validate_ssid, validate_username,
};
use crate::specification::net::{parse_ipv4, validate_interface, Ipv4Addr, Ipv4Cidr, MacAddr};
use crate::specification::reader::{
    error_of, flag_at, flag_value, int_within_at, only_keys, table_items, Reader,
};
use crate::specification::secret::{SecretProvider, SecretSource};
use crate::text::{owned, push_str, utf8_bytes};
use crate::toml::Value;

verus! {

// ------------------------------------------------------------------ secrets

/// What a declaration under `key` gives when it reads: one of `env`,
/// `file` or `value`, inside an inline table.
pub open spec fn declared_source(r: Reader, key: Seq<char>, s: SecretSource) -> bool {
    &&& r.node_at(key) matches Some(n)
    &&& n.value matches Value::Table(t)
    &&& match s {
        SecretSource::Env(name) => crate::toml::lookup(t.items(), "env"@) matches Some(m) && m.value matches Value::String(v) && v@ == name@
            && crate::toml::lookup(t.items(), "file"@) is None && crate::toml::lookup(t.items(), "value"@) is None,
        SecretSource::File(path) => crate::toml::lookup(t.items(), "file"@) matches Some(m) && m.value matches Value::String(v) && v@ == path@
            && crate::toml::lookup(t.items(), "env"@) is None && crate::toml::lookup(t.items(), "value"@) is None,
        SecretSource::Value(literal) => crate::toml::lookup(t.items(), "value"@) matches Some(m) && m.value matches Value::String(v) && v@ == literal@
            && crate::toml::lookup(t.items(), "env"@) is None && crate::toml::lookup(t.items(), "file"@) is None,
    }
}

pub open spec fn bare_string_message() -> Seq<char> {
    "must not be a bare string; use `{ env = \"NAME\" }`, `{ file = \"PATH\" }` or, if you really mean it, `{ value = \"...\" }`"@
}

/// Read a secret declaration out of an inline table.
pub fn read_secret(reader: &mut Reader, key: &str) -> (r: Result<Option<SecretSource>, Error>)
    ensures
        r is Ok ==> old(reader).took(*final(reader), key@),
        old(reader).node_at(key@) is None ==> r matches Ok(None),
        r matches Ok(None) ==> old(reader).node_at(key@) is None,
        (old(reader).node_at(key@) matches Some(n) && n.value is String) ==> (r matches Err(e) && error_of(e)
            == old(reader).key_error_spec(key@, bare_string_message())),
        r matches Ok(Some(s)) ==> declared_source(*old(reader), key@, s),
{
    proof {
        reveal_strlit("string");
    }
    match reader.peek_type(key) {
        Some(t) => {
            if crate::text::str_eq(t, "string") {
                let e = reader.key_error(
                    key,
                    "must not be a bare string; use `{ env = \"NAME\" }`, `{ file = \"PATH\" }` or, if you really mean it, `{ value = \"...\" }`",
                );
                return Err(e);
            }
        },
        None => {},
    }
    let ghost start = *reader;
    let mut table = match reader.opt_table(key)? {
        Some(t) => t,
        None => {
            return Ok(None);
        },
    };
    let env = table.opt_string("env")?;
    let file = table.opt_string("file")?;
    let value = table.opt_string("value")?;
    table.finish()?;
    let provided: usize = (if env.is_some() { 1usize } else { 0 }) + (if file.is_some() { 1usize } else { 0 }) + (
    if value.is_some() { 1usize } else { 0 });
    if provided != 1 {
        return Err(reader.key_error(key, "must declare exactly one of `env`, `file` or `value`"));
    }
    proof {
        reveal_strlit("env");
        reveal_strlit("file");
        reveal_strlit("value");
    }
    match (env, file, value) {
        (Some(name), _, _) => Ok(Some(SecretSource::Env(name))),
        (_, Some(path), _) => Ok(Some(SecretSource::File(path))),
        (_, _, Some(literal)) => Ok(Some(SecretSource::Value(literal))),
        _ => Err(reader.key_error(key, "must declare exactly one of `env`, `file` or `value`")),
    }
}

// -------------------------------------------------------------- sections

pub open spec fn opt_view(o: Option<String>) -> Option<Seq<char>> {
    match o {
        Some(s) => Some(s@),
        None => None,
    }
}

/// No entry holds a line break.
pub open spec fn single_lines(v: Seq<Seq<char>>) -> bool {
    forall|i: int| 0 <= i < v.len() ==> !(#[trigger] v[i]).contains('\n') && !v[i].contains('\r')
}

pub open spec fn is_ascii_space(c: char) -> bool {
    c == ' ' || c == '\t' || c == '\n' || c == '\u{c}' || c == '\r'
}

/// Every entry is one non-empty token without ASCII whitespace.
pub open spec fn single_tokens(v: Seq<Seq<char>>) -> bool {
    forall|i: int| 0 <= i < v.len() ==> (#[trigger] v[i]).len() > 0 && forall|k: int| 0 <= k < v[i].len() ==> !is_ascii_space(v[i][k])
}

fn all_single_lines(values: &Vec<String>) -> (r: bool)
    ensures
        r == single_lines(crate::text::strings_view(values@)),
{
    let mut i: usize = 0;
    while i < values.len()
        invariant
            i <= values@.len(),
            forall|k: int| 0 <= k < i ==> !(#[trigger] values@[k]@).contains('\n') && !values@[k]@.contains('\r'),
        decreases values.len() - i,
    {
        let c = crate::text::chars_of(values[i].as_str());
        if crate::text::chars_contain(c.as_slice(), '\n') || crate::text::chars_contain(c.as_slice(), '\r') {
            assert(crate::text::strings_view(values@)[i as int] == values@[i as int]@);
            return false;
        }
        i = i + 1;
    }
    true
}

fn all_single_tokens(values: &Vec<String>) -> (r: bool)
    ensures
        r == single_tokens(crate::text::strings_view(values@)),
{
    let mut i: usize = 0;
    while i < values.len()
        invariant
            i <= values@.len(),
            forall|k: int| 0 <= k < i ==> (#[trigger] values@[k]@).len() > 0 && forall|m: int| 0 <= m < values@[k]@.len() ==> !is_ascii_space(values@[k]@[m]),
        decreases values.len() - i,
    {
        let c = crate::text::chars_of(values[i].as_str());
        if c.len() == 0 {
            assert(crate::text::strings_view(values@)[i as int] == values@[i as int]@);
            return false;
        }
        let mut k: usize = 0;
        while k < c.len()
            invariant
                k <= c@.len(),
                i < values@.len(),
                c@ == values@[i as int]@,
                forall|m: int| 0 <= m < k ==> !is_ascii_space(c@[m]),
            decreases c.len() - k,
        {
            let ch = c[k];
            if ch == ' ' || ch == '\t' || ch == '\n' || ch == '\u{c}' || ch == '\r' {
                assert(crate::text::strings_view(values@)[i as int] == values@[i as int]@);
                return false;
            }
            k = k + 1;
        }
        i = i + 1;
    }
    true
}

/// When `[meta]` reads without error.
pub open spec fn meta_ok(r: Reader) -> bool {
    &&& r.int_ok("schema_version"@)
    &&& r.int_or("schema_version"@, SCHEMA_VERSION) == SCHEMA_VERSION
    &&& r.choice_ok("target"@, "pi5"@, seq!["pi5"@])
    &&& r.text_ok("description"@)
    &&& r.known_only(seq!["schema_version"@, "target"@, "description"@])
}

/// When `[system]` reads without error.
pub open spec fn system_ok(r: Reader) -> bool {
    &&& (r.opt_text("hostname"@) matches Some(h) && crate::specification::model::hostname_error(h) is None)
    &&& r.text_ok("timezone"@)
    &&& (r.opt_text("timezone"@) matches Some(t) ==> all_in(ByteClass::TimeZone, encode_utf8(t)))
    &&& r.text_ok("locale"@)
    &&& r.text_ok("keymap"@)
    &&& r.known_only(seq!["hostname"@, "timezone"@, "locale"@, "keymap"@])
}

/// When `[ssh]` reads without error.
pub open spec fn ssh_ok(r: Reader) -> bool {
    &&& r.flag_ok("enabled"@)
    &&& r.int_within("port"@, 1, 65535)
    &&& r.flag_ok("password_authentication"@)
    &&& r.choice_ok("permit_root_login"@, "no"@, seq!["no"@, "yes"@, "prohibit-password"@, "forced-commands-only"@])
    &&& r.texts_ok("extra_config"@)
    &&& single_lines(r.texts("extra_config"@))
    &&& r.known_only(seq!["enabled"@, "port"@, "password_authentication"@, "permit_root_login"@, "extra_config"@])
}

/// When `[provisioning]` reads without error.
pub open spec fn provisioning_ok(r: Reader) -> bool {
    let boot_mount = r.text_or("boot_mount"@, "/boot/firmware"@);
    let runner_dir = r.text_or("runner_dir"@, "rpi-provision"@);
    let log_path = r.text_or("log_path"@, "/var/log/rpi-provision.log"@);
    &&& r.text_ok("boot_mount"@)
    &&& boot_mount.len() > 0 && boot_mount[0] == '/' && boot_mount.last() != '/'
    &&& r.text_ok("runner_dir"@)
    &&& runner_dir.len() > 0 && all_in(ByteClass::Segment, encode_utf8(runner_dir))
    &&& r.flag_ok("wipe_payload"@)
    &&& r.flag_ok("reboot_after"@)
    &&& r.text_ok("log_path"@)
    &&& log_path.len() > 0 && log_path[0] == '/'
    &&& r.known_only(seq!["boot_mount"@, "runner_dir"@, "wipe_payload"@, "reboot_after"@, "log_path"@])
}

/// What `[meta]` gives when it reads from `r`.
pub open spec fn meta_read(r: Reader, m: Meta) -> bool {
    &&& m.schema_version == SCHEMA_VERSION
    &&& m.target == Target::Pi5
    &&& opt_view(m.description) == r.opt_text("description"@)
    &&& r.int_or("schema_version"@, SCHEMA_VERSION) == SCHEMA_VERSION
}

impl Meta {
    pub(crate) fn read(reader: &mut Reader) -> (r: Result<Meta, Error>)
        ensures
            r matches Ok(m) ==> meta_read(*old(reader), m),
            (r is Ok) == meta_ok(*old(reader)),
    {
        let ghost r0 = *reader;
        let schema_version = reader.integer_or("schema_version", SCHEMA_VERSION)?;
        if schema_version != SCHEMA_VERSION {
            return Err(reader.key_error("schema_version", "this build understands schema version 1"));
        }
        let allowed = ["pi5"];
        proof {
            reveal_strlit("pi5");
            assert(crate::specification::reader::str_list(allowed@) =~= seq!["pi5"@]);
        }
        let target = reader.enumerated("target", "pi5", &allowed)?;
        let description = reader.opt_string("description")?;
        assert(reader.consumed() =~= r0.consumed() + seq!["schema_version"@, "target"@, "description"@]);
        reader.finish()?;
        Ok(Meta { schema_version, target: Target::Pi5, description })
    }
}

/// What `[system]` gives when it reads from `r`.
pub open spec fn system_read(r: Reader, s: System) -> bool {
    &&& r.opt_text("hostname"@) == Some(s.hostname@)
    &&& crate::specification::model::hostname_error(s.hostname@) is None
    &&& opt_view(s.timezone) == r.opt_text("timezone"@)
    &&& (s.timezone matches Some(tz) ==> all_in(ByteClass::TimeZone, encode_utf8(tz@)))
    &&& opt_view(s.locale) == r.opt_text("locale"@)
    &&& opt_view(s.keymap) == r.opt_text("keymap"@)
}

impl System {
    pub(crate) fn read(reader: &mut Reader) -> (r: Result<System, Error>)
        ensures
            r matches Ok(s) ==> system_read(*old(reader), s),
            (r is Ok) == system_ok(*old(reader)),
    {
        let ghost r0 = *reader;
        let hostname = reader.req_string("hostname")?;
        match validate_hostname(hostname.as_str()) {
            Ok(()) => {},
            Err(e) => {
                return Err(reader.key_error("hostname", e.message.as_str()));
            },
        }
        let timezone = reader.opt_string("timezone")?;
        match &timezone {
            Some(tz) => {
                let b = utf8_bytes(tz.as_str());
                if !all_bytes_in(ByteClass::TimeZone, b.as_slice(), 0) {
                    return Err(reader.key_error("timezone", "contains unexpected characters"));
                }
                assert(b@.skip(0) =~= b@);
            },
            None => {},
        }
        let locale = reader.opt_string("locale")?;
        let keymap = reader.opt_string("keymap")?;
        assert(reader.consumed() =~= r0.consumed() + seq!["hostname"@, "timezone"@, "locale"@, "keymap"@]);
        reader.finish()?;
        Ok(System { hostname, timezone, locale, keymap })
    }
}

/// What `[ssh]` gives when it reads from `r`.
pub open spec fn ssh_read(r: Reader, s: Ssh) -> bool {
    &&& s.enabled == r.flag_or("enabled"@, true)
    &&& s.port as i64 == r.int_or("port"@, 22)
    &&& 1 <= s.port
    &&& s.password_authentication == r.flag_or("password_authentication"@, false)
    &&& s.permit_root_login@ == r.text_or("permit_root_login"@, "no"@)
    &&& crate::text::strings_view(s.extra_config@) =~= r.texts("extra_config"@)
    &&& single_lines(crate::text::strings_view(s.extra_config@))
}

impl Ssh {
    pub(crate) fn read(reader: &mut Reader) -> (r: Result<Ssh, Error>)
        ensures
            r matches Ok(s) ==> ssh_read(*old(reader), s),
            (r is Ok) == ssh_ok(*old(reader)),
    {
        let ghost r0 = *reader;
        let enabled = reader.bool_or("enabled", true)?;
        let port = reader.integer_in_range("port", 22, 1, 65535)?;
        let password_authentication = reader.bool_or("password_authentication", false)?;
        let allowed = ["no", "yes", "prohibit-password", "forced-commands-only"];
        proof {
            reveal_strlit("no");
            reveal_strlit("yes");
            reveal_strlit("prohibit-password");
            reveal_strlit("forced-commands-only");
            assert(crate::specification::reader::str_list(allowed@) =~= seq!["no"@, "yes"@, "prohibit-password"@,
                "forced-commands-only"@]);
        }
        let permit_root_login = reader.enumerated("permit_root_login", "no", &allowed)?;
        let extra_config = reader.string_list("extra_config")?;
        if !all_single_lines(&extra_config) {
            return Err(reader.key_error("extra_config", "entries must be single lines"));
        }
        assert(reader.consumed() =~= r0.consumed() + seq!["enabled"@, "port"@, "password_authentication"@,
            "permit_root_login"@, "extra_config"@]);
        reader.finish()?;
        Ok(Ssh { enabled, port: port as u16, password_authentication, permit_root_login, extra_config })
    }
}

/// When `[hardware.uart]`, with entries `es`, reads without error.
pub open spec fn uart_ok(es: Seq<crate::toml::Entry>) -> bool {
    &&& flag_at(es, "enabled"@)
    &&& flag_at(es, "console"@)
    &&& int_within_at(es, "baudrate"@, 300, 4_000_000)
    &&& flag_at(es, "debug_connector"@)
    &&& (flag_value(es, "console"@, false) ==> flag_value(es, "enabled"@, false))
    &&& only_keys(es, seq!["enabled"@, "console"@, "baudrate"@, "debug_connector"@])
}

/// When `[hardware.i2c]` reads without error.
pub open spec fn i2c_ok(es: Seq<crate::toml::Entry>) -> bool {
    &&& flag_at(es, "enabled"@)
    &&& int_within_at(es, "baudrate"@, 10_000, 1_000_000)
    &&& only_keys(es, seq!["enabled"@, "baudrate"@])
}

/// When `[hardware.spi]` reads without error.
pub open spec fn spi_ok(es: Seq<crate::toml::Entry>) -> bool {
    &&& flag_at(es, "enabled"@)
    &&& only_keys(es, seq!["enabled"@])
}

/// When `[hardware.one_wire]` reads without error.
pub open spec fn one_wire_ok(es: Seq<crate::toml::Entry>) -> bool {
    &&& flag_at(es, "enabled"@)
    &&& int_within_at(es, "gpio"@, 0, 27)
    &&& only_keys(es, seq!["enabled"@, "gpio"@])
}

/// The keys of `[hardware]`, in the order they are read.
pub open spec fn hardware_keys() -> Seq<Seq<char>> {
    seq![
        "uart"@,
        "i2c"@,
        "spi"@,
        "one_wire"@,
        "pcie_gen"@,
        "usb_max_current"@,
        "fan_thresholds"@,
        "overlays"@,
        "dtparams"@,
        "config_extra"@,
        "cmdline_append"@,
        "cmdline_remove"@,
    ]
}

/// When `[hardware]` reads without error.
pub open spec fn hardware_ok(r: Reader) -> bool {
    &&& r.table_ok("uart"@) && uart_ok(table_items(r.items(), "uart"@))
    &&& r.table_ok("i2c"@) && i2c_ok(table_items(r.items(), "i2c"@))
    &&& r.table_ok("spi"@) && spi_ok(table_items(r.items(), "spi"@))
    &&& r.table_ok("one_wire"@) && one_wire_ok(table_items(r.items(), "one_wire"@))
    &&& r.int_within("pcie_gen"@, 1, 3)
    &&& r.flag_ok("usb_max_current"@)
    &&& r.ints_ok("fan_thresholds"@)
    &&& r.ints("fan_thresholds"@).len() <= 4
    &&& (forall|i: int| 0 <= i < r.ints("fan_thresholds"@).len() ==> 0 <= #[trigger] r.ints("fan_thresholds"@)[i]
        <= FAN_LIMIT)
    &&& r.texts_ok("overlays"@)
    &&& r.texts_ok("dtparams"@)
    &&& r.texts_ok("config_extra"@)
    &&& r.texts_ok("cmdline_append"@)
    &&& r.texts_ok("cmdline_remove"@)
    &&& single_lines(r.texts("overlays"@))
    &&& single_lines(r.texts("dtparams"@))
    &&& single_lines(r.texts("config_extra"@))
    &&& single_tokens(r.texts("cmdline_append"@))
    &&& single_tokens(r.texts("cmdline_remove"@))
    &&& r.known_only(hardware_keys())
}

impl Uart {
    pub(crate) fn read(reader: &mut Reader) -> (r: Result<Uart, Error>)
        ensures
            r matches Ok(u) ==> {
                &&& u.enabled == old(reader).flag_or("enabled"@, false)
                &&& u.console == old(reader).flag_or("console"@, false)
                &&& u.baudrate as i64 == old(reader).int_or("baudrate"@, 115_200)
                &&& u.debug_connector == old(reader).flag_or("debug_connector"@, false)
                &&& (u.console ==> u.enabled)
            },
            old(reader).consumed().len() == 0 ==> (r is Ok) == uart_ok(old(reader).items()),
    {
        let ghost r0 = *reader;
        let enabled = reader.bool_or("enabled", false)?;
        let console = reader.bool_or("console", false)?;
        let baudrate = reader.integer_in_range("baudrate", 115_200, 300, 4_000_000)?;
        let debug_connector = reader.bool_or("debug_connector", false)?;
        if console && !enabled {
            return Err(reader.table_error(
                "`console` requires `enabled`; a console on GPIO 14/15 needs UART0 turned on",
            ));
        }
        assert(reader.consumed() =~= r0.consumed() + seq!["enabled"@, "console"@, "baudrate"@, "debug_connector"@]);
        reader.finish()?;
        Ok(Uart { enabled, console, baudrate: baudrate as u32, debug_connector })
    }
}

impl I2c {
    pub(crate) fn read(reader: &mut Reader) -> (r: Result<I2c, Error>)
        ensures
            r matches Ok(b) ==> b.enabled == old(reader).flag_or("enabled"@, false) && b.baudrate as i64
                == old(reader).int_or("baudrate"@, 100_000),
            old(reader).consumed().len() == 0 ==> (r is Ok) == i2c_ok(old(reader).items()),
    {
        let ghost r0 = *reader;
        let enabled = reader.bool_or("enabled", false)?;
        let baudrate = reader.integer_in_range("baudrate", 100_000, 10_000, 1_000_000)?;
        assert(reader.consumed() =~= r0.consumed() + seq!["enabled"@, "baudrate"@]);
        reader.finish()?;
        Ok(I2c { enabled, baudrate: baudrate as u32 })
    }
}

impl Spi {
    pub(crate) fn read(reader: &mut Reader) -> (r: Result<Spi, Error>)
        ensures
            r matches Ok(b) ==> b.enabled == old(reader).flag_or("enabled"@, false),
            old(reader).consumed().len() == 0 ==> (r is Ok) == spi_ok(old(reader).items()),
    {
        let ghost r0 = *reader;
        let enabled = reader.bool_or("enabled", false)?;
        assert(reader.consumed() =~= r0.consumed() + seq!["enabled"@]);
        reader.finish()?;
        Ok(Spi { enabled })
    }
}

impl OneWire {
    pub(crate) fn read(reader: &mut Reader) -> (r: Result<OneWire, Error>)
        ensures
            r matches Ok(b) ==> b.enabled == old(reader).flag_or("enabled"@, false) && b.gpio as i64 == old(
                reader,
            ).int_or("gpio"@, 4),
            old(reader).consumed().len() == 0 ==> (r is Ok) == one_wire_ok(old(reader).items()),
    {
        let ghost r0 = *reader;
        let enabled = reader.bool_or("enabled", false)?;
        let gpio = reader.integer_in_range("gpio", 4, 0, 27)?;
        assert(reader.consumed() =~= r0.consumed() + seq!["enabled"@, "gpio"@]);
        reader.finish()?;
        Ok(OneWire { enabled, gpio: gpio as u8 })
    }
}

/// The largest fan threshold accepted, in millidegrees.
pub const FAN_LIMIT: i64 = 150_000;

/// What `[hardware]` gives when it reads from `r`.
pub open spec fn hardware_read(r: Reader, h: Hardware) -> bool {
    &&& crate::text::strings_view(h.overlays@) =~= r.texts("overlays"@)
    &&& crate::text::strings_view(h.dtparams@) =~= r.texts("dtparams"@)
    &&& crate::text::strings_view(h.config_extra@) =~= r.texts("config_extra"@)
    &&& crate::text::strings_view(h.cmdline_append@) =~= r.texts("cmdline_append"@)
    &&& crate::text::strings_view(h.cmdline_remove@) =~= r.texts("cmdline_remove"@)
    &&& single_lines(crate::text::strings_view(h.overlays@))
    &&& single_lines(crate::text::strings_view(h.dtparams@))
    &&& single_lines(crate::text::strings_view(h.config_extra@))
    &&& single_tokens(crate::text::strings_view(h.cmdline_append@))
    &&& single_tokens(crate::text::strings_view(h.cmdline_remove@))
    &&& h.usb_max_current == r.flag_or("usb_max_current"@, false)
    &&& h.fan_thresholds@.len() <= 4
    &&& h.fan_thresholds@.len() == r.ints("fan_thresholds"@).len()
    &&& forall|i: int| 0 <= i < h.fan_thresholds@.len() ==> #[trigger] h.fan_thresholds@[i] as i64 == r.ints("fan_thresholds"@)[i]
    &&& (h.pcie_gen matches Some(g) ==> 1 <= g <= 3)
}

impl Hardware {
    pub(crate) fn read(reader: &mut Reader) -> (r: Result<Hardware, Error>)
        ensures
            r matches Ok(h) ==> hardware_read(*old(reader), h),
            (r is Ok) == hardware_ok(*old(reader)),
    {
        let ghost r0 = *reader;
        let uart = Uart::read(&mut reader.table("uart")?)?;
        let i2c = I2c::read(&mut reader.table("i2c")?)?;
        let spi = Spi::read(&mut reader.table("spi")?)?;
        let one_wire = OneWire::read(&mut reader.table("one_wire")?)?;
        let pcie_gen = match reader.opt_integer("pcie_gen")? {
            Some(g) => {
                if 1 <= g && g <= 3 {
                    Some(g as u8)
                } else {
                    return Err(reader.key_error("pcie_gen", "must be 1, 2 or 3"));
                }
            },
            None => None,
        };
        let usb_max_current = reader.bool_or("usb_max_current", false)?;
        let ghost before_fans = *reader;
        let fans = reader.integer_list("fan_thresholds")?;
        if fans.len() > 4 {
            return Err(reader.key_error("fan_thresholds", "takes at most four thresholds, `fan_temp0` to `fan_temp3`"));
        }
        let ghost r_fans = *reader;
        let mut fan_thresholds: Vec<u32> = Vec::new();
        let mut i: usize = 0;
        while i < fans.len()
            invariant
                i <= fans@.len(),
                fan_thresholds@.len() == i,
                forall|k: int| 0 <= k < i ==> #[trigger] fan_thresholds@[k] as i64 == fans@[k],
                forall|k: int| 0 <= k < i ==> 0 <= #[trigger] fans@[k] <= FAN_LIMIT,
                fans@ == r0.ints("fan_thresholds"@),
                r0 == *old(reader),
                *reader == r_fans,
            decreases fans.len() - i,
        {
            if fans[i] < 0 || fans[i] > FAN_LIMIT {
                return Err(reader.key_error(
                    "fan_thresholds",
                    "entries must be between 0 and 150000: the values are millidegrees, so 55 °C is 55000",
                ));
            }
            fan_thresholds.push(fans[i] as u32);
            i = i + 1;
        }
        let overlays = reader.string_list("overlays")?;
        let dtparams = reader.string_list("dtparams")?;
        let config_extra = reader.string_list("config_extra")?;
        let cmdline_append = reader.string_list("cmdline_append")?;
        let cmdline_remove = reader.string_list("cmdline_remove")?;
        if !all_single_lines(&overlays) {
            return Err(reader.key_error("overlays", "entries must be single lines"));
        }
        if !all_single_lines(&dtparams) {
            return Err(reader.key_error("dtparams", "entries must be single lines"));
        }
        if !all_single_lines(&config_extra) {
            return Err(reader.key_error("config_extra", "entries must be single lines"));
        }
        if !all_single_tokens(&cmdline_append) {
            return Err(reader.key_error("cmdline_append", "entries must be single whitespace-free tokens"));
        }
        if !all_single_tokens(&cmdline_remove) {
            return Err(reader.key_error("cmdline_remove", "entries must be single whitespace-free tokens"));
        }
        assert(reader.consumed() =~= r0.consumed() + hardware_keys());
        reader.finish()?;
        Ok(Hardware {
            uart,
            i2c,
            spi,
            one_wire,
            pcie_gen,
            usb_max_current,
            fan_thresholds,
            overlays,
            dtparams,
            config_extra,
            cmdline_append,
            cmdline_remove,
        })
    }
}

/// What `[provisioning]` gives when it reads from `r`.
pub open spec fn provisioning_read(r: Reader, p: Provisioning) -> bool {
    &&& p.boot_mount@ == r.text_or("boot_mount"@, "/boot/firmware"@)
    &&& p.boot_mount@.len() > 0 && p.boot_mount@[0] == '/' && p.boot_mount@.last() != '/'
    &&& p.runner_dir@ == r.text_or("runner_dir"@, "rpi-provision"@)
    &&& p.runner_dir@.len() > 0 && all_in(ByteClass::Segment, encode_utf8(p.runner_dir@))
    &&& p.wipe_payload == r.flag_or("wipe_payload"@, true)
    &&& p.reboot_after == r.flag_or("reboot_after"@, true)
    &&& p.log_path@ == r.text_or("log_path"@, "/var/log/rpi-provision.log"@)
    &&& p.log_path@.len() > 0 && p.log_path@[0] == '/'
}

impl Provisioning {
    pub(crate) fn read(reader: &mut Reader) -> (r: Result<Provisioning, Error>)
        ensures
            r matches Ok(p) ==> provisioning_read(*old(reader), p),
            (r is Ok) == provisioning_ok(*old(reader)),
    {
        let ghost r0 = *reader;
        let boot_mount = reader.string_or("boot_mount", "/boot/firmware")?;
        let bm = crate::text::chars_of(boot_mount.as_str());
        if bm.len() == 0 || bm[0] != '/' || bm[bm.len() - 1] == '/' {
            return Err(reader.key_error("boot_mount", "must be an absolute path without a trailing slash"));
        }
        let runner_dir = reader.string_or("runner_dir", "rpi-provision")?;
        let rd = utf8_bytes(runner_dir.as_str());
        let rc = crate::text::chars_of(runner_dir.as_str());
        if rc.len() == 0 || !all_bytes_in(ByteClass::Segment, rd.as_slice(), 0) {
            return Err(reader.key_error("runner_dir", "must be a single path segment of letters, digits, `-` or `_`"));
        }
        assert(rd@.skip(0) =~= rd@);
        let wipe_payload = reader.bool_or("wipe_payload", true)?;
        let reboot_after = reader.bool_or("reboot_after", true)?;
        let log_path = reader.string_or("log_path", "/var/log/rpi-provision.log")?;
        let lp = crate::text::chars_of(log_path.as_str());
        if lp.len() == 0 || lp[0] != '/' {
            return Err(reader.key_error("log_path", "must be an absolute path"));
        }
        assert(reader.consumed() =~= r0.consumed() + seq!["boot_mount"@, "runner_dir"@, "wipe_payload"@,
            "reboot_after"@, "log_path"@]);
        reader.finish()?;
        Ok(Provisioning { boot_mount, runner_dir, wipe_payload, reboot_after, log_path })
    }
}

// ------------------------------------------------------------------ network

impl<'a, P: SecretProvider> Context<'a, P> {
    /// Resolve the secret declared under `reader.key`.
    pub(crate) fn secret(&self, reader: &Reader, key: &str, source: &SecretSource) -> (r: Result<String, Error>)
        ensures
            r matches Ok(s) ==> s@.len() > 0 && !s@.contains('\n'),
            source matches SecretSource::Value(literal) ==> match crate::specification::secret::finished_secret(
                literal@,
                "`"@ + reader.path_spec() + "."@ + key@ + "`"@,
                crate::specification::secret::source_text(*source),
            ) {
                Ok(v) => r matches Ok(s) && s@ == v,
                Err(m) => r matches Err(e) && e.message@ == m,
            },
            source matches SecretSource::Env(n) ==> exists|raw: Option<String>|
                #[trigger] self.provider.env_answer(n@, raw) && crate::specification::secret::outcome_is(
                    r,
                    crate::specification::secret::env_outcome(
                        raw,
                        n@,
                        "`"@ + reader.path_spec() + "."@ + key@ + "`"@,
                        crate::specification::secret::source_text(*source),
                    ),
                ),
            source matches SecretSource::File(p) ==> exists|raw: Result<String, crate::apply::fs::IoError>|
                #[trigger] self.provider.file_answer(crate::specification::secret::join_path(self.base_dir@, p@), raw)
                    && crate::specification::secret::outcome_is(
                    r,
                    crate::specification::secret::file_outcome(
                        raw,
                        crate::specification::secret::join_path(self.base_dir@, p@),
                        "`"@ + reader.path_spec() + "."@ + key@ + "`"@,
                        crate::specification::secret::source_text(*source),
                    ),
                ),
    {
        let mut what = owned("`");
        push_str(&mut what, reader.path());
        push_str(&mut what, ".");
        push_str(&mut what, key);
        push_str(&mut what, "`");
        crate::specification::secret::resolve(source, self.provider, self.base_dir.as_str(), what.as_str())
    }
}

pub open spec fn method_of(name: Seq<char>) -> IpMethod {
    if name == "auto"@ {
        IpMethod::Auto
    } else if name == "manual"@ {
        IpMethod::Manual
    } else {
        IpMethod::Disabled
    }
}

/// When the address settings of a connection read without error.
pub open spec fn ip_ok(r: Reader, default_method: Seq<char>) -> bool {
    let method = r.text_or("method"@, default_method);
    &&& r.choice_ok("method"@, default_method, seq!["auto"@, "manual"@, "disabled"@])
    &&& r.text_ok("address"@)
    &&& (r.opt_text("address"@) matches Some(t) ==> crate::specification::net::parse_cidr(t) is Ok)
    &&& r.text_ok("gateway"@)
    &&& (r.opt_text("gateway"@) matches Some(t) ==> crate::specification::net::dotted_quad(crate::text::trim(t)) is Some)
    &&& r.texts_ok("dns"@)
    &&& (forall|i: int| 0 <= i < r.texts("dns"@).len() ==> crate::specification::net::dotted_quad(
        crate::text::trim(#[trigger] r.texts("dns"@)[i]),
    ) is Some)
    &&& r.flag_ok("ignore_auto_dns"@)
    &&& r.choice_ok("ipv6"@, "auto"@, seq!["auto"@, "disabled"@])
    &&& (method == "manual"@ <==> r.opt_text("address"@) is Some)
    &&& (r.opt_text("gateway"@) is Some ==> method == "manual"@)
}

impl IpConfig {
    #[verifier::rlimit(60)]
    #[verifier::spinoff_prover]
    pub(crate) fn read<'a, P: SecretProvider>(reader: &mut Reader, ctx: &mut Context<'a, P>, default_method: &str) -> (r: Result<IpConfig, Error>)
        ensures
            final(ctx).provider == old(ctx).provider,
            final(ctx).base_dir == old(ctx).base_dir,
            r matches Ok(c) ==> {
                &&& c.method == method_of(old(reader).text_or("method"@, default_method@))
                &&& (c.method == IpMethod::Manual <==> c.address is Some)
                &&& (c.gateway is Some ==> c.method == IpMethod::Manual)
                &&& c.dns@.len() == old(reader).texts("dns"@).len()
                &&& c.ignore_auto_dns == old(reader).flag_or("ignore_auto_dns"@, c.dns@.len() > 0 && c.method == IpMethod::Auto)
                &&& c.ipv6 == (if old(reader).text_or("ipv6"@, "auto"@) == "auto"@ { IpMethod::Auto } else { IpMethod::Disabled })
            },
            (r is Ok) == ip_ok(*old(reader), default_method@),
            read_on(*old(reader), *final(reader), seq!["method"@, "address"@, "gateway"@, "dns"@, "ignore_auto_dns"@,
                "ipv6"@]) || r is Err,
    {
        let ghost r0 = *reader;
        let methods = ["auto", "manual", "disabled"];
        proof {
            reveal_strlit("auto");
            reveal_strlit("manual");
            reveal_strlit("disabled");
            assert(crate::specification::reader::str_list(methods@) =~= seq!["auto"@, "manual"@, "disabled"@]);
        }
        let name = reader.enumerated("method", default_method, &methods)?;
        let method = if crate::text::str_eq(name.as_str(), "auto") {
            IpMethod::Auto
        } else if crate::text::str_eq(name.as_str(), "manual") {
            IpMethod::Manual
        } else {
            IpMethod::Disabled
        };
        let address = match reader.opt_string("address")? {
            Some(text) => match Ipv4Cidr::parse(text.as_str()) {
                Ok(c) => Some(c),
                Err(e) => {
                    return Err(reader.key_error("address", e.message.as_str()));
                },
            },
            None => None,
        };
        let gateway = match reader.opt_string("gateway")? {
            Some(text) => match parse_ipv4(text.as_str()) {
                Ok(a) => Some(a),
                Err(e) => {
                    return Err(reader.key_error("gateway", e.message.as_str()));
                },
            },
            None => None,
        };
        let ghost manual = r0.text_or("method"@, default_method@) == "manual"@;
        assert(name@ == r0.text_or("method"@, default_method@));
        assert((method == IpMethod::Manual) == manual);
        assert(address.is_some() == r0.opt_text("address"@) is Some);
        assert(gateway.is_some() == r0.opt_text("gateway"@) is Some);
        let entries = reader.string_list("dns")?;
        assert(crate::text::strings_view(entries@) == r0.texts("dns"@));
        let ghost r_dns = *reader;
        let mut dns: Vec<Ipv4Addr> = Vec::new();
        let mut i: usize = 0;
        while i < entries.len()
            invariant
                i <= entries@.len(),
                dns@.len() == i,
                crate::text::strings_view(entries@) == r0.texts("dns"@),
                forall|k: int| 0 <= k < i ==> crate::specification::net::dotted_quad(
                    crate::text::trim(#[trigger] r0.texts("dns"@)[k]),
                ) is Some,
                r0 == *old(reader),
                *reader == r_dns,
            decreases entries.len() - i,
        {
            assert(crate::text::strings_view(entries@)[i as int] == entries@[i as int]@);
            match parse_ipv4(entries[i].as_str()) {
                Ok(a) => dns.push(a),
                Err(e) => {
                    return Err(reader.key_error("dns", e.message.as_str()));
                },
            }
            i = i + 1;
        }
        let ignore_auto_dns = reader.bool_or("ignore_auto_dns", dns.len() > 0 && method == IpMethod::Auto)?;
        let v6 = ["auto", "disabled"];
        proof {
            assert(crate::specification::reader::str_list(v6@) =~= seq!["auto"@, "disabled"@]);
        }
        let ipv6_name = reader.enumerated("ipv6", "auto", &v6)?;
        let ipv6 = if crate::text::str_eq(ipv6_name.as_str(), "auto") { IpMethod::Auto } else { IpMethod::Disabled };
        if method == IpMethod::Manual && address.is_none() {
            return Err(reader.table_error("`method` is `manual` but no `address` was given"));
        }
        if method != IpMethod::Manual && address.is_some() {
            return Err(reader.table_error("`address` is only meaningful when `method` is `manual`"));
        }
        match (address, gateway) {
            (Some(cidr), Some(gw)) => {
                if !cidr.contains(gw) {
                    let mut m = owned("`");
                    push_str(&mut m, reader.path());
                    push_str(&mut m, "`: gateway ");
                    let g = gw.to_string();
                    push_str(&mut m, g.as_str());
                    push_str(&mut m, " is outside ");
                    let c = cidr.to_string();
                    push_str(&mut m, c.as_str());
                    push_str(&mut m, "; NetworkManager will need an on-link route");
                    ctx.warn(m);
                }
            },
            _ => {},
        }
        if gateway.is_some() && method != IpMethod::Manual {
            return Err(reader.table_error("`gateway` is only meaningful when `method` is `manual`"));
        }
        proof {
            assert(reader.consumed() =~= r0.consumed() + seq!["method"@, "address"@, "gateway"@, "dns"@,
                "ignore_auto_dns"@, "ipv6"@]);
        }
        Ok(IpConfig { method, address, gateway, dns, ignore_auto_dns, ipv6 })
    }
}

/// The keys of a `[[network.ethernet]]` entry, in the order they are read.
pub open spec fn ethernet_keys() -> Seq<Seq<char>> {
    seq![
        "id"@,
        "interface"@,
        "autoconnect"@,
        "autoconnect_priority"@,
        "mac"@,
        "method"@,
        "address"@,
        "gateway"@,
        "dns"@,
        "ignore_auto_dns"@,
        "ipv6"@,
    ]
}

/// When a `[[network.ethernet]]` entry reads without error.
pub open spec fn ethernet_ok(r: Reader) -> bool {
    &&& (r.opt_text("id"@) matches Some(i) && crate::specification::model::connection_id_error(i) is None)
    &&& r.text_ok("interface"@)
    &&& crate::specification::net::interface_error(r.text_or("interface"@, "eth0"@)) is None
    &&& r.flag_ok("autoconnect"@)
    &&& r.int_within("autoconnect_priority"@, -999i64, 999i64)
    &&& r.text_ok("mac"@)
    &&& (r.opt_text("mac"@) matches Some(t) ==> crate::specification::net::parse_mac(t) is Ok)
    &&& ip_ok(r, "auto"@)
    &&& r.known_only(ethernet_keys())
}

/// The keys of a `[[network.wifi]]` entry, in the order they are read.
pub open spec fn wifi_keys() -> Seq<Seq<char>> {
    seq![
        "id"@,
        "ssid"@,
        "interface"@,
        "security"@,
        "psk"@,
        "hidden"@,
        "autoconnect"@,
        "autoconnect_priority"@,
        "method"@,
        "address"@,
        "gateway"@,
        "dns"@,
        "ignore_auto_dns"@,
        "ipv6"@,
    ]
}

/// What a `[[network.wifi]]` entry must satisfy to read without error,
/// apart from its pre-shared key, which the secret provider supplies: the
/// key is declared exactly when the network is protected.
pub open spec fn wifi_ok(r: Reader) -> bool {
    &&& (r.opt_text("id"@) matches Some(i) && crate::specification::model::connection_id_error(i) is None)
    &&& (r.opt_text("ssid"@) matches Some(s) && crate::specification::model::ssid_error(s) is None)
    &&& r.text_ok("interface"@)
    &&& crate::specification::net::interface_error(r.text_or("interface"@, "wlan0"@)) is None
    &&& r.choice_ok("security"@, "wpa-psk"@, seq!["wpa-psk"@, "sae"@, "open"@])
    &&& (r.node_at("psk"@) is Some <==> r.text_or("security"@, "wpa-psk"@) != "open"@)
    &&& r.flag_ok("hidden"@)
    &&& r.flag_ok("autoconnect"@)
    &&& r.int_within("autoconnect_priority"@, -999i64, 999i64)
    &&& ip_ok(r, "auto"@)
    &&& r.known_only(wifi_keys())
}

impl EthernetConnection {
    pub(crate) fn read<'a, P: SecretProvider>(reader: &mut Reader, ctx: &mut Context<'a, P>) -> (r: Result<EthernetConnection, Error>)
        ensures
            final(ctx).provider == old(ctx).provider,
            final(ctx).base_dir == old(ctx).base_dir,
            r matches Ok(c) ==> {
                &&& old(reader).opt_text("id"@) == Some(c.id@)
                &&& crate::specification::model::connection_id_error(c.id@) is None
                &&& c.interface@ == old(reader).text_or("interface"@, "eth0"@)
                &&& crate::specification::net::interface_error(c.interface@) is None
                &&& c.autoconnect == old(reader).flag_or("autoconnect"@, true)
                &&& c.autoconnect_priority == old(reader).int_or("autoconnect_priority"@, 0)
                &&& -999 <= c.autoconnect_priority <= 999
                &&& (c.mac is Some <==> old(reader).opt_text("mac"@) is Some)
            },
            (r is Ok) == ethernet_ok(*old(reader)),
    {
        let ghost r0 = *reader;
        let id = reader.req_string("id")?;
        match validate_connection_id(id.as_str()) {
            Ok(()) => {},
            Err(e) => {
                return Err(reader.key_error("id", e.message.as_str()));
            },
        }
        let interface = reader.string_or("interface", "eth0")?;
        match validate_interface(interface.as_str()) {
            Ok(()) => {},
            Err(e) => {
                return Err(reader.key_error("interface", e.message.as_str()));
            },
        }
        let autoconnect = reader.bool_or("autoconnect", true)?;
        let autoconnect_priority = reader.integer_in_range("autoconnect_priority", 0, -999, 999)?;
        let mac = match reader.opt_string("mac")? {
            Some(text) => match MacAddr::parse(text.as_str()) {
                Ok(m) => Some(m),
                Err(e) => {
                    return Err(reader.key_error("mac", e.message.as_str()));
                },
            },
            None => None,
        };
        let ghost r_ip = *reader;
        let ip = IpConfig::read(reader, ctx, "auto")?;
        proof {
            assert(ip_ok(r_ip, "auto"@) == ip_ok(r0, "auto"@));
            assert(reader.consumed() =~= r0.consumed() + ethernet_keys());
        }
        reader.finish()?;
        Ok(EthernetConnection { id, interface, ip, autoconnect, autoconnect_priority, mac })
    }
}

impl WifiConnection {
    pub(crate) fn read<'a, P: SecretProvider>(reader: &mut Reader, ctx: &mut Context<'a, P>) -> (r: Result<WifiConnection, Error>)
        ensures
            final(ctx).provider == old(ctx).provider,
            final(ctx).base_dir == old(ctx).base_dir,
            r matches Ok(c) ==> {
                &&& old(reader).opt_text("id"@) == Some(c.id@)
                &&& crate::specification::model::connection_id_error(c.id@) is None
                &&& old(reader).opt_text("ssid"@) == Some(c.ssid@)
                &&& crate::specification::model::ssid_error(c.ssid@) is None
                &&& c.interface@ == old(reader).text_or("interface"@, "wlan0"@)
                &&& crate::specification::net::interface_error(c.interface@) is None
                &&& (c.security == WifiSecurity::Open <==> c.psk is None)
                &&& (c.psk matches Some(k) ==> crate::specification::model::psk_error(k@) is None)
                &&& c.hidden == old(reader).flag_or("hidden"@, false)
                &&& c.autoconnect == old(reader).flag_or("autoconnect"@, true)
                &&& c.autoconnect_priority == old(reader).int_or("autoconnect_priority"@, 0)
            },
            r is Ok ==> wifi_ok(*old(reader)),
            (wifi_ok(*old(reader)) && old(reader).text_or("security"@, "wpa-psk"@) == "open"@) ==> r is Ok,
    {
        let ghost r0 = *reader;
        let id = reader.req_string("id")?;
        match validate_connection_id(id.as_str()) {
            Ok(()) => {},
            Err(e) => {
                return Err(reader.key_error("id", e.message.as_str()));
            },
        }
        let ssid = reader.req_string("ssid")?;
        match validate_ssid(ssid.as_str()) {
            Ok(()) => {},
            Err(e) => {
                return Err(reader.key_error("ssid", e.message.as_str()));
            },
        }
        let interface = reader.string_or("interface", "wlan0")?;
        match validate_interface(interface.as_str()) {
            Ok(()) => {},
            Err(e) => {
                return Err(reader.key_error("interface", e.message.as_str()));
            },
        }
        let kinds = ["wpa-psk", "sae", "open"];
        proof {
            reveal_strlit("wpa-psk");
            reveal_strlit("sae");
            reveal_strlit("open");
            assert(crate::specification::reader::str_list(kinds@) =~= seq!["wpa-psk"@, "sae"@, "open"@]);
        }
        let kind = reader.enumerated("security", "wpa-psk", &kinds)?;
        let security = if crate::text::str_eq(kind.as_str(), "wpa-psk") {
            WifiSecurity::WpaPsk
        } else if crate::text::str_eq(kind.as_str(), "sae") {
            WifiSecurity::Sae
        } else {
            WifiSecurity::Open
        };
        assert(kind@ == r0.text_or("security"@, "wpa-psk"@));
        assert((security == WifiSecurity::Open) == (kind@ == "open"@));
        let ghost r_psk = *reader;
        let psk = match read_secret(reader, "psk")? {
            Some(source) => Some(ctx.secret(reader, "psk", &source)?),
            None => None,
        };
        assert(psk.is_some() == r0.node_at("psk"@) is Some);
        match (security, &psk) {
            (WifiSecurity::Open, Some(_)) => {
                return Err(reader.key_error("psk", "must not be set for an open network"));
            },
            (WifiSecurity::WpaPsk, None) | (WifiSecurity::Sae, None) => {
                return Err(reader.key_error("psk", "is required for a protected network"));
            },
            _ => {},
        }
        match &psk {
            Some(value) => match validate_psk(value.as_str()) {
                Ok(()) => {},
                Err(e) => {
                    return Err(reader.key_error("psk", e.message.as_str()));
                },
            },
            None => {},
        }
        let hidden = reader.bool_or("hidden", false)?;
        let autoconnect = reader.bool_or("autoconnect", true)?;
        let autoconnect_priority = reader.integer_in_range("autoconnect_priority", 0, -999, 999)?;
        let ghost r_ip = *reader;
        let ip = IpConfig::read(reader, ctx, "auto")?;
        proof {
            assert(ip_ok(r_ip, "auto"@) == ip_ok(r0, "auto"@));
            assert(reader.consumed() =~= r0.consumed() + wifi_keys());
        }
        reader.finish()?;
        Ok(WifiConnection { id, ssid, interface, security, psk, hidden, ip, autoconnect, autoconnect_priority })
    }
}

pub open spec fn contains_address(c: Ipv4Cidr, a: Ipv4Addr) -> bool {
    (crate::specification::net::address_bits(a.0@) & crate::specification::net::mask_bits(c.prefix))
        == (crate::specification::net::address_bits(c.address.0@) & crate::specification::net::mask_bits(c.prefix))
}

/// The MAC a gadget side gets when none is configured.
pub open spec fn default_mac(hostname: Seq<char>, interface: Seq<char>, side: Seq<char>) -> Seq<u8> {
    crate::specification::net::derived_mac(encode_utf8(hostname + seq!['/'] + interface + seq!['/'] + side))
}

/// The MAC configured under `key`, or derived for `side`.
pub open spec fn mac_choice(r: Reader, key: Seq<char>, hostname: Seq<char>, interface: Seq<char>, side: Seq<char>, mac: Seq<u8>) -> bool {
    match r.opt_text(key) {
        Some(t) => crate::specification::net::parse_mac(t) == Ok::<Seq<u8>, Seq<char>>(mac),
        None => mac == default_mac(hostname, interface, side),
    }
}

/// The MAC under `key`, or the one derived for `side`; `None` when the text
/// under `key` is not a MAC address.
pub open spec fn configured_mac(r: Reader, key: Seq<char>, hostname: Seq<char>, interface: Seq<char>, side: Seq<char>) -> Option<Seq<u8>> {
    match r.opt_text(key) {
        Some(t) => match crate::specification::net::parse_mac(t) {
            Ok(m) => Some(m),
            Err(_) => None,
        },
        None => Some(default_mac(hostname, interface, side)),
    }
}

/// Whether the address `a` lies in the network `address/prefix`.
pub open spec fn within_network(address: Seq<u8>, prefix: u8, a: Seq<u8>) -> bool {
    (crate::specification::net::address_bits(a) & crate::specification::net::mask_bits(prefix))
        == (crate::specification::net::address_bits(address) & crate::specification::net::mask_bits(prefix))
}

/// The keys of `[network.usb_gadget]`, in the order they are read.
pub open spec fn gadget_keys() -> Seq<Seq<char>> {
    seq![
        "enabled"@,
        "function"@,
        "interface"@,
        "address"@,
        "peer_address"@,
        "device_mac"@,
        "host_mac"@,
        "vendor_id"@,
        "product_id"@,
        "manufacturer"@,
        "product"@,
        "serial"@,
    ]
}

/// When the function, interface and addresses of a gadget read without
/// error.
pub open spec fn gadget_network_ok(r: Reader) -> bool {
    &&& r.choice_ok("function"@, "ecm"@, seq!["ecm"@, "ncm"@, "rndis"@])
    &&& r.text_ok("interface"@)
    &&& crate::specification::net::interface_error(r.text_or("interface"@, "usb0"@)) is None
    &&& r.text_ok("address"@)
    &&& (crate::specification::net::parse_cidr(r.text_or("address"@, "10.55.0.1/24"@)) matches Ok((o, p))
        && r.text_ok("peer_address"@) && (r.opt_text("peer_address"@) matches Some(t) ==> (
    crate::specification::net::dotted_quad(crate::text::trim(t)) matches Some(q) && within_network(o, p, q) && q
        != o)))
}

/// When the two MAC addresses of a gadget read without error: both parse,
/// they differ and neither is multicast.
pub open spec fn gadget_macs_ok(r: Reader, hostname: Seq<char>) -> bool {
    let interface = r.text_or("interface"@, "usb0"@);
    let device = configured_mac(r, "device_mac"@, hostname, interface, "device"@);
    let host = configured_mac(r, "host_mac"@, hostname, interface, "host"@);
    &&& r.text_ok("device_mac"@)
    &&& r.text_ok("host_mac"@)
    &&& (device matches Some(d) && host matches Some(h) && d != h && d[0] & 0x01 == 0 && h[0] & 0x01 == 0)
}

/// When the USB identifiers and strings of a gadget read without error.
pub open spec fn gadget_ids_ok(r: Reader, hostname: Seq<char>) -> bool {
    &&& r.int_within("vendor_id"@, 0, 0xffff)
    &&& r.int_within("product_id"@, 0, 0xffff)
    &&& r.text_ok("manufacturer"@)
    &&& r.text_ok("product"@)
    &&& r.text_ok("serial"@)
    &&& printable_text(r.text_or("manufacturer"@, "Raspberry Pi"@))
    &&& printable_text(r.text_or("product"@, "rpi-provision USB gadget"@))
    &&& printable_text(r.text_or("serial"@, hostname))
}

/// When `[network.usb_gadget]` reads without error.
pub open spec fn gadget_ok(r: Reader, hostname: Seq<char>) -> bool {
    &&& r.flag_ok("enabled"@)
    &&& if !r.flag_or("enabled"@, false) {
        r.known_only(seq!["enabled"@])
    } else {
        &&& gadget_network_ok(r)
        &&& gadget_macs_ok(r, hostname)
        &&& gadget_ids_ok(r, hostname)
        &&& r.known_only(gadget_keys())
    }
}

/// `after` is `before` with `keys` read, in order.
pub open spec fn read_on(before: Reader, after: Reader, keys: Seq<Seq<char>>) -> bool {
    &&& after.items() == before.items()
    &&& after.path_spec() == before.path_spec()
    &&& after.place() == before.place()
    &&& after.consumed() == before.consumed() + keys
}

pub open spec fn printable_text(t: Seq<char>) -> bool {
    t.len() > 0 && all_in(ByteClass::Printable, encode_utf8(t))
}

fn same_mac(a: &MacAddr, b: &MacAddr) -> (r: bool)
    ensures
        r == (a.octets() == b.octets()),
{
    let r = a.0[0] == b.0[0] && a.0[1] == b.0[1] && a.0[2] == b.0[2] && a.0[3] == b.0[3] && a.0[4] == b.0[4]
        && a.0[5] == b.0[5];
    proof {
        if r {
            assert(a.octets() =~= b.octets());
        }
    }
    r
}

fn same_address(a: &Ipv4Addr, b: &Ipv4Addr) -> (r: bool)
    ensures
        r == (a.0@ == b.0@),
{
    let r = a.0[0] == b.0[0] && a.0[1] == b.0[1] && a.0[2] == b.0[2] && a.0[3] == b.0[3];
    proof {
        if r {
            assert(a.0@ =~= b.0@);
        }
    }
    r
}

fn printable(t: &str) -> (r: bool)
    ensures
        r == printable_text(t@),
{
    let c = crate::text::chars_of(t);
    let b = utf8_bytes(t);
    let ok = all_bytes_in(ByteClass::Printable, b.as_slice(), 0);
    assert(b@.skip(0) =~= b@);
    c.len() > 0 && ok
}

/// The MAC under `key`, or one derived from `seed` when there is none.
fn gadget_mac(reader: &mut Reader, key: &str, seed: &str) -> (r: Result<MacAddr, Error>)
    ensures
        old(reader).took(*final(reader), key@),
        r matches Ok(m) ==> match old(reader).opt_text(key@) {
            Some(t) => crate::specification::net::parse_mac(t) == Ok::<Seq<u8>, Seq<char>>(m.octets()),
            None => m.octets() == crate::specification::net::derived_mac(encode_utf8(seed@)),
        },
        (r is Ok) == (old(reader).text_ok(key@) && (old(reader).opt_text(key@) matches Some(t)
            ==> crate::specification::net::parse_mac(t) is Ok)),
{
    match reader.opt_string(key)? {
        Some(text) => match MacAddr::parse(text.as_str()) {
            Ok(m) => Ok(m),
            Err(e) => Err(reader.key_error(key, e.message.as_str())),
        },
        None => {
            let bytes = utf8_bytes(seed);
            Ok(MacAddr::derive(bytes.as_slice()))
        },
    }
}

impl UsbGadget {
    #[verifier::rlimit(40)]
    #[verifier::spinoff_prover]
    pub(crate) fn read<'a, P: SecretProvider>(reader: &mut Reader, ctx: &mut Context<'a, P>, hostname: &str) -> (r: Result<Option<UsbGadget>, Error>)
        ensures
            final(ctx).provider == old(ctx).provider,
            final(ctx).base_dir == old(ctx).base_dir,
            (r is Ok) == gadget_ok(*old(reader), hostname@),
            r matches Ok(None) ==> !old(reader).flag_or("enabled"@, false),
            r matches Ok(Some(g)) ==> {
                &&& old(reader).flag_or("enabled"@, false)
                &&& g.function.name() == old(reader).text_or("function"@, "ecm"@)
                &&& g.interface@ == old(reader).text_or("interface"@, "usb0"@)
                &&& crate::specification::net::interface_error(g.interface@) is None
                &&& crate::specification::net::parse_cidr(old(reader).text_or("address"@, "10.55.0.1/24"@))
                    == Ok::<(Seq<u8>, u8), Seq<char>>((g.address.address.0@, g.address.prefix))
                &&& (g.peer_address is Some <==> old(reader).opt_text("peer_address"@) is Some)
                &&& (g.peer_address matches Some(p) ==> contains_address(g.address, p) && p.0@ != g.address.address.0@)
                &&& mac_choice(*old(reader), "device_mac"@, hostname@, g.interface@, "device"@, g.device_mac.octets())
                &&& mac_choice(*old(reader), "host_mac"@, hostname@, g.interface@, "host"@, g.host_mac.octets())
                &&& g.device_mac.octets() != g.host_mac.octets()
                &&& g.device_mac.0@[0] & 0x01 == 0
                &&& g.host_mac.0@[0] & 0x01 == 0
                &&& g.vendor_id as i64 == old(reader).int_or("vendor_id"@, 0x1d6b)
                &&& g.product_id as i64 == old(reader).int_or("product_id"@, 0x0104)
                &&& g.manufacturer@ == old(reader).text_or("manufacturer"@, "Raspberry Pi"@)
                &&& g.product@ == old(reader).text_or("product"@, "rpi-provision USB gadget"@)
                &&& g.serial@ == old(reader).text_or("serial"@, hostname@)
                &&& printable_text(g.manufacturer@) && printable_text(g.product@) && printable_text(g.serial@)
            },
    {
        let ghost r0 = *reader;
        if !reader.bool_or("enabled", false)? {
            proof {
                assert(r0.consumed().push("enabled"@) =~= r0.consumed() + seq!["enabled"@]);
            }
            reader.finish()?;
            return Ok(None);
        }
        let ghost r1 = *reader;
        let (function, interface, address, peer_address) = read_gadget_network(reader)?;
        let ghost r2 = *reader;
        let (device_mac, host_mac) = read_gadget_macs(reader, ctx, hostname, interface.as_str())?;
        let ghost r3 = *reader;
        let (vendor_id, product_id, manufacturer, product, serial) = read_gadget_ids(reader, hostname)?;
        proof {
            reveal_strlit("enabled");
            assert(reader.consumed() =~= r0.consumed() + gadget_keys());
        }
        reader.finish()?;
        Ok(Some(UsbGadget {
            function,
            interface,
            address,
            peer_address,
            device_mac,
            host_mac,
            vendor_id,
            product_id,
            manufacturer,
            product,
            serial,
        }))
    }
}

/// The function, interface, address and peer address of a gadget.
#[verifier::rlimit(40)]
#[verifier::spinoff_prover]
fn read_gadget_network(reader: &mut Reader) -> (r: Result<(GadgetFunction, String, Ipv4Cidr, Option<Ipv4Addr>), Error>)
    ensures
        read_on(*old(reader), *final(reader), seq!["function"@, "interface"@, "address"@, "peer_address"@])
            || r is Err,
        final(reader).items() == old(reader).items(),
        (r is Ok) == gadget_network_ok(*old(reader)),
        r matches Ok((function, interface, address, peer)) ==> {
            &&& function.name() == old(reader).text_or("function"@, "ecm"@)
            &&& interface@ == old(reader).text_or("interface"@, "usb0"@)
            &&& crate::specification::net::interface_error(interface@) is None
            &&& crate::specification::net::parse_cidr(old(reader).text_or("address"@, "10.55.0.1/24"@))
                == Ok::<(Seq<u8>, u8), Seq<char>>((address.address.0@, address.prefix))
            &&& (peer is Some <==> old(reader).opt_text("peer_address"@) is Some)
            &&& (peer matches Some(p) ==> contains_address(address, p) && p.0@ != address.address.0@)
        },
{
    let ghost r0 = *reader;
    let functions = ["ecm", "ncm", "rndis"];
    proof {
        reveal_strlit("ecm");
        reveal_strlit("ncm");
        reveal_strlit("rndis");
        assert(crate::specification::reader::str_list(functions@) =~= seq!["ecm"@, "ncm"@, "rndis"@]);
    }
    let name = reader.enumerated("function", "ecm", &functions)?;
    let function = if crate::text::str_eq(name.as_str(), "ecm") {
        GadgetFunction::Ecm
    } else if crate::text::str_eq(name.as_str(), "ncm") {
        GadgetFunction::Ncm
    } else {
        GadgetFunction::Rndis
    };
    let interface = reader.string_or("interface", "usb0")?;
    match validate_interface(interface.as_str()) {
        Ok(()) => {},
        Err(e) => {
            return Err(reader.key_error("interface", e.message.as_str()));
        },
    }
    let address_text = reader.string_or("address", "10.55.0.1/24")?;
    let address = match Ipv4Cidr::parse(address_text.as_str()) {
        Ok(c) => c,
        Err(e) => {
            return Err(reader.key_error("address", e.message.as_str()));
        },
    };
    let peer_address = match reader.opt_string("peer_address")? {
        Some(text) => {
            let peer = match parse_ipv4(text.as_str()) {
                Ok(a) => a,
                Err(e) => {
                    return Err(reader.key_error("peer_address", e.message.as_str()));
                },
            };
            if !address.contains(peer) {
                let mut m = owned("is outside ");
                let c = address.to_string();
                push_str(&mut m, c.as_str());
                return Err(reader.key_error("peer_address", m.as_str()));
            }
            if same_address(&peer, &address.address) {
                return Err(reader.key_error("peer_address", "must differ from `address`"));
            }
            Some(peer)
        },
        None => None,
    };
    proof {
        assert(reader.consumed() =~= r0.consumed() + seq!["function"@, "interface"@, "address"@, "peer_address"@]);
    }
    Ok((function, interface, address, peer_address))
}

/// The device and host MAC addresses of a gadget on `interface`.
fn read_gadget_macs<'a, P: SecretProvider>(reader: &mut Reader, ctx: &mut Context<'a, P>, hostname: &str, interface: &str) -> (r: Result<(MacAddr, MacAddr), Error>)
    ensures
        final(ctx).provider == old(ctx).provider,
        final(ctx).base_dir == old(ctx).base_dir,
        read_on(*old(reader), *final(reader), seq!["device_mac"@, "host_mac"@]) || r is Err,
        final(reader).items() == old(reader).items(),
        interface@ == old(reader).text_or("interface"@, "usb0"@) ==> (r is Ok) == gadget_macs_ok(*old(reader), hostname@),
        r matches Ok((device, host)) ==> {
            &&& mac_choice(*old(reader), "device_mac"@, hostname@, interface@, "device"@, device.octets())
            &&& mac_choice(*old(reader), "host_mac"@, hostname@, interface@, "host"@, host.octets())
            &&& device.octets() != host.octets()
            &&& device.0@[0] & 0x01 == 0
            &&& host.0@[0] & 0x01 == 0
        },
{
    let ghost r0 = *reader;
    let mut seed_base = owned(hostname);
    push_str(&mut seed_base, "/");
    push_str(&mut seed_base, interface);
    let mut device_seed = owned(seed_base.as_str());
    push_str(&mut device_seed, "/device");
    let mut host_seed = owned(seed_base.as_str());
    push_str(&mut host_seed, "/host");
    proof {
        reveal_strlit("/");
        reveal_strlit("/device");
        reveal_strlit("/host");
        reveal_strlit("device");
        reveal_strlit("host");
        assert(device_seed@ =~= hostname@ + seq!['/'] + interface@ + seq!['/'] + "device"@);
        assert(host_seed@ =~= hostname@ + seq!['/'] + interface@ + seq!['/'] + "host"@);
    }
    let device_mac = gadget_mac(reader, "device_mac", device_seed.as_str())?;
    let host_mac = gadget_mac(reader, "host_mac", host_seed.as_str())?;
    if same_mac(&device_mac, &host_mac) {
        return Err(reader.table_error("`device_mac` and `host_mac` must differ"));
    }
    self_check_mac(reader, ctx, "device_mac", &device_mac)?;
    self_check_mac(reader, ctx, "host_mac", &host_mac)?;
    proof {
        assert(reader.consumed() =~= r0.consumed() + seq!["device_mac"@, "host_mac"@]);
    }
    Ok((device_mac, host_mac))
}

/// The USB identifiers and strings of a gadget.
fn read_gadget_ids(reader: &mut Reader, hostname: &str) -> (r: Result<(u16, u16, String, String, String), Error>)
    ensures
        read_on(*old(reader), *final(reader), seq!["vendor_id"@, "product_id"@, "manufacturer"@, "product"@, "serial"@])
            || r is Err,
        final(reader).items() == old(reader).items(),
        (r is Ok) == gadget_ids_ok(*old(reader), hostname@),
        r matches Ok((vendor, product_id, manufacturer, product, serial)) ==> {
            &&& vendor as i64 == old(reader).int_or("vendor_id"@, 0x1d6b)
            &&& product_id as i64 == old(reader).int_or("product_id"@, 0x0104)
            &&& manufacturer@ == old(reader).text_or("manufacturer"@, "Raspberry Pi"@)
            &&& product@ == old(reader).text_or("product"@, "rpi-provision USB gadget"@)
            &&& serial@ == old(reader).text_or("serial"@, hostname@)
            &&& printable_text(manufacturer@) && printable_text(product@) && printable_text(serial@)
        },
{
    let ghost r0 = *reader;
    // Defaults are the Linux Foundation identifiers of the kernel's own
    // multifunction composite gadget.
    let vendor_id = reader.integer_in_range("vendor_id", 0x1d6b, 0, 0xffff)?;
    let product_id = reader.integer_in_range("product_id", 0x0104, 0, 0xffff)?;
    let manufacturer = reader.string_or("manufacturer", "Raspberry Pi")?;
    let product = reader.string_or("product", "rpi-provision USB gadget")?;
    let serial = reader.string_or("serial", hostname)?;
    if !printable(manufacturer.as_str()) {
        return Err(reader.key_error("manufacturer", "must be non-empty printable ASCII"));
    }
    if !printable(product.as_str()) {
        return Err(reader.key_error("product", "must be non-empty printable ASCII"));
    }
    if !printable(serial.as_str()) {
        return Err(reader.key_error("serial", "must be non-empty printable ASCII"));
    }
    proof {
        assert(reader.consumed() =~= r0.consumed() + seq!["vendor_id"@, "product_id"@, "manufacturer"@, "product"@,
            "serial"@]);
    }
    Ok((vendor_id as u16, product_id as u16, manufacturer, product, serial))
}

/// A gadget MAC must be unicast; one that is not locally administered only
/// draws a warning.
fn self_check_mac<'a, P: SecretProvider>(reader: &Reader, ctx: &mut Context<'a, P>, key: &str, mac: &MacAddr) -> (r: Result<(), Error>)
    ensures
        final(ctx).provider == old(ctx).provider,
        final(ctx).base_dir == old(ctx).base_dir,
        r is Ok <==> mac.0@[0] & 0x01 == 0,
{
    if mac.is_multicast() {
        return Err(reader.key_error(key, "must not be a multicast address"));
    }
    if !mac.is_locally_administered() {
        let mut m = owned("`");
        push_str(&mut m, reader.path());
        push_str(&mut m, ".");
        push_str(&mut m, key);
        push_str(&mut m, "`: ");
        let t = mac.to_string();
        push_str(&mut m, t.as_str());
        push_str(&mut m, " is not locally administered; prefer an address with the second least significant bit of the first octet set");
        ctx.warn(m);
    }
    Ok(())
}

// --------------------------------------------------------------------- user

/// `s` without runs of equal neighbours (`Vec::dedup`).
pub open spec fn dedup_seq(s: Seq<Seq<char>>) -> Seq<Seq<char>>
    decreases s.len(),
{
    if s.len() <= 1 {
        s
    } else if s[s.len() - 2] == s.last() {
        dedup_seq(s.drop_last())
    } else {
        dedup_seq(s.drop_last()).push(s.last())
    }
}

pub proof fn lemma_dedup_last(s: Seq<Seq<char>>)
    requires
        s.len() > 0,
    ensures
        dedup_seq(s).len() > 0,
        dedup_seq(s).last() == s.last(),
    decreases s.len(),
{
    if s.len() > 1 && s[s.len() - 2] == s.last() {
        lemma_dedup_last(s.drop_last());
    }
}

/// The keys a key file contributes: its trimmed lines, without blank lines
/// and comments.
pub open spec fn key_lines(lines: Seq<Seq<char>>) -> Seq<Seq<char>>
    decreases lines.len(),
{
    if lines.len() == 0 {
        seq![]
    } else {
        let t = crate::text::trim(lines.last());
        if t.len() == 0 || t[0] == '#' {
            key_lines(lines.drop_last())
        } else {
            key_lines(lines.drop_last()).push(t)
        }
    }
}

pub open spec fn sudo_of(name: Seq<char>) -> SudoMode {
    if name == "nopasswd"@ {
        SudoMode::NoPassword
    } else if name == "password"@ {
        SudoMode::Password
    } else {
        SudoMode::NoAccess
    }
}

/// Drop equal neighbours, as `Vec::dedup` does.
fn dedup_strings(v: Vec<String>) -> (r: Vec<String>)
    ensures
        crate::text::strings_view(r@) == dedup_seq(crate::text::strings_view(v@)),
{
    let ghost sv = crate::text::strings_view(v@);
    let mut out: Vec<String> = Vec::new();
    let mut i: usize = 0;
    while i < v.len()
        invariant
            i <= v@.len(),
            sv == crate::text::strings_view(v@),
            crate::text::strings_view(out@) == dedup_seq(sv.take(i as int)),
            i > 0 ==> out@.len() > 0 && out@.last()@ == sv[i - 1],
        decreases v.len() - i,
    {
        let ghost t = sv.take(i + 1);
        proof {
            assert(t.drop_last() =~= sv.take(i as int));
            assert(t.last() == sv[i as int]);
            if i > 0 {
                assert(t[t.len() - 2] == sv[i - 1]);
            }
        }
        let repeat = out.len() > 0 && crate::text::str_eq(out[out.len() - 1].as_str(), v[i].as_str());
        if !repeat {
            let ghost before = out@;
            out.push(owned(v[i].as_str()));
            proof {
                assert(crate::text::strings_view(out@) =~= crate::text::strings_view(before).push(sv[i as int]));
            }
        }
        proof {
            if i == 0 {
                assert(sv.take(0) =~= Seq::<Seq<char>>::empty());
            }
        }
        i = i + 1;
    }
    assert(sv.take(v@.len() as int) =~= sv);
    out
}

/// The keys of `[user]`, in the order they are read.
pub open spec fn user_keys() -> Seq<Seq<char>> {
    seq![
        "name"@,
        "password_hash"@,
        "authorized_keys"@,
        "authorized_keys_files"@,
        "groups"@,
        "shell"@,
        "sudo"@,
    ]
}

/// What `[user]` must satisfy to read without error, apart from its
/// secret and key files, which the secret provider supplies: a valid name,
/// valid keys and groups, an absolute shell and a known sudo mode.
pub open spec fn user_ok(r: Reader) -> bool {
    &&& (r.opt_text("name"@) matches Some(n) && crate::specification::model::username_error(n) is None)
    &&& r.texts_ok("authorized_keys"@)
    &&& (forall|i: int| 0 <= i < r.texts("authorized_keys"@).len() ==> crate::specification::model::authorized_key_error(
        #[trigger] r.texts("authorized_keys"@)[i],
    ) is None)
    &&& r.texts_ok("authorized_keys_files"@)
    &&& r.texts_ok("groups"@)
    &&& (forall|i: int| 0 <= i < r.texts("groups"@).len() ==> crate::specification::model::username_error(
        #[trigger] r.texts("groups"@)[i],
    ) is None)
    &&& r.text_ok("shell"@)
    &&& r.text_or("shell"@, "/bin/bash"@).len() > 0
    &&& r.text_or("shell"@, "/bin/bash"@)[0] == '/'
    &&& r.choice_ok("sudo"@, "nopasswd"@, seq!["nopasswd"@, "password"@, "none"@])
    &&& r.known_only(user_keys())
}

/// What `[user]` gives when it reads from `r`, its secret answered by
/// `provider` for files under `base_dir`.
/// The keys of key files with these contents, file after file.
pub open spec fn file_keys(contents: Seq<Seq<char>>) -> Seq<Seq<char>>
    decreases contents.len(),
{
    if contents.len() == 0 {
        seq![]
    } else {
        file_keys(contents.drop_last()) + key_lines(crate::text::text_lines(contents.last()))
    }
}

/// `keys` are the keys listed inline followed by those of the key files, as
/// `provider` may answer for them under `base_dir`, with runs of the same
/// key kept once.
pub open spec fn keys_gathered<P: SecretProvider>(r: Reader, provider: &P, base_dir: Seq<char>, keys: Seq<Seq<char>>) -> bool {
    exists|answers: Seq<String>|
        answers.len() == r.texts("authorized_keys_files"@).len() && (forall|f: int|
            0 <= f < answers.len() ==> #[trigger] provider.file_answer(
                crate::specification::secret::join_path(base_dir, r.texts("authorized_keys_files"@)[f]),
                Ok::<String, crate::apply::fs::IoError>(answers[f]),
            )) && keys == dedup_seq(r.texts("authorized_keys"@) + file_keys(crate::text::strings_view(answers)))
}

pub open spec fn user_read<P: SecretProvider>(r: Reader, provider: &P, base_dir: Seq<char>, u: User) -> bool {
    &&& r.opt_text("name"@) == Some(u.name@)
    &&& crate::specification::model::username_error(u.name@) is None
    &&& (u.password_hash is Some <==> r.node_at("password_hash"@) is Some)
    &&& (u.password_hash matches Some(h) ==> crate::specification::model::password_hash_error(h@) is None)
    &&& (u.password_hash matches Some(h) ==> exists|s: SecretSource|
        declared_source(r, "password_hash"@, s) && #[trigger] crate::specification::secret::secret_from(
            provider,
            base_dir,
            s,
            h@,
        ))
    &&& (forall|i: int| 0 <= i < u.authorized_keys@.len() ==> crate::specification::model::authorized_key_error(
        #[trigger] u.authorized_keys@[i]@,
    ) is None)
    &&& (r.texts("authorized_keys_files"@).len() == 0 ==> crate::text::strings_view(
        u.authorized_keys@,
    ) == dedup_seq(r.texts("authorized_keys"@)))
    &&& keys_gathered(r, provider, base_dir, crate::text::strings_view(u.authorized_keys@))
    &&& crate::text::strings_view(u.groups@) == r.texts("groups"@)
    &&& (forall|i: int| 0 <= i < u.groups@.len() ==> crate::specification::model::username_error(
        #[trigger] u.groups@[i]@,
    ) is None)
    &&& u.shell@ == r.text_or("shell"@, "/bin/bash"@)
    &&& u.shell@.len() > 0 && u.shell@[0] == '/'
    &&& u.sudo == sudo_of(r.text_or("sudo"@, "nopasswd"@))
}

impl User {
    pub(crate) fn read<'a, P: SecretProvider>(reader: &mut Reader, ctx: &mut Context<'a, P>) -> (r: Result<User, Error>)
        ensures
            final(ctx).provider == old(ctx).provider,
            final(ctx).base_dir == old(ctx).base_dir,
            r matches Ok(u) ==> user_read(*old(reader), old(ctx).provider, old(ctx).base_dir@, u),
            r is Ok ==> user_ok(*old(reader)),
            (user_ok(*old(reader)) && old(reader).node_at("password_hash"@) is None && old(reader).texts(
                "authorized_keys_files"@,
            ).len() == 0) ==> r is Ok,
    {
        let ghost r0 = *reader;
        let ghost easy = user_ok(r0) && r0.node_at("password_hash"@) is None && r0.texts("authorized_keys_files"@).len()
            == 0;
        let name = reader.req_string("name")?;
        match validate_username(name.as_str()) {
            Ok(()) => {},
            Err(e) => {
                return Err(reader.key_error("name", e.message.as_str()));
            },
        }
        let ghost r_named = *reader;
        let password_hash = match read_secret(reader, "password_hash")? {
            Some(source) => {
                let value = ctx.secret(reader, "password_hash", &source)?;
                proof {
                    assert(declared_source(r_named, "password_hash"@, source));
                    assert(crate::specification::secret::secret_from(ctx.provider, ctx.base_dir@, source, value@));
                }
                match validate_password_hash(value.as_str()) {
                    Ok(()) => {},
                    Err(e) => {
                        return Err(reader.key_error("password_hash", e.message.as_str()));
                    },
                }
                Some(value)
            },
            None => None,
        };
        let mut authorized_keys = reader.string_list("authorized_keys")?;
        let ghost listed = crate::text::strings_view(authorized_keys@);
        assert(listed == r0.texts("authorized_keys"@));
        let files = reader.string_list("authorized_keys_files")?;
        assert(crate::text::strings_view(files@) == r0.texts("authorized_keys_files"@));
        let ghost r_files = *reader;
        let ghost fv = crate::text::strings_view(files@);
        let ghost mut answers: Seq<String> = seq![];
        let mut f: usize = 0;
        proof {
            assert(crate::text::strings_view(answers) =~= Seq::<Seq<char>>::empty());
            assert(listed + file_keys(Seq::<Seq<char>>::empty()) =~= listed);
        }
        while f < files.len()
            invariant
                f <= files@.len(),
                fv == crate::text::strings_view(files@),
                fv == r0.texts("authorized_keys_files"@),
                answers.len() == f,
                forall|g: int| 0 <= g < f ==> #[trigger] ctx.provider.file_answer(
                    crate::specification::secret::join_path(ctx.base_dir@, fv[g]),
                    Ok::<String, crate::apply::fs::IoError>(answers[g]),
                ),
                crate::text::strings_view(authorized_keys@) == listed + file_keys(crate::text::strings_view(answers)),
                files@.len() == 0 ==> crate::text::strings_view(authorized_keys@) == listed,
                easy ==> files@.len() == 0,
                easy == (user_ok(r0) && r0.node_at("password_hash"@) is None && r0.texts("authorized_keys_files"@).len()
                    == 0),
                r0 == *old(reader),
                *reader == r_files,
                authorized_keys@.len() >= listed.len(),
                crate::text::strings_view(authorized_keys@).take(listed.len() as int) == listed,
                ctx.provider == old(ctx).provider,
                ctx.base_dir == old(ctx).base_dir,
            decreases files.len() - f,
        {
            let full = crate::specification::secret::join(ctx.base_dir.as_str(), files[f].as_str());
            let contents = match ctx.provider.read_file(full.as_str()) {
                Ok(c) => c,
                Err(err) => {
                    let mut m = owned("cannot read `");
                    push_str(&mut m, full.as_str());
                    push_str(&mut m, "`: ");
                    push_str(&mut m, err.message.as_str());
                    return Err(reader.key_error("authorized_keys_files", m.as_str()));
                },
            };
            let chars = crate::text::chars_of(contents.as_str());
            let lines = crate::text::split_text_lines(chars.as_slice());
            let ghost lv = lines@.map_values(|l: Vec<char>| l@);
            let ghost gathered = listed + file_keys(crate::text::strings_view(answers));
            proof {
                assert(lv.take(0) =~= Seq::<Seq<char>>::empty());
                assert(gathered + key_lines(lv.take(0)) =~= gathered);
            }
            let mut k: usize = 0;
            while k < lines.len()
                invariant
                    k <= lines@.len(),
                    f < files@.len(),
                    lv == lines@.map_values(|l: Vec<char>| l@),
                    authorized_keys@.len() >= listed.len(),
                    crate::text::strings_view(authorized_keys@).take(listed.len() as int) == listed,
                    crate::text::strings_view(authorized_keys@) == gathered + key_lines(lv.take(k as int)),
                decreases lines.len() - k,
            {
                let t = crate::text::trim_chars(lines[k].as_slice());
                proof {
                    assert(lv.take(k + 1).drop_last() =~= lv.take(k as int));
                    assert(lv.take(k + 1).last() == lines@[k as int]@);
                }
                if t.len() > 0 && t[0] != '#' {
                    let ghost before = authorized_keys@;
                    authorized_keys.push(crate::text::string_from(t.as_slice()));
                    assert(crate::text::strings_view(authorized_keys@).take(listed.len() as int)
                        =~= crate::text::strings_view(before).take(listed.len() as int));
                    assert(crate::text::strings_view(authorized_keys@) =~= crate::text::strings_view(before).push(t@));
                }
                k = k + 1;
            }
            proof {
                assert(lv.take(lines@.len() as int) =~= lv);
                let old_answers = answers;
                answers = answers.push(contents);
                assert(crate::text::strings_view(answers).drop_last() =~= crate::text::strings_view(old_answers));
                assert(crate::text::strings_view(answers).last() == contents@);
                assert(gathered + key_lines(lv) =~= listed + file_keys(crate::text::strings_view(answers)));
                assert forall|g: int| 0 <= g < f + 1 implies #[trigger] ctx.provider.file_answer(
                    crate::specification::secret::join_path(ctx.base_dir@, fv[g]),
                    Ok::<String, crate::apply::fs::IoError>(answers[g]),
                ) by {
                    if g < f {
                        assert(answers[g] == old_answers[g]);
                    }
                }
            }
            f = f + 1;
        }
        let mut i: usize = 0;
        while i < authorized_keys.len()
            invariant
                i <= authorized_keys@.len(),
                forall|k: int| 0 <= k < i ==> crate::specification::model::authorized_key_error(
                    #[trigger] authorized_keys@[k]@,
                ) is None,
                easy ==> crate::text::strings_view(authorized_keys@) == r0.texts("authorized_keys"@),
                easy ==> user_ok(r0),
                easy == (user_ok(r0) && r0.node_at("password_hash"@) is None && r0.texts("authorized_keys_files"@).len()
                    == 0),
                r0 == *old(reader),
                *reader == r_files,
                listed == r0.texts("authorized_keys"@),
                authorized_keys@.len() >= listed.len(),
                crate::text::strings_view(authorized_keys@).take(listed.len() as int) == listed,
                fv == r0.texts("authorized_keys_files"@),
                answers.len() == fv.len(),
                forall|g: int| 0 <= g < fv.len() ==> #[trigger] ctx.provider.file_answer(
                    crate::specification::secret::join_path(ctx.base_dir@, fv[g]),
                    Ok::<String, crate::apply::fs::IoError>(answers[g]),
                ),
                crate::text::strings_view(authorized_keys@) == listed + file_keys(crate::text::strings_view(answers)),
                ctx.provider == old(ctx).provider,
                ctx.base_dir == old(ctx).base_dir,
            decreases authorized_keys.len() - i,
        {
            proof {
                if easy {
                    assert(crate::text::strings_view(authorized_keys@)[i as int] == authorized_keys@[i as int]@);
                    assert(crate::specification::model::authorized_key_error(r0.texts("authorized_keys"@)[i as int])
                        is None);
                }
            }
            match validate_authorized_key(authorized_keys[i].as_str()) {
                Ok(()) => {},
                Err(e) => {
                    return Err(reader.key_error("authorized_keys", e.message.as_str()));
                },
            }
            i = i + 1;
        }
        let ghost checked = authorized_keys@;
        proof {
            assert forall|k: int| 0 <= k < listed.len() implies crate::specification::model::authorized_key_error(
                #[trigger] listed[k],
            ) is None by {
                assert(crate::text::strings_view(checked).take(listed.len() as int)[k] == checked[k]@);
            }
        }
        let authorized_keys = dedup_strings(authorized_keys);
        proof {
            assert(keys_gathered(r0, old(ctx).provider, old(ctx).base_dir@, crate::text::strings_view(authorized_keys@)));
        }
        proof {
            assert forall|k: int| 0 <= k < authorized_keys@.len() implies crate::specification::model::authorized_key_error(
                #[trigger] authorized_keys@[k]@,
            ) is None by {
                lemma_dedup_members(crate::text::strings_view(checked), k);
                let j = choose|j: int| 0 <= j < checked.len() && crate::text::strings_view(checked)[j] == dedup_seq(crate::text::strings_view(checked))[k];
                assert(crate::text::strings_view(checked)[j] == checked[j]@);
                assert(crate::text::strings_view(authorized_keys@)[k] == authorized_keys@[k]@);
            }
        }
        let groups = reader.string_list("groups")?;
        assert(crate::text::strings_view(groups@) == r0.texts("groups"@));
        let ghost r_groups = *reader;
        let mut g: usize = 0;
        while g < groups.len()
            invariant
                g <= groups@.len(),
                forall|k: int| 0 <= k < g ==> crate::specification::model::username_error(#[trigger] groups@[k]@) is None,
                crate::text::strings_view(groups@) == r0.texts("groups"@),
                easy ==> user_ok(r0),
                easy == (user_ok(r0) && r0.node_at("password_hash"@) is None && r0.texts("authorized_keys_files"@).len()
                    == 0),
                r0 == *old(reader),
                *reader == r_groups,
            decreases groups.len() - g,
        {
            proof {
                if easy {
                    assert(crate::text::strings_view(groups@)[g as int] == groups@[g as int]@);
                    assert(crate::specification::model::username_error(r0.texts("groups"@)[g as int]) is None);
                }
            }
            match validate_username(groups[g].as_str()) {
                Ok(()) => {},
                Err(e) => {
                    return Err(reader.key_error("groups", e.message.as_str()));
                },
            }
            g = g + 1;
        }
        let shell = reader.string_or("shell", "/bin/bash")?;
        let sc = crate::text::chars_of(shell.as_str());
        if sc.len() == 0 || sc[0] != '/' {
            return Err(reader.key_error("shell", "must be an absolute path"));
        }
        let modes = ["nopasswd", "password", "none"];
        proof {
            reveal_strlit("nopasswd");
            reveal_strlit("password");
            reveal_strlit("none");
            assert(crate::specification::reader::str_list(modes@) =~= seq!["nopasswd"@, "password"@, "none"@]);
        }
        let mode = reader.enumerated("sudo", "nopasswd", &modes)?;
        let sudo = if crate::text::str_eq(mode.as_str(), "nopasswd") {
            SudoMode::NoPassword
        } else if crate::text::str_eq(mode.as_str(), "password") {
            SudoMode::Password
        } else {
            SudoMode::NoAccess
        };
        if sudo == SudoMode::Password && password_hash.is_none() {
            ctx.warn(owned("`user.sudo` is `password` but no `password_hash` was supplied; sudo will be unusable."));
        }
        proof {
            assert(reader.consumed() =~= r0.consumed() + user_keys());
        }
        reader.finish()?;
        Ok(User { name, password_hash, authorized_keys, groups, shell, sudo })
    }
}

/// Every entry of `dedup_seq(s)` is an entry of `s`.
pub proof fn lemma_dedup_members(s: Seq<Seq<char>>, k: int)
    requires
        0 <= k < dedup_seq(s).len(),
    ensures
        exists|j: int| 0 <= j < s.len() && s[j] == dedup_seq(s)[k],
    decreases s.len(),
{
    if s.len() <= 1 {
        assert(s[k] == dedup_seq(s)[k]);
    } else if s[s.len() - 2] == s.last() {
        lemma_dedup_members(s.drop_last(), k);
        let j = choose|j: int| 0 <= j < s.drop_last().len() && s.drop_last()[j] == dedup_seq(s.drop_last())[k];
        assert(s[j] == dedup_seq(s)[k]);
    } else {
        if k < dedup_seq(s.drop_last()).len() {
            lemma_dedup_members(s.drop_last(), k);
            let j = choose|j: int| 0 <= j < s.drop_last().len() && s.drop_last()[j] == dedup_seq(s.drop_last())[k];
            assert(s[j] == dedup_seq(s)[k]);
        } else {
            assert(s[s.len() - 1] == dedup_seq(s)[k]);
        }
    }
}

// ------------------------------------------------------------- network root

pub open spec fn country_code(c: Seq<char>) -> bool {
    encode_utf8(c).len() == 2 && all_in(ByteClass::Upper, encode_utf8(c))
}

/// The keys of `[network]`.
pub open spec fn network_keys() -> Seq<Seq<char>> {
    seq!["wifi_country"@, "ethernet"@, "wifi"@, "usb_gadget"@]
}

/// A gadget section holding `es`, read from the start, reads without error.
pub open spec fn gadget_items_ok(es: Seq<crate::toml::Entry>, hostname: Seq<char>) -> bool {
    forall|c: Reader| c.items() == es && c.consumed() == Seq::<Seq<char>>::empty() ==> #[trigger] gadget_ok(c, hostname)
}

/// Whether a gadget section reads depends only on its entries and on what
/// was read of it.
#[verifier::spinoff_prover]
pub proof fn lemma_gadget_ok_same(a: Reader, b: Reader, hostname: Seq<char>)
    requires
        a.items() == b.items(),
        a.consumed() == b.consumed(),
    ensures
        gadget_ok(a, hostname) == gadget_ok(b, hostname),
{
    assert(gadget_network_ok(a) == gadget_network_ok(b));
    assert(gadget_macs_ok(a, hostname) == gadget_macs_ok(b, hostname));
    assert(gadget_ids_ok(a, hostname) == gadget_ids_ok(b, hostname));
}

/// What `[network]` gives when it reads from `r` for the machine `hostname`.
pub open spec fn network_read(r: Reader, hostname: Seq<char>, n: Network) -> bool {
    &&& opt_view(n.wifi_country) == r.opt_text("wifi_country"@)
    &&& (n.wifi_country matches Some(c) ==> country_code(c@))
    &&& (n.wifi@.len() > 0 ==> n.wifi_country is Some)
    &&& (n.usb_gadget matches Some(g) ==> g.serial@ == crate::specification::reader::text_or_of(
        r.node_at("usb_gadget"@),
        "serial"@,
        hostname,
    ))
}

impl Network {
    #[verifier::rlimit(40)]
    #[verifier::spinoff_prover]
    pub(crate) fn read_with_hostname<'a, P: SecretProvider>(
        reader: &mut Reader,
        ctx: &mut Context<'a, P>,
        hostname: &str,
    ) -> (r: Result<Network, Error>)
        ensures
            final(ctx).provider == old(ctx).provider,
            final(ctx).base_dir == old(ctx).base_dir,
            r matches Ok(n) ==> network_read(*old(reader), hostname@, n),
            r is Ok ==> {
                &&& old(reader).text_ok("wifi_country"@)
                &&& old(reader).table_ok("usb_gadget"@)
                &&& gadget_items_ok(table_items(old(reader).items(), "usb_gadget"@), hostname@)
                &&& old(reader).known_only(network_keys())
            },
            old(reader).items().len() == 0 ==> (r matches Ok(n) && n.wifi_country is None && n.ethernet@.len() == 0
                && n.wifi@.len() == 0 && n.usb_gadget is None),
    {
        let ghost r0 = *reader;
        let wifi_country = reader.opt_string("wifi_country")?;
        match &wifi_country {
            Some(country) => {
                let b = utf8_bytes(country.as_str());
                if b.len() != 2 || !all_bytes_in(ByteClass::Upper, b.as_slice(), 0) {
                    return Err(reader.key_error(
                        "wifi_country",
                        "must be a two letter uppercase ISO 3166-1 alpha-2 code, e.g. `JP`",
                    ));
                }
                assert(b@.skip(0) =~= b@);
            },
            None => {},
        }
        let mut ethernet: Vec<EthernetConnection> = Vec::new();
        let mut entries = reader.table_list("ethernet")?;
        let ghost r1 = *reader;
        let mut i: usize = 0;
        while i < entries.len()
            invariant
                i <= entries@.len(),
                ethernet@.len() == i,
                r0.items().len() == 0 ==> entries@.len() == 0,
                r0 == *old(reader),
                ctx.provider == old(ctx).provider,
                ctx.base_dir == old(ctx).base_dir,
            decreases entries.len() - i,
        {
            let mut entry = entries.remove(i);
            let connection = EthernetConnection::read(&mut entry, ctx)?;
            ethernet.push(connection);
            entries.insert(i, entry);
            i = i + 1;
        }
        let mut wifi: Vec<WifiConnection> = Vec::new();
        let mut entries = reader.table_list("wifi")?;
        let ghost r2 = *reader;
        let mut i: usize = 0;
        while i < entries.len()
            invariant
                i <= entries@.len(),
                wifi@.len() == i,
                r0.items().len() == 0 ==> entries@.len() == 0,
                r0 == *old(reader),
                ctx.provider == old(ctx).provider,
                ctx.base_dir == old(ctx).base_dir,
            decreases entries.len() - i,
        {
            let mut entry = entries.remove(i);
            let connection = WifiConnection::read(&mut entry, ctx)?;
            wifi.push(connection);
            entries.insert(i, entry);
            i = i + 1;
        }
        if wifi.len() > 0 && wifi_country.is_none() {
            return Err(reader.table_error(
                "`wifi_country` is required when Wi-Fi connections are configured; the radio stays blocked until a regulatory domain is set",
            ));
        }
        let mut section = reader.table("usb_gadget")?;
        let ghost fresh = section;
        let usb_gadget = UsbGadget::read(&mut section, ctx, hostname)?;
        proof {
            assert(reader.consumed() =~= r0.consumed() + network_keys());
            assert(fresh.items() == table_items(r0.items(), "usb_gadget"@));
            assert(fresh.consumed() =~= Seq::<Seq<char>>::empty());
            assert forall|c: Reader| c.items() == fresh.items() && c.consumed() == Seq::<Seq<char>>::empty() implies
                #[trigger] gadget_ok(c, hostname@) by {
                lemma_gadget_ok_same(c, fresh, hostname@);
            }
            if r0.items().len() == 0 {
                assert(crate::specification::reader::unknown_keys(reader.items(), reader.consumed()) =~= seq![]);
            }
        }
        reader.finish()?;
        Ok(Network { wifi_country, ethernet, wifi, usb_gadget })
    }
}

// --------------------------------------------------------------------- root

/// The `id` of every connection, ethernet first.
pub open spec fn connection_ids(n: Network) -> Seq<Seq<char>> {
    n.ethernet@.map_values(|c: EthernetConnection| c.id@) + n.wifi@.map_values(|c: WifiConnection| c.id@)
}

pub open spec fn no_login_message() -> Seq<char> {
    "`user`: neither `password_hash` nor `authorized_keys` was supplied; there would be no way to log in."@
}

pub open spec fn unreachable_message() -> Seq<char> {
    "`ssh`: password authentication is disabled but no authorized keys were supplied; the machine would be unreachable. Set `user.authorized_keys` or enable `ssh.password_authentication`."@
}

pub open spec fn duplicate_ids_message() -> Seq<char> {
    "`network`: connection `id` values must be unique across ethernet and wifi"@
}

/// What `cross_validate` decides.
pub open spec fn cross_check(s: Spec) -> Option<Seq<char>> {
    if s.user.password_hash is None && s.user.authorized_keys@.len() == 0 {
        Some(no_login_message())
    } else if s.ssh.enabled && !s.ssh.password_authentication && s.user.authorized_keys@.len() == 0 {
        Some(unreachable_message())
    } else if s.network.usb_gadget matches Some(g) && exists|i: int|
        0 <= i < s.network.ethernet@.len() && (#[trigger] s.network.ethernet@[i]).interface@ == g.interface@ {
        Some("`network.usb_gadget.interface`: `"@ + s.network.usb_gadget->0.interface@ + "` is also used by an ethernet connection"@)
    } else if !connection_ids(s.network).no_duplicates() {
        Some(duplicate_ids_message())
    } else {
        None
    }
}

/// What a section of the document is checked against.
pub enum SectionRule {
    Meta,
    System,
    User,
    /// `[user]` as `user_keys_only` describes it.
    UserKeysOnly,
    Ssh,
    Hardware,
    Provisioning,
}

/// Whether the reader `c` meets `rule`.
pub open spec fn reads_as(c: Reader, rule: SectionRule) -> bool {
    match rule {
        SectionRule::Meta => meta_ok(c),
        SectionRule::System => system_ok(c),
        SectionRule::User => user_ok(c),
        SectionRule::UserKeysOnly => user_keys_only(c),
        SectionRule::Ssh => ssh_ok(c),
        SectionRule::Hardware => hardware_ok(c),
        SectionRule::Provisioning => provisioning_ok(c),
    }
}

/// A section holding `es`, read from the start, meets `rule`.
pub open spec fn section_ok(es: Seq<crate::toml::Entry>, rule: SectionRule) -> bool {
    forall|c: Reader| c.items() == es && c.consumed() == Seq::<Seq<char>>::empty() ==> #[trigger] reads_as(c, rule)
}

/// The section under `key` is a table or absent, and meets `rule`.
pub open spec fn section_at(r: Reader, key: Seq<char>, rule: SectionRule) -> bool {
    r.table_ok(key) && section_ok(table_items(r.items(), key), rule)
}

/// A `[user]` section that reads whatever the secret provider answers: it
/// meets `user_ok`, takes its password hash from no secret and its keys
/// from no file, and lists at least one key, so that the machine can be
/// reached.
pub open spec fn user_keys_only(r: Reader) -> bool {
    &&& user_ok(r)
    &&& r.node_at("password_hash"@) is None
    &&& r.texts("authorized_keys_files"@).len() == 0
    &&& r.texts("authorized_keys"@).len() > 0
}

/// Whether the sections read depends only on their entries and on what was
/// read of them.
pub proof fn lemma_sections_same(a: Reader, b: Reader)
    requires
        a.items() == b.items(),
        a.consumed() == b.consumed(),
    ensures
        forall|rule: SectionRule| #[trigger] reads_as(a, rule) == reads_as(b, rule),
{
}

/// The sections of a specification, in the order they are read.
pub open spec fn section_keys() -> Seq<Seq<char>> {
    seq!["meta"@, "system"@, "user"@, "ssh"@, "network"@, "hardware"@, "provisioning"@]
}

/// A specification whose sections all read whatever the secret provider
/// answers: each meets its rule, `[user]` lists keys and takes nothing from
/// secrets or files, and `[network]` is empty or absent.
pub open spec fn sections_plain(r: Reader) -> bool {
    &&& section_at(r, "meta"@, SectionRule::Meta)
    &&& section_at(r, "system"@, SectionRule::System)
    &&& section_at(r, "user"@, SectionRule::UserKeysOnly)
    &&& section_at(r, "ssh"@, SectionRule::Ssh)
    &&& r.table_ok("network"@) && table_items(r.items(), "network"@).len() == 0
    &&& section_at(r, "hardware"@, SectionRule::Hardware)
    &&& section_at(r, "provisioning"@, SectionRule::Provisioning)
}

/// `c` reads the section under `key` of `r` from its start.
pub open spec fn fresh_section(r: Reader, c: Reader, key: Seq<char>) -> bool {
    c.items() == table_items(r.items(), key) && c.consumed() == Seq::<Seq<char>>::empty()
}

/// `s` is what the sections under `r` give, each read from its start: its
/// secrets answered by `provider` for files under `base_dir`, and
/// `[network]` read for the machine `[system]` names.
pub open spec fn spec_read<P: SecretProvider>(r: Reader, provider: &P, base_dir: Seq<char>, s: Spec) -> bool {
    &&& forall|c: Reader| fresh_section(r, c, "meta"@) ==> #[trigger] meta_read(c, s.meta)
    &&& forall|c: Reader| fresh_section(r, c, "system"@) ==> #[trigger] system_read(c, s.system)
    &&& forall|c: Reader| fresh_section(r, c, "user"@) ==> #[trigger] user_read(c, provider, base_dir, s.user)
    &&& forall|c: Reader| fresh_section(r, c, "ssh"@) ==> #[trigger] ssh_read(c, s.ssh)
    &&& forall|c: Reader|
        fresh_section(r, c, "network"@) ==> #[trigger] network_read(c, s.system.hostname@, s.network)
    &&& forall|c: Reader| fresh_section(r, c, "hardware"@) ==> #[trigger] hardware_read(c, s.hardware)
    &&& forall|c: Reader| fresh_section(r, c, "provisioning"@) ==> #[trigger] provisioning_read(c, s.provisioning)
}

impl Spec {
    #[verifier::rlimit(80)]
    #[verifier::spinoff_prover]
    pub(crate) fn from_reader<'a, P: SecretProvider>(reader: &mut Reader, ctx: &mut Context<'a, P>) -> (r: Result<Spec, Error>)
        ensures
            final(ctx).provider == old(ctx).provider,
            final(ctx).base_dir == old(ctx).base_dir,
            r matches Ok(s) ==> cross_check(s) is None,
            r matches Ok(s) ==> spec_read(*old(reader), old(ctx).provider, old(ctx).base_dir@, s),
            r is Ok ==> {
                &&& section_at(*old(reader), "meta"@, SectionRule::Meta)
                &&& section_at(*old(reader), "system"@, SectionRule::System)
                &&& section_at(*old(reader), "user"@, SectionRule::User)
                &&& section_at(*old(reader), "ssh"@, SectionRule::Ssh)
                &&& old(reader).table_ok("network"@)
                &&& section_at(*old(reader), "hardware"@, SectionRule::Hardware)
                &&& section_at(*old(reader), "provisioning"@, SectionRule::Provisioning)
            },
            sections_plain(*old(reader)) ==> r is Ok,
            r is Ok ==> final(reader).items() == old(reader).items() && final(reader).consumed() == old(
                reader,
            ).consumed() + section_keys(),
    {
        let ghost r0 = *reader;
        let mut section = reader.table("meta")?;
        let ghost c = section;
        proof {
            Self::lemma_fresh_section(r0, c, "meta"@, SectionRule::Meta);
        }
        let meta = Meta::read(&mut section)?;
        proof {
            Self::lemma_read_section(c, SectionRule::Meta);
            assert forall|d: Reader| fresh_section(r0, d, "meta"@) implies #[trigger] meta_read(d, meta) by {}
        }
        let mut section = reader.table("system")?;
        let ghost c = section;
        proof {
            Self::lemma_fresh_section(r0, c, "system"@, SectionRule::System);
        }
        let system = System::read(&mut section)?;
        proof {
            Self::lemma_read_section(c, SectionRule::System);
            assert forall|d: Reader| fresh_section(r0, d, "system"@) implies #[trigger] system_read(d, system) by {}
        }
        let mut section = reader.table("user")?;
        let ghost c = section;
        proof {
            Self::lemma_fresh_section(r0, c, "user"@, SectionRule::UserKeysOnly);
            Self::lemma_fresh_section(r0, c, "user"@, SectionRule::User);
        }
        let user = User::read(&mut section, ctx)?;
        proof {
            Self::lemma_read_section(c, SectionRule::User);
            assert forall|d: Reader| fresh_section(r0, d, "user"@) implies #[trigger] user_read(
                d,
                old(ctx).provider,
                old(ctx).base_dir@,
                user,
            ) by {}
            if section_at(r0, "user"@, SectionRule::UserKeysOnly) {
                lemma_dedup_last(c.texts("authorized_keys"@));
            }
        }
        let mut section = reader.table("ssh")?;
        let ghost c = section;
        proof {
            Self::lemma_fresh_section(r0, c, "ssh"@, SectionRule::Ssh);
        }
        let ssh = Ssh::read(&mut section)?;
        proof {
            Self::lemma_read_section(c, SectionRule::Ssh);
            assert forall|d: Reader| fresh_section(r0, d, "ssh"@) implies #[trigger] ssh_read(d, ssh) by {}
        }
        let mut section = reader.table("network")?;
        let ghost c = section;
        proof {
            Self::lemma_fresh_section(r0, c, "network"@, SectionRule::Meta);
        }
        let network = Network::read_with_hostname(&mut section, ctx, system.hostname.as_str())?;
        proof {
            assert forall|d: Reader| fresh_section(r0, d, "network"@) implies #[trigger] network_read(
                d,
                system.hostname@,
                network,
            ) by {}
        }
        let mut section = reader.table("hardware")?;
        let ghost c = section;
        proof {
            Self::lemma_fresh_section(r0, c, "hardware"@, SectionRule::Hardware);
        }
        let hardware = Hardware::read(&mut section)?;
        proof {
            Self::lemma_read_section(c, SectionRule::Hardware);
            assert forall|d: Reader| fresh_section(r0, d, "hardware"@) implies #[trigger] hardware_read(d, hardware) by {}
        }
        let mut section = reader.table("provisioning")?;
        let ghost c = section;
        proof {
            Self::lemma_fresh_section(r0, c, "provisioning"@, SectionRule::Provisioning);
        }
        let provisioning = Provisioning::read(&mut section)?;
        proof {
            Self::lemma_read_section(c, SectionRule::Provisioning);
            assert forall|d: Reader| fresh_section(r0, d, "provisioning"@) implies #[trigger] provisioning_read(
                d,
                provisioning,
            ) by {}
        }
        let spec = Spec { meta, system, user, ssh, network, hardware, provisioning };
        proof {
            if network.usb_gadget is None && network.ethernet@.len() == 0 && network.wifi@.len() == 0 {
                assert(connection_ids(network) =~= seq![]);
            }
        }
        spec.cross_validate(ctx)?;
        proof {
            assert(reader.consumed() =~= r0.consumed() + section_keys());
        }
        Ok(spec)
    }

    /// A section just taken from the root is read from the start: when the
    /// root's section meets `rule`, so does it.
    proof fn lemma_fresh_section(root: Reader, c: Reader, key: Seq<char>, rule: SectionRule)
        requires
            c.items() == table_items(root.items(), key) || (root.node_at(key) is None && c.items().len() == 0),
            c.consumed().len() == 0,
        ensures
            c.consumed() == Seq::<Seq<char>>::empty(),
            c.items() == table_items(root.items(), key),
            section_ok(table_items(root.items(), key), rule) ==> reads_as(c, rule),
    {
        assert(c.consumed() =~= Seq::<Seq<char>>::empty());
        assert(c.items() =~= table_items(root.items(), key));
    }

    /// A section that met `rule` when read from the start: every reader of
    /// the same entries does.
    proof fn lemma_read_section(c: Reader, rule: SectionRule)
        requires
            c.consumed() == Seq::<Seq<char>>::empty(),
            reads_as(c, rule),
        ensures
            section_ok(c.items(), rule),
    {
        assert forall|d: Reader| d.items() == c.items() && d.consumed() == Seq::<Seq<char>>::empty() implies #[trigger] reads_as(
            d,
            rule,
        ) by {
            lemma_sections_same(d, c);
        }
    }

    /// The rules that span sections.
    pub fn cross_validate<'a, P: SecretProvider>(&self, ctx: &mut Context<'a, P>) -> (r: Result<(), Error>)
        ensures
            final(ctx).provider == old(ctx).provider,
            final(ctx).base_dir == old(ctx).base_dir,
            match cross_check(*self) {
                None => r is Ok,
                Some(m) => r matches Err(e) && e.message@ == m && e.position is None,
            },
            (self.network.usb_gadget is Some && self.hardware.uart.debug_connector && cross_check(*self)
                != Some(no_login_message()) && cross_check(*self) != Some(unreachable_message()))
                ==> final(ctx).warnings@.len() == old(ctx).warnings@.len() + 1,
    {
        if self.user.password_hash.is_none() && self.user.authorized_keys.len() == 0 {
            return Err(Error::new(owned(
                "`user`: neither `password_hash` nor `authorized_keys` was supplied; there would be no way to log in.",
            )));
        }
        if self.ssh.enabled && !self.ssh.password_authentication && self.user.authorized_keys.len() == 0 {
            return Err(Error::new(owned(
                "`ssh`: password authentication is disabled but no authorized keys were supplied; the machine would be unreachable. Set `user.authorized_keys` or enable `ssh.password_authentication`.",
            )));
        }
        if self.network.usb_gadget.is_some() && self.hardware.uart.debug_connector {
            ctx.warn(owned(
                "USB gadget mode and the debug UART are both enabled; on Raspberry Pi 5 the USB-C port supplies power, so provide power through the GPIO header when using the gadget link.",
            ));
        }
        match &self.network.usb_gadget {
            Some(gadget) => {
                let mut i: usize = 0;
                while i < self.network.ethernet.len()
                    invariant
                        i <= self.network.ethernet@.len(),
                        forall|k: int| 0 <= k < i ==> (#[trigger] self.network.ethernet@[k]).interface@ != gadget.interface@,
                        ctx.provider == old(ctx).provider,
                        ctx.base_dir == old(ctx).base_dir,
                        self.network.usb_gadget == Some(*gadget),
                        ctx.warnings@.len() == old(ctx).warnings@.len() + (if self.hardware.uart.debug_connector { 1int } else { 0int }),
                        !(self.user.password_hash is None && self.user.authorized_keys@.len() == 0),
                        !(self.ssh.enabled && !self.ssh.password_authentication && self.user.authorized_keys@.len() == 0),
                    decreases self.network.ethernet.len() - i,
                {
                    if crate::text::str_eq(self.network.ethernet[i].interface.as_str(), gadget.interface.as_str()) {
                        let mut m = owned("`network.usb_gadget.interface`: `");
                        push_str(&mut m, gadget.interface.as_str());
                        push_str(&mut m, "` is also used by an ethernet connection");
                        return Err(Error::new(m));
                    }
                    i = i + 1;
                }
            },
            None => {},
        }
        let mut ids: Vec<String> = Vec::new();
        let mut i: usize = 0;
        while i < self.network.ethernet.len()
            invariant
                i <= self.network.ethernet@.len(),
                crate::text::strings_view(ids@) == self.network.ethernet@.take(i as int).map_values(|c: EthernetConnection| c.id@),
            decreases self.network.ethernet.len() - i,
        {
            let ghost before = ids@;
            ids.push(owned(self.network.ethernet[i].id.as_str()));
            proof {
                let x = self.network.ethernet@[i as int];
                assert(self.network.ethernet@.take(i + 1) =~= self.network.ethernet@.take(i as int).push(x));
                assert(self.network.ethernet@.take(i as int).push(x).map_values(|c: EthernetConnection| c.id@)
                    =~= self.network.ethernet@.take(i as int).map_values(|c: EthernetConnection| c.id@).push(x.id@));
                assert(crate::text::strings_view(ids@) =~= crate::text::strings_view(before).push(x.id@));
            }
            i = i + 1;
        }
        let ghost eth = crate::text::strings_view(ids@);
        let mut i: usize = 0;
        while i < self.network.wifi.len()
            invariant
                i <= self.network.wifi@.len(),
                crate::text::strings_view(ids@) == eth + self.network.wifi@.take(i as int).map_values(|c: WifiConnection| c.id@),
            decreases self.network.wifi.len() - i,
        {
            let ghost before = ids@;
            ids.push(owned(self.network.wifi[i].id.as_str()));
            proof {
                let x = self.network.wifi@[i as int];
                assert(self.network.wifi@.take(i + 1) =~= self.network.wifi@.take(i as int).push(x));
                assert(self.network.wifi@.take(i as int).push(x).map_values(|c: WifiConnection| c.id@)
                    =~= self.network.wifi@.take(i as int).map_values(|c: WifiConnection| c.id@).push(x.id@));
                assert(crate::text::strings_view(ids@) =~= crate::text::strings_view(before).push(x.id@));
                assert(crate::text::strings_view(ids@) =~= eth + self.network.wifi@.take(i + 1).map_values(|c: WifiConnection| c.id@));
            }
            i = i + 1;
        }
        proof {
            assert(self.network.ethernet@.take(self.network.ethernet@.len() as int) =~= self.network.ethernet@);
            assert(self.network.wifi@.take(self.network.wifi@.len() as int) =~= self.network.wifi@);
            assert(crate::text::strings_view(ids@) == connection_ids(self.network));
        }
        if !all_distinct(&ids) {
            return Err(Error::new(owned("`network`: connection `id` values must be unique across ethernet and wifi")));
        }
        Ok(())
    }
}

fn all_distinct(v: &Vec<String>) -> (r: bool)
    ensures
        r == crate::text::strings_view(v@).no_duplicates(),
{
    let ghost sv = crate::text::strings_view(v@);
    let mut i: usize = 0;
    while i < v.len()
        invariant
            i <= v@.len(),
            sv == crate::text::strings_view(v@),
            forall|a: int, b: int| 0 <= a < b < v@.len() && a < i ==> sv[a] != sv[b],
        decreases v.len() - i,
    {
        let mut j: usize = i + 1;
        while j < v.len()
            invariant
                i < j <= v@.len(),
                i < v@.len(),
                sv == crate::text::strings_view(v@),
                forall|a: int, b: int| 0 <= a < b < v@.len() && a < i ==> sv[a] != sv[b],
                forall|b: int| i < b < j ==> sv[i as int] != sv[b],
            decreases v.len() - j,
        {
            if crate::text::str_eq(v[i].as_str(), v[j].as_str()) {
                assert(sv[i as int] == sv[j as int]);
                return false;
            }
            j = j + 1;
        }
        i = i + 1;
    }
    true
}

} // verus!
