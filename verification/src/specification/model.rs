//! The provisioning specification model, and the validation of its values.

use vstd::prelude::*;
use vstd::utf8::encode_utf8;
use crate::specification::bytes::{all_bytes_in, all_in, in_class, is_lower_byte, ByteClass};
use crate::specification::error::{message, Error};
use crate::specification::net::{Ipv4Addr, Ipv4Cidr, MacAddr};
use crate::specification::secret::SecretProvider;
use crate::text::{owned, push_str, split_tokens, starts_with, tokens, utf8_bytes};

verus! {

pub const SCHEMA_VERSION: i64 = 1;

/// Loading context: where to resolve secrets from, and what was noticed.
pub struct Context<'a, P: SecretProvider> {
    pub provider: &'a P,
    pub base_dir: String,
    pub warnings: Vec<String>,
}

impl<'a, P: SecretProvider> Context<'a, P> {
    pub fn new(provider: &'a P, base_dir: &str) -> (c: Context<'a, P>)
        ensures
            c.provider == provider,
            c.base_dir@ == base_dir@,
            c.warnings@.len() == 0,
    {
        Context { provider, base_dir: owned(base_dir), warnings: Vec::new() }
    }

    /// Record a non-fatal observation.
    pub fn warn(&mut self, message: String)
        ensures
            final(self).provider == old(self).provider,
            final(self).base_dir == old(self).base_dir,
            final(self).warnings@ == old(self).warnings@.push(message),
    {
        self.warnings.push(message);
    }
}

// ---------------------------------------------------------------------- meta

#[derive(Debug, Clone, Copy, PartialEq, Eq, Structural)]
pub enum Target {
    Pi5,
}

impl Target {
    pub fn as_str(self) -> (s: &'static str)
        ensures
            s@ == "pi5"@,
    {
        match self {
            Target::Pi5 => "pi5",
        }
    }

    /// Device-tree blob that must be present on the boot partition.
    pub fn device_tree_blob(self) -> (s: &'static str)
        ensures
            s@ == "bcm2712-rpi-5-b.dtb"@,
    {
        match self {
            Target::Pi5 => "bcm2712-rpi-5-b.dtb",
        }
    }
}

#[derive(Debug, Clone, PartialEq, Eq)]
pub struct Meta {
    pub schema_version: i64,
    pub target: Target,
    pub description: Option<String>,
}

// -------------------------------------------------------------------- system

#[derive(Debug, Clone, PartialEq, Eq)]
pub struct System {
    pub hostname: String,
    pub timezone: Option<String>,
    pub locale: Option<String>,
    pub keymap: Option<String>,
}

// ---------------------------------------------------------------------- user

#[derive(Debug, Clone, Copy, PartialEq, Eq, Structural)]
pub enum SudoMode {
    /// Member of `sudo`, password required.
    Password,
    /// Member of `sudo` with a NOPASSWD rule.
    NoPassword,
    /// No sudo access.
    NoAccess,
}

#[derive(Debug, Clone, PartialEq, Eq)]
pub struct User {
    pub name: String,
    pub password_hash: Option<String>,
    pub authorized_keys: Vec<String>,
    pub groups: Vec<String>,
    pub shell: String,
    pub sudo: SudoMode,
}

// ----------------------------------------------------------------------- ssh

#[derive(Debug, Clone, PartialEq, Eq)]
pub struct Ssh {
    pub enabled: bool,
    pub port: u16,
    pub password_authentication: bool,
    pub permit_root_login: String,
    pub extra_config: Vec<String>,
}

// ------------------------------------------------------------------- network

#[derive(Debug, Clone, Copy, PartialEq, Eq, Structural)]
pub enum IpMethod {
    Auto,
    Manual,
    Disabled,
}

impl IpMethod {
    pub open spec fn nm_name(self) -> Seq<char> {
        match self {
            IpMethod::Auto => "auto"@,
            IpMethod::Manual => "manual"@,
            IpMethod::Disabled => "disabled"@,
        }
    }

    pub fn as_nm(self) -> (s: &'static str)
        ensures
            s@ == self.nm_name(),
    {
        match self {
            IpMethod::Auto => "auto",
            IpMethod::Manual => "manual",
            IpMethod::Disabled => "disabled",
        }
    }
}

#[derive(Debug, Clone, PartialEq, Eq)]
pub struct IpConfig {
    pub method: IpMethod,
    pub address: Option<Ipv4Cidr>,
    pub gateway: Option<Ipv4Addr>,
    pub dns: Vec<Ipv4Addr>,
    pub ignore_auto_dns: bool,
    pub ipv6: IpMethod,
}

#[derive(Debug, Clone, PartialEq, Eq)]
pub struct EthernetConnection {
    pub id: String,
    pub interface: String,
    pub ip: IpConfig,
    pub autoconnect: bool,
    pub autoconnect_priority: i64,
    pub mac: Option<MacAddr>,
}

#[derive(Debug, Clone, Copy, PartialEq, Eq, Structural)]
pub enum WifiSecurity {
    /// WPA2 personal.
    WpaPsk,
    /// WPA3 personal.
    Sae,
    /// Open network.
    Open,
}

#[derive(Debug, Clone, PartialEq, Eq)]
pub struct WifiConnection {
    pub id: String,
    pub ssid: String,
    pub interface: String,
    pub security: WifiSecurity,
    pub psk: Option<String>,
    pub hidden: bool,
    pub ip: IpConfig,
    pub autoconnect: bool,
    pub autoconnect_priority: i64,
}

#[derive(Debug, Clone, Copy, PartialEq, Eq, Structural)]
pub enum GadgetFunction {
    /// CDC ECM: works with Linux and macOS hosts.
    Ecm,
    /// CDC NCM: higher throughput, Linux, macOS and recent Windows hosts.
    Ncm,
    /// RNDIS: needed by older Windows hosts.
    Rndis,
}

impl GadgetFunction {
    pub open spec fn name(self) -> Seq<char> {
        match self {
            GadgetFunction::Ecm => "ecm"@,
            GadgetFunction::Ncm => "ncm"@,
            GadgetFunction::Rndis => "rndis"@,
        }
    }

    /// configfs function directory name.
    pub fn configfs_name(self) -> (s: &'static str)
        ensures
            s@ == self.name(),
    {
        match self {
            GadgetFunction::Ecm => "ecm",
            GadgetFunction::Ncm => "ncm",
            GadgetFunction::Rndis => "rndis",
        }
    }

    pub fn as_str(self) -> (s: &'static str)
        ensures
            s@ == self.name(),
    {
        match self {
            GadgetFunction::Ecm => "ecm",
            GadgetFunction::Ncm => "ncm",
            GadgetFunction::Rndis => "rndis",
        }
    }
}

#[derive(Debug, Clone, PartialEq, Eq)]
pub struct UsbGadget {
    pub function: GadgetFunction,
    pub interface: String,
    pub address: Ipv4Cidr,
    pub peer_address: Option<Ipv4Addr>,
    pub device_mac: MacAddr,
    pub host_mac: MacAddr,
    pub vendor_id: u16,
    pub product_id: u16,
    pub manufacturer: String,
    pub product: String,
    pub serial: String,
}

#[derive(Debug, Clone, PartialEq, Eq)]
pub struct Network {
    pub wifi_country: Option<String>,
    pub ethernet: Vec<EthernetConnection>,
    pub wifi: Vec<WifiConnection>,
    pub usb_gadget: Option<UsbGadget>,
}

// ------------------------------------------------------------------ hardware

#[derive(Debug, Clone, PartialEq, Eq)]
pub struct Uart {
    /// `dtparam=uart0=on`: PL011 UART0 on GPIO 14/15, exposed as `/dev/ttyAMA0`.
    pub enabled: bool,
    /// Attach a kernel console to `/dev/ttyAMA0`.
    pub console: bool,
    pub baudrate: u32,
    /// `enable_uart=1`: the dedicated debug connector, `/dev/ttyAMA10`.
    pub debug_connector: bool,
}

#[derive(Debug, Clone, PartialEq, Eq)]
pub struct I2c {
    pub enabled: bool,
    pub baudrate: u32,
}

#[derive(Debug, Clone, PartialEq, Eq)]
pub struct Spi {
    pub enabled: bool,
}

#[derive(Debug, Clone, PartialEq, Eq)]
pub struct OneWire {
    pub enabled: bool,
    pub gpio: u8,
}

#[derive(Debug, Clone, PartialEq, Eq)]
pub struct Hardware {
    pub uart: Uart,
    pub i2c: I2c,
    pub spi: Spi,
    pub one_wire: OneWire,
    pub pcie_gen: Option<u8>,
    /// `usb_max_current_enable=1`: force the high downstream USB limit.
    pub usb_max_current: bool,
    /// The `fan_temp0` to `fan_temp3` thresholds, in millidegrees.
    pub fan_thresholds: Vec<u32>,
    pub overlays: Vec<String>,
    pub dtparams: Vec<String>,
    pub config_extra: Vec<String>,
    pub cmdline_append: Vec<String>,
    pub cmdline_remove: Vec<String>,
}

// -------------------------------------------------------------- provisioning

#[derive(Debug, Clone, PartialEq, Eq)]
pub struct Provisioning {
    /// Mount point of the FAT boot partition as seen by the running system.
    pub boot_mount: String,
    /// Directory below the boot partition holding the generated payload.
    pub runner_dir: String,
    /// Delete the payload once the first boot has completed.
    pub wipe_payload: bool,
    /// Reboot after a successful run.
    pub reboot_after: bool,
    pub log_path: String,
}

// ---------------------------------------------------------------------- root

#[derive(Debug, Clone, PartialEq, Eq)]
pub struct Spec {
    pub meta: Meta,
    pub system: System,
    pub user: User,
    pub ssh: Ssh,
    pub network: Network,
    pub hardware: Hardware,
    pub provisioning: Provisioning,
}

// ---------------------------------------------------------------- validators

/// The outcome of a validator: `None` when the value is accepted.
pub open spec fn outcome_of(r: Result<(), Error>, expected: Option<Seq<char>>) -> bool {
    match expected {
        None => r is Ok,
        Some(m) => r matches Err(e) && e.message@ == m && e.position is None && e.file is None,
    }
}

/// RFC 1123 host name label: why `name` is refused, if it is.
pub open spec fn hostname_error(name: Seq<char>) -> Option<Seq<char>> {
    let b = encode_utf8(name);
    if b.len() == 0 || b.len() > 63 {
        Some("must be between 1 and 63 characters"@)
    } else if !all_in(ByteClass::HostName, b) {
        Some("may only contain ASCII letters, digits and hyphens"@)
    } else if b[0] == 45 || b.last() == 45 {
        Some("must not start or end with a hyphen"@)
    } else {
        None
    }
}

/// RFC 1123 host name label.
pub fn validate_hostname(name: &str) -> (r: Result<(), Error>)
    ensures
        outcome_of(r, hostname_error(name@)),
{
    let b = utf8_bytes(name);
    if b.len() == 0 || b.len() > 63 {
        return Err(message("must be between 1 and 63 characters"));
    }
    let all = all_bytes_in(ByteClass::HostName, b.as_slice(), 0);
    assert(b@.skip(0) =~= b@);
    if !all {
        return Err(message("may only contain ASCII letters, digits and hyphens"));
    }
    if b[0] == 45 || b[b.len() - 1] == 45 {
        return Err(message("must not start or end with a hyphen"));
    }
    Ok(())
}

pub open spec fn username_error(name: Seq<char>) -> Option<Seq<char>> {
    let b = encode_utf8(name);
    if b.len() == 0 || b.len() > 32 {
        Some("must be between 1 and 32 characters"@)
    } else if !(is_lower_byte(b[0]) || b[0] == 95) {
        Some("must start with a lowercase letter or underscore"@)
    } else if !all_in(ByteClass::UserName, b.skip(1)) {
        Some("may only contain lowercase letters, digits, `_` and `-`"@)
    } else {
        None
    }
}

pub fn validate_username(name: &str) -> (r: Result<(), Error>)
    ensures
        outcome_of(r, username_error(name@)),
{
    let b = utf8_bytes(name);
    if b.len() == 0 || b.len() > 32 {
        return Err(message("must be between 1 and 32 characters"));
    }
    let first = b[0];
    if !((97 <= first && first <= 122) || first == 95) {
        return Err(message("must start with a lowercase letter or underscore"));
    }
    if !all_bytes_in(ByteClass::UserName, b.as_slice(), 1) {
        return Err(message("may only contain lowercase letters, digits, `_` and `-`"));
    }
    Ok(())
}

/// The crypt(3) prefixes a password hash may start with.
pub open spec fn hash_prefixes() -> Seq<Seq<char>> {
    seq!["$y$"@, "$6$"@, "$5$"@, "$2b$"@, "$2y$"@, "$7$"@, "$gy$"@]
}

pub open spec fn password_hash_error(hash: Seq<char>) -> Option<Seq<char>> {
    if !(exists|i: int| 0 <= i < hash_prefixes().len() && starts_with(hash, #[trigger] hash_prefixes()[i])) {
        Some("does not look like a crypt(3) hash; generate one with `openssl passwd -6` or `mkpasswd --method=yescrypt`"@)
    } else if hash.contains(':') {
        Some("must not contain `:`"@)
    } else {
        None
    }
}

/// Reject anything that is obviously not a crypt(3) hash, most importantly a
/// plain-text password pasted into the field by mistake.
pub fn validate_password_hash(hash: &str) -> (r: Result<(), Error>)
    ensures
        outcome_of(r, password_hash_error(hash@)),
{
    let known = vec!["$y$", "$6$", "$5$", "$2b$", "$2y$", "$7$", "$gy$"];
    assert(known@.map_values(|s: &str| s@) =~= hash_prefixes());
    let h = crate::text::chars_of(hash);
    let mut found = false;
    let mut i: usize = 0;
    while i < known.len()
        invariant
            i <= known@.len(),
            known@.map_values(|s: &str| s@) == hash_prefixes(),
            h@ == hash@,
            found == exists|k: int| 0 <= k < i && starts_with(hash@, #[trigger] hash_prefixes()[k]),
        decreases known.len() - i,
    {
        let p = crate::text::chars_of(known[i]);
        assert(hash_prefixes()[i as int] == known@[i as int]@);
        if crate::text::chars_starts_with(h.as_slice(), p.as_slice()) {
            found = true;
        }
        i = i + 1;
    }
    if !found {
        return Err(
            message(
                "does not look like a crypt(3) hash; generate one with `openssl passwd -6` or `mkpasswd --method=yescrypt`",
            ),
        );
    }
    if crate::text::chars_contain(h.as_slice(), ':') {
        return Err(message("must not contain `:`"));
    }
    Ok(())
}

/// The SSH key types an authorized key may have.
pub open spec fn key_types() -> Seq<Seq<char>> {
    seq![
        "ssh-ed25519"@,
        "ssh-rsa"@,
        "ecdsa-sha2-nistp256"@,
        "ecdsa-sha2-nistp384"@,
        "ecdsa-sha2-nistp521"@,
        "sk-ssh-ed25519@openssh.com"@,
        "sk-ecdsa-sha2-nistp256@openssh.com"@,
    ]
}

/// The `n`-th whitespace-separated field, or nothing.
pub open spec fn field(s: Seq<char>, n: int) -> Seq<char> {
    if n < tokens(s).len() {
        tokens(s)[n]
    } else {
        seq![]
    }
}

pub open spec fn authorized_key_error(key: Seq<char>) -> Option<Seq<char>> {
    let algorithm = field(key, 0);
    let blob = encode_utf8(field(key, 1));
    if !key_types().contains(algorithm) {
        Some("`"@ + algorithm
            + "` is not a recognised SSH key type; expected one of ssh-ed25519, ssh-rsa, ecdsa-sha2-nistp256, ecdsa-sha2-nistp384, ecdsa-sha2-nistp521, sk-ssh-ed25519@openssh.com, sk-ecdsa-sha2-nistp256@openssh.com"@)
    } else if blob.len() < 16 || !all_in(ByteClass::Base64, blob) {
        Some("the key body is not valid base64"@)
    } else {
        None
    }
}

pub fn validate_authorized_key(key: &str) -> (r: Result<(), Error>)
    ensures
        outcome_of(r, authorized_key_error(key@)),
{
    let chars = crate::text::chars_of(key);
    let fields = split_tokens(chars.as_slice());
    let algorithm: Vec<char> = if fields.len() > 0 {
        crate::text::chars_slice(fields[0].as_slice(), 0, fields[0].len())
    } else {
        Vec::new()
    };
    let blob: Vec<char> = if fields.len() > 1 {
        crate::text::chars_slice(fields[1].as_slice(), 0, fields[1].len())
    } else {
        Vec::new()
    };
    proof {
        if fields@.len() > 0 {
            assert(algorithm@ =~= fields@[0]@);
        }
        if fields@.len() > 1 {
            assert(blob@ =~= fields@[1]@);
        }
        assert(algorithm@ =~= field(key@, 0));
        assert(blob@ =~= field(key@, 1));
    }
    let known = vec![
        "ssh-ed25519",
        "ssh-rsa",
        "ecdsa-sha2-nistp256",
        "ecdsa-sha2-nistp384",
        "ecdsa-sha2-nistp521",
        "sk-ssh-ed25519@openssh.com",
        "sk-ecdsa-sha2-nistp256@openssh.com",
    ];
    assert(known@.map_values(|s: &str| s@) =~= key_types());
    let mut recognised = false;
    let mut i: usize = 0;
    while i < known.len()
        invariant
            i <= known@.len(),
            known@.map_values(|s: &str| s@) == key_types(),
            recognised == exists|k: int| 0 <= k < i && key_types()[k] == algorithm@,
        decreases known.len() - i,
    {
        let t = crate::text::chars_of(known[i]);
        assert(key_types()[i as int] == known@[i as int]@);
        if crate::text::chars_eq(t.as_slice(), algorithm.as_slice()) {
            recognised = true;
        }
        i = i + 1;
    }
    if !recognised {
        let name = crate::text::string_from(algorithm.as_slice());
        let mut m = owned("`");
        push_str(&mut m, name.as_str());
        push_str(
            &mut m,
            "` is not a recognised SSH key type; expected one of ssh-ed25519, ssh-rsa, ecdsa-sha2-nistp256, ecdsa-sha2-nistp384, ecdsa-sha2-nistp521, sk-ssh-ed25519@openssh.com, sk-ecdsa-sha2-nistp256@openssh.com",
        );
        return Err(Error::new(m));
    }
    let body = crate::text::string_from(blob.as_slice());
    let bytes = utf8_bytes(body.as_str());
    let base64 = all_bytes_in(ByteClass::Base64, bytes.as_slice(), 0);
    assert(bytes@.skip(0) =~= bytes@);
    if bytes.len() < 16 || !base64 {
        return Err(message("the key body is not valid base64"));
    }
    Ok(())
}

pub open spec fn connection_id_error(id: Seq<char>) -> Option<Seq<char>> {
    let b = encode_utf8(id);
    if b.len() == 0 || b.len() > 64 {
        Some("must be between 1 and 64 characters"@)
    } else if !all_in(ByteClass::FileName, b) {
        Some("may only contain ASCII letters, digits, `-`, `_` and `.` (it becomes a file name)"@)
    } else {
        None
    }
}

pub fn validate_connection_id(id: &str) -> (r: Result<(), Error>)
    ensures
        outcome_of(r, connection_id_error(id@)),
{
    let b = utf8_bytes(id);
    if b.len() == 0 || b.len() > 64 {
        return Err(message("must be between 1 and 64 characters"));
    }
    let all = all_bytes_in(ByteClass::FileName, b.as_slice(), 0);
    assert(b@.skip(0) =~= b@);
    if !all {
        return Err(
            message(
                "may only contain ASCII letters, digits, `-`, `_` and `.` (it becomes a file name)",
            ),
        );
    }
    Ok(())
}

pub open spec fn ssid_error(ssid: Seq<char>) -> Option<Seq<char>> {
    let b = encode_utf8(ssid);
    if b.len() == 0 || b.len() > 32 {
        Some("must be between 1 and 32 bytes"@)
    } else if !all_in(ByteClass::NoControl, b) {
        Some("must not contain control characters"@)
    } else {
        None
    }
}

pub fn validate_ssid(ssid: &str) -> (r: Result<(), Error>)
    ensures
        outcome_of(r, ssid_error(ssid@)),
{
    let b = utf8_bytes(ssid);
    if b.len() == 0 || b.len() > 32 {
        return Err(message("must be between 1 and 32 bytes"));
    }
    let all = all_bytes_in(ByteClass::NoControl, b.as_slice(), 0);
    assert(b@.skip(0) =~= b@);
    if !all {
        return Err(message("must not contain control characters"));
    }
    Ok(())
}

pub open spec fn psk_error(psk: Seq<char>) -> Option<Seq<char>> {
    let b = encode_utf8(psk);
    if b.len() == 64 && all_in(ByteClass::Hex, b) {
        None
    } else if b.len() < 8 || b.len() > 63 {
        Some("must be an 8-63 character passphrase or a 64 hex digit pre-shared key"@)
    } else if !all_in(ByteClass::Printable, b) {
        Some("must contain only printable ASCII characters"@)
    } else {
        None
    }
}

/// Either an 8-63 character passphrase or a 64 hex digit pre-shared key.
pub fn validate_psk(psk: &str) -> (r: Result<(), Error>)
    ensures
        outcome_of(r, psk_error(psk@)),
{
    let b = utf8_bytes(psk);
    assert(b@.skip(0) =~= b@);
    if b.len() == 64 && all_bytes_in(ByteClass::Hex, b.as_slice(), 0) {
        return Ok(());
    }
    if b.len() < 8 || b.len() > 63 {
        return Err(message("must be an 8-63 character passphrase or a 64 hex digit pre-shared key"));
    }
    if !all_bytes_in(ByteClass::Printable, b.as_slice(), 0) {
        return Err(message("must contain only printable ASCII characters"));
    }
    Ok(())
}

} // verus!
