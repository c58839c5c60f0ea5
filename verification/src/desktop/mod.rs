//! The parts of the desktop front end that are not the window: the secrets
//! typed into it, and the summary it shows of a specification.
//!
//! Every operation goes through the same loading code the command line
//! uses, so the two cannot disagree about what a specification means.

pub mod edit;

use vstd::prelude::*;
use crate::apply::fs::IoError;
use crate::num::{decimal, usize_to_string};
use crate::specification::error::{error_text, Error};
use crate::specification::load::{document_digest, document_loads, document_read, load_str, LoadOptions, Loaded};
use crate::specification::model::{Hardware, Spec};
use crate::specification::reader::{join_list, joined_list, str_list};
use crate::specification::secret::{find_last, lookup, SecretProvider};
use crate::text::{owned, push_str};

verus! {

// ------------------------------------------------------------------ secrets

/// Secrets typed into the window, falling back to another provider (the
/// real environment, in the application) for everything else.
pub struct WindowSecrets<'a, P: SecretProvider> {
    /// Variable names and the values typed for them; a later entry wins.
    pub typed: Vec<(String, String)>,
    pub fallback: &'a P,
}

impl<'a, P: SecretProvider> SecretProvider for WindowSecrets<'a, P> {
    /// A value typed into the window, unless it was left empty; otherwise
    /// an answer of the fallback provider.
    open spec fn env_answer(&self, name: Seq<char>, r: Option<String>) -> bool {
        if lookup(self.typed@, name) matches Some(v) && v.len() > 0 {
            r matches Some(s) && s@ == lookup(self.typed@, name)->0
        } else {
            self.fallback.env_answer(name, r)
        }
    }

    /// An answer of the fallback provider.
    open spec fn file_answer(&self, path: Seq<char>, r: Result<String, IoError>) -> bool {
        self.fallback.file_answer(path, r)
    }

    /// A value typed into the window, unless it was left empty; otherwise
    /// whatever the fallback provider has.
    fn env(&self, name: &str) -> (r: Option<String>)
        ensures
            (lookup(self.typed@, name@) matches Some(v) && v.len() > 0) ==> (r matches Some(s) && s@
                == lookup(self.typed@, name@)->0),
    {
        match find_last(&self.typed, name) {
            Some(value) => {
                if crate::text::chars_of(value.as_str()).len() > 0 {
                    Some(value)
                } else {
                    self.fallback.env(name)
                }
            },
            None => self.fallback.env(name),
        }
    }

    /// Files always come from the fallback provider.
    fn read_file(&self, path: &str) -> (r: Result<String, IoError>)
        ensures
            self.fallback.file_answer(path@, r),
    {
        self.fallback.read_file(path)
    }
}

// ------------------------------------------------------------------- shapes

/// What the window shows of a loaded specification.
#[derive(Debug, Clone, PartialEq, Eq)]
pub struct Summary {
    pub hostname: String,
    pub user: String,
    pub target: String,
    pub digest: String,
    pub ssh: String,
    pub network: String,
    pub hardware: String,
}

/// The answer to "is this specification valid?".
#[derive(Debug, Clone, PartialEq, Eq)]
pub struct Validation {
    pub ok: bool,
    pub error: Option<String>,
    pub warnings: Vec<String>,
    pub summary: Option<Summary>,
}

/// What the window sends for anything that needs a loaded specification.
#[derive(Debug, Clone, PartialEq, Eq)]
pub struct SpecInput {
    pub text: String,
    /// Directory relative paths in the specification resolve against, which
    /// is the directory the file was opened from.
    pub base_dir: String,
    /// Secrets typed into the window: variable names and values.
    pub secrets: Vec<(String, String)>,
}

/// The directory relative paths resolve against: `.` for an empty one.
pub open spec fn base_or_current(base_dir: Seq<char>) -> Seq<char> {
    if base_dir.len() == 0 {
        "."@
    } else {
        base_dir
    }
}

/// What the window is answered for a parse outcome: a parse failure as a
/// diagnostic line with its position; otherwise a specification passing the
/// rules spanning sections, with the parsed document's digest and read from
/// it with secrets answered by typed values in front of `fallback`, relative
/// paths resolved against `base_dir` or `.` when it is empty; success for a
/// document that loads whatever the secrets are.
pub open spec fn window_reply<'a, P: SecretProvider>(
    parsed: Result<crate::toml::Table, crate::toml::Error>,
    fallback: &'a P,
    base_dir: Seq<char>,
    r: Result<Loaded, String>,
) -> bool {
    match parsed {
        Err(e) => r matches Err(m) && m@ == error_text(
            Error {
                message: e.message,
                position: if e.line > 0 {
                    Some((e.line, e.col))
                } else {
                    None
                },
                file: None,
            },
        ),
        Ok(t) => {
            &&& r matches Ok(l) ==> crate::specification::loading::cross_check(l.spec) is None && l.digest@
                == document_digest(t) && l.digest@.len() == 64
            &&& r matches Ok(l) ==> exists|w: WindowSecrets<'a, P>|
                w.fallback == fallback && #[trigger] document_read(
                    t,
                    &w,
                    base_or_current(base_dir),
                    l.spec,
                )
            &&& document_loads(t) ==> r is Ok
        },
    }
}

impl SpecInput {
    /// Load the text, with the typed secrets in front of `fallback`.
    #[verifier::rlimit(60)]
    #[verifier::spinoff_prover]
    pub fn load<P: SecretProvider>(&self, fallback: &P) -> (r: Result<Loaded, String>)
        requires
            self.text@.len() < usize::MAX,
        ensures
            exists|parsed: Result<crate::toml::Table, crate::toml::Error>|
                #[trigger] crate::toml::parse_outcome(self.text@, parsed) && window_reply(parsed, fallback, self.base_dir@, r),
    {
        let provider = WindowSecrets { typed: self.secrets.clone(), fallback };
        let base = if crate::text::chars_of(self.base_dir.as_str()).len() == 0 {
            "."
        } else {
            self.base_dir.as_str()
        };
        let options = LoadOptions::new(&provider).base_dir(base);
        let ghost opts = options;
        let inner = load_str(self.text.as_str(), options);
        let ghost parsed = choose|p: Result<crate::toml::Table, crate::toml::Error>|
            #[trigger] crate::toml::parse_outcome(self.text@, p) && crate::specification::load::loads_parsed(p, opts, inner);
        let r = match inner {
            Ok(loaded) => Ok(loaded),
            Err(error) => Err(error.to_string()),
        };
        let ghost answer = r;
        proof {
            assert(opts.base_dir@ == base_or_current(self.base_dir@));
            assert(opts.sets@.len() == 0 && opts.set_secrets@.len() == 0);
            if let Ok(t) = parsed {
                if let Ok(l) = answer {
                    assert(document_read(t, opts.provider, opts.base_dir@, l.spec));
                    assert(provider.fallback == fallback);
                }
            }
            assert(window_reply(parsed, fallback, self.base_dir@, r));
        }
        r
    }
}

// ---------------------------------------------------------------- summaries

pub open spec fn on_off(b: bool) -> Seq<char> {
    if b {
        "on"@
    } else {
        "off"@
    }
}

/// `enabled, password auth on, 2 key(s)`.
pub open spec fn ssh_line(s: Spec) -> Seq<char> {
    (if s.ssh.enabled {
        "enabled"@
    } else {
        "disabled"@
    }) + ", password auth "@ + on_off(s.ssh.password_authentication) + ", "@ + decimal(
        s.user.authorized_keys@.len(),
    ) + " key(s)"@
}

/// `1 wired, 0 wireless, gadget off`.
pub open spec fn network_line(s: Spec) -> Seq<char> {
    decimal(s.network.ethernet@.len()) + " wired, "@ + decimal(s.network.wifi@.len()) + " wireless, gadget "@
        + on_off(s.network.usb_gadget is Some)
}

/// The buses that are switched on, in a fixed order.
pub open spec fn buses_on(h: Hardware) -> Seq<Seq<char>> {
    (if h.uart.enabled {
        seq!["uart"@]
    } else {
        seq![]
    }) + (if h.i2c.enabled {
        seq!["i2c"@]
    } else {
        seq![]
    }) + (if h.spi.enabled {
        seq!["spi"@]
    } else {
        seq![]
    }) + (if h.one_wire.enabled {
        seq!["1-wire"@]
    } else {
        seq![]
    })
}

/// The buses that are on, separated by `, `, or `none`.
pub open spec fn hardware_line(h: Hardware) -> Seq<char> {
    if buses_on(h).len() == 0 {
        "none"@
    } else {
        joined_list(buses_on(h))
    }
}

/// Shape a loaded specification for the window.
pub fn summarise(loaded: &Loaded) -> (s: Summary)
    ensures
        s.hostname@ == loaded.spec.system.hostname@,
        s.user@ == loaded.spec.user.name@,
        s.target@ == "pi5"@,
        s.digest@ == loaded.digest@,
        s.ssh@ == ssh_line(loaded.spec),
        s.network@ == network_line(loaded.spec),
        s.hardware@ == hardware_line(loaded.spec.hardware),
{
    let spec = &loaded.spec;
    let mut ssh = owned(if spec.ssh.enabled { "enabled" } else { "disabled" });
    push_str(&mut ssh, ", password auth ");
    push_str(&mut ssh, if spec.ssh.password_authentication { "on" } else { "off" });
    push_str(&mut ssh, ", ");
    let keys = usize_to_string(spec.user.authorized_keys.len());
    push_str(&mut ssh, keys.as_str());
    push_str(&mut ssh, " key(s)");

    let wired = usize_to_string(spec.network.ethernet.len());
    let mut network = owned(wired.as_str());
    push_str(&mut network, " wired, ");
    let wireless = usize_to_string(spec.network.wifi.len());
    push_str(&mut network, wireless.as_str());
    push_str(&mut network, " wireless, gadget ");
    push_str(&mut network, if spec.network.usb_gadget.is_some() { "on" } else { "off" });

    let mut on: Vec<&str> = Vec::new();
    if spec.hardware.uart.enabled {
        on.push("uart");
    }
    if spec.hardware.i2c.enabled {
        on.push("i2c");
    }
    if spec.hardware.spi.enabled {
        on.push("spi");
    }
    if spec.hardware.one_wire.enabled {
        on.push("1-wire");
    }
    proof {
        reveal_strlit("uart");
        reveal_strlit("i2c");
        reveal_strlit("spi");
        reveal_strlit("1-wire");
        assert(str_list(on@) =~= buses_on(spec.hardware));
    }
    let hardware = if on.len() == 0 {
        owned("none")
    } else {
        join_list(on.as_slice())
    };
    let target = owned(spec.meta.target.as_str());
    Summary {
        hostname: owned(spec.system.hostname.as_str()),
        user: owned(spec.user.name.as_str()),
        target,
        digest: owned(loaded.digest.as_str()),
        ssh,
        network,
        hardware,
    }
}

/// The window's verdict on a load: the warnings and a summary when it
/// succeeded, the message the command line would print when it failed.
pub fn validation_of(result: Result<Loaded, String>) -> (v: Validation)
    ensures
        v.ok == result is Ok,
        match result {
            Ok(loaded) => {
                &&& v.error is None
                &&& v.warnings@ == loaded.warnings@
                &&& v.summary matches Some(s) && s.hostname@ == loaded.spec.system.hostname@ && s.user@
                    == loaded.spec.user.name@ && s.target@ == "pi5"@ && s.digest@ == loaded.digest@ && s.ssh@
                    == ssh_line(loaded.spec) && s.network@ == network_line(loaded.spec) && s.hardware@
                    == hardware_line(loaded.spec.hardware)
            },
            Err(message) => {
                &&& v.error matches Some(e) && e@ == message@
                &&& v.warnings@.len() == 0
                &&& v.summary is None
            },
        },
{
    match result {
        Ok(loaded) => {
            let summary = summarise(&loaded);
            Validation { ok: true, error: None, warnings: loaded.warnings, summary: Some(summary) }
        },
        Err(message) => Validation { ok: false, error: Some(message), warnings: Vec::new(), summary: None },
    }
}

/// Load and summarise, with the typed secrets in front of `fallback`.
pub fn validate<P: SecretProvider>(input: SpecInput, fallback: &P) -> (v: Validation)
    requires
        input.text@.len() < usize::MAX,
    ensures
        v.ok == v.error is None,
        v.ok == v.summary is Some,
{
    validation_of(input.load(fallback))
}

} // verus!
