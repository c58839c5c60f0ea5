//! Secret values (password hashes, Wi-Fi pre-shared keys).
//!
//! A specification file is expected to live under version control, so secrets
//! are declared as a *source* rather than a literal: an environment variable,
//! a file, or (explicitly) an inline value. A bare string is rejected so that
//! a secret can never be committed by accident.

use vstd::prelude::*;
use crate::apply::fs::IoError;
use crate::specification::error::Error;
use crate::text::{chars_contain, chars_of, chars_slice, owned, push_str, split_once,
    split_once_char, string_from, str_eq, trim_end_newlines, trim_end_newlines_len};

verus! {

#[derive(Debug, Clone, PartialEq, Eq)]
pub enum SecretSource {
    /// Read from a process environment variable.
    Env(String),
    /// Read from a file, relative to the specification file's directory.
    File(String),
    /// An inline literal.
    Value(String),
}

/// What `describe` says of a source.
pub open spec fn source_text(s: SecretSource) -> Seq<char> {
    match s {
        SecretSource::Env(name) => "environment variable `"@ + name@ + "`"@,
        SecretSource::File(path) => "file `"@ + path@ + "`"@,
        SecretSource::Value(_) => "inline literal"@,
    }
}

pub enum SourceView {
    Env(Seq<char>),
    File(Seq<char>),
    Value(Seq<char>),
}

impl SecretSource {
    pub open spec fn view(self) -> SourceView {
        match self {
            SecretSource::Env(n) => SourceView::Env(n@),
            SecretSource::File(p) => SourceView::File(p@),
            SecretSource::Value(v) => SourceView::Value(v@),
        }
    }
}

/// What `parse_cli` gives.
pub open spec fn cli_source(text: Seq<char>) -> Option<SourceView> {
    match split_once(text, ':') {
        Some((kind, rest)) => if kind == "env"@ && rest.len() > 0 {
            Some(SourceView::Env(rest))
        } else if kind == "file"@ && rest.len() > 0 {
            Some(SourceView::File(rest))
        } else if kind == "value"@ {
            Some(SourceView::Value(rest))
        } else {
            None
        },
        None => None,
    }
}

impl SecretSource {
    /// A description safe to print in diagnostics (never reveals the value).
    pub fn describe(&self) -> (s: String)
        ensures
            s@ == source_text(*self),
    {
        match self {
            SecretSource::Env(name) => {
                let mut s = owned("environment variable `");
                push_str(&mut s, name.as_str());
                push_str(&mut s, "`");
                s
            },
            SecretSource::File(path) => {
                let mut s = owned("file `");
                push_str(&mut s, path.as_str());
                push_str(&mut s, "`");
                s
            },
            SecretSource::Value(_) => owned("inline literal"),
        }
    }

    /// Parse `env:NAME`, `file:PATH` or `value:LITERAL`, as accepted by the
    /// `--set-secret` command line option.
    pub fn parse_cli(text: &str) -> (r: Result<SecretSource, Error>)
        ensures
            match cli_source(text@) {
                Some(v) => r matches Ok(s) && s.view() == v,
                None => r matches Err(e) && e.message@ == "invalid secret source `"@ + text@
                    + "`; expected `env:NAME`, `file:PATH` or `value:LITERAL`"@,
            },
    {
        let chars = chars_of(text);
        match split_once_char(chars.as_slice(), ':') {
            Some((kind, rest)) => {
                let k = string_from(kind.as_slice());
                let v = string_from(rest.as_slice());
                if str_eq(k.as_str(), "env") && rest.len() > 0 {
                    return Ok(SecretSource::Env(v));
                } else if str_eq(k.as_str(), "file") && rest.len() > 0 {
                    return Ok(SecretSource::File(v));
                } else if str_eq(k.as_str(), "value") {
                    return Ok(SecretSource::Value(v));
                }
            },
            None => {},
        }
        let mut m = owned("invalid secret source `");
        push_str(&mut m, text);
        push_str(&mut m, "`; expected `env:NAME`, `file:PATH` or `value:LITERAL`");
        Err(Error::new(m))
    }
}

/// Supplies secret material during specification loading.
///
/// What an environment variable or a file holds is outside this library's
/// knowledge. A provider may describe its answers through `env_answer` and
/// `file_answer`; one that does not admits any answer.
pub trait SecretProvider {
    /// `r` is an answer the provider may give when asked for the
    /// environment variable `name`.
    open spec fn env_answer(&self, name: Seq<char>, r: Option<String>) -> bool {
        true
    }

    /// `r` is an answer the provider may give when asked to read `path`.
    open spec fn file_answer(&self, path: Seq<char>, r: Result<String, IoError>) -> bool {
        true
    }

    fn env(&self, name: &str) -> (r: Option<String>)
        ensures
            self.env_answer(name@, r),
    ;

    fn read_file(&self, path: &str) -> (r: Result<String, IoError>)
        ensures
            self.file_answer(path@, r),
    ;
}

// --------------------------------------------------------------- in memory

/// The value recorded last for `key`, if any.
pub open spec fn lookup(entries: Seq<(String, String)>, key: Seq<char>) -> Option<Seq<char>>
    decreases entries.len(),
{
    if entries.len() == 0 {
        None
    } else if entries.last().0@ == key {
        Some(entries.last().1@)
    } else {
        lookup(entries.drop_last(), key)
    }
}

pub(crate) fn find_last(entries: &Vec<(String, String)>, key: &str) -> (r: Option<String>)
    ensures
        match lookup(entries@, key@) {
            Some(v) => r matches Some(s) && s@ == v,
            None => r is None,
        },
{
    let mut i = entries.len();
    assert(entries@.take(i as int) =~= entries@);
    while i > 0
        invariant
            i <= entries@.len(),
            lookup(entries@, key@) == lookup(entries@.take(i as int), key@),
        decreases i,
    {
        assert(entries@.take(i as int).drop_last() =~= entries@.take(i - 1));
        assert(entries@.take(i as int).last() == entries@[i - 1]);
        if str_eq(entries[i - 1].0.as_str(), key) {
            return Some(owned(entries[i - 1].1.as_str()));
        }
        i = i - 1;
    }
    None
}

/// An in-memory provider, used by the test-suite.
pub struct MapSecrets {
    env: Vec<(String, String)>,
    files: Vec<(String, String)>,
}

impl MapSecrets {
    pub closed spec fn env_value(&self, name: Seq<char>) -> Option<Seq<char>> {
        lookup(self.env@, name)
    }

    pub closed spec fn file_value(&self, path: Seq<char>) -> Option<Seq<char>> {
        lookup(self.files@, path)
    }

    pub fn new() -> (m: MapSecrets)
        ensures
            forall|k: Seq<char>| m.env_value(k) is None && m.file_value(k) is None,
    {
        MapSecrets { env: Vec::new(), files: Vec::new() }
    }

    pub fn with_env(self, name: &str, value: &str) -> (m: MapSecrets)
        ensures
            m.env_value(name@) == Some(value@),
            forall|k: Seq<char>| k != name@ ==> m.env_value(k) == self.env_value(k),
            forall|k: Seq<char>| m.file_value(k) == self.file_value(k),
    {
        let mut env = self.env;
        env.push((owned(name), owned(value)));
        assert(env@.drop_last() =~= self.env@);
        MapSecrets { env, files: self.files }
    }

    pub fn with_file(self, path: &str, value: &str) -> (m: MapSecrets)
        ensures
            m.file_value(path@) == Some(value@),
            forall|k: Seq<char>| k != path@ ==> m.file_value(k) == self.file_value(k),
            forall|k: Seq<char>| m.env_value(k) == self.env_value(k),
    {
        let mut files = self.files;
        files.push((owned(path), owned(value)));
        assert(files@.drop_last() =~= self.files@);
        MapSecrets { env: self.env, files }
    }
}

impl SecretProvider for MapSecrets {
    open spec fn env_answer(&self, name: Seq<char>, r: Option<String>) -> bool {
        match self.env_value(name) {
            Some(v) => r matches Some(s) && s@ == v,
            None => r is None,
        }
    }

    open spec fn file_answer(&self, path: Seq<char>, r: Result<String, IoError>) -> bool {
        match self.file_value(path) {
            Some(v) => r matches Ok(s) && s@ == v,
            None => r is Err,
        }
    }

    fn env(&self, name: &str) -> (r: Option<String>)
        ensures
            match self.env_value(name@) {
                Some(v) => r matches Some(s) && s@ == v,
                None => r is None,
            },
    {
        find_last(&self.env, name)
    }

    fn read_file(&self, path: &str) -> (r: Result<String, IoError>)
        ensures
            match self.file_value(path@) {
                Some(v) => r matches Ok(s) && s@ == v,
                None => r is Err,
            },
    {
        match find_last(&self.files, path) {
            Some(v) => Ok(v),
            None => {
                let mut m = owned(path);
                push_str(&mut m, " not found");
                Err(IoError::new(crate::apply::fs::IoErrorKind::NotFound, m))
            },
        }
    }
}

// ---------------------------------------------------------------- resolving

/// `Path::join` on `/`-separated text: `path` itself when it is absolute,
/// otherwise appended to `base` with one separator.
pub open spec fn join_path(base: Seq<char>, path: Seq<char>) -> Seq<char> {
    if path.len() > 0 && path[0] == '/' {
        path
    } else if base.len() == 0 {
        path
    } else if base.last() == '/' {
        base + path
    } else {
        base + seq!['/'] + path
    }
}

pub fn join(base: &str, path: &str) -> (r: String)
    ensures
        r@ == join_path(base@, path@),
{
    let b = chars_of(base);
    let p = chars_of(path);
    if p.len() > 0 && p[0] == '/' {
        return owned(path);
    }
    if b.len() == 0 {
        return owned(path);
    }
    let mut out = owned(base);
    if b[b.len() - 1] != '/' {
        crate::text::push_char(&mut out, '/');
    }
    push_str(&mut out, path);
    out
}

/// What a raw secret becomes: trailing line breaks dropped; refused when
/// nothing is left or a line break remains.
pub open spec fn finished_secret(raw: Seq<char>, what: Seq<char>, described: Seq<char>) -> Result<Seq<char>, Seq<char>> {
    let trimmed = trim_end_newlines(raw);
    if trimmed.len() == 0 {
        Err(what + ": "@ + described + " is empty"@)
    } else if trimmed.contains('\n') {
        Err(what + ": "@ + described + " contains a line break"@)
    } else {
        Ok(trimmed)
    }
}

/// Check and trim a raw secret value.
///
/// Secret files conventionally end with a newline; trailing line breaks are
/// never part of a hash or pre-shared key.
pub fn finish_secret(raw: &str, source: &SecretSource, what: &str) -> (r: Result<String, Error>)
    ensures
        match finished_secret(raw@, what@, source_text(*source)) {
            Ok(v) => r matches Ok(s) && s@ == v,
            Err(m) => r matches Err(e) && e.message@ == m,
        },
{
    let chars = chars_of(raw);
    let n = trim_end_newlines_len(chars.as_slice());
    let trimmed = chars_slice(chars.as_slice(), 0, n);
    assert(trimmed@ =~= trim_end_newlines(raw@));
    if trimmed.len() == 0 {
        let mut m = owned(what);
        push_str(&mut m, ": ");
        let d = source.describe();
        push_str(&mut m, d.as_str());
        push_str(&mut m, " is empty");
        return Err(Error::new(m));
    }
    if chars_contain(trimmed.as_slice(), '\n') {
        let mut m = owned(what);
        push_str(&mut m, ": ");
        let d = source.describe();
        push_str(&mut m, d.as_str());
        push_str(&mut m, " contains a line break");
        return Err(Error::new(m));
    }
    Ok(string_from(trimmed.as_slice()))
}

/// What an answer for the environment variable `name` becomes.
pub open spec fn env_outcome(raw: Option<String>, name: Seq<char>, what: Seq<char>, described: Seq<char>) -> Result<
    Seq<char>,
    Seq<char>,
> {
    match raw {
        Some(v) => finished_secret(v@, what, described),
        None => Err(what + ": environment variable `"@ + name + "` is not set"@),
    }
}

/// What an answer for reading the file `full` becomes.
pub open spec fn file_outcome(raw: Result<String, IoError>, full: Seq<char>, what: Seq<char>, described: Seq<char>) -> Result<
    Seq<char>,
    Seq<char>,
> {
    match raw {
        Ok(v) => finished_secret(v@, what, described),
        Err(e) => Err(what + ": cannot read `"@ + full + "`: "@ + e.message@),
    }
}

/// `v` is a value that the provider's answer for `source` finishes into:
/// the trimmed literal, or the trimmed text of an answer the provider may
/// give for the variable or the file under `base_dir`.
pub open spec fn secret_from<P: SecretProvider>(provider: &P, base_dir: Seq<char>, source: SecretSource, v: Seq<char>) -> bool {
    match source {
        SecretSource::Value(literal) => finished_secret(literal@, ""@, ""@) == Ok::<Seq<char>, Seq<char>>(v),
        SecretSource::Env(name) => exists|raw: Option<String>|
            #[trigger] provider.env_answer(name@, raw) && (raw matches Some(t) && finished_secret(t@, ""@, ""@)
                == Ok::<Seq<char>, Seq<char>>(v)),
        SecretSource::File(path) => exists|raw: Result<String, IoError>|
            #[trigger] provider.file_answer(join_path(base_dir, path@), raw) && (raw matches Ok(t) && finished_secret(
                t@,
                ""@,
                ""@,
            ) == Ok::<Seq<char>, Seq<char>>(v)),
    }
}

/// `r` is the outcome `o`: the value, or an error with that message.
pub open spec fn outcome_is(r: Result<String, Error>, o: Result<Seq<char>, Seq<char>>) -> bool {
    match o {
        Ok(v) => r matches Ok(s) && s@ == v,
        Err(m) => r matches Err(e) && e.message@ == m,
    }
}

/// Resolve a declared source into the secret's actual value.
///
/// An inline value is checked as it stands; for an environment variable or
/// a file the provider's answer is checked the same way, whatever it is.
pub fn resolve<P: SecretProvider>(source: &SecretSource, provider: &P, base_dir: &str, what: &str) -> (r: Result<String, Error>)
    ensures
        source matches SecretSource::Value(literal) ==> match finished_secret(
            literal@,
            what@,
            source_text(*source),
        ) {
            Ok(v) => r matches Ok(s) && s@ == v,
            Err(m) => r matches Err(e) && e.message@ == m,
        },
        r matches Ok(s) ==> s@.len() > 0 && !s@.contains('\n') && trim_end_newlines(s@) == s@,
        source matches SecretSource::Env(n) ==> exists|raw: Option<String>|
            #[trigger] provider.env_answer(n@, raw) && outcome_is(r, env_outcome(raw, n@, what@, source_text(*source))),
        source matches SecretSource::File(p) ==> exists|raw: Result<String, IoError>|
            #[trigger] provider.file_answer(join_path(base_dir@, p@), raw) && outcome_is(
                r,
                file_outcome(raw, join_path(base_dir@, p@), what@, source_text(*source)),
            ),
        r matches Err(e) ==> e.message@.take(what@.len() + 2int) == what@ + ": "@,
{
    let raw = match source {
        SecretSource::Env(name) => match provider.env(name.as_str()) {
            Some(value) => value,
            None => {
                let mut m = owned(what);
                push_str(&mut m, ": environment variable `");
                push_str(&mut m, name.as_str());
                push_str(&mut m, "` is not set");
                proof {
                    reveal_strlit(": environment variable `");
                    reveal_strlit(": ");
                    assert(m@.take(what@.len() + 2int) =~= what@ + ": "@);
                }
                return Err(Error::new(m));
            },
        },
        SecretSource::File(path) => {
            let full = join(base_dir, path.as_str());
            match provider.read_file(full.as_str()) {
                Ok(text) => text,
                Err(err) => {
                    let mut m = owned(what);
                    push_str(&mut m, ": cannot read `");
                    push_str(&mut m, full.as_str());
                    push_str(&mut m, "`: ");
                    push_str(&mut m, err.message.as_str());
                    proof {
                        reveal_strlit(": cannot read `");
                        reveal_strlit(": ");
                        assert(m@.take(what@.len() + 2int) =~= what@ + ": "@);
                    }
                    return Err(Error::new(m));
                },
            }
        },
        SecretSource::Value(literal) => owned(literal.as_str()),
    };
    let r = finish_secret(raw.as_str(), source, what);
    proof {
        if r is Ok {
            lemma_trim_end_newlines_idempotent(raw@);
        }
        if r is Err {
            reveal_strlit(": ");
            assert(r->Err_0.message@.take(what@.len() + 2int) =~= what@ + ": "@);
        }
    }
    r
}

proof fn lemma_trim_end_newlines_idempotent(s: Seq<char>)
    ensures
        trim_end_newlines(trim_end_newlines(s)) == trim_end_newlines(s),
    decreases s.len(),
{
    if s.len() > 0 && (s.last() == '\n' || s.last() == '\r') {
        lemma_trim_end_newlines_idempotent(s.drop_last());
    }
}

} // verus!
