//! Loading a specification: parse the document, apply the command line
//! overrides, digest the result and read the model out of it.

use vstd::prelude::*;
use vstd::utf8::encode_utf8;
use crate::num::{decimal, signed_decimal};
use crate::specification::error::Error;
use crate::specification::loading::{cross_check, section_keys, sections_plain, spec_read};
use crate::specification::model::{Context, Spec};
use crate::specification::overrides::{
    apply, assignable, assignment_safe, parse_set, parse_set_secret, path_outcome, value_at, Outcome, Override,
};
use crate::specification::reader::Reader;
use crate::specification::secret::SecretProvider;
use crate::specification::sha256::{digest, hex, sha256_hex};
use crate::text::{owned, push_str, split_once};
use crate::toml::{Entry, Node, Table, Value};

verus! {

// ------------------------------------------------------------ canonical form

/// The canonical text of a value. Strings carry their length in UTF-8
/// bytes, so that no choice of content can imitate the framing.
pub open spec fn canonical_value(v: Value) -> Seq<char>
    decreases v, 0int,
{
    match v {
        Value::String(s) => seq!['s'] + decimal(encode_utf8(s@).len()) + seq![':'] + s@,
        Value::Integer(i) => seq!['i'] + signed_decimal(i as int),
        Value::Float(f) => seq!['f'] + f@,
        Value::Boolean(b) => if b {
            seq!['T']
        } else {
            seq!['F']
        },
        Value::Array(items) => seq!['['] + canonical_nodes(items@) + seq![']'],
        Value::Table(t) => {
            proof {
                t.lemma_items_smaller();
            }
            seq!['{'] + canonical_entries(t.items()) + seq!['}']
        },
    }
}

/// Each element followed by `,`.
pub open spec fn canonical_nodes(ns: Seq<Node>) -> Seq<char>
    decreases ns, 0int,
{
    if ns.len() == 0 {
        seq![]
    } else {
        canonical_nodes(ns.subrange(0, ns.len() - 1)) + canonical_value(ns[ns.len() - 1].value)
            + seq![',']
    }
}

/// Each entry as `key=value;`.
pub open spec fn canonical_entries(es: Seq<Entry>) -> Seq<char>
    decreases es, 0int,
{
    if es.len() == 0 {
        seq![]
    } else {
        canonical_entries(es.subrange(0, es.len() - 1)) + es[es.len() - 1].key@ + seq!['=']
            + canonical_value(es[es.len() - 1].node.value) + seq![';']
    }
}

/// The canonical text of a document.
pub open spec fn canonical_table(t: Table) -> Seq<char> {
    seq!['{'] + canonical_entries(t.items()) + seq!['}']
}

fn write_value(out: &mut String, v: &Value)
    ensures
        final(out)@ == old(out)@ + canonical_value(*v),
    decreases *v, 0int,
{
    match v {
        Value::String(s) => {
            push_str(out, "s");
            let n = crate::num::usize_to_string(crate::text::utf8_bytes(s.as_str()).len());
            push_str(out, n.as_str());
            push_str(out, ":");
            push_str(out, s.as_str());
        },
        Value::Integer(i) => {
            push_str(out, "i");
            let d = crate::num::i64_to_string(*i);
            push_str(out, d.as_str());
        },
        Value::Float(f) => {
            push_str(out, "f");
            push_str(out, f.as_str());
        },
        Value::Boolean(b) => {
            if *b {
                push_str(out, "T");
            } else {
                push_str(out, "F");
            }
        },
        Value::Array(items) => {
            push_str(out, "[");
            let ghost start = out@;
            let mut i: usize = 0;
            while i < items.len()
                invariant
                    i <= items@.len(),
                    out@ == start + canonical_nodes(items@.subrange(0, i as int)),
                    *v == Value::Array(*items),
                decreases items.len() - i,
            {
                proof {
                    reveal_strlit(",");
                    assert(items@.subrange(0, i + 1).subrange(0, i as int) =~= items@.subrange(0, i as int));
                    assert(decreases_to!(*v => (*v)->Array_0));
                    assert(decreases_to!(*items => items@));
                    assert(decreases_to!(items@ => items@[i as int]));
                    assert(decreases_to!(items@[i as int] => items@[i as int].value));
                }
                let ghost mid = out@;
                write_value(out, &items[i].value);
                push_str(out, ",");
                proof {
                    assert(out@ =~= mid + canonical_value(items@[i as int].value) + seq![',']);
                    assert(out@ =~= start + canonical_nodes(items@.subrange(0, i + 1)));
                }
                i = i + 1;
            }
            assert(items@.subrange(0, items@.len() as int) =~= items@);
            push_str(out, "]");
        },
        Value::Table(t) => {
            write_table(out, t);
        },
    }
    proof {
        reveal_strlit("s");
        reveal_strlit(":");
        reveal_strlit("i");
        reveal_strlit("f");
        reveal_strlit("T");
        reveal_strlit("F");
        reveal_strlit("[");
        reveal_strlit("]");
        reveal_strlit(",");
    }
}

fn write_table(out: &mut String, t: &Table)
    ensures
        final(out)@ == old(out)@ + canonical_table(*t),
    decreases *t, 1int,
{
    proof {
        reveal_strlit("{");
        reveal_strlit("}");
        reveal_strlit("=");
        reveal_strlit(";");
        t.lemma_items_smaller();
    }
    push_str(out, "{");
    let ghost start = out@;
    let mut i: usize = 0;
    while i < t.len()
        invariant
            i <= t.items().len(),
            out@ == start + canonical_entries(t.items().subrange(0, i as int)),
            decreases_to!(*t => t.items()),
        decreases t.items().len() - i,
    {
        let e = t.entry(i);
        proof {
            assert(t.items().subrange(0, i + 1).subrange(0, i as int) =~= t.items().subrange(0, i as int));
            assert(decreases_to!(*t => t.items()[i as int].node.value));
        }
        proof {
            reveal_strlit("=");
            reveal_strlit(";");
        }
        let ghost mid = out@;
        push_str(out, e.key.as_str());
        push_str(out, "=");
        write_value(out, &e.node.value);
        push_str(out, ";");
        proof {
            assert(out@ =~= mid + e.key@ + seq!['='] + canonical_value(e.node.value) + seq![';']);
            assert(out@ =~= start + canonical_entries(t.items().subrange(0, i + 1)));
        }
        i = i + 1;
    }
    assert(t.items().subrange(0, t.items().len() as int) =~= t.items());
    push_str(out, "}");
}

/// The canonical text of a document: tables in key order, which the parser
/// keeps, so that neither comments, whitespace nor the order in which keys
/// were written change it.
pub fn canonical_text(t: &Table) -> (s: String)
    ensures
        s@ == canonical_table(*t),
{
    let mut out = String::new();
    write_table(&mut out, t);
    out
}

/// The bytes that are digested: the canonical text in UTF-8.
pub fn canonical_bytes(table: &Table) -> (b: Vec<u8>)
    ensures
        b@ == encode_utf8(canonical_table(*table)),
{
    let text = canonical_text(table);
    crate::text::utf8_bytes(text.as_str())
}

/// The digest recorded for a document.
pub open spec fn document_digest(t: Table) -> Seq<char> {
    hex(digest(encode_utf8(canonical_table(t))))
}

// ------------------------------------------------------------------ loading

/// A loaded specification together with any non-fatal observations.
#[derive(Debug, Clone)]
pub struct Loaded {
    pub spec: Spec,
    pub warnings: Vec<String>,
    /// SHA-256 of the specification source after overrides were applied.
    /// Recorded in generated artefacts so a provisioned card can be traced
    /// back to its input.
    pub digest: String,
}

/// How to load a specification.
pub struct LoadOptions<'a, P: SecretProvider> {
    /// Where relative `file = "..."` secret paths are resolved from.
    pub base_dir: String,
    pub provider: &'a P,
    pub sets: Vec<Override>,
    pub set_secrets: Vec<Override>,
}

impl<'a, P: SecretProvider> LoadOptions<'a, P> {
    pub fn new(provider: &'a P) -> (o: Self)
        ensures
            o.base_dir@ == "."@,
            o.provider == provider,
            o.sets@.len() == 0,
            o.set_secrets@.len() == 0,
    {
        LoadOptions { base_dir: owned("."), provider, sets: Vec::new(), set_secrets: Vec::new() }
    }

    pub fn base_dir(self, dir: &str) -> (o: Self)
        ensures
            o.base_dir@ == dir@,
            o.provider == self.provider,
            o.sets == self.sets,
            o.set_secrets == self.set_secrets,
    {
        LoadOptions { base_dir: owned(dir), provider: self.provider, sets: self.sets, set_secrets: self.set_secrets }
    }

    /// Add a `--set path=value` override.
    pub fn set(self, text: &str) -> (r: Result<Self, Error>)
        requires
            assignment_safe(text@),
            text@.len() < usize::MAX - 16,
        ensures
            (r is Ok) == (split_once(text@, '=') matches Some((path, _)) && path_outcome(path) == Outcome::Done),
            split_once(text@, '=') is None ==> (r matches Err(e) && e.message@ == "`"@ + text@
                + "` is not of the form `path=value`"@),
            r matches Ok(o) ==> {
                &&& o.base_dir == self.base_dir
                &&& o.provider == self.provider
                &&& o.set_secrets == self.set_secrets
                &&& o.sets@.len() == self.sets@.len() + 1
                &&& o.sets@.take(self.sets@.len() as int) == self.sets@
                &&& o.sets@.last().origin@ == text@
            },
    {
        let over = parse_set(text)?;
        let mut sets = self.sets;
        sets.push(over);
        Ok(LoadOptions { base_dir: self.base_dir, provider: self.provider, sets, set_secrets: self.set_secrets })
    }

    /// Add a `--set-secret path=source` override.
    pub fn set_secret(self, text: &str) -> (r: Result<Self, Error>)
        requires
            assignment_safe(text@),
        ensures
            split_once(text@, '=') is None ==> (r matches Err(e) && e.message@ == "`"@ + text@
                + "` is not of the form `path=source`"@),
            r matches Ok(o) ==> {
                &&& o.base_dir == self.base_dir
                &&& o.provider == self.provider
                &&& o.sets == self.sets
                &&& o.set_secrets@.len() == self.set_secrets@.len() + 1
                &&& o.set_secrets@.take(self.set_secrets@.len() as int) == self.set_secrets@
                &&& o.set_secrets@.last().origin@ == text@
            },
    {
        let over = parse_set_secret(text)?;
        let mut set_secrets = self.set_secrets;
        set_secrets.push(over);
        Ok(LoadOptions { base_dir: self.base_dir, provider: self.provider, sets: self.sets, set_secrets })
    }
}

/// Apply the overrides in order, stopping at the first that fails.
fn apply_all(document: &mut Table, overrides: Vec<Override>) -> (r: Result<(), Error>)
    ensures
        overrides@.len() == 0 ==> r is Ok && *final(document) == *old(document),
        overrides@.len() > 0 && !(overrides@[0].path@.len() > 0 && assignable(
            Value::Table(*old(document)),
            overrides@[0].path@,
        )) ==> r is Err,
        overrides@.len() > 0 && r is Ok ==> value_at(
            Value::Table(*final(document)),
            overrides@.last().path@,
        ) == Some(overrides@.last().value),
{
    if overrides.len() == 0 {
        return Ok(());
    }
    let ghost all = overrides@;
    let ghost first_doc = *document;
    let mut rest = overrides;
    let mut done: usize = 0;
    while rest.len() > 0
        invariant
            all == overrides@,
            0 < all.len() <= usize::MAX,
            done <= all.len(),
            rest@ == all.skip(done as int),
            rest@.len() + done == all.len(),
            done == 0 ==> *document == first_doc,
            done > 0 ==> all[0].path@.len() > 0 && assignable(Value::Table(first_doc), all[0].path@),
            done > 0 ==> value_at(Value::Table(*document), all[done - 1].path@) == Some(all[done - 1].value),
        decreases rest.len(),
    {
        let over = rest.remove(0);
        proof {
            assert(over == all[done as int]);
            assert(rest@ =~= all.skip(done + 1));
        }
        apply(document, over)?;
        done = done + 1;
    }
    proof {
        assert(done == all.len());
    }
    Ok(())
}

/// A document that loads whatever the secret provider answers: read from
/// its root, its sections read as `sections_plain` describes, and it holds
/// nothing but those sections.
pub open spec fn document_loads(document: Table) -> bool {
    forall|r: Reader|
        r.items() == document.items() && r.consumed() == Seq::<Seq<char>>::empty() ==> #[trigger] sections_plain(r)
            && r.known_only(section_keys())
}

/// `spec` is what the sections of `document` give, read from its root.
pub open spec fn document_read<P: SecretProvider>(document: Table, provider: &P, base_dir: Seq<char>, spec: Spec) -> bool {
    forall|r: Reader|
        r.items() == document.items() && r.consumed() == Seq::<Seq<char>>::empty() ==> #[trigger] spec_read(
            r,
            provider,
            base_dir,
            spec,
        )
}

/// What loading `document` with `options` gives: a specification that
/// passes the rules spanning sections, with a digest of 64 characters; and,
/// without overrides, the digest of the document, the specification its
/// sections give, and success for a document that loads whatever the secret
/// provider answers.
pub open spec fn loads_as<'a, P: SecretProvider>(document: Table, options: LoadOptions<'a, P>, r: Result<Loaded, Error>) -> bool {
    &&& r matches Ok(l) ==> cross_check(l.spec) is None && l.digest@.len() == 64
    &&& options.sets@.len() == 0 && options.set_secrets@.len() == 0 ==> {
        &&& r matches Ok(l) ==> l.digest@ == document_digest(document)
        &&& r matches Ok(l) ==> document_read(document, options.provider, options.base_dir@, l.spec)
        &&& document_loads(document) ==> r is Ok
    }
}

/// Apply the overrides to a parsed document, record its digest and read the
/// specification out of it.
pub fn load_document<'a, P: SecretProvider>(document: Table, options: LoadOptions<'a, P>) -> (r: Result<Loaded, Error>)
    ensures
        loads_as(document, options, r),
{
    let mut document = document;
    let ghost original = document;
    let LoadOptions { base_dir, provider, sets, set_secrets } = options;
    apply_all(&mut document, sets)?;
    apply_all(&mut document, set_secrets)?;
    let bytes = canonical_bytes(&document);
    let digest = sha256_hex(bytes.as_slice());
    let mut ctx = Context::new(provider, base_dir.as_str());
    let mut reader = Reader::root(&document);
    let ghost start = reader;
    proof {
        if options.sets@.len() == 0 && options.set_secrets@.len() == 0 && document_loads(original) {
            assert(sections_plain(start) && start.known_only(section_keys()));
        }
    }
    let spec = Spec::from_reader(&mut reader, &mut ctx)?;
    proof {
        assert(Seq::<Seq<char>>::empty() + section_keys() =~= section_keys());
        if options.sets@.len() == 0 && options.set_secrets@.len() == 0 {
            assert(document == original);
            assert forall|r: Reader| r.items() == original.items() && r.consumed() == Seq::<Seq<char>>::empty()
                implies #[trigger] spec_read(r, options.provider, options.base_dir@, spec) by {
                assert(spec_read(start, options.provider, options.base_dir@, spec));
            }
        }
    }
    reader.finish()?;
    Ok(Loaded { spec, warnings: ctx.warnings, digest })
}

/// What loading a parse outcome gives: a parse failure reported with its
/// line and column, or the parsed document loaded.
pub open spec fn loads_parsed<'a, P: SecretProvider>(
    parsed: Result<Table, crate::toml::Error>,
    options: LoadOptions<'a, P>,
    r: Result<Loaded, Error>,
) -> bool {
    match parsed {
        Err(e) => r matches Err(x) && x.message@ == e.message@ && x.position == (if e.line > 0 {
            Some((e.line, e.col))
        } else {
            None
        }) && x.file is None,
        Ok(t) => loads_as(t, options, r),
    }
}

/// Parse and validate a specification held in memory.
pub fn load_str<'a, P: SecretProvider>(source: &str, options: LoadOptions<'a, P>) -> (r: Result<Loaded, Error>)
    requires
        source@.len() < usize::MAX,
    ensures
        exists|parsed: Result<Table, crate::toml::Error>|
            #[trigger] crate::toml::parse_outcome(source@, parsed) && loads_parsed(parsed, options, r),
{
    let parsed = crate::toml::parse(source);
    let ghost outcome = parsed;
    let r = match parsed {
        Ok(t) => load_document(t, options),
        Err(e) => Err(Error::at(e.line, e.col, e.message)),
    };
    assert(crate::toml::parse_outcome(source@, outcome) && loads_parsed(outcome, options, r));
    r
}

} // verus!
