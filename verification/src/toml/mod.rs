//! A small TOML parser covering the subset that specification files use:
//! comments, bare, quoted and dotted keys, `[table]` and `[[array]]`
//! headers, inline tables and arrays, the four string forms, integers in
//! four bases, floats and booleans. Date-time values are refused with a
//! diagnostic.
//!
//! Every value keeps the line and column it was read from, so that errors
//! raised while interpreting the document can point at the source.

pub mod parser;

use vstd::prelude::*;
use crate::text::{
    lemma_seq_lt_irreflexive, lemma_seq_lt_total, lemma_seq_lt_transitive, owned, seq_lt, str_eq,
    str_lt,
};

verus! {

/// A value read from the document.
#[derive(Debug, PartialEq, Eq)]
pub enum Value {
    String(String),
    Integer(i64),
    /// A float, kept as its source text with the `_` separators removed;
    /// the text always has the syntax `f64::from_str` accepts.
    Float(String),
    Boolean(bool),
    Array(Vec<Node>),
    Table(Table),
}

/// A value together with the line and column (both from 1) of its first
/// character.
#[derive(Debug, PartialEq, Eq)]
pub struct Node {
    pub value: Value,
    pub line: usize,
    pub col: usize,
}

pub open spec fn kind_name_of(v: Value) -> Seq<char> {
    match v {
        Value::String(_) => "string"@,
        Value::Integer(_) => "integer"@,
        Value::Float(_) => "float"@,
        Value::Boolean(_) => "boolean"@,
        Value::Array(_) => "array"@,
        Value::Table(_) => "table"@,
    }
}

impl Value {
    /// Name of the kind of value, for error messages.
    pub fn kind_name(&self) -> (s: &'static str)
        ensures
            s@ == kind_name_of(*self),
    {
        match self {
            Value::String(_) => "string",
            Value::Integer(_) => "integer",
            Value::Float(_) => "float",
            Value::Boolean(_) => "boolean",
            Value::Array(_) => "array",
            Value::Table(_) => "table",
        }
    }
}

impl Node {
    pub fn new(value: Value, line: usize, col: usize) -> (n: Node)
        ensures
            n == (Node { value, line, col }),
    {
        Node { value, line, col }
    }

    pub fn kind_name(&self) -> (s: &'static str)
        ensures
            s@ == kind_name_of(self.value),
    {
        self.value.kind_name()
    }
}

/// A value that is neither an array nor a table.
pub open spec fn is_scalar(v: Value) -> bool {
    v is String || v is Integer || v is Float || v is Boolean
}

/// Every key of `before` holding a scalar holds the same node in `after`.
pub open spec fn keeps_scalars(before: Table, after: Table) -> bool {
    forall|k: Seq<char>|
        (#[trigger] before.get_spec(k) matches Some(n) && is_scalar(n.value)) ==> after.get_spec(k) == before.get_spec(k)
}

/// A parse failure, with the position it was detected at.
#[derive(Debug, Clone, PartialEq, Eq)]
pub struct Error {
    pub message: String,
    pub line: usize,
    pub col: usize,
}

impl Error {
    /// `line L, column C: message`.
    pub fn to_string(&self) -> (s: String)
        ensures
            s@ == "line "@ + crate::num::decimal(self.line as nat) + ", column "@
                + crate::num::decimal(self.col as nat) + ": "@ + self.message@,
    {
        let mut out = owned("line ");
        let l = crate::num::usize_to_string(self.line);
        crate::text::push_str(&mut out, l.as_str());
        crate::text::push_str(&mut out, ", column ");
        let c = crate::num::usize_to_string(self.col);
        crate::text::push_str(&mut out, c.as_str());
        crate::text::push_str(&mut out, ": ");
        crate::text::push_str(&mut out, self.message.as_str());
        out
    }
}

/// What a parse of `input` gives: an empty table for a document of only
/// comments and blank lines; the first key bound to what its value reads;
/// for a document of single keys bound to strings, booleans and numbers, the
/// table of exactly those bindings, failing exactly when a key is bound twice;
/// and for a document of such bindings, or bindings to inline arrays of such
/// values or (under a header) to inline tables of single keys bound to them,
/// under `[key]` headers, the table of exactly those headers' tables
/// and bindings, each binding under the header before it, failing exactly
/// when a header is given twice, names a key bound at the top, or a key is
/// bound twice in one table.
pub open spec fn parse_outcome(input: Seq<char>, r: Result<Table, Error>) -> bool {
    &&& parser::sectioned(input, 0, seq![]) matches Some((hs, bs)) ==> {
        &&& (r is Ok) == parser::sections_ok(hs, bs)
        &&& r matches Ok(t) ==> parser::holds_sections(input, t, hs, bs)
    }
    &&& parser::trivia_end(input, 0) == input.len() ==> (r matches Ok(t) && t.items().len() == 0)
    &&& r matches Ok(t) ==> (parser::first_binding(input) matches Some((k, i)) ==> (t.get_spec(k) matches Some(n)
        && parser::value_read(input, i, n.value)))
    &&& parser::flat_bindings(input, 0) matches Some(bs) ==> {
        &&& (r is Ok) == parser::distinct_keys(bs)
        &&& r matches Ok(t) ==> forall|j: int|
            0 <= j < bs.len() ==> (t.get_spec(#[trigger] bs[j].0) matches Some(n) && parser::value_read(
                input,
                bs[j].1,
                n.value,
            ))
        &&& r matches Ok(t) ==> forall|k: Seq<char>|
            (forall|j: int| 0 <= j < bs.len() ==> bs[j].0 != k) ==> #[trigger] t.get_spec(k) is None
    }
}

/// Parse a TOML document into a table.
pub fn parse(input: &str) -> (r: Result<Table, Error>)
    requires
        input@.len() < usize::MAX,
    ensures
        parse_outcome(input@, r),
{
    let mut p = parser::Parser::new(input);
    p.parse_document()
}

// ------------------------------------------------------------------ tables

/// One key of a table.
#[derive(Debug, PartialEq, Eq)]
pub struct Entry {
    pub key: String,
    pub node: Node,
}

/// Keys strictly increasing: sorted, each once.
pub open spec fn sorted_keys(es: Seq<Entry>) -> bool {
    forall|i: int, j: int| 0 <= i < j < es.len() ==> seq_lt(#[trigger] es[i].key@, #[trigger] es[j].key@)
}

pub open spec fn holds_key(es: Seq<Entry>, k: Seq<char>) -> bool {
    exists|i: int| 0 <= i < es.len() && es[i].key@ == k
}

pub open spec fn index_of_key(es: Seq<Entry>, k: Seq<char>) -> int {
    choose|i: int| 0 <= i < es.len() && es[i].key@ == k
}

/// The node stored under `k`, if any.
pub open spec fn lookup(es: Seq<Entry>, k: Seq<char>) -> Option<Node> {
    if holds_key(es, k) {
        Some(es[index_of_key(es, k)].node)
    } else {
        None
    }
}

pub proof fn lemma_keys_distinct(es: Seq<Entry>, i: int, j: int)
    requires
        sorted_keys(es),
        0 <= i < es.len(),
        0 <= j < es.len(),
        es[i].key@ == es[j].key@,
    ensures
        i == j,
{
    if i != j {
        lemma_seq_lt_irreflexive(es[i].key@);
    }
}

pub proof fn lemma_lookup_at(es: Seq<Entry>, i: int)
    requires
        sorted_keys(es),
        0 <= i < es.len(),
    ensures
        holds_key(es, es[i].key@),
        index_of_key(es, es[i].key@) == i,
        lookup(es, es[i].key@) == Some(es[i].node),
{
    let k = es[i].key@;
    assert(holds_key(es, k));
    lemma_keys_distinct(es, i, index_of_key(es, k));
}

/// A table: keys in the order `String` sorts them, each once.
#[derive(Debug, PartialEq, Eq)]
pub struct Table {
    entries: Vec<Entry>,
}

impl Table {
    #[verifier::type_invariant]
    spec fn well_formed(self) -> bool {
        sorted_keys(self.entries@)
    }

    /// The entries, in key order.
    pub closed spec fn items(&self) -> Seq<Entry> {
        self.entries@
    }

    pub open spec fn get_spec(&self, k: Seq<char>) -> Option<Node> {
        lookup(self.items(), k)
    }

    /// The entries are structurally smaller than the table that holds them.
    pub proof fn lemma_items_smaller(&self)
        ensures
            decreases_to!(*self => self.items()),
    {
        assert(decreases_to!(*self => self.entries));
        assert(decreases_to!(self.entries => self.entries@));
    }

    /// The keys are sorted; every table is.
    pub fn assert_sorted(&self)
        ensures
            sorted_keys(self.items()),
    {
        proof {
            use_type_invariant(self);
        }
    }

    pub fn new() -> (t: Table)
        ensures
            t.items() == Seq::<Entry>::empty(),
    {
        Table { entries: Vec::new() }
    }

    pub fn len(&self) -> (n: usize)
        ensures
            n == self.items().len(),
    {
        self.entries.len()
    }

    pub fn entry(&self, i: usize) -> (e: &Entry)
        requires
            i < self.items().len(),
        ensures
            *e == self.items()[i as int],
    {
        &self.entries[i]
    }

    /// Where `key` is, or would be inserted, and whether it is there.
    fn position(&self, key: &str) -> (r: (usize, bool))
        ensures
            r.0 <= self.items().len(),
            forall|i: int| 0 <= i < r.0 ==> seq_lt(#[trigger] self.items()[i].key@, key@),
            r.1 ==> r.0 < self.items().len() && self.items()[r.0 as int].key@ == key@,
            !r.1 ==> forall|i: int|
                r.0 <= i < self.items().len() ==> seq_lt(key@, #[trigger] self.items()[i].key@),
            r.1 == holds_key(self.items(), key@),
    {
        proof {
            use_type_invariant(self);
        }
        let mut i: usize = 0;
        let mut go = true;
        while go && i < self.entries.len()
            invariant
                i <= self.entries@.len(),
                sorted_keys(self.entries@),
                forall|k: int| 0 <= k < i ==> seq_lt(#[trigger] self.entries@[k].key@, key@),
                !go ==> i < self.entries@.len() && !seq_lt(self.entries@[i as int].key@, key@),
            decreases self.entries.len() - i, if go { 1int } else { 0int },
        {
            if str_lt(self.entries[i].key.as_str(), key) {
                i = i + 1;
            } else {
                go = false;
            }
        }
        let found = i < self.entries.len() && str_eq(self.entries[i].key.as_str(), key);
        proof {
            let es = self.entries@;
            if i < es.len() && !found {
                lemma_seq_lt_total(es[i as int].key@, key@);
                assert forall|k: int| i <= k < es.len() implies seq_lt(key@, #[trigger] es[k].key@) by {
                    if k > i {
                        lemma_seq_lt_transitive(key@, es[i as int].key@, es[k].key@);
                    }
                }
            }
            if !found && holds_key(es, key@) {
                let k = choose|k: int| 0 <= k < es.len() && es[k].key@ == key@;
                lemma_seq_lt_irreflexive(key@);
            }
        }
        (i, found)
    }

    pub fn get(&self, key: &str) -> (r: Option<&Node>)
        ensures
            match self.get_spec(key@) {
                Some(n) => r matches Some(m) && *m == n,
                None => r is None,
            },
    {
        proof {
            use_type_invariant(self);
        }
        let (at, found) = self.position(key);
        if found {
            proof {
                lemma_lookup_at(self.entries@, at as int);
            }
            Some(&self.entries[at].node)
        } else {
            None
        }
    }

    pub fn contains_key(&self, key: &str) -> (r: bool)
        ensures
            r == self.get_spec(key@) is Some,
    {
        let (_, found) = self.position(key);
        found
    }

    /// Store `node` under `key`, replacing what was there.
    pub fn insert(&mut self, key: String, node: Node)
        ensures
            final(self).get_spec(key@) == Some(node),
            forall|k: Seq<char>| k != key@ ==> final(self).get_spec(k) == old(self).get_spec(k),
            old(self).items().len() == 0 ==> final(self).items() == seq![Entry { key, node }],
    {
        proof {
            use_type_invariant(&*self);
        }
        let (at, found) = self.position(key.as_str());
        let ghost before = self.entries@;
        let ghost kv = key@;
        let e = Entry { key, node };
        let mut es: Vec<Entry> = Vec::new();
        std::mem::swap(&mut es, &mut self.entries);
        if found {
            es.set(at, e);
            proof {
                let after = es@;
                assert(after == before.update(at as int, e));
                assert forall|i: int, j: int| 0 <= i < j < after.len() implies seq_lt(
                    #[trigger] after[i].key@,
                    #[trigger] after[j].key@,
                ) by {
                    assert(after[i].key@ == before[i].key@);
                    assert(after[j].key@ == before[j].key@);
                }
                lemma_lookup_at(after, at as int);
                assert forall|k: Seq<char>| k != kv implies lookup(after, k) == lookup(before, k) by {
                    if holds_key(before, k) {
                        let i = index_of_key(before, k);
                        lemma_lookup_at(before, i);
                        assert(after[i].key@ == k);
                        lemma_lookup_at(after, i);
                    }
                    if holds_key(after, k) {
                        let i = index_of_key(after, k);
                        assert(before[i].key@ == k);
                    }
                }
            }
        } else {
            proof {
                let after = before.insert(at as int, e);
                assert forall|i: int, j: int| 0 <= i < j < after.len() implies seq_lt(
                    #[trigger] after[i].key@,
                    #[trigger] after[j].key@,
                ) by {
                    if j < at {
                    } else if i < at && j == at {
                    } else if i < at && j > at {
                        assert(after[j] == before[j - 1]);
                    } else if i == at {
                        assert(after[j] == before[j - 1]);
                    } else {
                        assert(after[i] == before[i - 1]);
                        assert(after[j] == before[j - 1]);
                    }
                }
            }
            es.insert(at, e);
            proof {
                let after = es@;
                lemma_lookup_at(after, at as int);
                assert forall|k: Seq<char>| k != kv implies lookup(after, k) == lookup(before, k) by {
                    if holds_key(before, k) {
                        let i = index_of_key(before, k);
                        lemma_lookup_at(before, i);
                        if i < at {
                            assert(after[i] == before[i]);
                            lemma_lookup_at(after, i);
                        } else {
                            assert(after[i + 1] == before[i]);
                            lemma_lookup_at(after, i + 1);
                        }
                    }
                    if holds_key(after, k) {
                        let i = index_of_key(after, k);
                        if i < at {
                            assert(before[i].key@ == k);
                        } else if i > at {
                            assert(before[i - 1].key@ == k);
                        }
                    }
                }
            }
        }
        self.entries = es;
    }

    /// Take the node stored under `key` out of the table.
    pub fn remove(&mut self, key: &str) -> (r: Option<Node>)
        ensures
            r == old(self).get_spec(key@),
            final(self).get_spec(key@) is None,
            forall|k: Seq<char>| k != key@ ==> final(self).get_spec(k) == old(self).get_spec(k),
    {
        proof {
            use_type_invariant(&*self);
        }
        let (at, found) = self.position(key);
        if !found {
            return None;
        }
        let ghost before = self.entries@;
        let mut es: Vec<Entry> = Vec::new();
        std::mem::swap(&mut es, &mut self.entries);
        let e = es.remove(at);
        proof {
            let after = es@;
            assert(after == before.remove(at as int));
            assert forall|i: int, j: int| 0 <= i < j < after.len() implies seq_lt(
                #[trigger] after[i].key@,
                #[trigger] after[j].key@,
            ) by {
                if j < at {
                } else if i < at {
                    assert(after[j] == before[j + 1]);
                } else {
                    assert(after[i] == before[i + 1]);
                    assert(after[j] == before[j + 1]);
                }
            }
            lemma_lookup_at(before, at as int);
            if holds_key(after, key@) {
                let i = index_of_key(after, key@);
                if i < at {
                    lemma_keys_distinct(before, i, at as int);
                } else {
                    assert(after[i] == before[i + 1]);
                    lemma_keys_distinct(before, i + 1, at as int);
                }
            }
            assert forall|k: Seq<char>| k != key@ implies lookup(after, k) == lookup(before, k) by {
                if holds_key(before, k) {
                    let i = index_of_key(before, k);
                    lemma_lookup_at(before, i);
                    if i < at {
                        assert(after[i] == before[i]);
                        lemma_lookup_at(after, i);
                    } else {
                        assert(i != at);
                        assert(after[i - 1] == before[i]);
                        lemma_lookup_at(after, i - 1);
                    }
                }
                if holds_key(after, k) {
                    let i = index_of_key(after, k);
                    if i < at {
                        assert(before[i].key@ == k);
                    } else {
                        assert(before[i + 1].key@ == k);
                    }
                }
            }
        }
        self.entries = es;
        Some(e.node)
    }
}

} // verus!
