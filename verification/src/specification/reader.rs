//! A strict reader over a parsed table.
//!
//! Every access records the key it consumed; [`Reader::finish`] then fails if
//! the document held keys nobody asked for. Silently ignoring a typo in a
//! provisioning specification is the failure mode this guards against.

use vstd::prelude::*;
use crate::num::{decimal, i64_to_string, signed_decimal};
use crate::specification::error::Error;
use crate::text::{owned, push_str, str_eq};
use crate::toml::{kind_name_of, Node, Table, Value};

verus! {

/// A reader over one table of the document. A reader for a key the
/// document does not have reads an empty table.
pub struct Reader<'a> {
    table: Option<&'a Table>,
    path: String,
    used: Vec<String>,
    position: Option<(usize, usize)>,
}

/// `path.key`, or `key` at the root.
pub open spec fn joined(path: Seq<char>, key: Seq<char>) -> Seq<char> {
    if path.len() == 0 {
        key
    } else {
        path + seq!['.'] + key
    }
}

/// An error at a position, or without one.
pub open spec fn located(message: Seq<char>, at: Option<(usize, usize)>) -> (Seq<char>, Option<(usize, usize)>) {
    match at {
        Some((line, col)) => (message, if line > 0 { Some((line, col)) } else { None }),
        None => (message, None),
    }
}

pub open spec fn error_of(e: Error) -> (Seq<char>, Option<(usize, usize)>) {
    (e.message@, e.position)
}

impl<'a> Reader<'a> {
    /// The entries of the table read, in key order.
    pub closed spec fn items(&self) -> Seq<crate::toml::Entry> {
        match self.table {
            Some(t) => t.items(),
            None => Seq::empty(),
        }
    }

    pub closed spec fn path_spec(&self) -> Seq<char> {
        self.path@
    }

    pub closed spec fn place(&self) -> Option<(usize, usize)> {
        self.position
    }

    /// The keys read so far.
    pub closed spec fn consumed(&self) -> Seq<Seq<char>> {
        crate::text::strings_view(self.used@)
    }

    pub open spec fn node_at(&self, key: Seq<char>) -> Option<Node> {
        crate::toml::lookup(self.items(), key)
    }

    /// Where an error about `key` is reported: at the key's value, or at
    /// this table.
    pub open spec fn where_(&self, key: Seq<char>) -> Option<(usize, usize)> {
        match self.node_at(key) {
            Some(n) => Some((n.line, n.col)),
            None => self.place(),
        }
    }

    /// The error `key_error` builds.
    pub open spec fn key_error_spec(&self, key: Seq<char>, message: Seq<char>) -> (Seq<char>, Option<(usize, usize)>) {
        located("`"@ + joined(self.path_spec(), key) + "`: "@ + message, self.where_(key))
    }

    pub open spec fn wrong_type_spec(&self, key: Seq<char>, expected: Seq<char>, found: Value) -> (Seq<char>, Option<(usize, usize)>) {
        self.key_error_spec(key, "expected "@ + expected + ", found "@ + kind_name_of(found))
    }

    /// The reader after `key` was read.
    pub open spec fn took(&self, after: Reader<'a>, key: Seq<char>) -> bool {
        &&& after.items() == self.items()
        &&& after.path_spec() == self.path_spec()
        &&& after.place() == self.place()
        &&& after.consumed() == self.consumed().push(key)
    }

    pub fn root(table: &'a Table) -> (r: Reader<'a>)
        ensures
            r.items() == table.items(),
            r.path_spec() == Seq::<char>::empty(),
            r.place() is None,
            r.consumed() == Seq::<Seq<char>>::empty(),
    {
        let r = Reader { table: Some(table), path: String::new(), used: Vec::new(), position: None };
        assert(r.consumed() =~= Seq::<Seq<char>>::empty());
        r
    }

    fn child(table: Option<&'a Table>, path: String, position: Option<(usize, usize)>) -> (r: Reader<'a>)
        ensures
            r.items() == (match table {
                Some(t) => t.items(),
                None => Seq::empty(),
            }),
            r.path_spec() == path@,
            r.place() == position,
            r.consumed() == Seq::<Seq<char>>::empty(),
    {
        let r = Reader { table, path, used: Vec::new(), position };
        assert(r.consumed() =~= Seq::<Seq<char>>::empty());
        r
    }

    pub fn path(&self) -> (p: &str)
        ensures
            p@ == self.path_spec(),
    {
        self.path.as_str()
    }

    fn key_path(&self, key: &str) -> (r: String)
        ensures
            r@ == joined(self.path_spec(), key@),
    {
        if no_text(self.path.as_str()) {
            owned(key)
        } else {
            let mut out = owned(self.path.as_str());
            push_str(&mut out, ".");
            push_str(&mut out, key);
            proof {
                reveal_strlit(".");
                assert(out@ =~= self.path@ + seq!['.'] + key@);
            }
            out
        }
    }

    fn node(&self, key: &str) -> (r: Option<&'a Node>)
        ensures
            match self.node_at(key@) {
                Some(n) => r matches Some(m) && *m == n,
                None => r is None,
            },
    {
        match self.table {
            Some(t) => t.get(key),
            None => None,
        }
    }

    /// Build an error attached to `key`.
    pub fn key_error(&self, key: &str, message: &str) -> (e: Error)
        ensures
            error_of(e) == self.key_error_spec(key@, message@),
            e.file is None,
    {
        let mut text = owned("`");
        let kp = self.key_path(key);
        push_str(&mut text, kp.as_str());
        push_str(&mut text, "`: ");
        push_str(&mut text, message);
        match self.node(key) {
            Some(n) => Error::at(n.line, n.col, text),
            None => match self.position {
                Some((line, col)) => Error::at(line, col, text),
                None => Error::new(text),
            },
        }
    }

    /// Error attached to this table as a whole rather than to one key.
    pub fn table_error(&self, message: &str) -> (e: Error)
        ensures
            error_of(e) == located(
                if self.path_spec().len() == 0 {
                    message@
                } else {
                    "`"@ + self.path_spec() + "`: "@ + message@
                },
                self.place(),
            ),
            e.file is None,
    {
        let text = if no_text(self.path.as_str()) {
            owned(message)
        } else {
            let mut t = owned("`");
            push_str(&mut t, self.path.as_str());
            push_str(&mut t, "`: ");
            push_str(&mut t, message);
            t
        };
        match self.position {
            Some((line, col)) => Error::at(line, col, text),
            None => Error::new(text),
        }
    }

    /// Look at the kind of a key's value without consuming it.
    pub fn peek_type(&self, key: &str) -> (r: Option<&'static str>)
        ensures
            match self.node_at(key@) {
                Some(n) => r matches Some(k) && k@ == kind_name_of(n.value),
                None => r is None,
            },
    {
        match self.node(key) {
            Some(n) => Some(n.kind_name()),
            None => None,
        }
    }

    /// Position of a key, for errors raised by callers.
    pub fn position_of(&self, key: &str) -> (r: Option<(usize, usize)>)
        ensures
            r == (match self.node_at(key@) {
                Some(n) => Some((n.line, n.col)),
                None => None::<(usize, usize)>,
            }),
    {
        match self.node(key) {
            Some(n) => Some((n.line, n.col)),
            None => None,
        }
    }

    fn take(&mut self, key: &str) -> (r: Option<&'a Node>)
        ensures
            old(self).took(*final(self), key@),
            match old(self).node_at(key@) {
                Some(n) => r matches Some(m) && *m == n,
                None => r is None,
            },
    {
        let ghost before = self.used@;
        self.used.push(owned(key));
        proof {
            assert(crate::text::strings_view(self.used@) =~= crate::text::strings_view(before).push(key@));
        }
        self.node(key)
    }

    fn wrong_type(&self, key: &str, expected: &str, found: &Value) -> (e: Error)
        ensures
            error_of(e) == self.wrong_type_spec(key@, expected@, *found),
            e.file is None,
    {
        let mut m = owned("expected ");
        push_str(&mut m, expected);
        push_str(&mut m, ", found ");
        push_str(&mut m, found.kind_name());
        self.key_error(key, m.as_str())
    }

    // ------------------------------------------------------------- scalars

    pub fn opt_string(&mut self, key: &str) -> (r: Result<Option<String>, Error>)
        ensures
            old(self).took(*final(self), key@),
            match old(self).node_at(key@) {
                None => r matches Ok(None),
                Some(n) => match n.value {
                    Value::String(s) => r matches Ok(Some(t)) && t@ == s@,
                    v => r matches Err(e) && error_of(e) == old(self).wrong_type_spec(key@, "a string"@, v),
                },
            },
    {
        match self.take(key) {
            None => Ok(None),
            Some(node) => match &node.value {
                Value::String(s) => Ok(Some(owned(s.as_str()))),
                other => Err(self.wrong_type(key, "a string", other)),
            },
        }
    }

    pub fn req_string(&mut self, key: &str) -> (r: Result<String, Error>)
        ensures
            old(self).took(*final(self), key@),
            match old(self).node_at(key@) {
                None => r matches Err(e) && error_of(e) == old(self).key_error_spec(key@, "is required"@),
                Some(n) => match n.value {
                    Value::String(s) => r matches Ok(t) && t@ == s@,
                    v => r matches Err(e) && error_of(e) == old(self).wrong_type_spec(key@, "a string"@, v),
                },
            },
    {
        match self.opt_string(key)? {
            Some(s) => Ok(s),
            None => Err(self.key_error(key, "is required")),
        }
    }

    pub fn string_or(&mut self, key: &str, default: &str) -> (r: Result<String, Error>)
        ensures
            old(self).took(*final(self), key@),
            match old(self).node_at(key@) {
                None => r matches Ok(t) && t@ == default@,
                Some(n) => match n.value {
                    Value::String(s) => r matches Ok(t) && t@ == s@,
                    v => r matches Err(e) && error_of(e) == old(self).wrong_type_spec(key@, "a string"@, v),
                },
            },
    {
        match self.opt_string(key)? {
            Some(s) => Ok(s),
            None => Ok(owned(default)),
        }
    }

    pub fn opt_bool(&mut self, key: &str) -> (r: Result<Option<bool>, Error>)
        ensures
            old(self).took(*final(self), key@),
            match old(self).node_at(key@) {
                None => r matches Ok(None),
                Some(n) => match n.value {
                    Value::Boolean(b) => r == Ok::<Option<bool>, Error>(Some(b)),
                    v => r matches Err(e) && error_of(e) == old(self).wrong_type_spec(key@, "a boolean"@, v),
                },
            },
    {
        match self.take(key) {
            None => Ok(None),
            Some(node) => match &node.value {
                Value::Boolean(b) => Ok(Some(*b)),
                other => Err(self.wrong_type(key, "a boolean", other)),
            },
        }
    }

    pub fn bool_or(&mut self, key: &str, default: bool) -> (r: Result<bool, Error>)
        ensures
            old(self).took(*final(self), key@),
            match old(self).node_at(key@) {
                None => r == Ok::<bool, Error>(default),
                Some(n) => match n.value {
                    Value::Boolean(b) => r == Ok::<bool, Error>(b),
                    v => r matches Err(e) && error_of(e) == old(self).wrong_type_spec(key@, "a boolean"@, v),
                },
            },
    {
        match self.opt_bool(key)? {
            Some(b) => Ok(b),
            None => Ok(default),
        }
    }

    pub fn opt_integer(&mut self, key: &str) -> (r: Result<Option<i64>, Error>)
        ensures
            old(self).took(*final(self), key@),
            match old(self).node_at(key@) {
                None => r matches Ok(None),
                Some(n) => match n.value {
                    Value::Integer(i) => r == Ok::<Option<i64>, Error>(Some(i)),
                    v => r matches Err(e) && error_of(e) == old(self).wrong_type_spec(key@, "an integer"@, v),
                },
            },
    {
        match self.take(key) {
            None => Ok(None),
            Some(node) => match &node.value {
                Value::Integer(i) => Ok(Some(*i)),
                other => Err(self.wrong_type(key, "an integer", other)),
            },
        }
    }

    pub fn integer_or(&mut self, key: &str, default: i64) -> (r: Result<i64, Error>)
        ensures
            old(self).took(*final(self), key@),
            match old(self).node_at(key@) {
                None => r == Ok::<i64, Error>(default),
                Some(n) => match n.value {
                    Value::Integer(i) => r == Ok::<i64, Error>(i),
                    v => r matches Err(e) && error_of(e) == old(self).wrong_type_spec(key@, "an integer"@, v),
                },
            },
    {
        match self.opt_integer(key)? {
            Some(i) => Ok(i),
            None => Ok(default),
        }
    }

    /// Read an integer and check that it lies in an inclusive range.
    pub fn integer_in_range(&mut self, key: &str, default: i64, min: i64, max: i64) -> (r: Result<i64, Error>)
        ensures
            old(self).took(*final(self), key@),
            match old(self).node_at(key@) {
                Some(n) => match n.value {
                    Value::Integer(i) => if min <= i <= max {
                        r == Ok::<i64, Error>(i)
                    } else {
                        r matches Err(e) && error_of(e) == old(self).key_error_spec(key@, range_message(min, max, i))
                    },
                    v => r matches Err(e) && error_of(e) == old(self).wrong_type_spec(key@, "an integer"@, v),
                },
                None => if min <= default <= max {
                    r == Ok::<i64, Error>(default)
                } else {
                    r matches Err(e) && error_of(e) == old(self).key_error_spec(key@, range_message(min, max, default))
                },
            },
    {
        let value = self.integer_or(key, default)?;
        if value < min || value > max {
            let mut m = owned("must be between ");
            let a = i64_to_string(min);
            push_str(&mut m, a.as_str());
            push_str(&mut m, " and ");
            let b = i64_to_string(max);
            push_str(&mut m, b.as_str());
            push_str(&mut m, ", got ");
            let c = i64_to_string(value);
            push_str(&mut m, c.as_str());
            return Err(self.key_error(key, m.as_str()));
        }
        Ok(value)
    }

    /// Read a string that must be one of `allowed`.
    pub fn enumerated(&mut self, key: &str, default: &str, allowed: &[&str]) -> (r: Result<String, Error>)
        ensures
            old(self).took(*final(self), key@),
            ({
                let chosen: Option<Seq<char>> = match old(self).node_at(key@) {
                    None => Some(default@),
                    Some(n) => match n.value {
                        Value::String(s) => Some(s@),
                        _ => None,
                    },
                };
                match chosen {
                    Some(v) => if str_list(allowed@).contains(v) {
                        r matches Ok(t) && t@ == v
                    } else {
                        r matches Err(e) && error_of(e) == old(self).key_error_spec(
                            key@,
                            "must be one of "@ + joined_list(str_list(allowed@)) + ", got `"@ + v + "`"@,
                        )
                    },
                    None => r matches Err(e) && error_of(e) == old(self).wrong_type_spec(
                        key@,
                        "a string"@,
                        old(self).node_at(key@)->0.value,
                    ),
                }
            }),
    {
        let value = self.string_or(key, default)?;
        let mut i: usize = 0;
        while i < allowed.len()
            invariant
                i <= allowed@.len(),
                forall|k: int| 0 <= k < i ==> str_list(allowed@)[k] != value@,
                old(self).took(*self, key@),
                old(self).node_at(key@) matches None ==> value@ == default@,
                old(self).node_at(key@) matches Some(n) ==> (n.value matches Value::String(t) && t@ == value@),
            decreases allowed.len() - i,
        {
            if str_eq(allowed[i], value.as_str()) {
                assert(str_list(allowed@)[i as int] == value@);
                return Ok(value);
            }
            i = i + 1;
        }
        let mut m = owned("must be one of ");
        let list = join_list(allowed);
        push_str(&mut m, list.as_str());
        push_str(&mut m, ", got `");
        push_str(&mut m, value.as_str());
        push_str(&mut m, "`");
        Err(self.key_error(key, m.as_str()))
    }
}

fn no_text(s: &str) -> (r: bool)
    ensures
        r == (s@.len() == 0),
{
    crate::text::chars_of(s).len() == 0
}

/// The keys of `es` not in `used`, in order.
pub open spec fn unknown_keys(es: Seq<crate::toml::Entry>, used: Seq<Seq<char>>) -> Seq<Seq<char>>
    decreases es.len(),
{
    if es.len() == 0 {
        seq![]
    } else if used.contains(es.last().key@) {
        unknown_keys(es.drop_last(), used)
    } else {
        unknown_keys(es.drop_last(), used).push(es.last().key@)
    }
}

/// `a`, `b`: each key quoted, separated by `, `.
pub open spec fn quoted_list(v: Seq<Seq<char>>) -> Seq<char>
    decreases v.len(),
{
    if v.len() == 0 {
        seq![]
    } else if v.len() == 1 {
        "`"@ + v[0] + "`"@
    } else {
        quoted_list(v.drop_last()) + ", `"@ + v.last() + "`"@
    }
}

/// Whether the items before `k` are all strings.
pub open spec fn strings_before(items: Seq<Node>, k: int) -> bool {
    forall|j: int| 0 <= j < k ==> (#[trigger] items[j]).value is String
}

/// The first item that is not a string, if any.
pub open spec fn first_non_string(items: Seq<Node>) -> Option<int> {
    if strings_before(items, items.len() as int) {
        None
    } else {
        Some(choose|k: int| 0 <= k < items.len() && strings_before(items, k) && !(items[k].value is String))
    }
}

pub open spec fn string_items(items: Seq<Node>) -> Seq<Seq<char>> {
    items.map_values(|n: Node| n.value->String_0@)
}

/// The first item that is not a table, if any.
pub open spec fn first_non_table(items: Seq<Node>) -> Option<int> {
    if forall|j: int| 0 <= j < items.len() ==> (#[trigger] items[j]).value is Table {
        None
    } else {
        Some(choose|k: int|
            0 <= k < items.len() && !(items[k].value is Table) && forall|j: int| 0 <= j < k ==> (#[trigger] items[j]).value is Table)
    }
}

pub open spec fn range_message(min: i64, max: i64, got: i64) -> Seq<char> {
    "must be between "@ + signed_decimal(min as int) + " and "@ + signed_decimal(max as int) + ", got "@
        + signed_decimal(got as int)
}

pub open spec fn str_list(v: Seq<&str>) -> Seq<Seq<char>> {
    v.map_values(|s: &str| s@)
}

/// The items, separated by `, `.
pub open spec fn joined_list(v: Seq<Seq<char>>) -> Seq<char>
    decreases v.len(),
{
    if v.len() == 0 {
        seq![]
    } else if v.len() == 1 {
        v[0]
    } else {
        joined_list(v.drop_last()) + ", "@ + v.last()
    }
}

pub(crate) fn join_list(v: &[&str]) -> (r: String)
    ensures
        r@ == joined_list(str_list(v@)),
{
    let mut out = String::new();
    let mut i: usize = 0;
    while i < v.len()
        invariant
            i <= v@.len(),
            out@ == joined_list(str_list(v@.take(i as int))),
        decreases v.len() - i,
    {
        proof {
            let t = str_list(v@.take(i + 1));
            assert(t.drop_last() =~= str_list(v@.take(i as int)));
            assert(t.last() == v@[i as int]@);
        }
        if i > 0 {
            push_str(&mut out, ", ");
        }
        push_str(&mut out, v[i]);
        i = i + 1;
    }
    assert(v@.take(v@.len() as int) =~= v@);
    out
}

impl<'a> Reader<'a> {
    // ------------------------------------------------------------ compound

    pub fn string_list(&mut self, key: &str) -> (r: Result<Vec<String>, Error>)
        ensures
            old(self).took(*final(self), key@),
            match old(self).node_at(key@) {
                None => r matches Ok(v) && v@.len() == 0,
                Some(n) => match n.value {
                    Value::Array(items) => match first_non_string(items@) {
                        None => r matches Ok(v) && crate::text::strings_view(v@) == string_items(items@),
                        Some(k) => r matches Err(e) && error_of(e) == located(
                            "`"@ + joined(old(self).path_spec(), key@) + "`: array entries must be strings, found "@
                                + kind_name_of(items@[k].value),
                            Some((items@[k].line, items@[k].col)),
                        ),
                    },
                    v => r matches Err(e) && error_of(e) == old(self).wrong_type_spec(key@, "an array of strings"@, v),
                },
            },
    {
        match self.take(key) {
            None => Ok(Vec::new()),
            Some(node) => match &node.value {
                Value::Array(items) => {
                    let mut out: Vec<String> = Vec::new();
                    let mut i: usize = 0;
                    while i < items.len()
                        invariant
                            i <= items@.len(),
                            strings_before(items@, i as int),
                            crate::text::strings_view(out@) == string_items(items@.take(i as int)),
                            old(self).took(*self, key@),
                            old(self).node_at(key@) == Some(*node),
                            node.value == Value::Array(*items),
                        decreases items.len() - i,
                    {
                        match &items[i].value {
                            Value::String(s) => {
                                let ghost before = out@;
                                out.push(owned(s.as_str()));
                                proof {
                                    let pre = items@.take(i as int);
                                    assert(items@.take(i + 1) =~= pre.push(items@[i as int]));
                                    assert(string_items(pre.push(items@[i as int])) =~= string_items(pre).push(s@));
                                    assert(crate::text::strings_view(out@) =~= crate::text::strings_view(before).push(s@));
                                }
                            },
                            other => {
                                let mut m = owned("`");
                                let kp = self.key_path(key);
                                push_str(&mut m, kp.as_str());
                                push_str(&mut m, "`: array entries must be strings, found ");
                                push_str(&mut m, other.kind_name());
                                proof {
                                    assert(!strings_before(items@, items@.len() as int));
                                    let k = first_non_string(items@)->0;
                                    if k < i {
                                    } else if k > i {
                                        assert(!strings_before(items@, k));
                                    }
                                }
                                return Err(Error::at(items[i].line, items[i].col, m));
                            },
                        }
                        i = i + 1;
                    }
                    proof {
                        assert(items@.take(items@.len() as int) =~= items@);
                    }
                    Ok(out)
                },
                other => Err(self.wrong_type(key, "an array of strings", other)),
            },
        }
    }

    /// A sub-table, or an empty one when the key is absent, so that callers
    /// can apply defaults uniformly.
    pub fn table(&mut self, key: &str) -> (r: Result<Reader<'a>, Error>)
        ensures
            old(self).took(*final(self), key@),
            match old(self).node_at(key@) {
                None => r matches Ok(c) && c.items().len() == 0 && c.path_spec() == joined(old(self).path_spec(), key@)
                    && c.place() == old(self).place() && c.consumed().len() == 0,
                Some(n) => match n.value {
                    Value::Table(t) => r matches Ok(c) && c.items() == t.items() && c.path_spec() == joined(
                        old(self).path_spec(),
                        key@,
                    ) && c.place() == Some((n.line, n.col)) && c.consumed().len() == 0,
                    v => r matches Err(e) && error_of(e) == old(self).wrong_type_spec(key@, "a table"@, v),
                },
            },
    {
        let kp = self.key_path(key);
        match self.take(key) {
            None => Ok(Reader::child(None, kp, self.position)),
            Some(node) => match &node.value {
                Value::Table(t) => Ok(Reader::child(Some(t), kp, Some((node.line, node.col)))),
                other => Err(self.wrong_type(key, "a table", other)),
            },
        }
    }

    /// A sub-table only if it is present.
    pub fn opt_table(&mut self, key: &str) -> (r: Result<Option<Reader<'a>>, Error>)
        ensures
            old(self).took(*final(self), key@),
            match old(self).node_at(key@) {
                None => r matches Ok(None),
                Some(n) => match n.value {
                    Value::Table(t) => r matches Ok(Some(c)) && c.items() == t.items() && c.path_spec() == joined(
                        old(self).path_spec(),
                        key@,
                    ) && c.place() == Some((n.line, n.col)) && c.consumed().len() == 0,
                    v => r matches Err(e) && error_of(e) == old(self).wrong_type_spec(key@, "a table"@, v),
                },
            },
    {
        let kp = self.key_path(key);
        match self.take(key) {
            None => Ok(None),
            Some(node) => match &node.value {
                Value::Table(t) => Ok(Some(Reader::child(Some(t), kp, Some((node.line, node.col))))),
                other => Err(self.wrong_type(key, "a table", other)),
            },
        }
    }

    /// An array of tables, as `[[a.b]]` headers produce.
    pub fn table_list(&mut self, key: &str) -> (r: Result<Vec<Reader<'a>>, Error>)
        ensures
            old(self).took(*final(self), key@),
            match old(self).node_at(key@) {
                None => r matches Ok(v) && v@.len() == 0,
                Some(n) => match n.value {
                    Value::Array(items) => match first_non_table(items@) {
                        None => r matches Ok(v) && v@.len() == items@.len() && forall|j: int|
                            0 <= j < items@.len() ==> {
                                &&& items@[j].value matches Value::Table(t) && (#[trigger] v@[j]).items() == t.items()
                                &&& v@[j].path_spec() == joined(old(self).path_spec(), key@) + "["@
                                    + decimal(j as nat) + "]"@
                                &&& v@[j].place() == Some((items@[j].line, items@[j].col))
                                &&& v@[j].consumed().len() == 0
                            },
                        Some(k) => r matches Err(e) && error_of(e) == located(
                            "`"@ + joined(old(self).path_spec(), key@) + "`: entries must be tables, found "@
                                + kind_name_of(items@[k].value),
                            Some((items@[k].line, items@[k].col)),
                        ),
                    },
                    v => r matches Err(e) && error_of(e) == old(self).wrong_type_spec(key@, "an array of tables"@, v),
                },
            },
    {
        let kp = self.key_path(key);
        match self.take(key) {
            None => Ok(Vec::new()),
            Some(node) => match &node.value {
                Value::Array(items) => {
                    let mut out: Vec<Reader<'a>> = Vec::new();
                    let mut i: usize = 0;
                    while i < items.len()
                        invariant
                            i <= items@.len(),
                            out@.len() == i,
                            kp@ == joined(old(self).path_spec(), key@),
                            old(self).took(*self, key@),
                            old(self).node_at(key@) == Some(*node),
                            node.value == Value::Array(*items),
                            forall|j: int| 0 <= j < i ==> (#[trigger] items@[j]).value is Table,
                            forall|j: int| 0 <= j < i ==> {
                                &&& items@[j].value matches Value::Table(t) && (#[trigger] out@[j]).items() == t.items()
                                &&& out@[j].path_spec() == kp@ + "["@ + decimal(j as nat) + "]"@
                                &&& out@[j].place() == Some((items@[j].line, items@[j].col))
                                &&& out@[j].consumed().len() == 0
                            },
                        decreases items.len() - i,
                    {
                        match &items[i].value {
                            Value::Table(t) => {
                                let mut name = owned(kp.as_str());
                                push_str(&mut name, "[");
                                let n = crate::num::usize_to_string(i);
                                push_str(&mut name, n.as_str());
                                push_str(&mut name, "]");
                                out.push(Reader::child(Some(t), name, Some((items[i].line, items[i].col))));
                            },
                            other => {
                                let mut m = owned("`");
                                push_str(&mut m, kp.as_str());
                                push_str(&mut m, "`: entries must be tables, found ");
                                push_str(&mut m, other.kind_name());
                                proof {
                                    let k = first_non_table(items@)->0;
                                    if k < i {
                                        assert(items@[k].value is Table);
                                    } else if k > i {
                                        assert(!(items@[i as int].value is Table));
                                    }
                                }
                                return Err(Error::at(items[i].line, items[i].col, m));
                            },
                        }
                        i = i + 1;
                    }
                    Ok(out)
                },
                other => Err(self.wrong_type(key, "an array of tables", other)),
            },
        }
    }

    /// Fail if the table holds keys that were never read.
    pub fn finish(&self) -> (r: Result<(), Error>)
        ensures
            ({
                let unknown = unknown_keys(self.items(), self.consumed());
                if unknown.len() == 0 {
                    r is Ok
                } else {
                    r matches Err(e) && error_of(e) == located(
                        "unknown key"@ + (if unknown.len() == 1 { seq![] } else { seq!['s'] }) + " in "@ + (if self.path_spec().len() == 0 {
                            "the document root"@
                        } else {
                            "`"@ + self.path_spec() + "`"@
                        }) + ": "@ + quoted_list(unknown),
                        self.where_(unknown[0]),
                    )
                }
            }),
    {
        let mut unknown: Vec<String> = Vec::new();
        let mut first: Option<(usize, usize)> = None;
        let n: usize = match self.table {
            Some(t) => t.len(),
            None => 0,
        };
        let mut i: usize = 0;
        while i < n
            invariant
                i <= n,
                n == self.items().len(),
                crate::text::strings_view(unknown@) == unknown_keys(self.items().take(i as int), self.consumed()),
                unknown@.len() == 0 ==> first is None,
                unknown@.len() > 0 ==> first == self.where_(crate::text::strings_view(unknown@)[0]),
            decreases n - i,
        {
            let t = self.table.unwrap();
            let e = t.entry(i);
            proof {
                assert(self.items().take(i + 1).drop_last() =~= self.items().take(i as int));
            }
            if !self.was_read(e.key.as_str()) {
                if unknown.len() == 0 {
                    t.assert_sorted();
                    proof {
                        crate::toml::lemma_lookup_at(t.items(), i as int);
                    }
                    first = Some((e.node.line, e.node.col));
                }
                let ghost before = unknown@;
                unknown.push(owned(e.key.as_str()));
                proof {
                    assert(crate::text::strings_view(unknown@) =~= crate::text::strings_view(before).push(e.key@));
                }
            }
            i = i + 1;
        }
        proof {
            assert(self.items().take(n as int) =~= self.items());
        }
        if unknown.len() == 0 {
            return Ok(());
        }
        let mut message = owned("unknown key");
        if unknown.len() != 1 {
            push_str(&mut message, "s");
        }
        push_str(&mut message, " in ");
        if no_text(self.path.as_str()) {
            push_str(&mut message, "the document root");
        } else {
            push_str(&mut message, "`");
            push_str(&mut message, self.path.as_str());
            push_str(&mut message, "`");
        }
        push_str(&mut message, ": ");
        let ghost head = message@;
        let ghost u = crate::text::strings_view(unknown@);
        proof {
            reveal_strlit("unknown key");
            reveal_strlit("s");
            reveal_strlit(" in ");
            reveal_strlit("the document root");
            reveal_strlit("`");
            reveal_strlit(": ");
            assert(head =~= "unknown key"@ + (if u.len() == 1 { seq![] } else { seq!['s'] }) + " in "@ + (if self.path_spec().len() == 0 {
                "the document root"@
            } else {
                "`"@ + self.path_spec() + "`"@
            }) + ": "@);
        }
        let mut k: usize = 0;
        while k < unknown.len()
            invariant
                k <= unknown@.len(),
                u == crate::text::strings_view(unknown@),
                message@ == head + quoted_list(u.take(k as int)),
            decreases unknown.len() - k,
        {
            proof {
                let t = u.take(k + 1);
                assert(t.drop_last() =~= u.take(k as int));
                assert(t.last() == unknown@[k as int]@);
                if k == 0 {
                    assert(t.len() == 1);
                }
            }
            if k > 0 {
                push_str(&mut message, ", `");
            } else {
                push_str(&mut message, "`");
            }
            push_str(&mut message, unknown[k].as_str());
            push_str(&mut message, "`");
            proof {
                reveal_strlit("`");
                reveal_strlit(", `");
                let t = u.take(k + 1);
                if k == 0 {
                    assert(message@ =~= head + quoted_list(t));
                } else {
                    assert(message@ =~= head + quoted_list(t));
                }
            }
            k = k + 1;
        }
        proof {
            assert(u.take(u.len() as int) =~= u);
        }
        match first {
            Some((line, col)) => Err(Error::at(line, col, message)),
            None => Err(Error::new(message)),
        }
    }

    fn was_read(&self, key: &str) -> (r: bool)
        ensures
            r == self.consumed().contains(key@),
    {
        let mut i: usize = 0;
        while i < self.used.len()
            invariant
                i <= self.used@.len(),
                forall|k: int| 0 <= k < i ==> self.used@[k]@ != key@,
            decreases self.used.len() - i,
        {
            if str_eq(self.used[i].as_str(), key) {
                assert(self.consumed()[i as int] == key@);
                return true;
            }
            i = i + 1;
        }
        false
    }
}

/// What the readers give when they succeed, by key.
impl<'a> Reader<'a> {
    /// The string under `key`, if there is one.
    pub open spec fn opt_text(&self, key: Seq<char>) -> Option<Seq<char>> {
        match self.node_at(key) {
            Some(n) => match n.value {
                Value::String(s) => Some(s@),
                _ => None,
            },
            None => None,
        }
    }

    /// The string under `key`, or `default`.
    pub open spec fn text_or(&self, key: Seq<char>, default: Seq<char>) -> Seq<char> {
        match self.opt_text(key) {
            Some(s) => s,
            None => default,
        }
    }

    /// The boolean under `key`, or `default`.
    pub open spec fn flag_or(&self, key: Seq<char>, default: bool) -> bool {
        match self.node_at(key) {
            Some(n) => match n.value {
                Value::Boolean(b) => b,
                _ => default,
            },
            None => default,
        }
    }

    /// The integer under `key`, or `default`.
    pub open spec fn int_or(&self, key: Seq<char>, default: i64) -> i64 {
        match self.node_at(key) {
            Some(n) => match n.value {
                Value::Integer(i) => i,
                _ => default,
            },
            None => default,
        }
    }

    /// The strings under `key`, or none.
    pub open spec fn texts(&self, key: Seq<char>) -> Seq<Seq<char>> {
        match self.node_at(key) {
            Some(n) => match n.value {
                Value::Array(items) => string_items(items@),
                _ => seq![],
            },
            None => seq![],
        }
    }

    /// The integers under `key`, or none.
    pub open spec fn ints(&self, key: Seq<char>) -> Seq<i64> {
        match self.node_at(key) {
            Some(n) => match n.value {
                Value::Array(items) => items@.map_values(|n: Node| n.value->Integer_0),
                _ => seq![],
            },
            None => seq![],
        }
    }

    /// An array of integers; absent means empty.
    pub fn integer_list(&mut self, key: &str) -> (r: Result<Vec<i64>, Error>)
        ensures
            old(self).took(*final(self), key@),
            r matches Ok(v) ==> v@ == old(self).ints(key@),
            match old(self).node_at(key@) {
                None => r matches Ok(v) && v@.len() == 0,
                Some(n) => match n.value {
                    Value::Array(items) => (forall|j: int| 0 <= j < items@.len() ==> (#[trigger] items@[j]).value is Integer) <==> r is Ok,
                    v => r matches Err(e) && error_of(e) == old(self).wrong_type_spec(key@, "an array of integers"@, v),
                },
            },
    {
        match self.take(key) {
            None => {
                let v: Vec<i64> = Vec::new();
                Ok(v)
            },
            Some(node) => match &node.value {
                Value::Array(items) => {
                    let mut out: Vec<i64> = Vec::new();
                    let mut i: usize = 0;
                    while i < items.len()
                        invariant
                            i <= items@.len(),
                            forall|j: int| 0 <= j < i ==> (#[trigger] items@[j]).value is Integer,
                            out@ == items@.take(i as int).map_values(|n: Node| n.value->Integer_0),
                            old(self).took(*self, key@),
                            old(self).node_at(key@) == Some(*node),
                            node.value == Value::Array(*items),
                        decreases items.len() - i,
                    {
                        match &items[i].value {
                            Value::Integer(x) => {
                                out.push(*x);
                                proof {
                                    assert(out@ =~= items@.take(i + 1).map_values(|n: Node| n.value->Integer_0));
                                }
                            },
                            other => {
                                let mut m = owned("`");
                                let kp = self.key_path(key);
                                push_str(&mut m, kp.as_str());
                                push_str(&mut m, "`: array entries must be integers, found ");
                                push_str(&mut m, other.kind_name());
                                return Err(Error::at(items[i].line, items[i].col, m));
                            },
                        }
                        i = i + 1;
                    }
                    proof {
                        assert(items@.take(items@.len() as int) =~= items@);
                    }
                    Ok(out)
                },
                other => Err(self.wrong_type(key, "an array of integers", other)),
            },
        }
    }
}

/// When the readers succeed, by key: the value under the key is absent or
/// of the kind asked for.
impl<'a> Reader<'a> {
    pub open spec fn flag_ok(&self, key: Seq<char>) -> bool {
        match self.node_at(key) {
            Some(n) => n.value is Boolean,
            None => true,
        }
    }

    pub open spec fn text_ok(&self, key: Seq<char>) -> bool {
        match self.node_at(key) {
            Some(n) => n.value is String,
            None => true,
        }
    }

    pub open spec fn int_ok(&self, key: Seq<char>) -> bool {
        match self.node_at(key) {
            Some(n) => n.value is Integer,
            None => true,
        }
    }

    /// An integer between `min` and `max`, or absent.
    pub open spec fn int_within(&self, key: Seq<char>, min: i64, max: i64) -> bool {
        match self.node_at(key) {
            Some(n) => match n.value {
                Value::Integer(i) => min <= i <= max,
                _ => false,
            },
            None => true,
        }
    }

    /// One of `allowed`, or absent when `default` is one of them.
    pub open spec fn choice_ok(&self, key: Seq<char>, default: Seq<char>, allowed: Seq<Seq<char>>) -> bool {
        match self.node_at(key) {
            Some(n) => match n.value {
                Value::String(s) => allowed.contains(s@),
                _ => false,
            },
            None => allowed.contains(default),
        }
    }

    /// An array of strings, or absent.
    pub open spec fn texts_ok(&self, key: Seq<char>) -> bool {
        match self.node_at(key) {
            Some(n) => match n.value {
                Value::Array(items) => first_non_string(items@) is None,
                _ => false,
            },
            None => true,
        }
    }

    /// An array of integers, or absent.
    pub open spec fn ints_ok(&self, key: Seq<char>) -> bool {
        match self.node_at(key) {
            Some(n) => match n.value {
                Value::Array(items) => forall|j: int| 0 <= j < items@.len() ==> (#[trigger] items@[j]).value is Integer,
                _ => false,
            },
            None => true,
        }
    }

    /// A table, or absent.
    pub open spec fn table_ok(&self, key: Seq<char>) -> bool {
        match self.node_at(key) {
            Some(n) => n.value is Table,
            None => true,
        }
    }

    /// Every key of the table is one already read or one of `known`, so that
    /// `finish` after reading `known` succeeds.
    pub open spec fn known_only(&self, known: Seq<Seq<char>>) -> bool {
        unknown_keys(self.items(), self.consumed() + known).len() == 0
    }
}

/// The entries of the table under `key`: none when the key is absent or
/// holds something else; what a reader for that table reads from.
pub open spec fn table_items(es: Seq<crate::toml::Entry>, key: Seq<char>) -> Seq<crate::toml::Entry> {
    match crate::toml::lookup(es, key) {
        Some(n) => match n.value {
            Value::Table(t) => t.items(),
            _ => seq![],
        },
        None => seq![],
    }
}

/// A boolean under `key`, or nothing.
pub open spec fn flag_at(es: Seq<crate::toml::Entry>, key: Seq<char>) -> bool {
    match crate::toml::lookup(es, key) {
        Some(n) => n.value is Boolean,
        None => true,
    }
}

/// The boolean under `key`, or `default`.
pub open spec fn flag_value(es: Seq<crate::toml::Entry>, key: Seq<char>, default: bool) -> bool {
    match crate::toml::lookup(es, key) {
        Some(n) => match n.value {
            Value::Boolean(b) => b,
            _ => default,
        },
        None => default,
    }
}

/// An integer between `min` and `max` under `key`, or nothing.
pub open spec fn int_within_at(es: Seq<crate::toml::Entry>, key: Seq<char>, min: i64, max: i64) -> bool {
    match crate::toml::lookup(es, key) {
        Some(n) => match n.value {
            Value::Integer(i) => min <= i <= max,
            _ => false,
        },
        None => true,
    }
}

/// Every key of the table is one of `known`.
pub open spec fn only_keys(es: Seq<crate::toml::Entry>, known: Seq<Seq<char>>) -> bool {
    unknown_keys(es, known).len() == 0
}

/// The string under `key` in the table held by `node`, or `default`; what
/// a reader for that table gives.
pub open spec fn text_or_of(node: Option<Node>, key: Seq<char>, default: Seq<char>) -> Seq<char> {
    match node {
        Some(n) => match n.value {
            Value::Table(t) => match crate::toml::lookup(t.items(), key) {
                Some(m) => match m.value {
                    Value::String(s) => s@,
                    _ => default,
                },
                None => default,
            },
            _ => default,
        },
        None => default,
    }
}

} // verus!
