//! Command line overrides, applied to a parsed document before the
//! specification model is built.
//!
//! Two forms exist:
//!
//! - `--set network.ethernet[0].address=192.168.1.60/24`
//! - `--set-secret user.password_hash=env:RPI_PASSWORD_HASH`
//!
//! The first is for ordinary values; the second replaces a secret
//! declaration wholesale. Values passed with `--set` are visible in the
//! process table, so secrets belong in `--set-secret`.

use vstd::prelude::*;
use crate::specification::error::Error;
use crate::specification::secret::SecretSource;
use crate::text::{owned, push_str};
use crate::toml::{lookup, Node, Table, Value};
use crate::toml::parser::{
    bare_key_char, distinct_keys, flat_bindings, inline_space, key_path, key_path_from, key_segment, sectioned,
    sections_ok, skip_while, trivia_end, value_kind, Kind,
    value_read, value_start,
};

verus! {

/// One step of an override path.
#[derive(Debug, PartialEq, Eq)]
pub enum Segment {
    Key(String),
    Index(usize),
}

/// An override: where, what, and the text it came from.
#[derive(Debug, PartialEq, Eq)]
pub struct Override {
    pub path: Vec<Segment>,
    pub value: Value,
    /// The original text, for diagnostics.
    pub origin: String,
}

/// The value found by following `path` from `v`.
pub open spec fn value_at(v: Value, path: Seq<Segment>) -> Option<Value>
    decreases path.len(),
{
    if path.len() == 0 {
        Some(v)
    } else {
        match (v, path[0]) {
            (Value::Table(t), Segment::Key(k)) => match lookup(t.items(), k@) {
                Some(n) => value_at(n.value, path.skip(1)),
                None => None,
            },
            (Value::Array(items), Segment::Index(i)) => if i < items@.len() {
                value_at(items@[i as int].value, path.skip(1))
            } else {
                None
            },
            _ => None,
        }
    }
}

/// Every segment of `path` is a key.
pub open spec fn all_keys(path: Seq<Segment>) -> bool {
    forall|i: int| 0 <= i < path.len() ==> #[trigger] path[i] is Key
}

/// Whether a value can be stored at `path` below `v`: each step names a
/// key of a table or an existing element of an array, and a missing key
/// may only be followed by further keys (tables are created for them).
pub open spec fn assignable(v: Value, path: Seq<Segment>) -> bool
    decreases path.len(),
{
    if path.len() == 0 {
        true
    } else {
        let rest = path.skip(1);
        match (v, path[0]) {
            (Value::Table(t), Segment::Key(k)) => rest.len() == 0 || match lookup(t.items(), k@) {
                Some(n) => assignable(n.value, rest),
                None => all_keys(rest),
            },
            (Value::Array(items), Segment::Index(i)) => i < items@.len() && (rest.len() == 0
                || assignable(items@[i as int].value, rest)),
            _ => false,
        }
    }
}

/// Below an empty table, exactly the paths made of keys can be assigned.
proof fn lemma_assignable_empty(t: Table, path: Seq<Segment>)
    requires
        t.items().len() == 0,
        path.len() > 0,
    ensures
        assignable(Value::Table(t), path) == all_keys(path),
{
    let rest = path.skip(1);
    assert(lookup(t.items(), seq![]) is None);
    match path[0] {
        Segment::Key(k) => {
            assert(lookup(t.items(), k@) is None);
            if all_keys(path) {
                assert forall|i: int| 0 <= i < rest.len() implies #[trigger] rest[i] is Key by {
                    assert(rest[i] == path[i + 1]);
                }
            }
            if all_keys(rest) {
                assert forall|i: int| 0 <= i < path.len() implies #[trigger] path[i] is Key by {
                    if i > 0 {
                        assert(path[i] == rest[i - 1]);
                    }
                }
            }
        },
        Segment::Index(_) => {
            assert(!(path[0] is Key));
        },
    }
}

/// How a path is written back: keys joined with `.`, indexes as `[n]`.
pub open spec fn described(path: Seq<Segment>) -> Seq<char>
    decreases path.len(),
{
    if path.len() == 0 {
        seq![]
    } else {
        let head = described(path.drop_last());
        match path.last() {
            Segment::Key(k) => if head.len() == 0 {
                k@
            } else {
                head + seq!['.'] + k@
            },
            Segment::Index(i) => head + seq!['['] + crate::num::decimal(i as nat) + seq![']'],
        }
    }
}

fn describe(path: &Vec<Segment>, n: usize) -> (r: String)
    requires
        n <= path@.len(),
    ensures
        r@ == described(path@.take(n as int)),
{
    let mut out = String::new();
    let mut i: usize = 0;
    while i < n
        invariant
            i <= n <= path@.len(),
            out@ == described(path@.take(i as int)),
        decreases n - i,
    {
        proof {
            assert(path@.take(i + 1).drop_last() =~= path@.take(i as int));
            assert(path@.take(i + 1).last() == path@[i as int]);
        }
        match &path[i] {
            Segment::Key(k) => {
                if crate::text::chars_of(out.as_str()).len() > 0 {
                    crate::text::push_char(&mut out, '.');
                }
                push_str(&mut out, k.as_str());
            },
            Segment::Index(x) => {
                crate::text::push_char(&mut out, '[');
                let d = crate::num::usize_to_string(*x);
                push_str(&mut out, d.as_str());
                crate::text::push_char(&mut out, ']');
            },
        }
        i = i + 1;
    }
    out
}

/// `origin` in back quotes, then `rest`.
fn origin_error(origin: &str, rest: &str) -> (e: Error)
    ensures
        e.message@ == "`"@ + origin@ + "`: "@ + rest@,
        e.position is None,
{
    let mut m = owned("`");
    push_str(&mut m, origin);
    push_str(&mut m, "`: ");
    push_str(&mut m, rest);
    Error::new(m)
}

fn cannot_assign(origin: &str, segment: &Segment) -> (e: Error)
    ensures
        e.position is None,
{
    let mut m = owned("cannot assign to `");
    match segment {
        Segment::Key(k) => push_str(&mut m, k.as_str()),
        Segment::Index(x) => {
            push_str(&mut m, "[");
            let d = crate::num::usize_to_string(*x);
            push_str(&mut m, d.as_str());
            push_str(&mut m, "]");
        },
    }
    push_str(&mut m, "` at this position");
    origin_error(origin, m.as_str())
}

fn out_of_range(origin: &str, index: usize, len: usize) -> (e: Error)
    ensures
        e.position is None,
{
    let mut m = owned("index ");
    let d = crate::num::usize_to_string(index);
    push_str(&mut m, d.as_str());
    push_str(&mut m, " is out of range (");
    let l = crate::num::usize_to_string(len);
    push_str(&mut m, l.as_str());
    push_str(&mut m, " entries)");
    origin_error(origin, m.as_str())
}

fn not_traversable(origin: &str, path: &Vec<Segment>, depth: usize, found: &Value) -> (e: Error)
    requires
        depth < path.len(),
    ensures
        e.position is None,
{
    let mut m = owned("`");
    let d = describe(path, depth + 1);
    push_str(&mut m, d.as_str());
    push_str(&mut m, "` is a ");
    push_str(&mut m, found.kind_name());
    push_str(&mut m, " and cannot be traversed");
    origin_error(origin, m.as_str())
}

/// Assign `value` at `path[depth..]` below `table`.
fn assign_in_table(table: &mut Table, path: &Vec<Segment>, depth: usize, value: Value, origin: &str) -> (r: Result<(), Error>)
    requires
        depth < path.len(),
    ensures
        r is Ok ==> value_at(Value::Table(*final(table)), path@.skip(depth as int)) == Some(value),
        (r is Ok) == assignable(Value::Table(*old(table)), path@.skip(depth as int)),
        path@[depth as int] matches Segment::Key(k0) ==> forall|k: Seq<char>|
            k != k0@ ==> #[trigger] final(table).get_spec(k) == old(table).get_spec(k),
        path@[depth as int] is Index ==> *final(table) == *old(table),
    decreases path@.len() - depth, 0int,
{
    let last = depth + 1 == path.len();
    match &path[depth] {
        Segment::Key(k) => {
            if last {
                let ghost v = value;
                table.insert(owned(k.as_str()), Node::new(value, 0, 0));
                proof {
                    let rest = path@.skip(depth as int);
                    assert(rest[0] == path@[depth as int]);
                    assert(rest.skip(1) =~= Seq::<Segment>::empty());
                    assert(value_at(v, rest.skip(1)) == Some(v));
                }
                return Ok(());
            }
            let ghost before = *table;
            let removed = table.remove(k.as_str());
            let ghost found = removed;
            let mut node = match removed {
                Some(n) => n,
                None => Node::new(Value::Table(Table::new()), 0, 0),
            };
            let ghost start = node;
            proof {
                let rest = path@.skip(depth as int);
                assert(rest[0] == path@[depth as int]);
                assert(rest.skip(1) =~= path@.skip(depth + 1));
                if found is None {
                    if let Value::Table(t) = start.value {
                        lemma_assignable_empty(t, path@.skip(depth + 1));
                    }
                }
                assert(assignable(Value::Table(before), rest) == assignable(start.value, path@.skip(depth + 1)));
            }
            let result = match &mut node.value {
                Value::Table(inner) => assign_in_table(inner, path, depth + 1, value, origin),
                Value::Array(items) => assign_in_array(items, path, depth + 1, value, origin),
                other => Err(not_traversable(origin, path, depth, other)),
            };
            table.insert(owned(k.as_str()), node);
            proof {
                assert(path@.skip(depth as int).skip(1) =~= path@.skip(depth + 1));
            }
            result
        },
        Segment::Index(x) => {
            assert(path@.skip(depth as int)[0] == path@[depth as int]);
            if last {
                return Err(cannot_assign(origin, &path[depth]));
            }
            let mut m = owned("`");
            let d = describe(path, depth);
            push_str(&mut m, d.as_str());
            push_str(&mut m, "` is a table but was indexed with [");
            let n = crate::num::usize_to_string(*x);
            push_str(&mut m, n.as_str());
            push_str(&mut m, "]");
            Err(origin_error(origin, m.as_str()))
        },
    }
}

/// Assign `value` at `path[depth..]` below `items`.
fn assign_in_array(items: &mut Vec<Node>, path: &Vec<Segment>, depth: usize, value: Value, origin: &str) -> (r: Result<(), Error>)
    requires
        depth < path.len(),
    ensures
        r is Ok ==> value_at(Value::Array(*final(items)), path@.skip(depth as int)) == Some(value),
        (r is Ok) == assignable(Value::Array(*old(items)), path@.skip(depth as int)),
    decreases path@.len() - depth, 0int,
{
    let last = depth + 1 == path.len();
    match &path[depth] {
        Segment::Index(x) => {
            let i = *x;
            assert(path@.skip(depth as int)[0] == path@[depth as int]);
            if i >= items.len() {
                return Err(out_of_range(origin, i, items.len()));
            }
            if last {
                let ghost v = value;
                items.set(i, Node::new(value, 0, 0));
                proof {
                    let rest = path@.skip(depth as int);
                    assert(rest[0] == path@[depth as int]);
                    assert(rest.skip(1) =~= Seq::<Segment>::empty());
                    assert(value_at(v, rest.skip(1)) == Some(v));
                    assert(items@[i as int].value == v);
                }
                return Ok(());
            }
            let ghost before = *items;
            let mut node = items.remove(i);
            proof {
                let rest = path@.skip(depth as int);
                assert(rest.skip(1) =~= path@.skip(depth + 1));
                assert(node == before[i as int]);
                assert(rest[0] == path@[depth as int]);
                assert(assignable(Value::Array(before), rest) == assignable(node.value, path@.skip(depth + 1)));
            }
            let result = match &mut node.value {
                Value::Table(inner) => assign_in_table(inner, path, depth + 1, value, origin),
                Value::Array(inner) => assign_in_array(inner, path, depth + 1, value, origin),
                other => Err(not_traversable(origin, path, depth, other)),
            };
            items.insert(i, node);
            proof {
                assert(path@.skip(depth as int).skip(1) =~= path@.skip(depth + 1));
            }
            result
        },
        Segment::Key(k) => {
            assert(path@.skip(depth as int)[0] == path@[depth as int]);
            if last {
                return Err(cannot_assign(origin, &path[depth]));
            }
            let mut m = owned("`");
            let d = describe(path, depth);
            push_str(&mut m, d.as_str());
            push_str(&mut m, "` is an array; use an index before `");
            push_str(&mut m, k.as_str());
            push_str(&mut m, "`");
            Err(origin_error(origin, m.as_str()))
        },
    }
}

/// Apply an override in place. Missing intermediate tables are created;
/// a missing array element is an error, because inventing one would
/// silently change the meaning of the specification.
pub fn apply(root: &mut Table, over: Override) -> (r: Result<(), Error>)
    ensures
        over.path@.len() == 0 ==> (r matches Err(e) && e.message@ == "the override path is empty"@),
        (r is Ok) == (over.path@.len() > 0 && assignable(Value::Table(*old(root)), over.path@)),
        r is Ok ==> value_at(Value::Table(*final(root)), over.path@) == Some(over.value),
        over.path@.len() > 0 ==> (over.path@[0] matches Segment::Key(k0) ==> forall|k: Seq<char>|
            k != k0@ ==> #[trigger] final(root).get_spec(k) == old(root).get_spec(k)),
{
    if over.path.len() == 0 {
        return Err(Error::new(owned("the override path is empty")));
    }
    let Override { path, value, origin } = over;
    let r = assign_in_table(root, &path, 0, value, origin.as_str());
    proof {
        assert(path@.skip(0) =~= path@);
    }
    r
}

// ------------------------------------------------------------------ paths

/// What reading a path text leads to.
#[derive(Debug, Clone, Copy, PartialEq, Eq, Structural)]
pub enum Outcome {
    Done,
    Refused,
    /// The text makes the reader slice a string inside a character, which
    /// panics.
    Panics,
}

/// What `str::parse::<usize>` gives.
pub open spec fn usize_of(t: Seq<char>) -> Option<usize> {
    if t.len() == 0 || ((t[0] == '+' || t[0] == '-') && t.len() == 1) {
        None
    } else {
        let d = if t[0] == '+' { t.skip(1) } else { t };
        if crate::toml::parser::all_radix_digits(d, 10) && crate::toml::parser::radix_value(d, 10) <= usize::MAX {
            Some(crate::toml::parser::radix_value(d, 10) as usize)
        } else {
            None
        }
    }
}

/// The `[n]` suffixes of one path segment.
pub open spec fn indexes_outcome(rem: Seq<char>) -> Outcome
    decreases rem.len(),
{
    if rem.len() == 0 {
        Outcome::Done
    } else {
        match crate::text::first_index(rem, ']') {
            None => Outcome::Refused,
            Some(c) => if !(0 <= c < rem.len()) {
                Outcome::Refused
            } else if c == 0 || !(rem[0] < '\u{80}') {
                Outcome::Panics
            } else if usize_of(rem.subrange(1, c)) is None {
                Outcome::Refused
            } else {
                indexes_outcome(rem.skip(c + 1))
            },
        }
    }
}

pub open spec fn key_name_of(part: Seq<char>) -> Seq<char> {
    match crate::text::first_index(part, '[') {
        Some(i) => part.take(i),
        None => part,
    }
}

pub open spec fn indexes_of(part: Seq<char>) -> Seq<char> {
    match crate::text::first_index(part, '[') {
        Some(i) => part.skip(i),
        None => seq![],
    }
}

pub open spec fn valid_key_name(name: Seq<char>) -> bool {
    name.len() > 0 && forall|k: int| 0 <= k < name.len() ==> crate::toml::parser::is_bare_key_char(#[trigger] name[k])
}

pub open spec fn part_outcome(part: Seq<char>) -> Outcome {
    if !valid_key_name(key_name_of(part)) {
        Outcome::Refused
    } else {
        indexes_outcome(indexes_of(part))
    }
}

pub open spec fn parts_outcome(parts: Seq<Seq<char>>, k: int) -> Outcome
    decreases parts.len() - k,
{
    if k < 0 || k >= parts.len() {
        Outcome::Done
    } else {
        match part_outcome(parts[k]) {
            Outcome::Done => parts_outcome(parts, k + 1),
            o => o,
        }
    }
}

/// What reading `text` as an override path leads to.
pub open spec fn path_outcome(text: Seq<char>) -> Outcome {
    if text.len() == 0 {
        Outcome::Refused
    } else {
        parts_outcome(crate::text::split_char(text, '.'), 0)
    }
}

fn parse_usize(t: &[char]) -> (r: Option<usize>)
    ensures
        r == usize_of(t@),
{
    if t.len() == 0 || ((t[0] == '+' || t[0] == '-') && t.len() == 1) {
        return None;
    }
    let start: usize = if t[0] == '+' { 1 } else { 0 };
    let ghost d = t@.skip(start as int);
    let mut acc: u128 = 0;
    let mut k: usize = start;
    while k < t.len()
        invariant
            start <= k <= t.len(),
            d == t@.skip(start as int),
            t@.len() > 0,
            !((t@[0] == '+' || t@[0] == '-') && t@.len() == 1),
            start == (if t@[0] == '+' { 1usize } else { 0usize }),
            acc == crate::toml::parser::radix_value(d.take(k - start), 10),
            acc <= usize::MAX,
            forall|m: int| 0 <= m < k - start ==> (#[trigger] crate::toml::parser::radix_digit(d[m], 10)) is Some,
        decreases t.len() - k,
    {
        let c = t[k];
        if !('0' <= c && c <= '9') {
            proof {
                assert(crate::toml::parser::radix_digit(d[k - start], 10) is None);
                assert(!crate::toml::parser::all_radix_digits(d, 10));
                if start == 0 {
                    assert(d =~= t@);
                }
            }
            return None;
        }
        let v = (c as u32) - ('0' as u32);
        proof {
            let p = d.take(k - start + 1);
            assert(p.drop_last() =~= d.take(k - start));
            assert(p.last() == d[k - start]);
        }
        assert(acc * 10 <= 10 * (usize::MAX as u128)) by (nonlinear_arith)
            requires
                acc <= usize::MAX,
        ;
        acc = acc * 10 + (v as u128);
        proof {
            assert(acc == crate::toml::parser::radix_value(d.take(k - start + 1), 10));
        }
        if acc > usize::MAX as u128 {
            proof {
                if crate::toml::parser::all_radix_digits(d, 10) {
                    crate::toml::parser::lemma_radix_value_grows(d, 10, k - start + 1);
                }
                if start == 0 {
                    assert(d =~= t@);
                }
            }
            return None;
        }
        k = k + 1;
    }
    proof {
        assert(d.take(t.len() - start) =~= d);
        assert(crate::toml::parser::all_radix_digits(d, 10));
        if start == 0 {
            assert(d =~= t@);
        }
    }
    Some(acc as usize)
}

/// `str::find` for a character.
fn find_char(s: &[char], c: char) -> (r: Option<usize>)
    ensures
        match crate::text::first_index(s@, c) {
            Some(i) => r == Some(i as usize) && 0 <= i < s@.len(),
            None => r is None,
        },
{
    let mut i: usize = 0;
    while i < s.len()
        invariant
            i <= s@.len(),
            forall|j: int| 0 <= j < i ==> s@[j] != c,
        decreases s.len() - i,
    {
        if s[i] == c {
            proof {
                let f = crate::text::first_index(s@, c)->0;
                assert(f == i as int) by {
                    if f < i {
                    } else if f > i {
                    }
                }
            }
            return Some(i);
        }
        i = i + 1;
    }
    None
}

fn quoted_error(a: &[char], b: &str, c: &[char], d: &str) -> (e: Error)
    ensures
        e.position is None,
        e.message@ == "`"@ + a@ + b@ + c@ + d@,
{
    let mut m = owned("`");
    let t = crate::text::string_from(a);
    push_str(&mut m, t.as_str());
    push_str(&mut m, b);
    let u = crate::text::string_from(c);
    push_str(&mut m, u.as_str());
    push_str(&mut m, d);
    Error::new(m)
}

/// The `[n]` suffixes of one segment, appended to `segments`.
fn parse_indexes(rest: Vec<char>, text: &[char], segments: &mut Vec<Segment>) -> (r: Result<(), Error>)
    requires
        indexes_outcome(rest@) != Outcome::Panics,
    ensures
        (r is Ok) == (indexes_outcome(rest@) == Outcome::Done),
        final(segments)@.len() >= old(segments)@.len(),
        forall|i: int| 0 <= i < old(segments)@.len() ==> final(segments)@[i] == old(segments)@[i],
{
    let mut rem = rest;
    while rem.len() > 0
        invariant
            indexes_outcome(rem@) == indexes_outcome(rest@),
            indexes_outcome(rest@) != Outcome::Panics,
            segments@.len() >= old(segments)@.len(),
            forall|i: int| 0 <= i < old(segments)@.len() ==> segments@[i] == old(segments)@[i],
        decreases rem@.len(),
    {
        let close = match find_char(rem.as_slice(), ']') {
            Some(c) => c,
            None => {
                return Err(quoted_error(text, "` has an unterminated `[`", &[], ""));
            },
        };
        let digits = crate::text::chars_slice(rem.as_slice(), 1, close);
        let index = match parse_usize(digits.as_slice()) {
            Some(i) => i,
            None => {
                return Err(quoted_error(digits.as_slice(), "` is not a valid array index in `", text, "`"));
            },
        };
        segments.push(Segment::Index(index));
        let next = crate::text::chars_slice(rem.as_slice(), close + 1, rem.len());
        proof {
            assert(next@ =~= rem@.skip(close + 1));
        }
        rem = next;
    }
    Ok(())
}

/// One `.`-separated segment, appended to `segments`.
fn parse_part(part: &[char], text: &[char], segments: &mut Vec<Segment>) -> (r: Result<(), Error>)
    requires
        part_outcome(part@) != Outcome::Panics,
    ensures
        (r is Ok) == (part_outcome(part@) == Outcome::Done),
        final(segments)@.len() > old(segments)@.len() || r is Err,
        forall|i: int| 0 <= i < old(segments)@.len() ==> final(segments)@[i] == old(segments)@[i],
        r is Ok ==> final(segments)@[old(segments)@.len() as int] is Key,
{
    let (name, rest) = match find_char(part, '[') {
        Some(i) => (crate::text::chars_slice(part, 0, i), crate::text::chars_slice(part, i, part.len())),
        None => (crate::text::chars_slice(part, 0, part.len()), Vec::new()),
    };
    proof {
        match crate::text::first_index(part@, '[') {
            Some(i) => {
                assert(name@ =~= part@.take(i));
                assert(rest@ =~= part@.skip(i));
            },
            None => {
                assert(name@ =~= part@);
                assert(rest@ =~= Seq::<char>::empty());
            },
        }
    }
    if name.len() == 0 {
        return Err(quoted_error(text, "` contains an empty path segment", &[], ""));
    }
    let mut j: usize = 0;
    while j < name.len()
        invariant
            j <= name@.len(),
            name@ == key_name_of(part@),
            forall|m: int| 0 <= m < j ==> crate::toml::parser::is_bare_key_char(#[trigger] name@[m]),
        decreases name.len() - j,
    {
        let c = name[j];
        if !(crate::text::ascii_alnum(c) || c == '_' || c == '-') {
            assert(!valid_key_name(name@));
            return Err(quoted_error(name.as_slice(), "` is not a valid key in `", text, "`"));
        }
        j = j + 1;
    }
    segments.push(Segment::Key(crate::text::string_from(name.as_slice())));
    parse_indexes(rest, text, segments)
}

/// Parse `a.b[0].c` into its segments.
pub fn parse_path(text: &str) -> (r: Result<Vec<Segment>, Error>)
    requires
        path_outcome(text@) != Outcome::Panics,
    ensures
        (r is Ok) == (path_outcome(text@) == Outcome::Done),
        text@.len() == 0 ==> (r matches Err(e) && e.message@ == "the override path is empty"@),
        r matches Ok(segs) ==> segs@.len() > 0 && segs@[0] is Key,
{
    let chars = crate::text::chars_of(text);
    if chars.len() == 0 {
        return Err(Error::new(owned("the override path is empty")));
    }
    let parts = crate::text::split_on_char(chars.as_slice(), '.');
    let ghost pv = parts@.map_values(|p: Vec<char>| p@);
    proof {
        crate::text::lemma_split_char_nonempty(text@, '.');
    }
    let mut segments: Vec<Segment> = Vec::new();
    let mut k: usize = 0;
    while k < parts.len()
        invariant
            k <= parts@.len(),
            pv == parts@.map_values(|p: Vec<char>| p@),
            pv == crate::text::split_char(text@, '.'),
            parts@.len() > 0,
            path_outcome(text@) == parts_outcome(pv, k as int),
            path_outcome(text@) != Outcome::Panics,
            text@.len() > 0,
            k > 0 ==> segments@.len() > 0 && segments@[0] is Key,
            k == 0 ==> segments@.len() == 0,
        decreases parts.len() - k,
    {
        assert(parts[k as int]@ == pv[k as int]);
        match parse_part(parts[k].as_slice(), chars.as_slice(), &mut segments) {
            Ok(()) => {},
            Err(e) => {
                return Err(e);
            },
        }
        k = k + 1;
    }
    Ok(segments)
}

fn indexes_outcome_exec(rem: &[char]) -> (r: Outcome)
    ensures
        r == indexes_outcome(rem@),
{
    let mut rest: Vec<char> = crate::text::chars_slice(rem, 0, rem.len());
    assert(rest@ =~= rem@);
    while rest.len() > 0
        invariant
            indexes_outcome(rem@) == indexes_outcome(rest@),
        decreases rest.len(),
    {
        match find_char(rest.as_slice(), ']') {
            None => {
                return Outcome::Refused;
            },
            Some(c) => {
                if c == 0 || !(rest[0] < '\u{80}') {
                    return Outcome::Panics;
                }
                let digits = crate::text::chars_slice(rest.as_slice(), 1, c);
                assert(digits@ =~= rest@.subrange(1, c as int));
                if parse_usize(digits.as_slice()).is_none() {
                    return Outcome::Refused;
                }
                let next = crate::text::chars_slice(rest.as_slice(), c + 1, rest.len());
                assert(next@ =~= rest@.skip(c + 1));
                rest = next;
            },
        }
    }
    Outcome::Done
}

fn part_outcome_exec(part: &[char]) -> (r: Outcome)
    ensures
        r == part_outcome(part@),
{
    let (name, rest) = match find_char(part, '[') {
        Some(i) => (crate::text::chars_slice(part, 0, i), crate::text::chars_slice(part, i, part.len())),
        None => (crate::text::chars_slice(part, 0, part.len()), Vec::new()),
    };
    proof {
        match crate::text::first_index(part@, '[') {
            Some(i) => {
                assert(name@ =~= part@.take(i));
                assert(rest@ =~= part@.skip(i));
            },
            None => {
                assert(name@ =~= part@);
                assert(rest@ =~= Seq::<char>::empty());
            },
        }
    }
    if name.len() == 0 {
        return Outcome::Refused;
    }
    let mut j: usize = 0;
    while j < name.len()
        invariant
            j <= name@.len(),
            name@ == key_name_of(part@),
            forall|m: int| 0 <= m < j ==> crate::toml::parser::is_bare_key_char(#[trigger] name@[m]),
        decreases name.len() - j,
    {
        let c = name[j];
        if !(crate::text::ascii_alnum(c) || c == '_' || c == '-') {
            assert(!valid_key_name(name@));
            return Outcome::Refused;
        }
        j = j + 1;
    }
    indexes_outcome_exec(rest.as_slice())
}

/// What reading `text` as an override path leads to, computed.
pub fn path_outcome_of(text: &str) -> (r: Outcome)
    ensures
        r == path_outcome(text@),
{
    let chars = crate::text::chars_of(text);
    if chars.len() == 0 {
        return Outcome::Refused;
    }
    let parts = crate::text::split_on_char(chars.as_slice(), '.');
    let ghost pv = parts@.map_values(|p: Vec<char>| p@);
    let mut k: usize = 0;
    while k < parts.len()
        invariant
            k <= parts@.len(),
            pv == parts@.map_values(|p: Vec<char>| p@),
            pv == crate::text::split_char(text@, '.'),
            text@.len() > 0,
            path_outcome(text@) == parts_outcome(pv, k as int),
        decreases parts.len() - k,
    {
        assert(parts[k as int]@ == pv[k as int]);
        let o = part_outcome_exec(parts[k].as_slice());
        match o {
            Outcome::Done => {},
            _ => {
                return o;
            },
        }
        k = k + 1;
    }
    Outcome::Done
}

/// Whether `path=value` can be read without panicking: `parse_set` and
/// `parse_set_secret` may be called on it.
pub fn assignment_readable(text: &str) -> (r: bool)
    ensures
        r == assignment_safe(text@),
{
    let chars = crate::text::chars_of(text);
    match crate::text::split_once_char(chars.as_slice(), '=') {
        None => true,
        Some((path, _)) => {
            let p = crate::text::string_from(path.as_slice());
            match path_outcome_of(p.as_str()) {
                Outcome::Panics => false,
                _ => true,
            }
        },
    }
}

// ---------------------------------------------------------------- parsing

/// The path part of `path=value` may be read without panicking.
pub open spec fn assignment_safe(text: Seq<char>) -> bool {
    match crate::text::split_once(text, '=') {
        Some((path, _)) => path_outcome(path) != Outcome::Panics,
        None => true,
    }
}

/// The one-line document that `--set` reads a value through.
pub open spec fn value_document(text: Seq<char>) -> Seq<char> {
    "value = "@ + text + "\n"@
}

/// Where the value starts in `value_document(text)`.
pub open spec fn value_begin(text: Seq<char>) -> int {
    skip_while(value_document(text), 8, inline_space())
}

/// The document binds the single key `value`, whose value starts at
/// `value_begin`.
proof fn lemma_value_document(text: Seq<char>)
    ensures
        trivia_end(value_document(text), 0) == 0,
        key_path(value_document(text), 0) == Ok::<(Seq<Seq<char>>, int), (Seq<char>, int)>(
            (seq!["value"@], 6int),
        ),
        value_start(value_document(text), 6) == value_begin(text),
{
    let d = value_document(text);
    reveal_strlit("value = ");
    reveal_strlit("\n");
    reveal_strlit("value");
    assert(d[0] == 'v' && d[1] == 'a' && d[2] == 'l' && d[3] == 'u' && d[4] == 'e');
    assert(d[5] == ' ' && d[6] == '=' && d[7] == ' ');
    assert(trivia_end(d, 0) == 0);
    let bare = bare_key_char();
    assert(skip_while(d, 5, bare) == 5);
    assert(skip_while(d, 4, bare) == 5);
    assert(skip_while(d, 3, bare) == 5);
    assert(skip_while(d, 2, bare) == 5);
    assert(skip_while(d, 1, bare) == 5);
    assert(skip_while(d, 0, bare) == 5);
    assert(d.subrange(0, 5) =~= "value"@);
    assert(key_segment(d, 0) == Ok::<(Seq<char>, int), (Seq<char>, int)>(("value"@, 5int)));
    let sp = inline_space();
    assert(skip_while(d, 6, sp) == 6);
    assert(skip_while(d, 5, sp) == 6);
    reveal(key_path_from);
    assert(key_path_from(d, 5) == Ok::<(Seq<Seq<char>>, int), (Seq<char>, int)>((seq![], 6int)));
    assert(seq!["value"@] + seq![] =~= seq!["value"@]);
    assert(skip_while(d, 7, sp) == skip_while(d, 8, sp));
}

/// `value = text` is a document of single-key statements binding strings,
/// booleans and numbers, no key bound twice, whose first value is a string,
/// a boolean or a number: a document the TOML parser reads.
pub open spec fn reads_as_toml(text: Seq<char>) -> bool {
    &&& value_kind(value_document(text), value_begin(text)) matches Ok(k) && (k is Text || k is Flag || k is Number)
    &&& flat_bindings(value_document(text), 0) matches Some(bs) && distinct_keys(bs)
}

/// `value = text` is a document the TOML parser reads whose first value is
/// an inline array of strings, booleans and numbers.
pub open spec fn reads_as_toml_array(text: Seq<char>) -> bool {
    &&& value_kind(value_document(text), value_begin(text)) == Ok::<Kind, Seq<char>>(Kind::List)
    &&& sectioned(value_document(text), 0, seq![]) matches Some((hs, bs)) && sections_ok(hs, bs)
}

/// The value of `--set path=value`: a TOML scalar when `value` reads as
/// one, and the text itself otherwise.
fn parse_scalar(text: &str) -> (v: Value)
    requires
        text@.len() < usize::MAX - 16,
    ensures
        value_kind(value_document(text@), value_begin(text@)) matches Ok(k) && (k is Text || k is Flag
            || k is Number) ==> ((v matches Value::String(t) && t@ == text@) || value_read(
            value_document(text@),
            value_begin(text@),
            v,
        )),
        reads_as_toml(text@) ==> value_read(value_document(text@), value_begin(text@), v),
        reads_as_toml_array(text@) ==> value_read(value_document(text@), value_begin(text@), v),
        flat_bindings(value_document(text@), 0) matches Some(bs) && !distinct_keys(bs) ==> (v matches Value::String(
            t,
        ) && t@ == text@),
{
    // Reuse the document parser, so that `1_000`, `0xff`, `true` and quoted
    // strings behave exactly as they do inside a specification file.
    let mut document = owned("value = ");
    push_str(&mut document, text);
    push_str(&mut document, "\n");
    proof {
        reveal_strlit("value = ");
        reveal_strlit("\n");
        assert(document@ == value_document(text@));
        lemma_value_document(text@);
        reveal_strlit("value");
    }
    let parsed = crate::toml::parse(document.as_str());
    let ghost pg = parsed;
    proof {
        if reads_as_toml_array(text@) {
            let d = value_document(text@);
            let hs = sectioned(d, 0, seq![])->Some_0.0;
            let bs = sectioned(d, 0, seq![])->Some_0.1;
            assert(d[0] != '[');
            let st = crate::toml::parser::simple_statement(d, 0);
            assert(st is Some);
            let k = st->Some_0.0;
            let v0 = st->Some_0.1;
            assert(k == "value"@);
            assert(v0 == value_start(d, 6));
            assert(bs[0] == (Seq::<Seq<char>>::empty().push(k), v0));
            assert(Seq::<Seq<char>>::empty().push(k) =~= seq!["value"@]);
            if let Ok(t) = pg {
                assert(crate::toml::parser::binding_held(d, t, bs[0]));
            }
        }
    }
    match parsed {
        Ok(mut table) => match table.remove("value") {
            Some(node) => node.value,
            None => Value::String(owned(text)),
        },
        Err(_) => Value::String(owned(text)),
    }
}

/// Parse `path=value`. The value is read as a TOML scalar when possible and
/// as a plain string otherwise.
pub fn parse_set(text: &str) -> (r: Result<Override, Error>)
    requires
        assignment_safe(text@),
        text@.len() < usize::MAX - 16,
    ensures
        match crate::text::split_once(text@, '=') {
            None => r matches Err(e) && e.message@ == "`"@ + text@ + "` is not of the form `path=value`"@,
            Some((path, _)) => (r is Ok) == (path_outcome(path) == Outcome::Done),
        },
        r matches Ok(o) ==> o.origin@ == text@ && o.path@.len() > 0,
        r matches Ok(o) ==> (crate::text::split_once(text@, '=') matches Some((_, v)) && (value_kind(
            value_document(v),
            value_begin(v),
        ) matches Ok(k) && (k is Text || k is Flag || k is Number) ==> ((o.value matches Value::String(t) && t@
            == v) || value_read(value_document(v), value_begin(v), o.value)))),
        r matches Ok(o) ==> (crate::text::split_once(text@, '=') matches Some((_, v)) && (reads_as_toml(v)
            ==> value_read(value_document(v), value_begin(v), o.value))),
        r matches Ok(o) ==> (crate::text::split_once(text@, '=') matches Some((_, v)) && (reads_as_toml_array(v)
            ==> value_read(value_document(v), value_begin(v), o.value))),
{
    let chars = crate::text::chars_of(text);
    let (path_text, value_text) = match crate::text::split_once_char(chars.as_slice(), '=') {
        Some(pair) => pair,
        None => {
            let mut m = owned("`");
            push_str(&mut m, text);
            push_str(&mut m, "` is not of the form `path=value`");
            return Err(Error::new(m));
        },
    };
    let p = crate::text::string_from(path_text.as_slice());
    let path = parse_path(p.as_str())?;
    let v = crate::text::string_from(value_text.as_slice());
    proof {
        crate::text::lemma_first_index(text@, '=');
        assert(v@.len() <= text@.len());
    }
    let value = parse_scalar(v.as_str());
    Ok(Override { path, value, origin: owned(text) })
}

/// Parse `path=env:NAME`, `path=file:PATH` or `path=value:LITERAL`.
pub fn parse_set_secret(text: &str) -> (r: Result<Override, Error>)
    requires
        assignment_safe(text@),
    ensures
        crate::text::split_once(text@, '=') is None ==> (r matches Err(e) && e.message@ == "`"@ + text@
            + "` is not of the form `path=source`"@),
        r matches Ok(o) ==> {
            &&& o.origin@ == text@
            &&& o.path@.len() > 0
            &&& o.value matches Value::Table(t)
            &&& t.items().len() == 1
            &&& t.items()[0].node.value is String
            &&& (t.items()[0].key@ == "env"@ || t.items()[0].key@ == "file"@ || t.items()[0].key@ == "value"@)
        },
{
    let chars = crate::text::chars_of(text);
    let (path_text, source_text) = match crate::text::split_once_char(chars.as_slice(), '=') {
        Some(pair) => pair,
        None => {
            let mut m = owned("`");
            push_str(&mut m, text);
            push_str(&mut m, "` is not of the form `path=source`");
            return Err(Error::new(m));
        },
    };
    let p = crate::text::string_from(path_text.as_slice());
    let path = parse_path(p.as_str())?;
    let st = crate::text::string_from(source_text.as_slice());
    let source = SecretSource::parse_cli(st.as_str())?;
    let (key, literal) = match source {
        SecretSource::Env(name) => ("env", name),
        SecretSource::File(path) => ("file", path),
        SecretSource::Value(literal) => ("value", literal),
    };
    let mut table = Table::new();
    table.insert(owned(key), Node::new(Value::String(literal), 0, 0));
    proof {
        reveal_strlit("env");
        reveal_strlit("file");
        reveal_strlit("value");
        assert(table.items().len() == 1);
    }
    Ok(Override { path, value: Value::Table(table), origin: owned(text) })
}

} // verus!
