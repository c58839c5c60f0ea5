//! Edits the form makes to a specification document, and the values it reads
//! back out of one.
//!
//! The specification text is the single source of truth: the form holds no
//! parallel model of it. Each control edits the document through
//! `toml_edit`, which keeps the comments and layout of a file that is meant
//! to stay in version control.

use vstd::prelude::*;
use crate::text::{chars_of, owned, push_str, split_char, split_on_char, string_from};
use toml_edit::Table as EditTable;
use toml_edit::Value as EditValue;

verus! {

// ------------------------------------------------------------ toml_edit

#[verifier::external_type_specification]
#[verifier::external_body]
pub struct ExDocumentMut(toml_edit::DocumentMut);

#[verifier::external_type_specification]
#[verifier::external_body]
pub struct ExEditTable(EditTable);

#[verifier::external_type_specification]
#[verifier::external_body]
pub struct ExEditItem(toml_edit::Item);

#[verifier::external_type_specification]
#[verifier::external_body]
pub struct ExEditValue(EditValue);

#[verifier::external_type_specification]
#[verifier::external_body]
pub struct ExEditArray(toml_edit::Array);

#[verifier::external_type_specification]
#[verifier::external_body]
pub struct ExDecor(toml_edit::Decor);

/// What is held at a place of a `toml_edit` document, as far as the form
/// reads it.
pub ghost enum Held {
    /// A standard table.
    Table,
    /// An array of tables.
    Tables,
    /// A string.
    Text(Seq<char>),
    /// An integer.
    Whole(i64),
    /// A boolean.
    Flag(bool),
    /// An inline array: each element's string, or `None` for an element that
    /// is not a string.
    List(Seq<Option<Seq<char>>>),
    /// Any other value: a float, a date-time or an inline table.
    Other,
}

/// The places of a document, each a sequence of keys, and what each holds.
pub type Places = Map<Seq<Seq<char>>, Held>;

/// The whitespace and comment text around a value: its prefix and its
/// suffix, `None` where `toml_edit` uses its default.
pub type Decoration = (Option<Seq<char>>, Option<Seq<char>>);

/// The decoration of the value held at each place that holds a value.
pub type Decors = Map<Seq<Seq<char>>, Decoration>;

/// What is held at `p`, if anything.
pub open spec fn held_at(m: Places, p: Seq<Seq<char>>) -> Option<Held> {
    if m.dom().contains(p) {
        Some(m[p])
    } else {
        None
    }
}

/// The places below `key`, as seen from there.
pub open spec fn below<V>(m: Map<Seq<Seq<char>>, V>, key: Seq<char>) -> Map<Seq<Seq<char>>, V> {
    Map::new(|p: Seq<Seq<char>>| m.dom().contains(seq![key] + p), |p: Seq<Seq<char>>| m[seq![key] + p])
}

/// Whether `p` lies below `key`.
pub open spec fn under(p: Seq<Seq<char>>, key: Seq<char>) -> bool {
    p.len() > 0 && p[0] == key
}

/// `m` with what lies below `key` replaced by `c`.
pub open spec fn graft<V>(m: Map<Seq<Seq<char>>, V>, key: Seq<char>, c: Map<Seq<Seq<char>>, V>) -> Map<Seq<Seq<char>>, V> {
    Map::new(
        |p: Seq<Seq<char>>| if under(p, key) {
            c.dom().contains(p.skip(1))
        } else {
            m.dom().contains(p)
        },
        |p: Seq<Seq<char>>| if under(p, key) {
            c[p.skip(1)]
        } else {
            m[p]
        },
    )
}

/// A single value, held at its own place.
pub open spec fn single(h: Held) -> Places {
    map![seq![] => h]
}

/// What `DocumentMut::from_str` makes of `text`: the places of the
/// document and the decorations of its values, or the failure rendered with
/// `TomlError`'s `Display`.
pub uninterp spec fn edit_parse(text: Seq<char>) -> Result<(Places, Decors), Seq<char>>;

/// What `toml_edit` reports when it cannot parse `text`, or `None` when it
/// can.
pub open spec fn edit_parse_failure(text: Seq<char>) -> Option<Seq<char>> {
    match edit_parse(text) {
        Ok(_) => None,
        Err(m) => Some(m),
    }
}

/// The places of a document: for each sequence of keys, what is reached from
/// the root by `get` with each key in turn.
pub uninterp spec fn document_held(d: toml_edit::DocumentMut) -> Places;

/// The decorations of a document's values, by place.
pub uninterp spec fn document_decors(d: toml_edit::DocumentMut) -> Decors;

/// The decorations of the values of a table, by place below it.
pub uninterp spec fn table_decors(t: EditTable) -> Decors;

/// The decorations of the values reached from an item, by place below it.
pub uninterp spec fn item_decors(i: toml_edit::Item) -> Decors;

/// The decorations of a value, its own at the empty sequence.
pub uninterp spec fn value_decors(v: EditValue) -> Decors;

/// The decoration of an array itself, around its brackets.
pub uninterp spec fn array_decor(a: toml_edit::Array) -> Decoration;

/// The prefix and suffix a `Decor` holds.
pub uninterp spec fn decor_text(d: toml_edit::Decor) -> Decoration;

/// No decoration at any place.
pub open spec fn no_decors() -> Decors {
    Map::empty()
}

/// The decoration of a value built by `toml_edit` from a plain Rust value.
pub open spec fn plain_decors() -> Decors {
    own_decor((None::<Seq<char>>, None::<Seq<char>>))
}

/// A value's own decoration, and nothing below it.
pub open spec fn own_decor(dec: Decoration) -> Decors {
    map![Seq::<Seq<char>>::empty() => dec]
}

/// The text `DocumentMut`'s `Display` writes for a document.
pub uninterp spec fn document_rendering(d: toml_edit::DocumentMut) -> Seq<char>;

/// The places reached from an item by `get` with each key in turn; the
/// empty sequence is the item itself, absent for `Item::None`.
pub uninterp spec fn item_held(i: toml_edit::Item) -> Places;

/// The places of a table, the table itself held at the empty sequence.
pub uninterp spec fn table_held(t: EditTable) -> Places;

/// The places of a value, the value itself held at the empty sequence.
pub uninterp spec fn value_held(v: EditValue) -> Places;

/// The elements of an array: each one's string, or `None` when it is not a
/// string.
pub uninterp spec fn array_texts(a: toml_edit::Array) -> Seq<Option<Seq<char>>>;

/// A value, as opposed to a table or an array of tables.
pub open spec fn is_value(h: Held) -> bool {
    !(h is Table || h is Tables)
}

/// The string held at the place itself, if it holds one.
pub open spec fn text_held(m: Places) -> Option<Seq<char>> {
    match held_at(m, seq![]) {
        Some(Held::Text(t)) => Some(t),
        _ => None,
    }
}

/// `DocumentMut::from_str`; a failure is rendered with `TomlError`'s
/// `Display`. What comes out depends on the text alone.
#[verifier::external_body]
fn parse_document(text: &str) -> (r: Result<toml_edit::DocumentMut, String>)
    ensures
        match r {
            Ok(d) => edit_parse(text@) == Ok::<(Places, Decors), Seq<char>>((document_held(d), document_decors(d))),
            Err(m) => edit_parse(text@) == Err::<(Places, Decors), Seq<char>>(m@),
        },
{
    text.parse::<toml_edit::DocumentMut>().map_err(|err| err.to_string())
}

/// `DocumentMut::as_table_mut`: the root table.
#[verifier::external_body]
fn document_root(document: &mut toml_edit::DocumentMut) -> (r: &mut EditTable)
    ensures
        table_held(*r) == document_held(*old(document)),
        document_held(*final(document)) == table_held(*final(r)),
        table_decors(*r) == document_decors(*old(document)),
        document_decors(*final(document)) == table_decors(*final(r)),
{
    document.as_table_mut()
}

/// `DocumentMut::as_item`: the root as an item.
#[verifier::external_body]
fn document_item(document: &toml_edit::DocumentMut) -> (r: &toml_edit::Item)
    ensures
        item_held(*r) == document_held(*document),
{
    document.as_item()
}

/// `DocumentMut`'s `Display`: the document as text, with the formatting it
/// was parsed with.
#[verifier::external_body]
fn document_text(document: &toml_edit::DocumentMut) -> (r: String)
    ensures
        r@ == document_rendering(*document),
{
    document.to_string()
}

/// `Table::contains_key`.
#[verifier::external_body]
fn table_contains(table: &EditTable, key: &str) -> (r: bool)
    ensures
        r == table_held(*table).dom().contains(seq![key@]),
{
    table.contains_key(key)
}

/// `Item::Table(Table::new())`: an empty standard table.
#[verifier::external_body]
fn new_table_item() -> (r: toml_edit::Item)
    ensures
        item_held(r) == single(Held::Table),
        item_decors(r) == no_decors(),
{
    toml_edit::Item::Table(EditTable::new())
}

/// `Item::as_table_mut`: the item as a standard table, if it is one.
#[verifier::external_body]
fn item_as_table_mut(item: &mut toml_edit::Item) -> (r: Option<&mut EditTable>)
    ensures
        match r {
            Some(t) => held_at(item_held(*old(item)), seq![]) == Some(Held::Table) && table_held(*t) == item_held(
                *old(item),
            ) && item_held(*final(item)) == table_held(*final(t)) && table_decors(*t) == item_decors(*old(item))
                && item_decors(*final(item)) == table_decors(*final(t)),
            None => held_at(item_held(*old(item)), seq![]) != Some(Held::Table) && *final(item) == *old(item),
        },
{
    item.as_table_mut()
}

/// `Table::remove`, dropping what was removed.
#[verifier::external_body]
fn table_remove(table: &mut EditTable, key: &str)
    ensures
        table_held(*final(table)) == graft(table_held(*old(table)), key@, Map::empty()),
        table_decors(*final(table)) == graft(table_decors(*old(table)), key@, Map::empty()),
{
    table.remove(key);
}

/// `Table::get_mut`.
#[verifier::external_body]
fn table_get_mut<'a>(table: &'a mut EditTable, key: &str) -> (r: Option<&'a mut toml_edit::Item>)
    ensures
        match r {
            Some(i) => table_held(*old(table)).dom().contains(seq![key@]) && item_held(*i) == below(
                table_held(*old(table)),
                key@,
            ) && table_held(*final(table)) == graft(table_held(*old(table)), key@, item_held(*final(i)))
                && item_decors(*i) == below(table_decors(*old(table)), key@) && table_decors(*final(table)) == graft(
                table_decors(*old(table)),
                key@,
                item_decors(*final(i)),
            ),
            None => !table_held(*old(table)).dom().contains(seq![key@]) && *final(table) == *old(table),
        },
{
    table.get_mut(key)
}

/// `Item::as_value_mut`.
#[verifier::external_body]
fn item_as_value_mut(item: &mut toml_edit::Item) -> (r: Option<&mut EditValue>)
    ensures
        match r {
            Some(v) => (held_at(item_held(*old(item)), seq![]) matches Some(h) && is_value(h)) && value_held(*v)
                == item_held(*old(item)) && item_held(*final(item)) == value_held(*final(v)) && value_decors(*v)
                == item_decors(*old(item)) && item_decors(*final(item)) == value_decors(*final(v)),
            None => !(held_at(item_held(*old(item)), seq![]) matches Some(h) && is_value(h)) && *final(item)
                == *old(item),
        },
{
    item.as_value_mut()
}

/// `Value::decor`, cloned: the whitespace and comments around a value.
#[verifier::external_body]
fn value_decor(value: &EditValue) -> (r: toml_edit::Decor)
    ensures
        decor_text(r) == value_decors(*value)[seq![]],
{
    value.decor().clone()
}

/// `Value::decor_mut`, assigned.
#[verifier::external_body]
fn set_value_decor(value: &mut EditValue, decor: toml_edit::Decor)
    ensures
        value_held(*final(value)) == value_held(*old(value)),
        value_decors(*final(value)) == value_decors(*old(value)).insert(seq![], decor_text(decor)),
{
    *value.decor_mut() = decor;
}

/// `Table::insert`, dropping what was replaced.
#[verifier::external_body]
fn table_insert(table: &mut EditTable, key: &str, item: toml_edit::Item)
    ensures
        table_held(*final(table)) == graft(table_held(*old(table)), key@, item_held(item)),
        table_decors(*final(table)) == graft(table_decors(*old(table)), key@, item_decors(item)),
{
    table.insert(key, item);
}

/// `Item::Value`: a value as an item.
#[verifier::external_body]
fn value_item(value: EditValue) -> (r: toml_edit::Item)
    ensures
        item_held(r) == value_held(value),
        item_decors(r) == value_decors(value),
{
    toml_edit::Item::Value(value)
}

/// `Value::from(String)`: a basic string.
#[verifier::external_body]
fn text_value(text: String) -> (r: EditValue)
    ensures
        value_held(r) == single(Held::Text(text@)),
        value_decors(r) == plain_decors(),
{
    EditValue::from(text)
}

/// `Value::from(bool)`.
#[verifier::external_body]
fn flag_value(flag: bool) -> (r: EditValue)
    ensures
        value_held(r) == single(Held::Flag(flag)),
        value_decors(r) == plain_decors(),
{
    EditValue::from(flag)
}

/// `Value::from(i64)`.
#[verifier::external_body]
fn integer_value(number: i64) -> (r: EditValue)
    ensures
        value_held(r) == single(Held::Whole(number)),
        value_decors(r) == plain_decors(),
{
    EditValue::from(number)
}

/// `Array::new`.
#[verifier::external_body]
fn new_array() -> (r: toml_edit::Array)
    ensures
        array_texts(r) == Seq::<Option<Seq<char>>>::empty(),
        array_decor(r) == (None::<Seq<char>>, None::<Seq<char>>),
{
    toml_edit::Array::new()
}

/// `Array::push` of a string.
#[verifier::external_body]
fn array_push_text(array: &mut toml_edit::Array, text: String)
    ensures
        array_texts(*final(array)) == array_texts(*old(array)).push(Some(text@)),
        array_decor(*final(array)) == array_decor(*old(array)),
{
    array.push(text);
}

/// `Value::from(Array)`: an inline array.
#[verifier::external_body]
fn array_value(array: toml_edit::Array) -> (r: EditValue)
    ensures
        value_held(r) == single(Held::List(array_texts(array))),
        value_decors(r) == own_decor(array_decor(array)),
{
    EditValue::from(array)
}

/// `Item::get` with a key.
#[verifier::external_body]
fn item_get<'a>(item: &'a toml_edit::Item, key: &str) -> (r: Option<&'a toml_edit::Item>)
    ensures
        match r {
            Some(c) => item_held(*c) == below(item_held(*item), key@),
            None => forall|p: Seq<Seq<char>>| !item_held(*item).dom().contains(#[trigger] (seq![key@] + p)),
        },
{
    item.get(key)
}

/// `Item::as_value`.
#[verifier::external_body]
fn item_as_value(item: &toml_edit::Item) -> (r: Option<&EditValue>)
    ensures
        match r {
            Some(v) => value_held(*v) == item_held(*item),
            None => !(held_at(item_held(*item), seq![]) matches Some(h) && is_value(h)),
        },
{
    item.as_value()
}

/// `Value::as_str`, owned.
#[verifier::external_body]
fn value_as_str(value: &EditValue) -> (r: Option<String>)
    ensures
        match held_at(value_held(*value), seq![]) {
            Some(Held::Text(t)) => r matches Some(s) && s@ == t,
            _ => r is None,
        },
{
    value.as_str().map(str::to_owned)
}

/// `Value::as_integer`.
#[verifier::external_body]
fn value_as_integer(value: &EditValue) -> (r: Option<i64>)
    ensures
        match held_at(value_held(*value), seq![]) {
            Some(Held::Whole(n)) => r == Some(n),
            _ => r is None,
        },
{
    value.as_integer()
}

/// `Value::as_bool`.
#[verifier::external_body]
fn value_as_bool(value: &EditValue) -> (r: Option<bool>)
    ensures
        match held_at(value_held(*value), seq![]) {
            Some(Held::Flag(b)) => r == Some(b),
            _ => r is None,
        },
{
    value.as_bool()
}

/// `Value::as_array`.
#[verifier::external_body]
fn value_as_array(value: &EditValue) -> (r: Option<&toml_edit::Array>)
    ensures
        match held_at(value_held(*value), seq![]) {
            Some(Held::List(xs)) => r matches Some(a) && array_texts(*a) == xs,
            _ => r is None,
        },
{
    value.as_array()
}

/// `Array::len`.
#[verifier::external_body]
fn array_len(array: &toml_edit::Array) -> (r: usize)
    ensures
        r == array_texts(*array).len(),
{
    array.len()
}

/// `Array::get`.
#[verifier::external_body]
fn array_get(array: &toml_edit::Array, index: usize) -> (r: Option<&EditValue>)
    ensures
        match r {
            Some(v) => index < array_texts(*array).len() && text_held(value_held(*v)) == array_texts(
                *array,
            )[index as int],
            None => index >= array_texts(*array).len(),
        },
{
    array.get(index)
}

// ------------------------------------------------------------ form values

/// A value sent by the form, as far as an edit reads it. Values that can
/// be refused carry the text the page wrote them as, for the message.
#[derive(Debug, PartialEq, Eq)]
pub enum FormValue {
    Text(String),
    Flag(bool),
    /// A number; `whole` is its value when it is an `i64`.
    Number { whole: Option<i64>, shown: String },
    List { items: Vec<FormValue>, shown: String },
    /// `null` or an object.
    Other(String),
}

/// What a value is stored as.
#[derive(Debug, Clone, PartialEq, Eq)]
pub enum Assigned {
    Text(String),
    Flag(bool),
    Whole(i64),
    Texts(Vec<String>),
}

/// How a value that cannot be stored is shown in a message.
pub open spec fn shown(v: FormValue) -> Seq<char> {
    match v {
        FormValue::Text(t) => t@,
        FormValue::Flag(b) => if b {
            "true"@
        } else {
            "false"@
        },
        FormValue::Number { shown, .. } => shown@,
        FormValue::List { shown, .. } => shown@,
        FormValue::Other(shown) => shown@,
    }
}

/// The first element of a list that is not a string, shown.
pub open spec fn first_non_text(items: Seq<FormValue>) -> Option<Seq<char>>
    decreases items.len(),
{
    if items.len() == 0 {
        None
    } else if items[0] is Text {
        first_non_text(items.skip(1))
    } else {
        Some(shown(items[0]))
    }
}

/// Why `v` cannot be stored at `path`, if it cannot.
pub open spec fn assignment_error(path: Seq<char>, v: FormValue) -> Option<Seq<char>> {
    match v {
        FormValue::Text(_) => None,
        FormValue::Flag(_) => None,
        FormValue::Number { whole, .. } => if whole is Some {
            None
        } else {
            Some("`"@ + path + "`: only whole numbers are supported"@)
        },
        FormValue::List { items, .. } => match first_non_text(items@) {
            Some(other) => Some("`"@ + path + "`: cannot store "@ + other + " in a list"@),
            None => None,
        },
        FormValue::Other(shown) => Some("`"@ + path + "`: unsupported value "@ + shown@),
    }
}

/// The texts of a list of strings.
pub open spec fn texts_of(items: Seq<FormValue>) -> Seq<Seq<char>> {
    items.map_values(|v: FormValue| match v {
        FormValue::Text(t) => t@,
        _ => seq![],
    })
}

/// What `v` is stored as, when it can be.
pub open spec fn assigned_matches(a: Assigned, v: FormValue) -> bool {
    match (a, v) {
        (Assigned::Text(x), FormValue::Text(y)) => x@ == y@,
        (Assigned::Flag(x), FormValue::Flag(y)) => x == y,
        (Assigned::Whole(x), FormValue::Number { whole, .. }) => whole == Some(x),
        (Assigned::Texts(xs), FormValue::List { items, .. }) => xs@.map_values(|x: String| x@)
            == texts_of(items@),
        _ => false,
    }
}

/// Convert a form value for storing at `path`: strings, booleans, whole
/// numbers and lists of strings are stored; anything else is refused.
pub fn assignment(path: &str, value: &FormValue) -> (r: Result<Assigned, String>)
    ensures
        match assignment_error(path@, *value) {
            Some(m) => r matches Err(e) && e@ == m,
            None => r matches Ok(a) && assigned_matches(a, *value),
        },
{
    match value {
        FormValue::Text(text) => Ok(Assigned::Text(owned(text.as_str()))),
        FormValue::Flag(flag) => Ok(Assigned::Flag(*flag)),
        FormValue::Number { whole, .. } => match whole {
            Some(n) => Ok(Assigned::Whole(*n)),
            None => {
                let mut m = owned("`");
                push_str(&mut m, path);
                push_str(&mut m, "`: only whole numbers are supported");
                Err(m)
            },
        },
        FormValue::List { items, shown: list_text } => {
            let mut texts: Vec<String> = Vec::new();
            let mut i: usize = 0;
            assert(items@.skip(0) =~= items@);
            while i < items.len()
                invariant
                    i <= items@.len(),
                    *value == (FormValue::List { items: *items, shown: *list_text }),
                    first_non_text(items@) == first_non_text(items@.skip(i as int)),
                    texts@.map_values(|x: String| x@) == texts_of(items@.take(i as int)),
                decreases items.len() - i,
            {
                proof {
                    assert(items@.skip(i as int)[0] == items@[i as int]);
                    assert(items@.skip(i as int).skip(1) =~= items@.skip(i + 1));
                }
                match &items[i] {
                    FormValue::Text(text) => {
                        let ghost before = texts@;
                        texts.push(owned(text.as_str()));
                        proof {
                            assert(texts@.map_values(|x: String| x@) =~= before.map_values(|x: String| x@).push(text@));
                            assert(texts_of(items@.take(i + 1)) =~= texts_of(items@.take(i as int)).push(text@));
                        }
                    },
                    other => {
                        let mut m = owned("`");
                        push_str(&mut m, path);
                        push_str(&mut m, "`: cannot store ");
                        let shown_text = shown_exec(other);
                        push_str(&mut m, shown_text.as_str());
                        push_str(&mut m, " in a list");
                        return Err(m);
                    },
                }
                i = i + 1;
            }
            proof {
                assert(items@.skip(items@.len() as int) =~= Seq::<FormValue>::empty());
                assert(items@.take(items@.len() as int) =~= items@);
            }
            Ok(Assigned::Texts(texts))
        },
        FormValue::Other(shown_text) => {
            let mut m = owned("`");
            push_str(&mut m, path);
            push_str(&mut m, "`: unsupported value ");
            push_str(&mut m, shown_text.as_str());
            Err(m)
        },
    }
}

fn shown_exec(v: &FormValue) -> (s: String)
    ensures
        s@ == shown(*v),
{
    match v {
        FormValue::Text(t) => owned(t.as_str()),
        FormValue::Flag(b) => owned(if *b { "true" } else { "false" }),
        FormValue::Number { shown, .. } => owned(shown.as_str()),
        FormValue::List { shown, .. } => owned(shown.as_str()),
        FormValue::Other(shown) => owned(shown.as_str()),
    }
}

// ------------------------------------------------------------------ edits

pub open spec fn is_clearing(v: FormValue) -> bool {
    v matches FormValue::Text(t) && t@.len() == 0
}

pub open spec fn not_table_message(key: Seq<char>, path: Seq<char>) -> Seq<char> {
    "`"@ + key + "` is not a table, so `"@ + path + "` cannot be set"@
}

/// What a storable form value is held as once stored.
pub open spec fn form_held(v: FormValue) -> Places {
    match v {
        FormValue::Text(t) => single(Held::Text(t@)),
        FormValue::Flag(b) => single(Held::Flag(b)),
        FormValue::Number { whole, .. } => single(Held::Whole(whole->0)),
        FormValue::List { items, .. } => single(Held::List(texts_of(items@).map_values(|t: Seq<char>| Some(t)))),
        FormValue::Other(_) => single(Held::Other),
    }
}

/// What is below `key` in `m`, or a new empty table when nothing is.
pub open spec fn child_or_table(m: Places, key: Seq<char>) -> Places {
    if m.dom().contains(seq![key]) {
        below(m, key)
    } else {
        single(Held::Table)
    }
}

/// Each key but the last names a table or nothing, so that the walk to the
/// last key can be made, creating tables where there are none.
pub open spec fn walkable(m: Places, keys: Seq<Seq<char>>) -> bool
    decreases keys.len(),
{
    if keys.len() <= 1 {
        true
    } else {
        &&& (held_at(m, seq![keys[0]]) is None || held_at(m, seq![keys[0]]) == Some(Held::Table))
        &&& walkable(child_or_table(m, keys[0]), keys.skip(1))
    }
}

/// The places after storing `h` at `keys`, tables created on the way.
pub open spec fn stored(m: Places, keys: Seq<Seq<char>>, h: Places) -> Places
    decreases keys.len(),
{
    if keys.len() == 0 {
        m
    } else if keys.len() == 1 {
        graft(m, keys[0], h)
    } else {
        graft(m, keys[0], stored(child_or_table(m, keys[0]), keys.skip(1), h))
    }
}

/// Clearing can be made: each key but the last names a table, until one
/// names nothing.
pub open spec fn clearable(m: Places, keys: Seq<Seq<char>>) -> bool
    decreases keys.len(),
{
    if keys.len() <= 1 || !m.dom().contains(seq![keys[0]]) {
        true
    } else {
        held_at(m, seq![keys[0]]) == Some(Held::Table) && clearable(below(m, keys[0]), keys.skip(1))
    }
}

/// The places after clearing `keys`: nothing is left at the last key; a
/// missing table on the way leaves everything as it was.
pub open spec fn cleared(m: Places, keys: Seq<Seq<char>>) -> Places
    decreases keys.len(),
{
    if keys.len() == 0 {
        m
    } else if keys.len() == 1 {
        graft(m, keys[0], Map::empty())
    } else if !m.dom().contains(seq![keys[0]]) {
        m
    } else {
        graft(m, keys[0], cleared(below(m, keys[0]), keys.skip(1)))
    }
}

/// The decorations after storing a value at `keys` in a document holding
/// `m`: a value that was there keeps its decoration, a new value has the
/// default one, tables created on the way hold none, and the decorations of
/// every other value stay as they were.
pub open spec fn stored_decors(d: Decors, m: Places, keys: Seq<Seq<char>>) -> Decors
    decreases keys.len(),
{
    if keys.len() == 0 {
        d
    } else if keys.len() == 1 {
        if held_at(m, seq![keys[0]]) matches Some(h) && is_value(h) {
            graft(d, keys[0], own_decor(below(d, keys[0])[seq![]]))
        } else {
            graft(d, keys[0], plain_decors())
        }
    } else if m.dom().contains(seq![keys[0]]) {
        graft(d, keys[0], stored_decors(below(d, keys[0]), below(m, keys[0]), keys.skip(1)))
    } else {
        graft(d, keys[0], stored_decors(Map::empty(), single(Held::Table), keys.skip(1)))
    }
}

/// The decorations after clearing `keys` in a document holding `m`: those
/// below the cleared key go, every other stays as it was.
pub open spec fn cleared_decors(d: Decors, m: Places, keys: Seq<Seq<char>>) -> Decors
    decreases keys.len(),
{
    if keys.len() == 0 {
        d
    } else if keys.len() == 1 {
        graft(d, keys[0], Map::empty())
    } else if !m.dom().contains(seq![keys[0]]) {
        d
    } else {
        graft(d, keys[0], cleared_decors(below(d, keys[0]), below(m, keys[0]), keys.skip(1)))
    }
}

/// Replacing what lies below a key by what was there changes nothing.
proof fn lemma_graft_below<V>(m: Map<Seq<Seq<char>>, V>, key: Seq<char>)
    ensures
        graft(m, key, below(m, key)) == m,
{
    assert forall|p: Seq<Seq<char>>| under(p, key) implies #[trigger] (seq![key] + p.skip(1)) == p by {
        assert(seq![key] + p.skip(1) =~= p);
    }
    assert(graft(m, key, below(m, key)) =~= m);
}

/// What lies below `key` after a graft there is what was grafted.
proof fn lemma_below_graft<V>(m: Map<Seq<Seq<char>>, V>, key: Seq<char>, c: Map<Seq<Seq<char>>, V>)
    ensures
        below(graft(m, key, c), key) == c,
{
    assert forall|p: Seq<Seq<char>>| #[trigger] (seq![key] + p).skip(1) == p by {
        assert((seq![key] + p).skip(1) =~= p);
    }
    assert(below(graft(m, key, c), key) =~= c);
}

/// A second graft at the same key replaces the first.
proof fn lemma_graft_graft<V>(m: Map<Seq<Seq<char>>, V>, key: Seq<char>, c1: Map<Seq<Seq<char>>, V>, c2: Map<Seq<Seq<char>>, V>)
    ensures
        graft(graft(m, key, c1), key, c2) == graft(m, key, c2),
{
    assert(graft(graft(m, key, c1), key, c2) =~= graft(m, key, c2));
}

fn toml_value(a: Assigned) -> (r: EditValue)
    ensures
        value_decors(r) == plain_decors(),
        value_held(r) == match a {
            Assigned::Text(t) => single(Held::Text(t@)),
            Assigned::Flag(b) => single(Held::Flag(b)),
            Assigned::Whole(n) => single(Held::Whole(n)),
            Assigned::Texts(ts) => single(Held::List(ts@.map_values(|t: String| Some(t@)))),
        },
{
    match a {
        Assigned::Text(text) => text_value(text),
        Assigned::Flag(flag) => flag_value(flag),
        Assigned::Whole(n) => integer_value(n),
        Assigned::Texts(texts) => {
            let ghost all = texts@;
            let count: usize = texts.len();
            let mut array = new_array();
            let mut rest = texts;
            let mut k: usize = 0;
            while rest.len() > 0
                invariant
                    k <= all.len(),
                    k + rest@.len() == all.len(),
                    all.len() == count,
                    rest@ == all.skip(k as int),
                    array_texts(array) == all.take(k as int).map_values(|t: String| Some(t@)),
                    array_decor(array) == (None::<Seq<char>>, None::<Seq<char>>),
                decreases rest.len(),
            {
                let t = rest.remove(0);
                proof {
                    assert(t == all[k as int]);
                    assert(rest@ =~= all.skip(k + 1));
                    assert(all.take(k + 1).map_values(|t: String| Some(t@)) =~= all.take(k as int).map_values(
                        |t: String| Some(t@),
                    ).push(Some(t@)));
                }
                array_push_text(&mut array, t);
                k = k + 1;
            }
            proof {
                assert(all.take(k as int) =~= all);
            }
            let v = array_value(array);
            assert(value_decors(v) =~= plain_decors());
            v
        },
    }
}

/// Store `value` at `keys[i..]` below `table`, or clear it there, creating
/// missing tables on the way.
fn store_at(
    table: &mut EditTable,
    keys: &Vec<Vec<char>>,
    i: usize,
    path: &str,
    value: &FormValue,
    clearing: bool,
) -> (r: Result<(), String>)
    requires
        i < keys@.len(),
        clearing == is_clearing(*value),
    ensures
        ({
            let m = table_held(*old(table));
            let ks = keys@.map_values(|k: Vec<char>| k@).skip(i as int);
            let d = table_decors(*old(table));
            if clearing {
                &&& (r is Ok) == clearable(m, ks)
                &&& r is Ok ==> table_held(*final(table)) == cleared(m, ks)
                &&& r is Ok ==> table_decors(*final(table)) == cleared_decors(d, m, ks)
            } else {
                &&& (r is Ok) == (walkable(m, ks) && assignment_error(path@, *value) is None)
                &&& r is Ok ==> table_held(*final(table)) == stored(m, ks, form_held(*value))
                &&& r is Ok ==> table_decors(*final(table)) == stored_decors(d, m, ks)
            }
        }),
        r matches Err(e) ==> (exists|k: int|
            i <= k < keys@.len() - 1 && e@ == not_table_message(#[trigger] keys@[k]@, path@)) || (!clearing
            && assignment_error(path@, *value) == Some(e@)),
    decreases keys@.len() - i,
{
    let ghost m = table_held(*table);
    let ghost d = table_decors(*table);
    let ghost ks = keys@.map_values(|k: Vec<char>| k@).skip(i as int);
    assert(ks.len() == keys@.len() - i);
    assert(ks[0] == keys@[i as int]@);
    let key = string_from(keys[i].as_slice());
    if i == keys.len() - 1 {
        if clearing {
            table_remove(table, key.as_str());
            return Ok(());
        }
        let assigned = match assignment(path, value) {
            Ok(a) => a,
            Err(e) => {
                return Err(e);
            },
        };
        let ghost a = assigned;
        proof {
            if a is Texts && *value is List {
                let ts = a->Texts_0;
                let items = value->List_items;
                assert(ts@.map_values(|t: String| Some(t@)) =~= texts_of(items@).map_values(|t: Seq<char>| Some(t)));
            }
        }
        let v = toml_value(assigned);
        assert(value_held(v) == form_held(*value));
        let mut pending = Some(v);
        match table_get_mut(table, key.as_str()) {
            Some(item) => match item_as_value_mut(item) {
                Some(existing) => {
                    proof {
                        assert(seq![key@] + Seq::<Seq<char>>::empty() =~= seq![key@]);
                    }
                    let decor = value_decor(existing);
                    match pending.take() {
                        Some(v) => {
                            *existing = v;
                        },
                        None => {},
                    }
                    set_value_decor(existing, decor);
                    proof {
                        assert(value_decors(*existing) =~= own_decor(below(d, key@)[seq![]]));
                    }
                },
                None => {
                    proof {
                        lemma_graft_below(m, key@);
                        lemma_graft_below(d, key@);
                    }
                },
            },
            None => {},
        }
        match pending {
            Some(v) => {
                let ghost before = table_held(*table);
                table_insert(table, key.as_str(), value_item(v));
                proof {
                    lemma_graft_graft(m, key@, below(m, key@), form_held(*value));
                    lemma_graft_graft(d, key@, below(d, key@), plain_decors());
                }
            },
            None => {},
        }
        return Ok(());
    }
    assert(ks.skip(1) =~= keys@.map_values(|k: Vec<char>| k@).skip(i + 1));
    if clearing && !table_contains(table, key.as_str()) {
        return Ok(());
    }
    proof {
        assert(seq![key@] + Seq::<Seq<char>>::empty() =~= seq![key@]);
        assert(seq![key@].skip(1) =~= Seq::<Seq<char>>::empty());
    }
    if !table_contains(table, key.as_str()) {
        table_insert(table, key.as_str(), new_table_item());
        proof {
            lemma_below_graft(m, key@, single(Held::Table));
            assert(table_held(*table).dom().contains(seq![key@]));
        }
    }
    let ghost t1 = table_held(*table);
    assert(below(t1, key@) == child_or_table(m, key@));
    assert(m.dom().contains(seq![key@]) ==> held_at(below(m, key@), seq![]) == held_at(m, seq![key@]));
    match table_get_mut(table, key.as_str()) {
        Some(item) => match item_as_table_mut(item) {
            Some(inner) => {
                let r = store_at(inner, keys, i + 1, path, value, clearing);
                proof {
                    lemma_graft_graft(m, key@, single(Held::Table), item_held(*final(item)));
                    lemma_graft_graft(d, key@, Map::empty(), item_decors(*final(item)));
                    if !m.dom().contains(seq![key@]) {
                        lemma_below_graft(d, key@, Map::<Seq<Seq<char>>, Decoration>::empty());
                    }
                }
                r
            },
            None => {
                let mut e = owned("`");
                push_str(&mut e, key.as_str());
                push_str(&mut e, "` is not a table, so `");
                push_str(&mut e, path);
                push_str(&mut e, "` cannot be set");
                proof {
                    lemma_graft_below(t1, key@);
                }
                Err(e)
            },
        },
        None => {
            Err(owned(""))
        },
    }
}

/// Set or clear one key (`a.b.c`), keeping the rest of the document as it
/// was written. An empty string clears the key, so that the documented
/// default applies; missing tables on the way are created, except when
/// clearing, where a missing table means there is nothing to do.
pub fn set_value(text: &str, path: &str, value: FormValue) -> (r: Result<String, String>)
    ensures
        edit_parse_failure(text@) matches Some(m) ==> (r matches Err(e) && e@
            == "the specification does not parse: "@ + m),
        r matches Err(e) ==> (edit_parse_failure(text@) is None ==> (exists|k: int|
            0 <= k < split_char(path@, '.').len() - 1 && e@ == not_table_message(
                #[trigger] split_char(path@, '.')[k],
                path@,
            )) || (!is_clearing(value) && assignment_error(path@, value) == Some(e@))),
        edit_parse(text@) matches Ok((m, dm)) ==> if is_clearing(value) {
            &&& (r is Ok) == clearable(m, split_char(path@, '.'))
            &&& r matches Ok(t) ==> exists|d: toml_edit::DocumentMut|
                #[trigger] document_rendering(d) == t@ && document_held(d) == cleared(m, split_char(path@, '.'))
                    && document_decors(d) == cleared_decors(dm, m, split_char(path@, '.'))
        } else {
            &&& (r is Ok) == (walkable(m, split_char(path@, '.')) && assignment_error(path@, value) is None)
            &&& r matches Ok(t) ==> exists|d: toml_edit::DocumentMut|
                #[trigger] document_rendering(d) == t@ && document_held(d) == stored(
                    m,
                    split_char(path@, '.'),
                    form_held(value),
                ) && document_decors(d) == stored_decors(dm, m, split_char(path@, '.'))
        },
{
    let mut document = match parse_document(text) {
        Ok(document) => document,
        Err(m) => {
            let mut e = owned("the specification does not parse: ");
            push_str(&mut e, m.as_str());
            return Err(e);
        },
    };
    let chars = chars_of(path);
    let keys = split_on_char(chars.as_slice(), '.');
    proof {
        crate::text::lemma_split_char_nonempty(path@, '.');
        assert(keys@.map_values(|k: Vec<char>| k@).skip(0) =~= split_char(path@, '.'));
    }
    // Clearing a key removes it rather than writing an empty string.
    let clearing = match &value {
        FormValue::Text(t) => chars_of(t.as_str()).len() == 0,
        _ => false,
    };
    let root = document_root(&mut document);
    let stored = store_at(root, &keys, 0, path, &value, clearing);
    match stored {
        Ok(()) => {},
        Err(e) => {
            proof {
                if !(!clearing && assignment_error(path@, value) == Some(e@)) {
                    let k = choose|k: int| 0 <= k < keys@.len() - 1 && e@ == not_table_message(#[trigger] keys@[k]@, path@);
                    assert(keys@[k]@ == split_char(path@, '.')[k]);
                }
            }
            return Err(e);
        },
    }
    Ok(document_text(&document))
}

// ------------------------------------------------------------------ reads

/// A value read back for the form. Anything that is not a string, an
/// integer, a boolean or an array (whose strings are kept) reads as absent,
/// as does a key that is not there.
#[derive(Debug, Clone, PartialEq, Eq)]
pub enum FieldValue {
    Text(String),
    Integer(i64),
    Flag(bool),
    Texts(Vec<String>),
    Absent,
}

/// `a` begins `b`.
pub open spec fn prefix_of(a: Seq<Seq<char>>, b: Seq<Seq<char>>) -> bool {
    a.len() <= b.len() && b.take(a.len() as int) == a
}

/// Every place on the way to a place is a place too, as it is in a
/// document, where places are reached by walking keys.
pub open spec fn prefix_closed(m: Places) -> bool {
    forall|p: Seq<Seq<char>>, n: int|
        #![trigger m.dom().contains(p), p.take(n)]
        0 <= n <= p.len() && m.dom().contains(p) ==> m.dom().contains(p.take(n))
}

/// The places below a key of a prefix-closed map are prefix-closed.
proof fn lemma_below_closed(m: Places, k0: Seq<char>)
    requires
        prefix_closed(m),
    ensures
        prefix_closed(below(m, k0)),
{
    let c = below(m, k0);
    assert forall|q: Seq<Seq<char>>, n: int|
        #![trigger c.dom().contains(q), q.take(n)]
        0 <= n <= q.len() && c.dom().contains(q) implies c.dom().contains(q.take(n)) by {
        let full = seq![k0] + q;
        assert(m.dom().contains(full));
        assert(m.dom().contains(full.take(n + 1)));
        assert(full.take(n + 1) =~= seq![k0] + q.take(n));
    }
}

/// Keys that agree on the first and continue with a prefix are a prefix.
proof fn lemma_prefix_step(a: Seq<Seq<char>>, b: Seq<Seq<char>>)
    requires
        a.len() > 0,
        b.len() > 0,
        a[0] == b[0],
        prefix_of(a.skip(1), b.skip(1)),
    ensures
        prefix_of(a, b),
{
    assert forall|j: int| 0 <= j < a.len() implies b.take(a.len() as int)[j] == a[j] by {
        if j > 0 {
            assert(b.skip(1).take(a.len() - 1)[j - 1] == a.skip(1)[j - 1]);
        }
    }
    assert(b.take(a.len() as int) =~= a);
}

/// What the form stores at a path is what is then held there, and every
/// place that neither lies on the way to the path nor below it holds what
/// it held before.
pub proof fn law_stored_reads_back(m: Places, keys: Seq<Seq<char>>, h: Places, p: Seq<Seq<char>>)
    requires
        keys.len() > 0,
        prefix_closed(m),
    ensures
        held_at(stored(m, keys, h), keys) == held_at(h, seq![]),
        !prefix_of(p, keys) && !prefix_of(keys, p) ==> held_at(stored(m, keys, h), p) == held_at(m, p),
    decreases keys.len(),
{
    let k0 = keys[0];
    assert(keys.skip(1).len() == keys.len() - 1);
    if keys.len() == 1 {
        assert(keys.skip(1) =~= Seq::<Seq<char>>::empty());
        if under(p, k0) {
            assert(p.take(1) =~= keys);
        }
    } else {
        let c = child_or_table(m, k0);
        lemma_below_closed(m, k0);
        assert(prefix_closed(single(Held::Table))) by {
            assert forall|q: Seq<Seq<char>>, n: int|
                #![trigger single(Held::Table).dom().contains(q), q.take(n)]
                0 <= n <= q.len() && single(Held::Table).dom().contains(q) implies single(Held::Table).dom().contains(
                q.take(n),
            ) by {
                assert(q.take(n) =~= q);
            }
        }
        law_stored_reads_back(c, keys.skip(1), h, p.skip(1));
        if under(p, k0) && !prefix_of(p, keys) && !prefix_of(keys, p) {
            assert(p.len() >= 1);
            if p.len() == 1 {
                assert(keys.take(1) =~= p);
            }
            assert(!prefix_of(p.skip(1), keys.skip(1))) by {
                if prefix_of(p.skip(1), keys.skip(1)) {
                    lemma_prefix_step(p, keys);
                }
            }
            assert(!prefix_of(keys.skip(1), p.skip(1))) by {
                if prefix_of(keys.skip(1), p.skip(1)) {
                    lemma_prefix_step(keys, p);
                }
            }
            assert(seq![k0] + p.skip(1) =~= p);
            if !m.dom().contains(seq![k0]) {
                assert(p.skip(1).len() > 0);
                assert(p.take(1) =~= seq![k0]);
                if m.dom().contains(p) {
                    assert(m.dom().contains(p.take(1)));
                }
            }
        }
    }
}

/// Setting a key keeps the decoration of every value that lies neither at
/// the key nor below it, and a value it overwrites keeps its own, in a
/// document whose decorations belong to places it holds.
pub proof fn law_stored_keeps_decorations(d: Decors, m: Places, keys: Seq<Seq<char>>, p: Seq<Seq<char>>)
    requires
        keys.len() > 0,
        prefix_closed(m),
        forall|q: Seq<Seq<char>>| #[trigger] d.dom().contains(q) ==> m.dom().contains(q),
        d.dom().contains(p),
        !prefix_of(keys, p) || (p == keys && (held_at(m, keys) matches Some(h) && is_value(h))),
    ensures
        stored_decors(d, m, keys).dom().contains(p),
        stored_decors(d, m, keys)[p] == d[p],
    decreases keys.len(),
{
    let k0 = keys[0];
    if under(p, k0) {
        assert(p.take(1) =~= seq![k0]);
        assert(m.dom().contains(p.take(1)));
        assert(seq![k0] + p.skip(1) =~= p);
        if keys.len() == 1 {
            assert(p.take(1) =~= keys);
            assert(p == keys);
            assert(p.skip(1) =~= Seq::<Seq<char>>::empty());
        } else {
            let d1 = below(d, k0);
            let m1 = below(m, k0);
            lemma_below_closed(m, k0);
            assert forall|q: Seq<Seq<char>>| #[trigger] d1.dom().contains(q) implies m1.dom().contains(q) by {
                assert(d.dom().contains(seq![k0] + q));
            }
            assert(seq![k0] + keys.skip(1) =~= keys);
            if prefix_of(keys.skip(1), p.skip(1)) {
                lemma_prefix_step(keys, p);
            }
            if p == keys {
                assert(p.skip(1) == keys.skip(1));
            }
            law_stored_keeps_decorations(d1, m1, keys.skip(1), p.skip(1));
        }
    }
}

/// After a key is cleared nothing is held there, and every place that
/// neither lies on the way to it nor below it holds what it held before.
pub proof fn law_cleared_reads_absent(m: Places, keys: Seq<Seq<char>>, p: Seq<Seq<char>>)
    requires
        keys.len() > 0,
        prefix_closed(m),
    ensures
        held_at(cleared(m, keys), keys) is None,
        !prefix_of(p, keys) && !prefix_of(keys, p) ==> held_at(cleared(m, keys), p) == held_at(m, p),
    decreases keys.len(),
{
    let k0 = keys[0];
    if keys.len() == 1 {
        assert(keys.skip(1) =~= Seq::<Seq<char>>::empty());
        if under(p, k0) {
            assert(p.take(1) =~= keys);
        }
    } else if !m.dom().contains(seq![k0]) {
        assert(keys.take(1) =~= seq![k0]);
        if m.dom().contains(keys) {
            assert(m.dom().contains(keys.take(1)));
        }
    } else {
        let c = below(m, k0);
        lemma_below_closed(m, k0);
        law_cleared_reads_absent(c, keys.skip(1), p.skip(1));
        assert(seq![k0] + keys.skip(1) =~= keys);
        if under(p, k0) && !prefix_of(p, keys) && !prefix_of(keys, p) {
            if p.len() == 1 {
                assert(keys.take(1) =~= p);
            }
            assert(!prefix_of(p.skip(1), keys.skip(1))) by {
                if prefix_of(p.skip(1), keys.skip(1)) {
                    lemma_prefix_step(p, keys);
                }
            }
            assert(!prefix_of(keys.skip(1), p.skip(1))) by {
                if prefix_of(keys.skip(1), p.skip(1)) {
                    lemma_prefix_step(keys, p);
                }
            }
            assert(seq![k0] + p.skip(1) =~= p);
        }
    }
}

/// The strings among an array's elements, in order.
pub open spec fn texts_among(xs: Seq<Option<Seq<char>>>) -> Seq<Seq<char>>
    decreases xs.len(),
{
    if xs.len() == 0 {
        seq![]
    } else {
        match xs.last() {
            Some(t) => texts_among(xs.drop_last()).push(t),
            None => texts_among(xs.drop_last()),
        }
    }
}

/// `f` is what the form reads from what is held at a place: a string, an
/// integer or a boolean as it is, an array as its strings, anything else
/// or nothing as absent.
pub open spec fn field_read(h: Option<Held>, f: FieldValue) -> bool {
    match h {
        Some(Held::Text(t)) => f matches FieldValue::Text(s) && s@ == t,
        Some(Held::Whole(n)) => f == FieldValue::Integer(n),
        Some(Held::Flag(b)) => f == FieldValue::Flag(b),
        Some(Held::List(xs)) => f matches FieldValue::Texts(v) && crate::text::strings_view(v@) == texts_among(xs),
        _ => f is Absent,
    }
}

/// The places seen from the end of `keys`.
pub open spec fn at_path(m: Places, keys: Seq<Seq<char>>) -> Places
    decreases keys.len(),
{
    if keys.len() == 0 {
        m
    } else {
        at_path(below(m, keys[0]), keys.skip(1))
    }
}

/// A place seen from the end of `keys` is the place `keys + q`.
proof fn lemma_at_path(m: Places, keys: Seq<Seq<char>>, q: Seq<Seq<char>>)
    ensures
        at_path(m, keys).dom().contains(q) == m.dom().contains(keys + q),
        at_path(m, keys).dom().contains(q) ==> at_path(m, keys)[q] == m[keys + q],
    decreases keys.len(),
{
    if keys.len() == 0 {
        assert(keys + q =~= q);
    } else {
        lemma_at_path(below(m, keys[0]), keys.skip(1), q);
        assert(seq![keys[0]] + (keys.skip(1) + q) =~= keys + q);
    }
}

/// Walking one key further.
proof fn lemma_at_path_step(m: Places, keys: Seq<Seq<char>>, k: int)
    requires
        0 <= k < keys.len(),
    ensures
        at_path(m, keys.take(k + 1)) == below(at_path(m, keys.take(k)), keys[k]),
    decreases k,
{
    let b = below(m, keys[0]);
    if k == 0 {
        assert(keys.take(1).skip(1) =~= Seq::<Seq<char>>::empty());
        assert(keys.take(0) =~= Seq::<Seq<char>>::empty());
        assert(at_path(b, Seq::<Seq<char>>::empty()) == b);
        assert(at_path(m, keys.take(1)) == at_path(b, keys.take(1).skip(1)));
    } else {
        lemma_at_path_step(b, keys.skip(1), k - 1);
        assert(keys.take(k + 1).skip(1) =~= keys.skip(1).take(k));
        assert(keys.take(k).skip(1) =~= keys.skip(1).take(k - 1));
        assert(keys.skip(1)[k - 1] == keys[k]);
        assert(at_path(m, keys.take(k + 1)) == at_path(b, keys.take(k + 1).skip(1)));
        assert(at_path(m, keys.take(k)) == at_path(b, keys.take(k).skip(1)));
    }
}

fn field_of(value: &EditValue) -> (r: FieldValue)
    ensures
        field_read(held_at(value_held(*value), seq![]), r),
{
    if let Some(text) = value_as_str(value) {
        return FieldValue::Text(text);
    }
    if let Some(number) = value_as_integer(value) {
        return FieldValue::Integer(number);
    }
    if let Some(flag) = value_as_bool(value) {
        return FieldValue::Flag(flag);
    }
    match value_as_array(value) {
        Some(array) => {
            let ghost xs = array_texts(*array);
            let mut texts: Vec<String> = Vec::new();
            let n = array_len(array);
            let mut i: usize = 0;
            while i < n
                invariant
                    i <= n,
                    n == xs.len(),
                    xs == array_texts(*array),
                    crate::text::strings_view(texts@) == texts_among(xs.take(i as int)),
                decreases n - i,
            {
                let ghost before = texts@;
                assert(xs.take(i + 1).drop_last() =~= xs.take(i as int));
                if let Some(item) = array_get(array, i) {
                    if let Some(text) = value_as_str(item) {
                        texts.push(text);
                        assert(crate::text::strings_view(texts@) =~= crate::text::strings_view(before).push(xs[i as int]->0));
                    }
                }
                i = i + 1;
            }
            assert(xs.take(n as int) =~= xs);
            FieldValue::Texts(texts)
        },
        None => FieldValue::Absent,
    }
}

fn field_at(document: &toml_edit::DocumentMut, path: &str) -> (r: FieldValue)
    ensures
        field_read(held_at(document_held(*document), split_char(path@, '.')), r),
{
    let ghost m = document_held(*document);
    let chars = chars_of(path);
    let keys = split_on_char(chars.as_slice(), '.');
    let ghost ks = keys@.map_values(|k: Vec<char>| k@);
    assert(ks == split_char(path@, '.'));
    let mut item = document_item(document);
    assert(ks.take(0) =~= Seq::<Seq<char>>::empty());
    let mut i: usize = 0;
    while i < keys.len()
        invariant
            i <= keys@.len(),
            ks == keys@.map_values(|k: Vec<char>| k@),
            ks == split_char(path@, '.'),
            m == document_held(*document),
            item_held(*item) == at_path(m, ks.take(i as int)),
        decreases keys.len() - i,
    {
        let key = string_from(keys[i].as_slice());
        proof {
            lemma_at_path_step(m, ks, i as int);
        }
        match item_get(item, key.as_str()) {
            Some(next) => {
                item = next;
            },
            None => {
                proof {
                    let q = ks.skip(i + 1);
                    assert(!item_held(*item).dom().contains(seq![key@] + q));
                    lemma_at_path(m, ks.take(i as int), seq![key@] + q);
                    assert(ks.take(i as int) + (seq![key@] + q) =~= ks);
                }
                return FieldValue::Absent;
            },
        }
        i = i + 1;
    }
    proof {
        assert(ks.take(i as int) =~= ks);
        lemma_at_path(m, ks, Seq::<Seq<char>>::empty());
        assert(ks + Seq::<Seq<char>>::empty() =~= ks);
    }
    match item_as_value(item) {
        Some(value) => field_of(value),
        None => FieldValue::Absent,
    }
}

/// Read a set of keys (`a.b.c`) out of a document, for populating the form:
/// one answer per path, in the order asked.
pub fn get_values(text: &str, paths: &Vec<String>) -> (r: Result<Vec<(String, FieldValue)>, String>)
    ensures
        match edit_parse_failure(text@) {
            Some(m) => r matches Err(e) && e@ == "the specification does not parse: "@ + m,
            None => r matches Ok(found) && found@.len() == paths@.len() && forall|i: int|
                0 <= i < paths@.len() ==> (#[trigger] found@[i]).0@ == paths@[i]@,
        },
        edit_parse(text@) matches Ok((m, _)) ==> (r matches Ok(found) && forall|i: int|
            0 <= i < paths@.len() ==> field_read(held_at(m, split_char(paths@[i]@, '.')), (#[trigger] found@[i]).1)),
{
    let document = match parse_document(text) {
        Ok(document) => document,
        Err(m) => {
            let mut e = owned("the specification does not parse: ");
            push_str(&mut e, m.as_str());
            return Err(e);
        },
    };
    let mut found: Vec<(String, FieldValue)> = Vec::new();
    let mut i: usize = 0;
    while i < paths.len()
        invariant
            i <= paths@.len(),
            found@.len() == i,
            forall|j: int| 0 <= j < i ==> (#[trigger] found@[j]).0@ == paths@[j]@,
            edit_parse(text@) == Ok::<(Places, Decors), Seq<char>>((document_held(document), document_decors(document))),
            forall|j: int| 0 <= j < i ==> field_read(held_at(document_held(document), split_char(paths@[j]@, '.')), (#[trigger] found@[j]).1),
        decreases paths.len() - i,
    {
        let value = field_at(&document, paths[i].as_str());
        found.push((owned(paths[i].as_str()), value));
        i = i + 1;
    }
    Ok(found)
}

} // verus!
