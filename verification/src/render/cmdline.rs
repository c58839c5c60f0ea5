//! Token-level editing of `cmdline.txt`.
//!
//! The kernel command line is a single whitespace-separated line. Editing it
//! as tokens rather than with a regular expression keeps the operation
//! idempotent and preserves everything the distribution put there.

use vstd::prelude::*;
use crate::num::decimal;
use crate::render::Layout;
use crate::text::push_str;
use crate::specification::model::{Spec, Uart};
use crate::text::{
    chars_eq, chars_of, chars_slice, chars_starts_with, chars_contain, is_word, join_space, join_with_space,
    lemma_tokens_join, lemma_word_len, owned, split_tokens, starts_with, string_from, tokens,
    trim, trim_chars, word_len, is_ws, trim_end, trim_start, strings_view, str_eq,
};

verus! {

/// Edits to apply, in order: removals first, then appends.
#[derive(Debug, Clone, PartialEq, Eq)]
pub struct Ops {
    /// Drop any token starting with one of these prefixes.
    pub remove_prefixes: Vec<String>,
    /// Drop tokens equal to one of these.
    pub remove_tokens: Vec<String>,
    /// Append these tokens if they are not already present.
    pub append: Vec<String>,
}


impl Ops {
    pub open spec fn prefixes(&self) -> Seq<Seq<char>> {
        strings_view(self.remove_prefixes@)
    }

    pub open spec fn dead(&self) -> Seq<Seq<char>> {
        strings_view(self.remove_tokens@)
    }

    pub open spec fn additions(&self) -> Seq<Seq<char>> {
        strings_view(self.append@)
    }

    /// Whether the token matches a removal: one of the prefixes, or one of
    /// the tokens to remove.
    pub open spec fn removes(&self, token: Seq<char>) -> bool {
        (exists|i: int| 0 <= i < self.prefixes().len() && starts_with(token, self.prefixes()[i]))
            || self.dead().contains(token)
    }

    /// The words these edits append: each addition split at whitespace.
    pub open spec fn appended(&self) -> Seq<Seq<char>> {
        words_of(self.additions())
    }

    /// Whether these edits drop the token: it matches a removal and is not
    /// one of the words they append, which stays where it is.
    pub open spec fn drops(&self, token: Seq<char>) -> bool {
        self.removes(token) && !self.appended().contains(token)
    }

    /// An empty set of edits.
    pub fn empty() -> (ops: Ops)
        ensures
            ops.prefixes() == Seq::<Seq<char>>::empty(),
            ops.dead() == Seq::<Seq<char>>::empty(),
            ops.additions() == Seq::<Seq<char>>::empty(),
    {
        let ops = Ops { remove_prefixes: Vec::new(), remove_tokens: Vec::new(), append: Vec::new() };
        assert(ops.prefixes() =~= Seq::<Seq<char>>::empty());
        assert(ops.dead() =~= Seq::<Seq<char>>::empty());
        assert(ops.additions() =~= Seq::<Seq<char>>::empty());
        ops
    }
}

impl Default for Ops {
    /// No edits at all.
    fn default() -> (ops: Ops)
        ensures
            ops.prefixes() == Seq::<Seq<char>>::empty(),
            ops.dead() == Seq::<Seq<char>>::empty(),
            ops.additions() == Seq::<Seq<char>>::empty(),
    {
        Ops::empty()
    }
}

/// The words of each text in turn.
pub open spec fn words_of(texts: Seq<Seq<char>>) -> Seq<Seq<char>>
    decreases texts.len(),
{
    if texts.len() == 0 {
        seq![]
    } else {
        words_of(texts.drop_last()) + tokens(texts.last())
    }
}

/// The tokens that survive the removals, in order.
pub open spec fn kept_tokens(ts: Seq<Seq<char>>, ops: Ops) -> Seq<Seq<char>>
    decreases ts.len(),
{
    if ts.len() == 0 {
        seq![]
    } else {
        let rest = kept_tokens(ts.drop_last(), ops);
        if ops.drops(ts.last()) {
            rest
        } else {
            rest.push(ts.last())
        }
    }
}

/// Append each of `add` that is not already present, in order.
pub open spec fn append_missing(cur: Seq<Seq<char>>, add: Seq<Seq<char>>) -> Seq<Seq<char>>
    decreases add.len(),
{
    if add.len() == 0 {
        cur
    } else {
        let next = if cur.contains(add[0]) {
            cur
        } else {
            cur.push(add[0])
        };
        append_missing(next, add.drop_first())
    }
}

/// The tokens of the edited command line.
pub open spec fn edited_tokens(existing: Seq<char>, ops: Ops) -> Seq<Seq<char>> {
    append_missing(kept_tokens(tokens(trim(existing)), ops), ops.appended())
}

/// What `apply` produces: `None` when the input spans more than one line.
pub open spec fn spec_apply(existing: Seq<char>, ops: Ops) -> Option<Seq<char>> {
    if trim(existing).contains('\n') {
        None
    } else {
        Some(join_space(edited_tokens(existing, ops)).push('\n'))
    }
}

fn strings_to_chars(v: &Vec<String>) -> (r: Vec<Vec<char>>)
    ensures
        r@.map_values(|t: Vec<char>| t@) == strings_view(v@),
{
    let mut r: Vec<Vec<char>> = Vec::new();
    let mut i: usize = 0;
    while i < v.len()
        invariant
            i <= v.len(),
            r@.map_values(|t: Vec<char>| t@) == strings_view(v@).take(i as int),
        decreases v.len() - i,
    {
        let c = chars_of(v[i].as_str());
        assert(c@ == v@[i as int]@);
        let ghost old_r = r@;
        r.push(c);
        assert(r@.map_values(|t: Vec<char>| t@) =~= old_r.map_values(|t: Vec<char>| t@).push(
            v@[i as int]@,
        ));
        assert(strings_view(v@).take(i + 1) =~= strings_view(v@).take(i as int).push(v@[i as int]@));
        i = i + 1;
    }
    assert(strings_view(v@).take(v.len() as int) =~= strings_view(v@));
    r
}

fn contains_chars(list: &Vec<Vec<char>>, t: &[char]) -> (r: bool)
    ensures
        r == list@.map_values(|x: Vec<char>| x@).contains(t@),
{
    let ghost view = list@.map_values(|x: Vec<char>| x@);
    let mut i: usize = 0;
    while i < list.len()
        invariant
            i <= list.len(),
            view == list@.map_values(|x: Vec<char>| x@),
            forall|j: int| 0 <= j < i ==> view[j] != t@,
        decreases list.len() - i,
    {
        if chars_eq(list[i].as_slice(), t) {
            assert(view[i as int] == t@);
            return true;
        }
        i = i + 1;
    }
    false
}

fn removes_exec(prefixes: &Vec<Vec<char>>, dead: &Vec<Vec<char>>, t: &[char], ops: &Ops) -> (r:
    bool)
    requires
        prefixes@.map_values(|x: Vec<char>| x@) == ops.prefixes(),
        dead@.map_values(|x: Vec<char>| x@) == ops.dead(),
    ensures
        r == ops.removes(t@),
{
    let mut i: usize = 0;
    while i < prefixes.len()
        invariant
            i <= prefixes.len(),
            prefixes@.map_values(|x: Vec<char>| x@) == ops.prefixes(),
            forall|j: int| 0 <= j < i ==> !starts_with(t@, #[trigger] ops.prefixes()[j]),
        decreases prefixes.len() - i,
    {
        if chars_starts_with(t, prefixes[i].as_slice()) {
            assert(starts_with(t@, ops.prefixes()[i as int]));
            return true;
        }
        i = i + 1;
    }
    contains_chars(dead, t)
}

/// The words of the additions, in order.
fn appended_words(append: &Vec<String>) -> (r: Vec<Vec<char>>)
    ensures
        r@.map_values(|t: Vec<char>| t@) == words_of(strings_view(append@)),
{
    let ghost texts = strings_view(append@);
    let mut r: Vec<Vec<char>> = Vec::new();
    let mut i: usize = 0;
    assert(r@.map_values(|t: Vec<char>| t@) =~= words_of(texts.take(0)));
    while i < append.len()
        invariant
            i <= append.len(),
            texts == strings_view(append@),
            r@.map_values(|t: Vec<char>| t@) == words_of(texts.take(i as int)),
        decreases append.len() - i,
    {
        let c = chars_of(append[i].as_str());
        let words = split_tokens(c.as_slice());
        let ghost before = r@.map_values(|t: Vec<char>| t@);
        let mut k: usize = 0;
        while k < words.len()
            invariant
                k <= words.len(),
                r@.map_values(|t: Vec<char>| t@) == before + words@.map_values(|t: Vec<char>| t@).take(k as int),
            decreases words.len() - k,
        {
            let w = chars_slice(words[k].as_slice(), 0, words[k].len());
            assert(w@ =~= words[k as int]@);
            let ghost mid = r@;
            r.push(w);
            assert(r@.map_values(|t: Vec<char>| t@) =~= mid.map_values(|t: Vec<char>| t@).push(w@));
            assert(words@.map_values(|t: Vec<char>| t@).take(k + 1) =~= words@.map_values(|t: Vec<char>| t@).take(
                k as int,
            ).push(w@));
            k = k + 1;
        }
        proof {
            assert(words@.map_values(|t: Vec<char>| t@).take(words.len() as int) =~= words@.map_values(
                |t: Vec<char>| t@,
            ));
            assert(texts.take(i + 1).drop_last() =~= texts.take(i as int));
            assert(texts.take(i + 1).last() == c@);
        }
        i = i + 1;
    }
    assert(texts.take(append.len() as int) =~= texts);
    r
}

/// Apply `ops` to an existing command line, returning the new file content.
pub fn apply(existing: &str, ops: &Ops) -> (r: Result<String, String>)
    ensures
        match spec_apply(existing@, *ops) {
            Some(text) => r matches Ok(out) && out@ == text,
            None => r matches Err(message) && message@ == "cmdline.txt must contain exactly one line"@,
        },
{
    let chars = chars_of(existing);
    let trimmed = trim_chars(chars.as_slice());
    if chars_contain(trimmed.as_slice(), '\n') {
        return Err(owned("cmdline.txt must contain exactly one line"));
    }
    let all = split_tokens(trimmed.as_slice());
    let ghost all_view = all@.map_values(|t: Vec<char>| t@);
    let prefixes = strings_to_chars(&ops.remove_prefixes);
    let dead = strings_to_chars(&ops.remove_tokens);
    let additions = appended_words(&ops.append);

    let mut kept: Vec<Vec<char>> = Vec::new();
    let mut i: usize = 0;
    while i < all.len()
        invariant
            i <= all.len(),
            all_view == all@.map_values(|t: Vec<char>| t@),
            prefixes@.map_values(|x: Vec<char>| x@) == ops.prefixes(),
            dead@.map_values(|x: Vec<char>| x@) == ops.dead(),
            additions@.map_values(|x: Vec<char>| x@) == ops.appended(),
            kept@.map_values(|t: Vec<char>| t@) == kept_tokens(all_view.take(i as int), *ops),
        decreases all.len() - i,
    {
        let t = chars_slice(all[i].as_slice(), 0, all[i].len());
        assert(t@ =~= all[i as int]@);
        assert(all_view.take(i + 1).drop_last() =~= all_view.take(i as int));
        assert(all_view.take(i + 1).last() == t@);
        if !removes_exec(&prefixes, &dead, t.as_slice(), ops) || contains_chars(&additions, t.as_slice()) {
            let ghost before = kept@;
            kept.push(t);
            assert(kept@.map_values(|x: Vec<char>| x@) =~= before.map_values(|x: Vec<char>| x@).push(t@));
        }
        i = i + 1;
    }
    assert(all_view.take(all.len() as int) =~= all_view);

    let ghost add_view = additions@.map_values(|t: Vec<char>| t@);
    let ghost start = kept@.map_values(|t: Vec<char>| t@);
    let mut j: usize = 0;
    assert(add_view.skip(0) =~= add_view);
    while j < additions.len()
        invariant
            j <= additions.len(),
            add_view == additions@.map_values(|t: Vec<char>| t@),
            append_missing(start, add_view) == append_missing(
                kept@.map_values(|t: Vec<char>| t@),
                add_view.skip(j as int),
            ),
        decreases additions.len() - j,
    {
        let t = chars_slice(additions[j].as_slice(), 0, additions[j].len());
        assert(t@ =~= additions[j as int]@);
        let ghost rest = add_view.skip(j as int);
        assert(rest[0] == t@);
        assert(rest.drop_first() =~= add_view.skip(j + 1));
        if !contains_chars(&kept, t.as_slice()) {
            let ghost before = kept@;
            kept.push(t);
            assert(kept@.map_values(|x: Vec<char>| x@) =~= before.map_values(|x: Vec<char>| x@).push(t@));
        }
        j = j + 1;
    }
    assert(add_view.skip(additions.len() as int) =~= Seq::<Seq<char>>::empty());

    let mut line = join_with_space(&kept);
    line.push('\n');
    Ok(string_from(line.as_slice()))
}

/// Remove the first-boot hooks, as the runner does on the device.
pub fn cleanup_ops() -> (ops: Ops)
    ensures
        ops.prefixes() == seq![
            "systemd.run="@,
            "systemd.run_success_action="@,
            "systemd.unit="@,
        ],
        ops.dead() == Seq::<Seq<char>>::empty(),
        ops.additions() == Seq::<Seq<char>>::empty(),
{
    let mut remove_prefixes: Vec<String> = Vec::new();
    remove_prefixes.push(owned("systemd.run="));
    remove_prefixes.push(owned("systemd.run_success_action="));
    remove_prefixes.push(owned("systemd.unit="));
    let ops = Ops { remove_prefixes, remove_tokens: Vec::new(), append: Vec::new() };
    assert(ops.prefixes() =~= seq![
        "systemd.run="@,
        "systemd.run_success_action="@,
        "systemd.unit="@,
    ]);
    assert(ops.dead() =~= Seq::<Seq<char>>::empty());
    assert(ops.additions() =~= Seq::<Seq<char>>::empty());
    ops
}

// ------------------------------------------------------------------ proofs

pub proof fn lemma_tokens_are_words(s: Seq<char>)
    ensures
        forall|i: int| 0 <= i < tokens(s).len() ==> is_word(#[trigger] tokens(s)[i]),
    decreases s.len(),
{
    if s.len() > 0 {
        if is_ws(s[0]) {
            lemma_tokens_are_words(s.drop_first());
            assert(tokens(s) == tokens(s.drop_first()));
        } else {
            lemma_word_len(s);
            let k = word_len(s);
            lemma_tokens_are_words(s.skip(k as int));
            let head = s.take(k as int);
            assert(k > 0) by {
                assert(word_len(s) == 1 + word_len(s.drop_first()));
            }
            assert(tokens(s) == seq![head] + tokens(s.skip(k as int)));
            assert(is_word(head)) by {
                assert forall|j: int| 0 <= j < head.len() implies !is_ws(#[trigger] head[j]) by {
                    assert(head[j] == s[j]);
                }
            }
            assert forall|i: int| 0 <= i < tokens(s).len() implies is_word(#[trigger] tokens(s)[i]) by {
                if i == 0 {
                    assert(tokens(s)[0] == head);
                } else {
                    assert(tokens(s)[i] == tokens(s.skip(k as int))[i - 1]);
                }
            }
        }
    }
}

proof fn lemma_kept_tokens_append(a: Seq<Seq<char>>, b: Seq<Seq<char>>, ops: Ops)
    ensures
        kept_tokens(a + b, ops) == kept_tokens(a, ops) + kept_tokens(b, ops),
    decreases b.len(),
{
    if b.len() == 0 {
        assert(a + b =~= a);
        assert(kept_tokens(a, ops) + kept_tokens(b, ops) =~= kept_tokens(a, ops));
    } else {
        assert((a + b).drop_last() =~= a + b.drop_last());
        assert((a + b).last() == b.last());
        lemma_kept_tokens_append(a, b.drop_last(), ops);
        if !ops.drops(b.last()) {
            assert(kept_tokens(a, ops) + kept_tokens(b.drop_last(), ops).push(b.last())
                =~= (kept_tokens(a, ops) + kept_tokens(b.drop_last(), ops)).push(b.last()));
        }
    }
}

proof fn lemma_kept_tokens_all(ts: Seq<Seq<char>>, ops: Ops)
    ensures
        (forall|i: int| 0 <= i < ts.len() ==> !ops.drops(#[trigger] ts[i])) ==> kept_tokens(ts, ops)
            == ts,
        (forall|i: int| 0 <= i < ts.len() ==> ops.drops(#[trigger] ts[i])) ==> kept_tokens(ts, ops)
            == Seq::<Seq<char>>::empty(),
        forall|i: int|
            0 <= i < kept_tokens(ts, ops).len() ==> ts.contains(#[trigger] kept_tokens(ts, ops)[i])
                && !ops.drops(kept_tokens(ts, ops)[i]),
    decreases ts.len(),
{
    if ts.len() > 0 {
        let init = ts.drop_last();
        lemma_kept_tokens_all(init, ops);
        assert forall|i: int| 0 <= i < init.len() implies #[trigger] init[i] == ts[i] by {}
        if forall|i: int| 0 <= i < ts.len() ==> !ops.drops(#[trigger] ts[i]) {
            assert(!ops.drops(ts[ts.len() - 1]));
            assert(init.push(ts.last()) =~= ts);
        }
        if forall|i: int| 0 <= i < ts.len() ==> ops.drops(#[trigger] ts[i]) {
            assert(ops.drops(ts[ts.len() - 1]));
        }
        let k = kept_tokens(ts, ops);
        assert forall|i: int| 0 <= i < k.len() implies ts.contains(#[trigger] k[i]) && !ops.drops(
            k[i],
        ) by {
            if i < kept_tokens(init, ops).len() {
                assert(k[i] == kept_tokens(init, ops)[i]);
                let j = choose|j: int| 0 <= j < init.len() && init[j] == k[i];
                assert(ts[j] == k[i]);
            } else {
                assert(k[i] == ts.last());
                assert(ts[ts.len() - 1] == k[i]);
            }
        }
    } else {
        assert(ts =~= Seq::<Seq<char>>::empty());
    }
}

proof fn lemma_append_missing_concat(cur: Seq<Seq<char>>, a: Seq<Seq<char>>, b: Seq<Seq<char>>)
    ensures
        append_missing(cur, a + b) == append_missing(append_missing(cur, a), b),
    decreases a.len(),
{
    if a.len() == 0 {
        assert(a + b =~= b);
    } else {
        assert((a + b)[0] == a[0]);
        assert((a + b).drop_first() =~= a.drop_first() + b);
        let next = if cur.contains(a[0]) {
            cur
        } else {
            cur.push(a[0])
        };
        lemma_append_missing_concat(next, a.drop_first(), b);
    }
}

proof fn lemma_append_missing_present(cur: Seq<Seq<char>>, add: Seq<Seq<char>>)
    requires
        forall|i: int| 0 <= i < add.len() ==> cur.contains(#[trigger] add[i]),
    ensures
        append_missing(cur, add) == cur,
    decreases add.len(),
{
    if add.len() > 0 {
        assert(cur.contains(add[0]));
        assert forall|i: int| 0 <= i < add.drop_first().len() implies cur.contains(
            #[trigger] add.drop_first()[i],
        ) by {
            assert(add.drop_first()[i] == add[i + 1]);
        }
        lemma_append_missing_present(cur, add.drop_first());
    }
}

/// `append_missing` extends `cur` with elements of `add`, after which every
/// element of `add` is present.
proof fn lemma_append_missing_shape(cur: Seq<Seq<char>>, add: Seq<Seq<char>>)
    ensures
        append_missing(cur, add).len() >= cur.len(),
        append_missing(cur, add).take(cur.len() as int) == cur,
        forall|i: int|
            cur.len() <= i < append_missing(cur, add).len() ==> add.contains(
                #[trigger] append_missing(cur, add)[i],
            ),
        forall|i: int| 0 <= i < add.len() ==> append_missing(cur, add).contains(#[trigger] add[i]),
    decreases add.len(),
{
    if add.len() == 0 {
        assert(cur.take(cur.len() as int) =~= cur);
    } else {
        let rest = add.drop_first();
        let next = if cur.contains(add[0]) {
            cur
        } else {
            cur.push(add[0])
        };
        lemma_append_missing_shape(next, rest);
        let r = append_missing(cur, add);
        assert(r == append_missing(next, rest));
        assert(r.take(cur.len() as int) =~= cur) by {
            assert(r.take(next.len() as int) == next);
            assert forall|i: int| 0 <= i < cur.len() implies r[i] == cur[i] by {
                assert(r[i] == r.take(next.len() as int)[i]);
                assert(next[i] == cur[i]);
            }
        }
        assert forall|i: int| cur.len() <= i < r.len() implies add.contains(#[trigger] r[i]) by {
            if i < next.len() {
                assert(r[i] == r.take(next.len() as int)[i]);
                assert(next[i] == add[0]);
            } else {
                let j = choose|j: int| 0 <= j < rest.len() && rest[j] == r[i];
                assert(add[j + 1] == r[i]);
            }
        }
        assert forall|i: int| 0 <= i < add.len() implies r.contains(#[trigger] add[i]) by {
            if i == 0 {
                let j: int = if cur.contains(add[0]) {
                    choose|j: int| 0 <= j < cur.len() && cur[j] == add[0]
                } else {
                    cur.len() as int
                };
                assert(next[j] == add[0]);
                assert(r.take(next.len() as int)[j] == next[j]);
                assert(r[j] == r.take(next.len() as int)[j]);
            } else {
                assert(add[i] == rest[i - 1]);
            }
        }
    }
}

proof fn lemma_join_edges(ts: Seq<Seq<char>>)
    requires
        forall|i: int| 0 <= i < ts.len() ==> is_word(#[trigger] ts[i]),
    ensures
        ts.len() == 0 ==> join_space(ts).len() == 0,
        ts.len() > 0 ==> join_space(ts).len() > 0 && !is_ws(join_space(ts)[0]) && !is_ws(
            join_space(ts).last(),
        ),
    decreases ts.len(),
{
    if ts.len() > 1 {
        let rest = ts.drop_first();
        assert forall|i: int| 0 <= i < rest.len() implies is_word(#[trigger] rest[i]) by {
            assert(rest[i] == ts[i + 1]);
        }
        lemma_join_edges(rest);
        assert(is_word(ts[0]));
        let j = join_space(ts);
        assert(j == ts[0] + seq![' '] + join_space(rest));
        assert(j[0] == ts[0][0]);
        assert(j.last() == join_space(rest).last());
    } else if ts.len() == 1 {
        assert(is_word(ts[0]));
        assert(ts[0][0] == join_space(ts)[0]);
        assert(ts[0][ts[0].len() - 1] == join_space(ts).last());
    }
}

proof fn lemma_trim_joined_line(ts: Seq<Seq<char>>)
    requires
        forall|i: int| 0 <= i < ts.len() ==> is_word(#[trigger] ts[i]),
    ensures
        trim(join_space(ts).push('\n')) == join_space(ts),
{
    lemma_join_edges(ts);
    let j = join_space(ts);
    let line = j.push('\n');
    assert(line.drop_last() =~= j);
    assert(trim_end(line) == trim_end(j));
    if j.len() > 0 {
        assert(trim_end(j) == j);
        assert(trim_start(j) == j);
    } else {
        assert(trim_end(j) =~= j);
        assert(trim_start(j) =~= j);
    }
}

/// Every word of some texts is a word.
proof fn lemma_words_are_words(texts: Seq<Seq<char>>)
    ensures
        forall|i: int| 0 <= i < words_of(texts).len() ==> is_word(#[trigger] words_of(texts)[i]),
    decreases texts.len(),
{
    if texts.len() > 0 {
        lemma_words_are_words(texts.drop_last());
        lemma_tokens_are_words(texts.last());
        let w = words_of(texts);
        let init = words_of(texts.drop_last());
        assert forall|i: int| 0 <= i < w.len() implies is_word(#[trigger] w[i]) by {
            if i < init.len() {
                assert(w[i] == init[i]);
            } else {
                assert(w[i] == tokens(texts.last())[i - init.len()]);
            }
        }
    }
}

/// Editing the command line a second time with the same edits changes
/// nothing.
pub proof fn lemma_apply_idempotent(existing: Seq<char>, ops: Ops)
    requires
        spec_apply(existing, ops) is Some,
    ensures
        spec_apply(spec_apply(existing, ops).unwrap(), ops) == spec_apply(existing, ops),
{
    let w = ops.appended();
    lemma_words_are_words(ops.additions());
    let all = tokens(trim(existing));
    lemma_tokens_are_words(trim(existing));
    let f = kept_tokens(all, ops);
    lemma_kept_tokens_all(all, ops);
    let result = append_missing(f, w);
    lemma_append_missing_shape(f, w);
    assert(result == edited_tokens(existing, ops));
    // Every token of the result is a word that the edits keep.
    assert forall|i: int| 0 <= i < result.len() implies is_word(#[trigger] result[i]) && !ops.drops(result[i]) by {
        if i < f.len() {
            assert(result[i] == result.take(f.len() as int)[i]);
            let j = choose|j: int| 0 <= j < all.len() && all[j] == f[i];
        } else {
            let j = choose|j: int| 0 <= j < w.len() && w[j] == result[i];
        }
    }
    let line = join_space(result).push('\n');
    lemma_trim_joined_line(result);
    lemma_tokens_join(result);
    assert(!trim(line).contains('\n')) by {
        if trim(line).contains('\n') {
            let k = choose|k: int| 0 <= k < trim(line).len() && trim(line)[k] == '\n';
            lemma_join_member(result, k);
        }
    }
    lemma_kept_tokens_all(result, ops);
    assert(kept_tokens(result, ops) == result);
    lemma_append_missing_present(result, w);
}

/// A line break never occurs in a space-joined sequence of words.
proof fn lemma_join_member(ts: Seq<Seq<char>>, k: int)
    requires
        forall|i: int| 0 <= i < ts.len() ==> is_word(#[trigger] ts[i]),
        0 <= k < join_space(ts).len(),
    ensures
        !is_ws(join_space(ts)[k]) || join_space(ts)[k] == ' ',
    decreases ts.len(),
{
    if ts.len() == 1 {
        assert(is_word(ts[0]));
    } else if ts.len() > 1 {
        let rest = ts.drop_first();
        assert forall|i: int| 0 <= i < rest.len() implies is_word(#[trigger] rest[i]) by {
            assert(rest[i] == ts[i + 1]);
        }
        assert(is_word(ts[0]));
        let j = join_space(ts);
        let n = ts[0].len();
        if k < n {
            assert(j[k] == ts[0][k]);
        } else if k > n {
            assert(j[k] == join_space(rest)[k - n - 1]);
            lemma_join_member(rest, k - n - 1);
        }
    }
}


// ---------------------------------------------------- edits for a spec

/// The console tokens to drop: the GPIO console is re-added with its rate,
/// and without any console the stock one goes too.
pub open spec fn console_prefixes(uart: Uart) -> Seq<Seq<char>> {
    if uart.console {
        seq!["console=serial0"@, "console=ttyAMA0"@]
    } else if !uart.debug_connector {
        seq!["console=serial0"@, "console=ttyAMA0"@, "console=ttyAMA10"@]
    } else {
        seq![]
    }
}

/// The first-boot hooks, pointing at the runner below `runtime_dir`.
pub open spec fn hook_tokens(runtime_dir: Seq<char>) -> Seq<Seq<char>> {
    seq![
        "systemd.run="@ + runtime_dir + "/firstrun.sh"@,
        "systemd.run_success_action=reboot"@,
        "systemd.unit=kernel-command-line.target"@,
    ]
}

pub open spec fn hook_prefixes() -> Seq<Seq<char>> {
    seq!["systemd.run="@, "systemd.run_success_action="@, "systemd.unit="@]
}

/// The tokens `ops` appends for a specification.
pub open spec fn spec_additions(spec: Spec, runtime_dir: Seq<char>) -> Seq<Seq<char>> {
    let uart = spec.hardware.uart;
    append_missing(
        (if uart.console {
            seq!["console=ttyAMA0,"@ + decimal(uart.baudrate as nat)]
        } else {
            seq![]
        }) + hook_tokens(runtime_dir),
        strings_view(spec.hardware.cmdline_append@),
    )
}

fn push_owned(v: &mut Vec<String>, s: &str)
    ensures
        strings_view(final(v)@) == strings_view(old(v)@).push(s@),
{
    v.push(owned(s));
    assert(strings_view(final(v)@) =~= strings_view(old(v)@).push(s@));
}

fn contains_string(v: &Vec<String>, s: &str) -> (r: bool)
    ensures
        r == strings_view(v@).contains(s@),
{
    let mut i: usize = 0;
    while i < v.len()
        invariant
            i <= v@.len(),
            forall|k: int| 0 <= k < i ==> strings_view(v@)[k] != s@,
        decreases v.len() - i,
    {
        if str_eq(v[i].as_str(), s) {
            assert(strings_view(v@)[i as int] == s@);
            return true;
        }
        i = i + 1;
    }
    false
}

/// Derive the command line edits for a specification.
pub fn ops(spec: &Spec, layout: &Layout) -> (o: Ops)
    ensures
        o.prefixes() == hook_prefixes() + console_prefixes(spec.hardware.uart),
        o.dead() == strings_view(spec.hardware.cmdline_remove@),
        o.additions() == spec_additions(*spec, layout.runtime_dir@),
{
    let mut remove_prefixes: Vec<String> = Vec::new();
    push_owned(&mut remove_prefixes, "systemd.run=");
    push_owned(&mut remove_prefixes, "systemd.run_success_action=");
    push_owned(&mut remove_prefixes, "systemd.unit=");
    let mut append: Vec<String> = Vec::new();
    let uart = &spec.hardware.uart;
    let ghost start = strings_view(remove_prefixes@);
    if uart.console {
        push_owned(&mut remove_prefixes, "console=serial0");
        push_owned(&mut remove_prefixes, "console=ttyAMA0");
        let mut token = owned("console=ttyAMA0,");
        let rate = crate::num::u64_to_string(uart.baudrate as u64);
        push_str(&mut token, rate.as_str());
        push_owned(&mut append, token.as_str());
    } else if !uart.debug_connector {
        push_owned(&mut remove_prefixes, "console=serial0");
        push_owned(&mut remove_prefixes, "console=ttyAMA0");
        push_owned(&mut remove_prefixes, "console=ttyAMA10");
    }
    assert(strings_view(remove_prefixes@) =~= hook_prefixes() + console_prefixes(spec.hardware.uart));
    let mut remove_tokens: Vec<String> = Vec::new();
    let mut i: usize = 0;
    while i < spec.hardware.cmdline_remove.len()
        invariant
            i <= spec.hardware.cmdline_remove@.len(),
            strings_view(remove_tokens@) == strings_view(spec.hardware.cmdline_remove@).take(i as int),
        decreases spec.hardware.cmdline_remove.len() - i,
    {
        push_owned(&mut remove_tokens, spec.hardware.cmdline_remove[i].as_str());
        i = i + 1;
        assert(strings_view(remove_tokens@) =~= strings_view(spec.hardware.cmdline_remove@).take(i as int));
    }
    assert(strings_view(spec.hardware.cmdline_remove@).take(i as int) =~= strings_view(spec.hardware.cmdline_remove@));
    let hook = {
        let mut t = owned("systemd.run=");
        push_str(&mut t, layout.runtime_dir.as_str());
        push_str(&mut t, "/firstrun.sh");
        t
    };
    push_owned(&mut append, hook.as_str());
    push_owned(&mut append, "systemd.run_success_action=reboot");
    push_owned(&mut append, "systemd.unit=kernel-command-line.target");
    let ghost base = strings_view(append@);
    assert(base =~= (if uart.console {
        seq!["console=ttyAMA0,"@ + decimal(uart.baudrate as nat)]
    } else {
        seq![]
    }) + hook_tokens(layout.runtime_dir@));
    let ghost extra = strings_view(spec.hardware.cmdline_append@);
    let mut k: usize = 0;
    assert(extra.take(0) =~= seq![]);
    while k < spec.hardware.cmdline_append.len()
        invariant
            k <= spec.hardware.cmdline_append@.len(),
            extra == strings_view(spec.hardware.cmdline_append@),
            strings_view(append@) == append_missing(base, extra.take(k as int)),
        decreases spec.hardware.cmdline_append.len() - k,
    {
        let token = spec.hardware.cmdline_append[k].as_str();
        proof {
            let x = extra[k as int];
            let cur = append_missing(base, extra.take(k as int));
            lemma_append_missing_concat(base, extra.take(k as int), seq![x]);
            assert(extra.take(k as int) + seq![x] =~= extra.take(k + 1));
            assert(seq![x].drop_first() =~= Seq::<Seq<char>>::empty());
            let next = if cur.contains(x) {
                cur
            } else {
                cur.push(x)
            };
            assert(append_missing(next, Seq::<Seq<char>>::empty()) == next);
            assert(append_missing(cur, seq![x]) == next);
            assert(token@ == x);
        }
        if !contains_string(&append, token) {
            push_owned(&mut append, token);
        }
        k = k + 1;
    }
    assert(extra.take(k as int) =~= extra);
    Ops { remove_prefixes, remove_tokens, append }
}

} // verus!
