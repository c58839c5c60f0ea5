//! Generation and idempotent merging of the `config.txt` managed block.
//!
//! The block is always placed at the end of the file. `config.txt` conditional
//! filters (`[all]`, `[cm5]`, …) are sticky, so appending is the only position
//! where the block cannot silently change the scope of lines written by
//! somebody else.

use vstd::prelude::*;
use crate::apply::backup::joined_lines;
use crate::num::decimal;
use crate::render::GENERATOR;
use crate::specification::model::{Hardware, Spec};
use crate::text::{
    chars_eq, chars_of, first_line_len, chars_slice, extend_chars, is_ws, lemma_first_line_len,
    lemma_first_line_len_at, lemma_first_line_len_none, lemma_flatten_append, lemma_flatten_cons,
    lemma_lines_incl_append, lemma_lines_incl_flatten, lines_incl, push_str, split_lines_incl,
    string_from, trim_end, trim_end_len, trim_end_newlines, trim_end_newlines_len, owned, strings_view,
};

verus! {

pub const BEGIN: &'static str = "# >>> rpi-provision managed block; generated, do not edit >>>";

pub const END: &'static str = "# <<< rpi-provision managed block <<<";

// ------------------------------------------------------------------ model

/// Index of the first line whose trailing-whitespace-trimmed text is `m`.
pub open spec fn first_marker(lines: Seq<Seq<char>>, m: Seq<char>) -> Option<int>
    decreases lines.len(),
{
    if lines.len() == 0 {
        None
    } else if trim_end(lines[0]) == m {
        Some(0)
    } else {
        match first_marker(lines.drop_first(), m) {
            Some(i) => Some(i + 1),
            None => None,
        }
    }
}

/// The text outside the first managed block, or `None` when the markers
/// are unbalanced or inverted.
pub open spec fn kept_text(existing: Seq<char>) -> Option<Seq<char>> {
    let lines = lines_incl(existing);
    match (first_marker(lines, BEGIN@), first_marker(lines, END@)) {
        (Some(b), Some(e)) => if e >= b {
            Some((lines.take(b) + lines.skip(e + 1)).flatten())
        } else {
            None
        },
        (None, None) => Some(existing),
        _ => None,
    }
}

/// `kept` with trailing line breaks collapsed to one, followed by `block`,
/// ending with a line break.
pub open spec fn place_block(kept: Seq<char>, block: Seq<char>) -> Seq<char> {
    let base = trim_end_newlines(kept);
    let out = if base.len() > 0 {
        base.push('\n')
    } else {
        base
    };
    let out = out + block;
    if out.len() > 0 && out.last() != '\n' {
        out.push('\n')
    } else {
        out
    }
}

/// Why `merge` refuses `existing`, when it does.
pub open spec fn merge_error(existing: Seq<char>) -> Seq<char> {
    let lines = lines_incl(existing);
    match (first_marker(lines, BEGIN@), first_marker(lines, END@)) {
        (Some(b), Some(e)) => "the managed block markers are inverted (opening at line "@
            + crate::num::decimal((b + 1) as nat) + ", closing at line "@ + crate::num::decimal(
            (e + 1) as nat,
        ) + ")"@,
        (Some(_), None) => "`"@ + BEGIN@ + "` is present but the closing `"@ + END@
            + "` is missing"@,
        _ => "`"@ + END@ + "` is present but the opening `"@ + BEGIN@ + "` is missing"@,
    }
}

/// What `merge` produces: `None` is a refusal.
pub open spec fn spec_merge(existing: Seq<char>, block: Seq<char>) -> Option<Seq<char>> {
    match kept_text(existing) {
        Some(kept) => Some(place_block(kept, block)),
        None => None,
    }
}

pub open spec fn is_marker_line(line: Seq<char>) -> bool {
    trim_end(line) == BEGIN@ || trim_end(line) == END@
}

/// A block this module can find again: empty, or opening and closing marker
/// lines around lines that are neither, ending with a line break.
pub open spec fn well_formed_block(block: Seq<char>) -> bool {
    block.len() == 0 || {
        let ls = lines_incl(block);
        &&& block.last() == '\n'
        &&& ls.len() >= 2
        &&& trim_end(ls[0]) == BEGIN@
        &&& trim_end(ls.last()) == END@
        &&& forall|i: int| 0 < i < ls.len() - 1 ==> !is_marker_line(#[trigger] ls[i])
    }
}

/// No two opening, and no two closing, marker lines.
pub open spec fn at_most_one_block(text: Seq<char>) -> bool {
    let ls = lines_incl(text);
    forall|i: int, j: int|
        0 <= i < j < ls.len() ==> !(trim_end(#[trigger] ls[i]) == BEGIN@ && trim_end(
            #[trigger] ls[j],
        ) == BEGIN@) && !(trim_end(ls[i]) == END@ && trim_end(ls[j]) == END@)
}

// ------------------------------------------------------------- executable

fn find_marker(lines: &Vec<Vec<char>>, m: &[char]) -> (r: Option<usize>)
    ensures
        first_marker(lines@.map_values(|l: Vec<char>| l@), m@) == match r {
            Some(i) => Some(i as int),
            None => None::<int>,
        },
        r matches Some(i) ==> i < lines.len(),
{
    let ghost view = lines@.map_values(|l: Vec<char>| l@);
    let mut i: usize = 0;
    while i < lines.len()
        invariant
            i <= lines.len(),
            view == lines@.map_values(|l: Vec<char>| l@),
            forall|j: int| 0 <= j < i ==> trim_end(#[trigger] view[j]) != m@,
        decreases lines.len() - i,
    {
        let line = &lines[i];
        let n = trim_end_len(line.as_slice());
        let t = chars_slice(line.as_slice(), 0, n);
        assert(t@ =~= line@.take(n as int));
        assert(view[i as int] == line@);
        if chars_eq(t.as_slice(), m) {
            proof {
                lemma_first_marker(view, m@);
                lemma_first_marker_unique(view, m@, i as int);
            }
            return Some(i);
        }
        i = i + 1;
    }
    proof {
        lemma_first_marker(view, m@);
    }
    None
}

/// Merge `block` into `existing`, replacing any previous managed block.
///
/// Returns the new file content. The operation is idempotent: merging the
/// same block twice yields the same result (see [`lemma_merge_idempotent`]).
pub fn merge(existing: &str, block: &str) -> (r: Result<String, String>)
    ensures
        match spec_merge(existing@, block@) {
            Some(text) => r matches Ok(out) && out@ == text,
            None => r matches Err(message) && message@ == merge_error(existing@),
        },
{
    let chars = chars_of(existing);
    let lines = split_lines_incl(chars.as_slice());
    let ghost view = lines@.map_values(|l: Vec<char>| l@);
    let begin_chars = chars_of(BEGIN);
    let end_chars = chars_of(END);
    let begin = find_marker(&lines, begin_chars.as_slice());
    let end = find_marker(&lines, end_chars.as_slice());
    proof {
        lemma_first_marker(view, BEGIN@);
        lemma_first_marker(view, END@);
    }

    let kept: Vec<char> = match (begin, end) {
        (Some(b), Some(e)) => {
            if e >= b {
                let mut kept: Vec<char> = Vec::new();
                let mut k: usize = 0;
                assert(view.take(0).flatten() =~= seq![]);
                while k < b
                    invariant
                        k <= b <= e < lines.len(),
                        view == lines@.map_values(|l: Vec<char>| l@),
                        kept@ == view.take(k as int).flatten(),
                    decreases b - k,
                {
                    extend_chars(&mut kept, lines[k].as_slice());
                    proof {
                        lemma_flatten_append(view.take(k as int), seq![view[k as int]]);
                        assert(view.take(k as int) + seq![view[k as int]] =~= view.take(k + 1));
                        lemma_flatten_cons(view[k as int], seq![]);
                        assert(seq![view[k as int]] =~= seq![view[k as int]] + Seq::<Seq<char>>::empty());
                        assert(Seq::<Seq<char>>::empty().flatten() =~= seq![]);
                    }
                    k = k + 1;
                }
                let ghost head = kept@;
                k = e + 1;
                assert(view.subrange(e + 1, e + 1).flatten() =~= seq![]);
                while k < lines.len()
                    invariant
                        e + 1 <= k <= lines.len(),
                        view == lines@.map_values(|l: Vec<char>| l@),
                        kept@ == head + view.subrange(e + 1, k as int).flatten(),
                    decreases lines.len() - k,
                {
                    extend_chars(&mut kept, lines[k].as_slice());
                    proof {
                        lemma_flatten_append(
                            view.subrange(e + 1, k as int),
                            seq![view[k as int]],
                        );
                        assert(view.subrange(e + 1, k as int) + seq![view[k as int]]
                            =~= view.subrange(e + 1, k + 1));
                        lemma_flatten_cons(view[k as int], seq![]);
                        assert(seq![view[k as int]] =~= seq![view[k as int]] + Seq::<Seq<char>>::empty());
                        assert(Seq::<Seq<char>>::empty().flatten() =~= seq![]);
                    }
                    k = k + 1;
                }
                proof {
                    assert(view.subrange(e + 1, lines.len() as int) =~= view.skip(e + 1));
                    lemma_flatten_append(view.take(b as int), view.skip(e + 1));
                }
                kept
            } else {
                let mut message = String::new();
                push_str(&mut message, "the managed block markers are inverted (opening at line ");
                let opening = crate::num::usize_to_string(b + 1);
                push_str(&mut message, opening.as_str());
                push_str(&mut message, ", closing at line ");
                let closing = crate::num::usize_to_string(e + 1);
                push_str(&mut message, closing.as_str());
                push_str(&mut message, ")");
                assert(message@ =~= merge_error(existing@));
                return Err(message);
            }
        },
        (None, None) => chars,
        (Some(_), None) => {
            let mut message = String::new();
            push_str(&mut message, "`");
            push_str(&mut message, BEGIN);
            push_str(&mut message, "` is present but the closing `");
            push_str(&mut message, END);
            push_str(&mut message, "` is missing");
            assert(message@ =~= merge_error(existing@));
            return Err(message);
        },
        (None, Some(_)) => {
            let mut message = String::new();
            push_str(&mut message, "`");
            push_str(&mut message, END);
            push_str(&mut message, "` is present but the opening `");
            push_str(&mut message, BEGIN);
            push_str(&mut message, "` is missing");
            assert(message@ =~= merge_error(existing@));
            return Err(message);
        },
    };

    let block_chars = chars_of(block);
    let out = place_block_chars(kept.as_slice(), block_chars.as_slice());
    Ok(string_from(out.as_slice()))
}

fn place_block_chars(kept: &[char], block: &[char]) -> (out: Vec<char>)
    ensures
        out@ == place_block(kept@, block@),
{
    let n = trim_end_newlines_len(kept);
    let mut out = chars_slice(kept, 0, n);
    assert(out@ =~= kept@.take(n as int));
    if out.len() > 0 {
        out.push('\n');
    }
    extend_chars(&mut out, block);
    if out.len() > 0 && out[out.len() - 1] != '\n' {
        out.push('\n');
    }
    out
}

/// Remove the managed block without adding a new one.
pub fn strip(existing: &str) -> (r: Result<String, String>)
    ensures
        match spec_merge(existing@, seq![]) {
            Some(text) => r matches Ok(out) && out@ == text,
            None => r matches Err(message) && message@ == merge_error(existing@),
        },
{
    proof {
        reveal_strlit("");
    }
    merge(existing, "")
}

// ------------------------------------------------------------------ proofs

pub proof fn lemma_first_marker(lines: Seq<Seq<char>>, m: Seq<char>)
    ensures
        first_marker(lines, m) matches Some(i) ==> {
            &&& 0 <= i < lines.len()
            &&& trim_end(lines[i]) == m
            &&& forall|j: int| 0 <= j < i ==> trim_end(#[trigger] lines[j]) != m
        },
        first_marker(lines, m) is None ==> forall|j: int|
            0 <= j < lines.len() ==> trim_end(#[trigger] lines[j]) != m,
    decreases lines.len(),
{
    if lines.len() > 0 && trim_end(lines[0]) != m {
        let rest = lines.drop_first();
        lemma_first_marker(rest, m);
        assert forall|j: int| 0 < j < lines.len() implies #[trigger] lines[j] == rest[j - 1] by {}
        if let Some(i) = first_marker(rest, m) {
            assert forall|j: int| 0 <= j < i + 1 implies trim_end(#[trigger] lines[j]) != m by {
                if j > 0 {
                    assert(lines[j] == rest[j - 1]);
                }
            }
        } else {
            assert forall|j: int| 0 <= j < lines.len() implies trim_end(#[trigger] lines[j]) != m by {
                if j > 0 {
                    assert(lines[j] == rest[j - 1]);
                }
            }
        }
    }
}

pub proof fn lemma_first_marker_unique(lines: Seq<Seq<char>>, m: Seq<char>, i: int)
    requires
        0 <= i < lines.len(),
        trim_end(lines[i]) == m,
        forall|j: int| 0 <= j < i ==> trim_end(#[trigger] lines[j]) != m,
    ensures
        first_marker(lines, m) == Some(i),
{
    lemma_first_marker(lines, m);
    if let Some(k) = first_marker(lines, m) {
        if k < i {
        } else if k > i {
        }
    }
}

/// Lines as produced by `lines_incl`: non-empty, a line break only at the
/// end, and every line but the last terminated.
pub open spec fn proper_lines(ls: Seq<Seq<char>>) -> bool {
    &&& forall|i: int| 0 <= i < ls.len() ==> #[trigger] ls[i].len() > 0
    &&& forall|i: int| 0 <= i < ls.len() - 1 ==> (#[trigger] ls[i]).last() == '\n'
    &&& forall|i: int|
        #![trigger ls[i]]
        0 <= i < ls.len() ==> forall|k: int| 0 <= k < ls[i].len() - 1 ==> ls[i][k] != '\n'
}

pub proof fn lemma_lines_of_flatten(ls: Seq<Seq<char>>)
    requires
        proper_lines(ls),
    ensures
        lines_incl(ls.flatten()) == ls,
    decreases ls.len(),
{
    if ls.len() == 0 {
        assert(ls.flatten() =~= seq![]);
        assert(lines_incl(seq![]) =~= ls);
    } else {
        let head = ls[0];
        let rest = ls.drop_first();
        assert(proper_lines(rest)) by {
            assert forall|i: int| 0 <= i < rest.len() implies #[trigger] rest[i] == ls[i + 1] by {}
        }
        lemma_lines_of_flatten(rest);
        lemma_flatten_cons(head, rest);
        assert(seq![head] + rest =~= ls);
        let s = ls.flatten();
        assert(s == head + rest.flatten());
        assert(head.len() > 0);
        if head.last() == '\n' {
            lemma_first_line_len_at(s, head.len() - 1);
        } else {
            assert(ls.len() == 1);
            assert(rest.flatten() =~= seq![]);
            assert(s =~= head);
            lemma_first_line_len_none(s);
        }
        assert(s.take(head.len() as int) =~= head);
        assert(s.skip(head.len() as int) =~= rest.flatten());
        assert(lines_incl(s) =~= seq![head] + lines_incl(rest.flatten()));
    }
}

pub proof fn lemma_proper_lines_of(s: Seq<char>)
    ensures
        proper_lines(lines_incl(s)),
{
    lemma_lines_incl_flatten(s);
}

/// Trailing whitespace can be dropped before trimming.
pub proof fn lemma_trim_end_append_ws(u: Seq<char>, w: Seq<char>)
    requires
        forall|k: int| 0 <= k < w.len() ==> is_ws(#[trigger] w[k]),
    ensures
        trim_end(u + w) == trim_end(u),
    decreases w.len(),
{
    if w.len() == 0 {
        assert(u + w =~= u);
    } else {
        assert((u + w).drop_last() =~= u + w.drop_last());
        assert((u + w).last() == w.last());
        lemma_trim_end_append_ws(u, w.drop_last());
    }
}

/// The lines of `s[..n] + "\n"`, where `s[n..]` is only line breaks, trim to
/// the same text as the corresponding lines of `s`.
pub proof fn lemma_truncated_lines(s: Seq<char>, n: int)
    requires
        0 < n <= s.len(),
        s[n - 1] != '\n' && s[n - 1] != '\r',
        forall|k: int| n <= k < s.len() ==> (#[trigger] s[k] == '\n' || s[k] == '\r'),
    ensures
        ({
            let t = s.take(n).push('\n');
            &&& lines_incl(t).len() <= lines_incl(s).len()
            &&& forall|i: int|
                0 <= i < lines_incl(t).len() ==> trim_end(#[trigger] lines_incl(t)[i]) == trim_end(
                    lines_incl(s)[i],
                )
        }),
    decreases s.len(),
{
    let t = s.take(n).push('\n');
    lemma_first_line_len(s);
    let k = first_line_len(s) as int;
    if k < n {
        assert(s[k - 1] == '\n');
        assert forall|j: int| 0 <= j < k - 1 implies t[j] != '\n' by {
            assert(t[j] == s[j]);
        }
        lemma_first_line_len_at(t, k - 1);
        let s2 = s.skip(k);
        assert(s2[n - k - 1] == s[n - 1]);
        assert forall|j: int| n - k <= j < s2.len() implies (#[trigger] s2[j] == '\n' || s2[j]
            == '\r') by {
            assert(s2[j] == s[j + k]);
        }
        lemma_truncated_lines(s2, n - k);
        assert(t.take(k) =~= s.take(k));
        assert(t.skip(k) =~= s2.take(n - k).push('\n'));
        assert(lines_incl(t) =~= seq![s.take(k)] + lines_incl(t.skip(k)));
        assert(lines_incl(s) =~= seq![s.take(k)] + lines_incl(s2));
        assert forall|i: int| 0 <= i < lines_incl(t).len() implies trim_end(
            #[trigger] lines_incl(t)[i],
        ) == trim_end(lines_incl(s)[i]) by {
            if i > 0 {
                assert(lines_incl(t)[i] == lines_incl(t.skip(k))[i - 1]);
                assert(lines_incl(s)[i] == lines_incl(s2)[i - 1]);
            }
        }
    } else {
        // No line break before `n`: `t` is a single line.
        assert forall|j: int| 0 <= j < n implies t[j] != '\n' by {
            assert(t[j] == s[j]);
            if j < k - 1 {
            } else {
                assert(j == n - 1);
            }
        }
        lemma_first_line_len_at(t, n);
        assert(t.take(n + 1) =~= t);
        assert(t.skip(n + 1) =~= seq![]);
        assert(lines_incl(seq![]) =~= Seq::<Seq<char>>::empty());
        assert(lines_incl(t) =~= seq![t]);
        let line = s.take(k);
        assert(lines_incl(s)[0] == line);
        let w = line.skip(n);
        assert forall|j: int| 0 <= j < w.len() implies is_ws(#[trigger] w[j]) by {
            assert(w[j] == s[j + n]);
        }
        lemma_trim_end_append_ws(s.take(n), w);
        assert(s.take(n) + w =~= line);
        lemma_trim_end_append_ws(s.take(n), seq!['\n']);
        assert(s.take(n) + seq!['\n'] =~= t);
    }
}

/// The first-marker search skips a prefix of lines without that marker.
pub proof fn lemma_first_marker_append(a: Seq<Seq<char>>, b: Seq<Seq<char>>, m: Seq<char>)
    requires
        forall|i: int| 0 <= i < a.len() ==> trim_end(#[trigger] a[i]) != m,
    ensures
        first_marker(a + b, m) == match first_marker(b, m) {
            Some(i) => Some(i + a.len()),
            None => None::<int>,
        },
    decreases a.len(),
{
    if a.len() == 0 {
        assert(a + b =~= b);
    } else {
        assert((a + b)[0] == a[0]);
        assert((a + b).drop_first() =~= a.drop_first() + b);
        assert forall|i: int| 0 <= i < a.drop_first().len() implies trim_end(
            #[trigger] a.drop_first()[i],
        ) != m by {
            assert(a.drop_first()[i] == a[i + 1]);
        }
        lemma_first_marker_append(a.drop_first(), b, m);
    }
}

pub proof fn lemma_markers_differ()
    ensures
        BEGIN@ != END@,
{
    reveal_strlit("# >>> rpi-provision managed block; generated, do not edit >>>");
    reveal_strlit("# <<< rpi-provision managed block <<<");
    assert(BEGIN@.len() != END@.len());
}

/// Placing a block after marker-free text yields text whose kept part is the
/// same marker-free text, with the block placed after it.
proof fn lemma_place_then_keep(kept: Seq<char>, block: Seq<char>)
    requires
        well_formed_block(block),
        forall|i: int|
            0 <= i < lines_incl(kept).len() ==> !is_marker_line(#[trigger] lines_incl(kept)[i]),
    ensures
        kept_text(place_block(kept, block)) == Some(place_block(kept, seq![])),
        place_block(place_block(kept, seq![]), block) == place_block(kept, block),
        place_block(place_block(kept, seq![]), seq![]) == place_block(kept, seq![]),
{
    lemma_markers_differ();
    let base = trim_end_newlines(kept);
    let n = base.len() as int;
    let front = place_block(kept, seq![]);
    // `base` is a prefix of `kept`, followed only by line breaks.
    lemma_trim_end_newlines_prefix(kept);
    assert(front == if n > 0 {
        base.push('\n')
    } else {
        base
    }) by {
        assert(base + Seq::<char>::empty() =~= base);
        assert(base.push('\n') + Seq::<char>::empty() =~= base.push('\n'));
    }
    // `front` is marker-free.
    assert forall|i: int| 0 <= i < lines_incl(front).len() implies !is_marker_line(
        #[trigger] lines_incl(front)[i],
    ) by {
        if n > 0 {
            lemma_truncated_lines(kept, n);
            assert(kept.take(n) == base);
            assert(trim_end(lines_incl(front)[i]) == trim_end(lines_incl(kept)[i]));
            assert(!is_marker_line(lines_incl(kept)[i]));
        } else {
            assert(front =~= seq![]);
            assert(lines_incl(front) =~= Seq::<Seq<char>>::empty());
        }
    }
    assert(front.len() == 0 || front.last() == '\n');
    let whole = place_block(kept, block);
    assert(whole == front + block) by {
        if block.len() == 0 {
            assert(front + block =~= front);
        } else {
            assert((front + block).last() == block.last());
        }
    }
    lemma_lines_incl_append(front, block);
    let a = lines_incl(front);
    let lb = lines_incl(block);
    assert(lines_incl(whole) == a + lb);
    assert forall|i: int| 0 <= i < a.len() implies trim_end(#[trigger] a[i]) != BEGIN@ by {
        assert(!is_marker_line(a[i]));
    }
    assert forall|i: int| 0 <= i < a.len() implies trim_end(#[trigger] a[i]) != END@ by {
        assert(!is_marker_line(a[i]));
    }
    lemma_first_marker_append(a, lb, BEGIN@);
    lemma_first_marker_append(a, lb, END@);
    lemma_lines_incl_flatten(front);
    if block.len() == 0 {
        assert(lb =~= Seq::<Seq<char>>::empty());
        assert(a + lb =~= a);
        assert(whole =~= front);
        lemma_first_marker(lb, BEGIN@);
        lemma_first_marker(lb, END@);
    } else {
        lemma_first_marker_unique(lb, BEGIN@, 0);
        assert forall|j: int| 0 <= j < lb.len() - 1 implies trim_end(#[trigger] lb[j]) != END@ by {
            if j > 0 {
                assert(!is_marker_line(lb[j]));
            }
        }
        lemma_first_marker_unique(lb, END@, lb.len() - 1);
        let lines = a + lb;
        let bb = a.len() as int;
        let ee = a.len() + lb.len() - 1;
        assert(lines.take(bb) =~= a);
        assert(lines.skip(ee + 1) =~= Seq::<Seq<char>>::empty());
        assert(a + Seq::<Seq<char>>::empty() =~= a);
    }
    // Placing again after `front` changes nothing.
    let base2 = trim_end_newlines(front);
    assert(base2 == base) by {
        if n > 0 {
            assert(front.drop_last() =~= base);
            assert(front.last() == '\n');
            assert(base.last() != '\n' && base.last() != '\r');
            assert(trim_end_newlines(base) == base);
            assert(trim_end_newlines(front) == trim_end_newlines(front.drop_last()));
        } else {
            assert(front.len() == 0);
        }
    }
}

pub proof fn lemma_trim_end_newlines_prefix(s: Seq<char>)
    ensures
        trim_end_newlines(s).len() <= s.len(),
        trim_end_newlines(s) == s.take(trim_end_newlines(s).len() as int),
        trim_end_newlines(s).len() > 0 ==> (trim_end_newlines(s).last() != '\n'
            && trim_end_newlines(s).last() != '\r'),
        forall|k: int|
            trim_end_newlines(s).len() <= k < s.len() ==> (#[trigger] s[k] == '\n' || s[k]
                == '\r'),
    decreases s.len(),
{
    if s.len() > 0 && (s.last() == '\n' || s.last() == '\r') {
        lemma_trim_end_newlines_prefix(s.drop_last());
        assert(s.drop_last().take(trim_end_newlines(s).len() as int) =~= s.take(
            trim_end_newlines(s).len() as int,
        ));
        assert forall|k: int| trim_end_newlines(s).len() <= k < s.len() implies (#[trigger] s[k]
            == '\n' || s[k] == '\r') by {
            if k < s.len() - 1 {
                assert(s[k] == s.drop_last()[k]);
            }
        }
    } else {
        assert(s.take(s.len() as int) =~= s);
    }
}

/// What survives a merge is free of marker lines when the input held at
/// most one marker of each kind.
proof fn lemma_kept_marker_free(existing: Seq<char>)
    requires
        at_most_one_block(existing),
        kept_text(existing) is Some,
    ensures
        forall|i: int|
            0 <= i < lines_incl(kept_text(existing).unwrap()).len() ==> !is_marker_line(
                #[trigger] lines_incl(kept_text(existing).unwrap())[i],
            ),
{
    let ls = lines_incl(existing);
    lemma_proper_lines_of(existing);
    lemma_first_marker(ls, BEGIN@);
    lemma_first_marker(ls, END@);
    lemma_lines_incl_flatten(existing);
    match (first_marker(ls, BEGIN@), first_marker(ls, END@)) {
        (Some(b), Some(e)) => {
            let kl = ls.take(b) + ls.skip(e + 1);
            assert(proper_lines(kl)) by {
                assert forall|i: int| 0 <= i < kl.len() implies #[trigger] kl[i] == if i < b {
                    ls[i]
                } else {
                    ls[i - b + e + 1]
                } by {}
            }
            lemma_lines_of_flatten(kl);
            assert forall|i: int| 0 <= i < kl.len() implies !is_marker_line(#[trigger] kl[i]) by {
                if i < b {
                    assert(kl[i] == ls[i]);
                    if trim_end(ls[i]) == END@ {
                        assert(i < e);
                    }
                } else {
                    let j = i - b + e + 1;
                    assert(kl[i] == ls[j]);
                    if trim_end(ls[j]) == BEGIN@ {
                        assert(b < j);
                    }
                    if trim_end(ls[j]) == END@ {
                        assert(e < j);
                    }
                }
            }
        },
        _ => {
            assert(existing == ls.flatten());
        },
    }
}

/// Merging the same well-formed block a second time changes nothing.
///
/// Holds for any existing text with at most one opening and one closing
/// marker line, which is every `config.txt` this tool has written.
pub proof fn lemma_merge_idempotent(existing: Seq<char>, block: Seq<char>)
    requires
        well_formed_block(block),
        at_most_one_block(existing),
        spec_merge(existing, block) is Some,
    ensures
        spec_merge(spec_merge(existing, block).unwrap(), block) == spec_merge(existing, block),
{
    lemma_kept_marker_free(existing);
    lemma_place_then_keep(kept_text(existing).unwrap(), block);
}

/// Stripping after a merge removes exactly what the merge added: the result
/// is what stripping the original text gives.
pub proof fn lemma_strip_after_merge(existing: Seq<char>, block: Seq<char>)
    requires
        well_formed_block(block),
        at_most_one_block(existing),
        spec_merge(existing, block) is Some,
    ensures
        spec_merge(spec_merge(existing, block).unwrap(), seq![]) == spec_merge(existing, seq![]),
{
    lemma_kept_marker_free(existing);
    lemma_place_then_keep(kept_text(existing).unwrap(), block);
    lemma_place_then_keep(kept_text(existing).unwrap(), seq![]);
}


/// Stripping after a merge gives the text back when it holds no marker line
/// and is empty or ends in exactly one line break after something else.
pub proof fn law_strip_after_merge_restores(existing: Seq<char>, block: Seq<char>)
    requires
        well_formed_block(block),
        forall|i: int| 0 <= i < lines_incl(existing).len() ==> !is_marker_line(#[trigger] lines_incl(existing)[i]),
        existing.len() == 0 || (trim_end_newlines(existing).len() > 0 && existing == trim_end_newlines(
            existing,
        ).push('\n')),
    ensures
        spec_merge(existing, block) is Some,
        spec_merge(spec_merge(existing, block).unwrap(), seq![]) == Some(existing),
{
    let ls = lines_incl(existing);
    lemma_first_marker(ls, BEGIN@);
    lemma_first_marker(ls, END@);
    if first_marker(ls, BEGIN@) is Some {
        let i = first_marker(ls, BEGIN@)->Some_0;
        assert(is_marker_line(ls[i]));
    }
    if first_marker(ls, END@) is Some {
        let i = first_marker(ls, END@)->Some_0;
        assert(is_marker_line(ls[i]));
    }
    assert(kept_text(existing) == Some(existing));
    assert(at_most_one_block(existing));
    lemma_strip_after_merge(existing, block);
    if existing.len() == 0 {
        assert(trim_end_newlines(existing) =~= existing);
    }
}

// ------------------------------------------------------------ the block

/// `prefix` followed by each item, one line per item.
pub open spec fn prefixed_lines(prefix: Seq<char>, items: Seq<Seq<char>>) -> Seq<Seq<char>> {
    items.map_values(|item: Seq<char>| prefix + item)
}

/// One `dtparam=fan_tempN=value` line per threshold.
pub open spec fn fan_lines(thresholds: Seq<u32>) -> Seq<Seq<char>> {
    Seq::new(
        thresholds.len(),
        |i: int| "dtparam=fan_temp"@ + decimal(i as nat) + seq!['='] + decimal(thresholds[i] as nat),
    )
}

pub open spec fn when(condition: bool, lines: Seq<Seq<char>>) -> Seq<Seq<char>> {
    if condition {
        lines
    } else {
        seq![]
    }
}

/// The serial and I2C settings.
pub open spec fn bus_lines(hw: Hardware) -> Seq<Seq<char>> {
    when(hw.uart.enabled, seq!["dtparam=uart0=on"@])
        + when(hw.uart.debug_connector, seq!["enable_uart=1"@])
        + when(hw.i2c.enabled, seq!["dtparam=i2c_arm=on"@])
        + when(hw.i2c.enabled, seq!["dtparam=i2c_arm_baudrate="@ + decimal(hw.i2c.baudrate as nat)])
}

/// The SPI, 1-Wire, PCIe and USB current settings.
pub open spec fn device_lines(hw: Hardware) -> Seq<Seq<char>> {
    when(hw.spi.enabled, seq!["dtparam=spi=on"@])
        + when(hw.one_wire.enabled, seq!["dtoverlay=w1-gpio,gpiopin="@ + decimal(hw.one_wire.gpio as nat)])
        + (match hw.pcie_gen {
            Some(g) => seq!["dtparam=pciex1_gen="@ + decimal(g as nat)],
            None => seq![],
        })
        + when(hw.usb_max_current, seq!["usb_max_current_enable=1"@])
}

/// The settings switched on by flags and small values.
pub open spec fn setting_lines(hw: Hardware) -> Seq<Seq<char>> {
    bus_lines(hw) + device_lines(hw)
}

/// The lines of the managed block for a specification.
pub open spec fn block_lines(spec: Spec, digest: Seq<char>) -> Seq<Seq<char>> {
    let hw = spec.hardware;
    seq![BEGIN@, "# generator: "@ + GENERATOR@, "# spec-digest: "@ + digest, "[all]"@]
        + setting_lines(hw)
        + fan_lines(hw.fan_thresholds@)
        + when(spec.network.usb_gadget is Some, seq!["dtoverlay=dwc2,dr_mode=peripheral"@])
        + prefixed_lines("dtparam="@, strings_view(hw.dtparams@))
        + prefixed_lines("dtoverlay="@, strings_view(hw.overlays@))
        + strings_view(hw.config_extra@)
        + seq![END@]
}

fn push_block_line(out: &mut String, lines: Ghost<Seq<Seq<char>>>, head: &str, tail: &str) -> (r: Ghost<Seq<Seq<char>>>)
    requires
        old(out)@ == joined_lines(lines@),
    ensures
        r@ == lines@.push(head@ + tail@),
        final(out)@ == joined_lines(r@),
{
    push_str(out, head);
    push_str(out, tail);
    crate::text::push_char(out, '\n');
    let ghost next = lines@.push(head@ + tail@);
    assert(next.drop_last() =~= lines@);
    assert(out@ =~= joined_lines(next));
    Ghost(next)
}

fn push_prefixed(out: &mut String, lines: Ghost<Seq<Seq<char>>>, prefix: &str, items: &Vec<String>) -> (r: Ghost<Seq<Seq<char>>>)
    requires
        old(out)@ == joined_lines(lines@),
    ensures
        r@ == lines@ + prefixed_lines(prefix@, strings_view(items@)),
        final(out)@ == joined_lines(r@),
{
    let mut acc = lines;
    let mut i: usize = 0;
    while i < items.len()
        invariant
            i <= items@.len(),
            acc@ == lines@ + prefixed_lines(prefix@, strings_view(items@)).take(i as int),
            out@ == joined_lines(acc@),
        decreases items.len() - i,
    {
        acc = push_block_line(out, acc, prefix, items[i].as_str());
        proof {
            let all = prefixed_lines(prefix@, strings_view(items@));
            assert(all.take(i + 1) =~= all.take(i as int).push(all[i as int]));
            assert(all[i as int] == prefix@ + items@[i as int]@);
        }
        i = i + 1;
        assert(acc@ =~= lines@ + prefixed_lines(prefix@, strings_view(items@)).take(i as int));
    }
    assert(prefixed_lines(prefix@, strings_view(items@)).take(items.len() as int) =~= prefixed_lines(
        prefix@,
        strings_view(items@),
    ));
    acc
}

fn push_when(out: &mut String, lines: Ghost<Seq<Seq<char>>>, condition: bool, head: &str, tail: &str) -> (r: Ghost<Seq<Seq<char>>>)
    requires
        old(out)@ == joined_lines(lines@),
    ensures
        r@ == lines@ + when(condition, seq![head@ + tail@]),
        final(out)@ == joined_lines(r@),
{
    if condition {
        let r = push_block_line(out, lines, head, tail);
        assert(r@ =~= lines@ + when(condition, seq![head@ + tail@]));
        r
    } else {
        assert(lines@ =~= lines@ + when(condition, seq![head@ + tail@]));
        lines
    }
}

fn push_buses(out: &mut String, lines: Ghost<Seq<Seq<char>>>, hw: &Hardware) -> (r: Ghost<Seq<Seq<char>>>)
    requires
        old(out)@ == joined_lines(lines@),
    ensures
        r@ == lines@ + bus_lines(*hw),
        final(out)@ == joined_lines(r@),
{
    proof {
        reveal_strlit("");
    }
    let l1 = push_when(out, lines, hw.uart.enabled, "dtparam=uart0=on", "");
    let l2 = push_when(out, l1, hw.uart.debug_connector, "enable_uart=1", "");
    let l3 = push_when(out, l2, hw.i2c.enabled, "dtparam=i2c_arm=on", "");
    let rate = crate::num::u64_to_string(hw.i2c.baudrate as u64);
    let l4 = push_when(out, l3, hw.i2c.enabled, "dtparam=i2c_arm_baudrate=", rate.as_str());
    proof {
        assert(("dtparam=uart0=on"@ + ""@) =~= "dtparam=uart0=on"@);
        assert(("enable_uart=1"@ + ""@) =~= "enable_uart=1"@);
        assert(("dtparam=i2c_arm=on"@ + ""@) =~= "dtparam=i2c_arm=on"@);
        assert(l4@ =~= lines@ + bus_lines(*hw));
    }
    l4
}

fn push_devices(out: &mut String, lines: Ghost<Seq<Seq<char>>>, hw: &Hardware) -> (r: Ghost<Seq<Seq<char>>>)
    requires
        old(out)@ == joined_lines(lines@),
    ensures
        r@ == lines@ + device_lines(*hw),
        final(out)@ == joined_lines(r@),
{
    proof {
        reveal_strlit("");
    }
    let l1 = push_when(out, lines, hw.spi.enabled, "dtparam=spi=on", "");
    let g = crate::num::u64_to_string(hw.one_wire.gpio as u64);
    let l2 = push_when(out, l1, hw.one_wire.enabled, "dtoverlay=w1-gpio,gpiopin=", g.as_str());
    let (has_gen, generation) = match hw.pcie_gen {
        Some(x) => (true, x),
        None => (false, 0u8),
    };
    let gen_text = crate::num::u64_to_string(generation as u64);
    let l3 = push_when(out, l2, has_gen, "dtparam=pciex1_gen=", gen_text.as_str());
    let l4 = push_when(out, l3, hw.usb_max_current, "usb_max_current_enable=1", "");
    proof {
        assert(("dtparam=spi=on"@ + ""@) =~= "dtparam=spi=on"@);
        assert(("usb_max_current_enable=1"@ + ""@) =~= "usb_max_current_enable=1"@);
        assert(when(has_gen, seq!["dtparam=pciex1_gen="@ + decimal(generation as nat)]) =~= match hw.pcie_gen {
            Some(g) => seq!["dtparam=pciex1_gen="@ + decimal(g as nat)],
            None => seq![],
        });
        assert(l4@ =~= lines@ + device_lines(*hw));
    }
    l4
}

fn push_settings(out: &mut String, lines: Ghost<Seq<Seq<char>>>, hw: &Hardware) -> (r: Ghost<Seq<Seq<char>>>)
    requires
        old(out)@ == joined_lines(lines@),
    ensures
        r@ == lines@ + setting_lines(*hw),
        final(out)@ == joined_lines(r@),
{
    let l1 = push_buses(out, lines, hw);
    let l2 = push_devices(out, l1, hw);
    assert(l2@ =~= lines@ + setting_lines(*hw));
    l2
}

fn push_fans(out: &mut String, lines: Ghost<Seq<Seq<char>>>, thresholds: &Vec<u32>) -> (r: Ghost<Seq<Seq<char>>>)
    requires
        old(out)@ == joined_lines(lines@),
    ensures
        r@ == lines@ + fan_lines(thresholds@),
        final(out)@ == joined_lines(r@),
{
    let mut acc = lines;
    let mut step: usize = 0;
    while step < thresholds.len()
        invariant
            step <= thresholds@.len(),
            acc@ == lines@ + fan_lines(thresholds@).take(step as int),
            out@ == joined_lines(acc@),
        decreases thresholds.len() - step,
    {
        let n = crate::num::usize_to_string(step);
        let mut line = owned("dtparam=fan_temp");
        push_str(&mut line, n.as_str());
        crate::text::push_char(&mut line, '=');
        let t = crate::num::u64_to_string(thresholds[step] as u64);
        acc = push_block_line(out, acc, line.as_str(), t.as_str());
        proof {
            let all = fan_lines(thresholds@);
            assert(all[step as int] =~= line@ + t@);
            assert(all.take(step + 1) =~= all.take(step as int).push(all[step as int]));
        }
        step = step + 1;
        assert(acc@ =~= lines@ + fan_lines(thresholds@).take(step as int));
    }
    assert(fan_lines(thresholds@).take(thresholds.len() as int) =~= fan_lines(thresholds@));
    acc
}

/// Build the managed block for a specification.
pub fn managed_block(spec: &Spec, digest: &str) -> (block: String)
    ensures
        block@ == joined_lines(block_lines(*spec, digest@)),
{
    let hw = &spec.hardware;
    let mut out = String::new();
    let mut lines: Ghost<Seq<Seq<char>>> = Ghost(Seq::empty());
    proof {
        reveal_strlit("");
    }
    lines = push_block_line(&mut out, lines, BEGIN, "");
    lines = push_block_line(&mut out, lines, "# generator: ", GENERATOR);
    lines = push_block_line(&mut out, lines, "# spec-digest: ", digest);
    lines = push_block_line(&mut out, lines, "[all]", "");
    lines = push_settings(&mut out, lines, hw);
    lines = push_fans(&mut out, lines, &hw.fan_thresholds);
    if spec.network.usb_gadget.is_some() {
        lines = push_block_line(&mut out, lines, "dtoverlay=dwc2,dr_mode=peripheral", "");
    }
    lines = push_prefixed(&mut out, lines, "dtparam=", &hw.dtparams);
    lines = push_prefixed(&mut out, lines, "dtoverlay=", &hw.overlays);
    lines = push_prefixed(&mut out, lines, "", &hw.config_extra);
    lines = push_block_line(&mut out, lines, END, "");
    proof {
        assert(prefixed_lines(""@, strings_view(hw.config_extra@)) =~= strings_view(hw.config_extra@));
        assert(lines@ =~= block_lines(*spec, digest@));
    }
    out
}

} // verus!
