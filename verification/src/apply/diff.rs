//! A small line diff for dry-run output.
//!
//! Uses the classic longest-common-subsequence dynamic program. The files
//! involved are configuration files of at most a few hundred lines, so the
//! quadratic cost is irrelevant; above [`MAX_LINES`] the diff degrades to a
//! summary rather than consuming memory.

use vstd::prelude::*;
use crate::num::decimal;
use crate::text::{chars_eq, chars_of, extend_chars, owned, push_str, split_text_lines, string_from,
    text_lines};

verus! {

pub const MAX_LINES: usize = 2000;

pub const CONTEXT: usize = 3;

#[derive(Clone, Copy, PartialEq, Eq, Structural, Debug)]
pub enum Op {
    Keep,
    Insert,
    Delete,
}

// ------------------------------------------------------------------ model

/// Length of the longest common subsequence of `a[i..]` and `b[j..]`.
pub open spec fn lcs(a: Seq<Seq<char>>, b: Seq<Seq<char>>, i: int, j: int) -> nat
    decreases a.len() - i + b.len() - j,
{
    if i < 0 || j < 0 || i >= a.len() || j >= b.len() {
        0
    } else if a[i] == b[j] {
        1 + lcs(a, b, i + 1, j + 1)
    } else {
        let down = lcs(a, b, i + 1, j);
        let right = lcs(a, b, i, j + 1);
        if down >= right {
            down
        } else {
            right
        }
    }
}

/// The edit script from `a[i..]` to `b[j..]`: matching lines are kept,
/// otherwise the side whose removal keeps the longer common subsequence
/// goes first, preferring deletions on a tie.
pub open spec fn script(a: Seq<Seq<char>>, b: Seq<Seq<char>>, i: int, j: int) -> Seq<(Op, Seq<char>)>
    decreases a.len() - i + b.len() - j,
{
    if i < 0 || j < 0 || i > a.len() || j > b.len() {
        seq![]
    } else if i < a.len() && j < b.len() {
        if a[i] == b[j] {
            seq![(Op::Keep, a[i])] + script(a, b, i + 1, j + 1)
        } else if lcs(a, b, i + 1, j) >= lcs(a, b, i, j + 1) {
            seq![(Op::Delete, a[i])] + script(a, b, i + 1, j)
        } else {
            seq![(Op::Insert, b[j])] + script(a, b, i, j + 1)
        }
    } else if i < a.len() {
        seq![(Op::Delete, a[i])] + script(a, b, i + 1, j)
    } else if j < b.len() {
        seq![(Op::Insert, b[j])] + script(a, b, i, j + 1)
    } else {
        seq![]
    }
}

/// The lines an edit script reads from the old text: those it keeps or
/// deletes, in order.
pub open spec fn old_side(s: Seq<(Op, Seq<char>)>) -> Seq<Seq<char>>
    decreases s.len(),
{
    if s.len() == 0 {
        seq![]
    } else if s[0].0 == Op::Insert {
        old_side(s.drop_first())
    } else {
        seq![s[0].1] + old_side(s.drop_first())
    }
}

/// The lines an edit script writes to the new text: those it keeps or
/// inserts, in order.
pub open spec fn new_side(s: Seq<(Op, Seq<char>)>) -> Seq<Seq<char>>
    decreases s.len(),
{
    if s.len() == 0 {
        seq![]
    } else if s[0].0 == Op::Delete {
        new_side(s.drop_first())
    } else {
        seq![s[0].1] + new_side(s.drop_first())
    }
}

/// The script from `a[i..]` to `b[j..]` is an edit between them: its kept
/// and deleted lines are `a[i..]`, its kept and inserted lines `b[j..]`.
pub proof fn law_script_is_an_edit(a: Seq<Seq<char>>, b: Seq<Seq<char>>, i: int, j: int)
    requires
        0 <= i <= a.len(),
        0 <= j <= b.len(),
    ensures
        old_side(script(a, b, i, j)) == a.skip(i),
        new_side(script(a, b, i, j)) == b.skip(j),
    decreases a.len() - i + b.len() - j,
{
    let s = script(a, b, i, j);
    if i < a.len() && j < b.len() {
        if a[i] == b[j] {
            law_script_is_an_edit(a, b, i + 1, j + 1);
            assert(s.drop_first() =~= script(a, b, i + 1, j + 1));
        } else if lcs(a, b, i + 1, j) >= lcs(a, b, i, j + 1) {
            law_script_is_an_edit(a, b, i + 1, j);
            assert(s.drop_first() =~= script(a, b, i + 1, j));
        } else {
            law_script_is_an_edit(a, b, i, j + 1);
            assert(s.drop_first() =~= script(a, b, i, j + 1));
        }
    } else if i < a.len() {
        law_script_is_an_edit(a, b, i + 1, j);
        assert(s.drop_first() =~= script(a, b, i + 1, j));
    } else if j < b.len() {
        law_script_is_an_edit(a, b, i, j + 1);
        assert(s.drop_first() =~= script(a, b, i, j + 1));
    }
    assert(a.skip(i) =~= (if i < a.len() { seq![a[i]] + a.skip(i + 1) } else { seq![] }));
    assert(b.skip(j) =~= (if j < b.len() { seq![b[j]] + b.skip(j + 1) } else { seq![] }));
}

/// A script that only keeps lines reads and writes the same lines.
proof fn lemma_all_kept(s: Seq<(Op, Seq<char>)>)
    requires
        forall|k: int| 0 <= k < s.len() ==> #[trigger] s[k].0 == Op::Keep,
    ensures
        old_side(s) == new_side(s),
    decreases s.len(),
{
    if s.len() > 0 {
        assert(forall|k: int| 0 <= k < s.drop_first().len() ==> #[trigger] s.drop_first()[k] == s[k + 1]);
        lemma_all_kept(s.drop_first());
    }
}

/// When the old and new lines differ, the script marks some line as
/// inserted or deleted.
pub proof fn law_script_shows_a_change(a: Seq<Seq<char>>, b: Seq<Seq<char>>)
    requires
        a != b,
    ensures
        exists|k: int| 0 <= k < script(a, b, 0, 0).len() && #[trigger] script(a, b, 0, 0)[k].0 != Op::Keep,
{
    law_script_is_an_edit(a, b, 0, 0);
    assert(a.skip(0) =~= a);
    assert(b.skip(0) =~= b);
    if forall|k: int| 0 <= k < script(a, b, 0, 0).len() ==> #[trigger] script(a, b, 0, 0)[k].0 == Op::Keep {
        lemma_all_kept(script(a, b, 0, 0));
    }
}

/// Whether line `k` of the script is within `CONTEXT` lines of a change./// Whether line `k` of the script is within `CONTEXT` lines of a change.
pub open spec fn shown(s: Seq<(Op, Seq<char>)>, k: int) -> bool {
    exists|c: int|
        0 <= c < s.len() && s[c].0 != Op::Keep && c - CONTEXT <= k && k <= c + CONTEXT
}

pub open spec fn skipped_note(n: nat) -> Seq<char> {
    "  ... "@ + decimal(n) + " unchanged line(s)\n"@
}

pub open spec fn marker(op: Op) -> char {
    match op {
        Op::Keep => ' ',
        Op::Insert => '+',
        Op::Delete => '-',
    }
}

/// The rendering of script lines `k..`, after `skipped` elided lines.
pub open spec fn render_from(s: Seq<(Op, Seq<char>)>, k: int, skipped: nat) -> Seq<char>
    decreases s.len() - k,
{
    if k < 0 || k >= s.len() {
        if skipped > 0 {
            skipped_note(skipped)
        } else {
            seq![]
        }
    } else if !shown(s, k) {
        render_from(s, k + 1, skipped + 1)
    } else {
        (if skipped > 0 {
            skipped_note(skipped)
        } else {
            seq![]
        }) + seq![marker(s[k].0), ' '] + s[k].1 + seq!['\n'] + render_from(s, k + 1, 0)
    }
}

/// A whole line of `t` starts at `p`: the marker `m`, a space, `line`.
pub open spec fn marked_line(t: Seq<char>, p: int, m: char, line: Seq<char>) -> bool {
    0 <= p && p + line.len() + 3 <= t.len() && (p == 0 || t[p - 1] == '\n') && t.subrange(p, p + line.len() + 3)
        == seq![m, ' '] + line + seq!['\n']
}

/// A line the script does not keep appears in the rendering from `k` on,
/// marked, as a whole line.
proof fn lemma_change_rendered(s: Seq<(Op, Seq<char>)>, k: int, skipped: nat, c: int)
    requires
        0 <= k <= c < s.len(),
        s[c].0 != Op::Keep,
    ensures
        exists|p: int| #[trigger] marked_line(render_from(s, k, skipped), p, marker(s[c].0), s[c].1),
    decreases s.len() - k,
{
    reveal_strlit(" unchanged line(s)\n");
    let out = render_from(s, k, skipped);
    if k == c {
        assert(s[c].0 != Op::Keep && c - CONTEXT <= k && k <= c + CONTEXT);
        assert(shown(s, k));
    }
    if !shown(s, k) {
        lemma_change_rendered(s, k + 1, skipped + 1, c);
    } else {
        let head = if skipped > 0 {
            skipped_note(skipped)
        } else {
            seq![]
        };
        let line = seq![marker(s[k].0), ' '] + s[k].1 + seq!['\n'];
        let rest = render_from(s, k + 1, 0);
        assert(out == head + line + rest);
        assert(head.len() > 0 ==> head.last() == '\n');
        if k == c {
            let p = head.len() as int;
            assert(out.subrange(p, p + s[c].1.len() + 3) =~= line);
            if p > 0 {
                assert(out[p - 1] == head[p - 1]);
            }
            assert(marked_line(out, p, marker(s[c].0), s[c].1));
        } else {
            lemma_change_rendered(s, k + 1, 0, c);
            let q = choose|q: int| #[trigger] marked_line(rest, q, marker(s[c].0), s[c].1);
            let p = head.len() + line.len() + q;
            assert(out.subrange(p, p + s[c].1.len() + 3) =~= rest.subrange(q, q + s[c].1.len() + 3));
            if q == 0 {
                assert(out[p - 1] == line[line.len() - 1]);
            } else {
                assert(out[p - 1] == rest[q - 1]);
            }
            assert(marked_line(out, p, marker(s[c].0), s[c].1));
        }
    }
}

/// When the lines of two texts differ and both are small enough to diff,
/// the diff shows each line the edit script deletes as a line `- line` and
/// each line it inserts as `+ line`, and there is at least one such line.
#[verifier::spinoff_prover]
pub proof fn law_unified_marks_a_change(before: Seq<char>, after: Seq<char>)
    requires
        text_lines(before) != text_lines(after),
        text_lines(before).len() <= MAX_LINES,
        text_lines(after).len() <= MAX_LINES,
    ensures
        spec_unified(before, after) == Some(render_from(script(text_lines(before), text_lines(after), 0, 0), 0, 0)),
        exists|c: int|
            0 <= c < script(text_lines(before), text_lines(after), 0, 0).len() && #[trigger] script(
                text_lines(before),
                text_lines(after),
                0,
                0,
            )[c].0 != Op::Keep,
        forall|c: int|
            0 <= c < script(text_lines(before), text_lines(after), 0, 0).len() && script(
                text_lines(before),
                text_lines(after),
                0,
                0,
            )[c].0 == Op::Delete ==> exists|p: int|
                #[trigger] marked_line(
                    spec_unified(before, after)->Some_0,
                    p,
                    '-',
                    script(text_lines(before), text_lines(after), 0, 0)[c].1,
                ),
        forall|c: int|
            0 <= c < script(text_lines(before), text_lines(after), 0, 0).len() && script(
                text_lines(before),
                text_lines(after),
                0,
                0,
            )[c].0 == Op::Insert ==> exists|p: int|
                #[trigger] marked_line(
                    spec_unified(before, after)->Some_0,
                    p,
                    '+',
                    script(text_lines(before), text_lines(after), 0, 0)[c].1,
                ),
{
    let a = text_lines(before);
    let b = text_lines(after);
    let sc = script(a, b, 0, 0);
    assert(before != after);
    law_script_shows_a_change(a, b);
    let t = render_from(sc, 0, 0);
    assert(spec_unified(before, after) == Some(t));
    assert(spec_unified(before, after)->Some_0 == t);
    assert forall|c: int| 0 <= c < sc.len() && sc[c].0 == Op::Delete implies exists|p: int|
        #[trigger] marked_line(spec_unified(before, after)->Some_0, p, '-', sc[c].1) by {
        lemma_change_rendered(sc, 0, 0, c);
    }
    assert forall|c: int| 0 <= c < sc.len() && sc[c].0 == Op::Insert implies exists|p: int|
        #[trigger] marked_line(spec_unified(before, after)->Some_0, p, '+', sc[c].1) by {
        lemma_change_rendered(sc, 0, 0, c);
    }
}

pub open spec fn too_large_note(before: nat, after: nat) -> Seq<char> {
    "  (content differs; "@ + decimal(before) + " lines before, "@ + decimal(after)
        + " lines after, too large to diff)\n"@
}

/// What `unified` returns.
pub open spec fn spec_unified(before: Seq<char>, after: Seq<char>) -> Option<Seq<char>> {
    if before == after {
        None
    } else {
        let old = text_lines(before);
        let new = text_lines(after);
        if old.len() > MAX_LINES || new.len() > MAX_LINES {
            Some(too_large_note(old.len(), new.len()))
        } else {
            Some(render_from(script(old, new, 0, 0), 0, 0))
        }
    }
}

// ------------------------------------------------------------- executable

/// Render a unified-style diff of `before` and `after`.
///
/// Returns `None` when the two are identical.
pub fn unified(before: &str, after: &str) -> (r: Option<String>)
    ensures
        match spec_unified(before@, after@) {
            Some(text) => r matches Some(out) && out@ == text,
            None => r is None,
        },
{
    let b = chars_of(before);
    let a = chars_of(after);
    if chars_eq(b.as_slice(), a.as_slice()) {
        return None;
    }
    let old = split_text_lines(b.as_slice());
    let new = split_text_lines(a.as_slice());
    if old.len() > MAX_LINES || new.len() > MAX_LINES {
        let mut out = owned("  (content differs; ");
        let n = crate::num::usize_to_string(old.len());
        push_str(&mut out, n.as_str());
        push_str(&mut out, " lines before, ");
        let m = crate::num::usize_to_string(new.len());
        push_str(&mut out, m.as_str());
        push_str(&mut out, " lines after, too large to diff)\n");
        return Some(out);
    }
    let s = build_script(&old, &new);
    Some(render(&s))
}

fn row_of_zeros(n: usize) -> (r: Vec<usize>)
    ensures
        r@.len() == n,
        forall|k: int| 0 <= k < n ==> r@[k] == 0,
{
    let mut r: Vec<usize> = Vec::new();
    let mut k: usize = 0;
    while k < n
        invariant
            k <= n,
            r@.len() == k,
            forall|x: int| 0 <= x < k ==> r@[x] == 0,
        decreases n - k,
    {
        r.push(0);
        k = k + 1;
    }
    r
}

pub proof fn lemma_lcs_bound(a: Seq<Seq<char>>, b: Seq<Seq<char>>, i: int, j: int)
    requires
        0 <= i <= a.len(),
        0 <= j <= b.len(),
    ensures
        lcs(a, b, i, j) <= a.len() - i,
    decreases a.len() - i + b.len() - j,
{
    if i < a.len() && j < b.len() {
        lemma_lcs_bound(a, b, i + 1, j + 1);
        lemma_lcs_bound(a, b, i + 1, j);
        lemma_lcs_bound(a, b, i, j + 1);
    }
}

/// The script entries as plain values.
pub open spec fn entries_view(s: Seq<(Op, Vec<char>)>) -> Seq<(Op, Seq<char>)> {
    s.map_values(|e: (Op, Vec<char>)| (e.0, e.1@))
}

fn push_entry(out: &mut Vec<(Op, Vec<char>)>, op: Op, line: &Vec<char>)
    ensures
        entries_view(final(out)@) == entries_view(old(out)@).push((op, line@)),
{
    let copy = crate::text::chars_slice(line.as_slice(), 0, line.len());
    assert(copy@ =~= line@);
    out.push((op, copy));
    assert(entries_view(out@) =~= entries_view(old(out)@).push((op, line@)));
}

/// The script, computed with the dynamic program over `lcs`.
fn build_script(old: &Vec<Vec<char>>, new: &Vec<Vec<char>>) -> (r: Vec<(Op, Vec<char>)>)
    requires
        old.len() <= MAX_LINES,
        new.len() <= MAX_LINES,
    ensures
        entries_view(r@) == script(
            old@.map_values(|l: Vec<char>| l@),
            new@.map_values(|l: Vec<char>| l@),
            0,
            0,
        ),
{
    let ghost a = old@.map_values(|l: Vec<char>| l@);
    let ghost b = new@.map_values(|l: Vec<char>| l@);
    let n = old.len();
    let m = new.len();
    // rows[n - i][j] = lcs(a, b, i, j)
    let mut rows: Vec<Vec<usize>> = Vec::new();
    rows.push(row_of_zeros(m + 1));
    let mut i = n;
    while i > 0
        invariant
            i <= n,
            n == old.len(),
            m == new.len(),
            n <= MAX_LINES,
            m <= MAX_LINES,
            a == old@.map_values(|l: Vec<char>| l@),
            b == new@.map_values(|l: Vec<char>| l@),
            rows@.len() == n - i + 1,
            forall|r: int| 0 <= r < rows@.len() ==> (#[trigger] rows@[r])@.len() == m + 1,
            forall|r: int, j: int|
                #![trigger rows@[r]@[j]]
                0 <= r < rows@.len() && 0 <= j <= m ==> rows@[r]@[j] == lcs(a, b, n - r, j),
        decreases i,
    {
        i = i - 1;
        let below = &rows[n - 1 - i];
        assert(below@.len() == m + 1);
        assert forall|x: int| 0 <= x <= m implies #[trigger] below@[x] == lcs(a, b, i + 1, x) by {
            assert(rows@[n - 1 - i]@[x] == lcs(a, b, n - (n - 1 - i), x));
        }
        let mut row = row_of_zeros(m + 1);
        let mut j = m;
        while j > 0
            invariant
                j <= m,
                i < n,
                n == old.len(),
                m == new.len(),
                n <= MAX_LINES,
                m <= MAX_LINES,
                a == old@.map_values(|l: Vec<char>| l@),
                b == new@.map_values(|l: Vec<char>| l@),
                row@.len() == m + 1,
                below@.len() == m + 1,
                forall|x: int| 0 <= x <= m ==> #[trigger] below@[x] == lcs(a, b, i + 1, x),
                row@[m as int] == 0,
                forall|x: int| j <= x <= m ==> #[trigger] row@[x] == lcs(a, b, i as int, x),
            decreases j,
        {
            j = j - 1;
            assert(a[i as int] == old@[i as int]@);
            assert(b[j as int] == new@[j as int]@);
            proof {
                lemma_lcs_bound(a, b, i + 1, j + 1);
            }
            let value = if chars_eq(old[i].as_slice(), new[j].as_slice()) {
                below[j + 1] + 1
            } else {
                let down = below[j];
                let right = row[j + 1];
                if down >= right {
                    down
                } else {
                    right
                }
            };
            row.set(j, value);
        }
        let ghost prev = rows@;
        rows.push(row);
        assert forall|r: int, j: int| 0 <= r < rows@.len() && 0 <= j <= m implies #[trigger] rows@[r]@[j]
            == lcs(a, b, n - r, j) by {
            if r < prev.len() {
                assert(rows@[r] == prev[r]);
                assert(prev[r]@[j] == lcs(a, b, n - r, j));
            } else {
                assert(rows@[r] == row);
            }
        }
    }
    // Walk the table.
    let mut out: Vec<(Op, Vec<char>)> = Vec::new();
    let mut x: usize = 0;
    let mut y: usize = 0;
    assert(entries_view(out@) + script(a, b, 0, 0) =~= script(a, b, 0, 0));
    while x < n || y < m
        invariant
            x <= n,
            y <= m,
            n == old.len(),
            m == new.len(),
            a == old@.map_values(|l: Vec<char>| l@),
            b == new@.map_values(|l: Vec<char>| l@),
            rows@.len() == n + 1,
            forall|r: int| 0 <= r < rows@.len() ==> (#[trigger] rows@[r])@.len() == m + 1,
            forall|r: int, j: int|
                #![trigger rows@[r]@[j]]
                0 <= r < rows@.len() && 0 <= j <= m ==> rows@[r]@[j] == lcs(a, b, n - r, j),
            script(a, b, 0, 0) == entries_view(out@) + script(a, b, x as int, y as int),
        decreases n - x + m - y,
    {
        let ghost before = entries_view(out@);
        if x < n && y < m {
            assert(a[x as int] == old@[x as int]@);
            assert(b[y as int] == new@[y as int]@);
            if chars_eq(old[x].as_slice(), new[y].as_slice()) {
                push_entry(&mut out, Op::Keep, &old[x]);
                assert(before + script(a, b, x as int, y as int) =~= entries_view(out@) + script(
                    a, b, x + 1, y + 1));
                x = x + 1;
                y = y + 1;
            } else {
                assert(rows@[n - x - 1]@.len() == m + 1);
                assert(rows@[n - x]@.len() == m + 1);
                let down = rows[n - x - 1][y];
                let right = rows[n - x][y + 1];
                assert(down == lcs(a, b, x + 1, y as int));
                assert(right == lcs(a, b, x as int, y + 1));
                if down >= right {
                    push_entry(&mut out, Op::Delete, &old[x]);
                    assert(before + script(a, b, x as int, y as int) =~= entries_view(out@)
                        + script(a, b, x + 1, y as int));
                    x = x + 1;
                } else {
                    push_entry(&mut out, Op::Insert, &new[y]);
                    assert(before + script(a, b, x as int, y as int) =~= entries_view(out@)
                        + script(a, b, x as int, y + 1));
                    y = y + 1;
                }
            }
        } else if x < n {
            assert(a[x as int] == old@[x as int]@);
            push_entry(&mut out, Op::Delete, &old[x]);
            assert(before + script(a, b, x as int, y as int) =~= entries_view(out@) + script(
                a, b, x + 1, y as int));
            x = x + 1;
        } else {
            assert(b[y as int] == new@[y as int]@);
            push_entry(&mut out, Op::Insert, &new[y]);
            assert(before + script(a, b, x as int, y as int) =~= entries_view(out@) + script(
                a, b, x as int, y + 1));
            y = y + 1;
        }
    }
    assert(script(a, b, n as int, m as int) =~= Seq::<(Op, Seq<char>)>::empty());
    assert(entries_view(out@) + Seq::<(Op, Seq<char>)>::empty() =~= entries_view(out@));
    out
}

fn push_skipped(out: &mut Vec<char>, skipped: usize)
    ensures
        final(out)@ == old(out)@ + skipped_note(skipped as nat),
{
    let note_start = chars_of("  ... ");
    extend_chars(out, note_start.as_slice());
    let n = crate::num::usize_to_string(skipped);
    let digits = chars_of(n.as_str());
    extend_chars(out, digits.as_slice());
    let note_end = chars_of(" unchanged line(s)\n");
    extend_chars(out, note_end.as_slice());
    assert(out@ =~= old(out)@ + skipped_note(skipped as nat));
}

/// Print changed regions with a few lines of context, eliding the rest.
fn render(s: &Vec<(Op, Vec<char>)>) -> (r: String)
    ensures
        r@ == render_from(entries_view(s@), 0, 0),
{
    let ghost sv = entries_view(s@);
    // show[k]: within CONTEXT lines of a change.
    let mut show: Vec<bool> = Vec::new();
    let mut k: usize = 0;
    while k < s.len()
        invariant
            k <= s.len(),
            show@.len() == k,
            forall|x: int| 0 <= x < k ==> !show@[x],
        decreases s.len() - k,
    {
        show.push(false);
        k = k + 1;
    }
    let mut index: usize = 0;
    while index < s.len()
        invariant
            index <= s.len(),
            show@.len() == s.len(),
            sv == entries_view(s@),
            forall|k: int|
                0 <= k < s.len() ==> #[trigger] show@[k] == exists|c: int|
                    0 <= c < index && sv[c].0 != Op::Keep && c - CONTEXT <= k && k <= c + CONTEXT,
        decreases s.len() - index,
    {
        assert(sv[index as int].0 == s@[index as int].0);
        if s[index].0 != Op::Keep {
            let start = if index >= CONTEXT {
                index - CONTEXT
            } else {
                0
            };
            let end = if s.len() - index > CONTEXT {
                index + CONTEXT + 1
            } else {
                s.len()
            };
            let ghost prev = show@;
            let mut t = start;
            while t < end
                invariant
                    start <= t <= end,
                    end <= s.len(),
                    show@.len() == s.len(),
                    forall|k: int| 0 <= k < s.len() && !(start <= k < t) ==> show@[k] == prev[k],
                    forall|k: int| start <= k < t ==> show@[k],
                decreases end - t,
            {
                show.set(t, true);
                t = t + 1;
            }
            assert forall|k: int| 0 <= k < s.len() implies #[trigger] show@[k] == exists|c: int|
                0 <= c < index + 1 && sv[c].0 != Op::Keep && c - CONTEXT <= k && k <= c + CONTEXT by {
                if start <= k < end {
                    assert(sv[index as int].0 != Op::Keep);
                } else {
                    assert(show@[k] == prev[k]);
                }
            }
        } else {
            assert forall|k: int| 0 <= k < s.len() implies #[trigger] show@[k] == exists|c: int|
                0 <= c < index + 1 && sv[c].0 != Op::Keep && c - CONTEXT <= k && k <= c + CONTEXT by {
                assert(sv[index as int].0 == Op::Keep);
                if exists|c: int|
                    0 <= c < index + 1 && sv[c].0 != Op::Keep && c - CONTEXT <= k && k <= c + CONTEXT {
                    let c = choose|c: int|
                        0 <= c < index + 1 && sv[c].0 != Op::Keep && c - CONTEXT <= k && k <= c + CONTEXT;
                    assert(c != index);
                }
            }
        }
        index = index + 1;
    }
    let mut out: Vec<char> = Vec::new();
    let mut skipped: usize = 0;
    let mut i: usize = 0;
    while i < s.len()
        invariant
            i <= s.len(),
            skipped <= i,
            show@.len() == s.len(),
            sv == entries_view(s@),
            forall|k: int| 0 <= k < s.len() ==> #[trigger] show@[k] == shown(sv, k),
            render_from(sv, 0, 0) == out@ + render_from(sv, i as int, skipped as nat),
        decreases s.len() - i,
    {
        if !show[i] {
            skipped = skipped + 1;
        } else {
            let ghost before = out@;
            if skipped > 0 {
                push_skipped(&mut out, skipped);
            }
            let op = s[i].0;
            out.push(match op {
                Op::Keep => ' ',
                Op::Insert => '+',
                Op::Delete => '-',
            });
            out.push(' ');
            extend_chars(&mut out, s[i].1.as_slice());
            out.push('\n');
            assert(sv[i as int] == (op, s@[i as int].1@));
            assert(out@ =~= before + ((if skipped > 0 {
                skipped_note(skipped as nat)
            } else {
                seq![]
            }) + seq![marker(sv[i as int].0), ' '] + sv[i as int].1 + seq!['\n']));
            skipped = 0;
        }
        i = i + 1;
    }
    if skipped > 0 {
        push_skipped(&mut out, skipped);
    } else {
        assert(out@ + Seq::<char>::empty() =~= out@);
    }
    string_from(out.as_slice())
}

} // verus!
