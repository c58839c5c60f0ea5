//! The decisions behind the commands: counting changes and stamping times.

use vstd::prelude::*;
use crate::apply::{changes_view, Change, ChangeKind, ChangeView};
use crate::num::decimal;
use crate::text::{push_char, push_str};

verus! {

// ------------------------------------------------------------------ tally

/// How many changes are of the given kind.
pub open spec fn count_kind(cs: Seq<ChangeView>, kind: ChangeKind) -> nat
    decreases cs.len(),
{
    if cs.len() == 0 {
        0
    } else {
        count_kind(cs.drop_last(), kind) + if cs.last().kind == kind {
            1nat
        } else {
            0nat
        }
    }
}

proof fn lemma_count_kind_bound(cs: Seq<ChangeView>, kind: ChangeKind)
    ensures
        count_kind(cs, kind) <= cs.len(),
    decreases cs.len(),
{
    if cs.len() > 0 {
        lemma_count_kind_bound(cs.drop_last(), kind);
    }
}

/// Created, updated, unchanged and deleted, in that order.
pub fn tally(changes: &[Change]) -> (r: (usize, usize, usize, usize))
    ensures
        r.0 == count_kind(changes_view(changes@), ChangeKind::Create),
        r.1 == count_kind(changes_view(changes@), ChangeKind::Update),
        r.2 == count_kind(changes_view(changes@), ChangeKind::Unchanged),
        r.3 == count_kind(changes_view(changes@), ChangeKind::Delete),
{
    let ghost cs = changes_view(changes@);
    let mut created: usize = 0;
    let mut updated: usize = 0;
    let mut unchanged: usize = 0;
    let mut deleted: usize = 0;
    let mut i: usize = 0;
    while i < changes.len()
        invariant
            i <= changes@.len(),
            cs == changes_view(changes@),
            created == count_kind(cs.take(i as int), ChangeKind::Create),
            updated == count_kind(cs.take(i as int), ChangeKind::Update),
            unchanged == count_kind(cs.take(i as int), ChangeKind::Unchanged),
            deleted == count_kind(cs.take(i as int), ChangeKind::Delete),
        decreases changes.len() - i,
    {
        proof {
            assert(cs.take(i + 1).drop_last() =~= cs.take(i as int));
            assert(cs.take(i + 1).last() == changes@[i as int]@);
            lemma_count_kind_bound(cs.take(i as int), ChangeKind::Create);
            lemma_count_kind_bound(cs.take(i as int), ChangeKind::Update);
            lemma_count_kind_bound(cs.take(i as int), ChangeKind::Unchanged);
            lemma_count_kind_bound(cs.take(i as int), ChangeKind::Delete);
        }
        match changes[i].kind {
            ChangeKind::Create => created = created + 1,
            ChangeKind::Update => updated = updated + 1,
            ChangeKind::Unchanged => unchanged = unchanged + 1,
            ChangeKind::Delete => deleted = deleted + 1,
            ChangeKind::AlreadyAbsent => {},
        }
        i = i + 1;
    }
    assert(cs.take(i as int) =~= cs);
    (created, updated, unchanged, deleted)
}

// ------------------------------------------------------------------- time

/// Days since 1970-01-01 to a proleptic Gregorian date, by Howard
/// Hinnant's algorithm: the year, month and day.
pub open spec fn civil(days: int) -> (int, int, int) {
    let shifted = days + 719_468;
    let era = shifted / 146_097;
    let day_of_era = shifted - era * 146_097;
    let year_of_era = (day_of_era - day_of_era / 1460 + day_of_era / 36_524 - day_of_era / 146_096)
        / 365;
    let year = year_of_era + era * 400;
    let day_of_year = day_of_era - (365 * year_of_era + year_of_era / 4 - year_of_era / 100);
    let shifted_month = (5 * day_of_year + 2) / 153;
    let day = day_of_year - (153 * shifted_month + 2) / 5 + 1;
    let month = if shifted_month < 10 {
        shifted_month + 3
    } else {
        shifted_month - 9
    };
    (if month <= 2 {
        year + 1
    } else {
        year
    }, month, day)
}

/// Days since 1970-01-01 to a civil date, by Howard Hinnant's algorithm.
pub fn civil_from_days(days: i64) -> (r: (i64, u32, u32))
    requires
        i64::MIN + 146_096 - 719_468 <= days <= i64::MAX - 719_468,
    ensures
        (r.0 as int, r.1 as int, r.2 as int) == civil(days as int),
{
    let shifted = days + 719_468;
    let era: i64 = if shifted >= 0 {
        shifted / 146_097
    } else {
        -((-(shifted + 1) + 146_097) / 146_097)
    };
    proof {
        if shifted < 0 {
            let s = shifted as int;
            assert(-((-(s + 1) + 146_097) / 146_097) == s / 146_097) by (nonlinear_arith)
                requires
                    s < 0,
            ;
        }
    }
    assert(era as int == (shifted as int) / 146_097);
    let day_of_era = (shifted - era * 146_097) as u64;
    assert(0 <= day_of_era < 146_097) by (nonlinear_arith)
        requires
            era as int == (shifted as int) / 146_097,
            day_of_era as int == shifted - era * 146_097,
    ;
    let year_of_era = (day_of_era - day_of_era / 1460 + day_of_era / 36_524 - day_of_era / 146_096)
        / 365;
    assert(year_of_era <= 400);
    let year = year_of_era as i64 + era * 400;
    let day_of_year = day_of_era - (365 * year_of_era + year_of_era / 4 - year_of_era / 100);
    let shifted_month = (5 * day_of_year + 2) / 153;
    let day = (day_of_year - (153 * shifted_month + 2) / 5 + 1) as u32;
    let month = if shifted_month < 10 {
        shifted_month + 3
    } else {
        shifted_month - 9
    } as u32;
    (if month <= 2 {
        year + 1
    } else {
        year
    }, month, day)
}

/// `n` in decimal, zero-padded on the left to `width` digits.
pub open spec fn padded(n: nat, width: nat) -> Seq<char> {
    let fill = if width > decimal(n).len() {
        (width - decimal(n).len()) as nat
    } else {
        0
    };
    Seq::new(fill, |i: int| '0') + decimal(n)
}

fn push_padded(out: &mut String, n: u64, width: usize)
    ensures
        final(out)@ == old(out)@ + padded(n as nat, width as nat),
{
    let digits = crate::num::u64_to_string(n);
    let d = crate::text::chars_of(digits.as_str());
    let fill = if width > d.len() {
        width - d.len()
    } else {
        0
    };
    let ghost head = out@;
    let mut k: usize = 0;
    assert(out@ =~= head + Seq::new(0, |i: int| '0'));
    while k < fill
        invariant
            k <= fill,
            out@ == head + Seq::new(k as nat, |i: int| '0'),
        decreases fill - k,
    {
        push_char(out, '0');
        k = k + 1;
        assert(out@ =~= head + Seq::new(k as nat, |i: int| '0'));
    }
    push_str(out, digits.as_str());
    assert(out@ =~= head + padded(n as nat, width as nat));
}

/// What `utc_timestamp` shows for a day count and seconds into the day.
pub open spec fn stamp_text(year: int, month: int, day: int, time: int) -> Seq<char> {
    padded(year as nat, 4) + seq!['-'] + padded(month as nat, 2) + seq!['-'] + padded(day as nat, 2)
        + seq!['T'] + padded((time / 3600) as nat, 2) + seq![':'] + padded(((time / 60) % 60) as nat, 2)
        + seq![':'] + padded((time % 60) as nat, 2) + seq!['Z']
}

/// Format a Unix timestamp as `YYYY-MM-DDTHH:MM:SSZ`.
pub fn utc_timestamp(seconds: u64) -> (s: String)
    ensures
        ({
            let (year, month, day) = civil((seconds / 86_400) as int);
            s@ == stamp_text(year, month, day, (seconds % 86_400) as int)
        }),
{
    let days = (seconds / 86_400) as i64;
    let (year, month, day) = civil_from_days(days);
    proof {
        lemma_civil_year_positive(days as int);
    }
    let time = seconds % 86_400;
    let mut out = String::new();
    push_padded(&mut out, year as u64, 4);
    push_char(&mut out, '-');
    push_padded(&mut out, month as u64, 2);
    push_char(&mut out, '-');
    push_padded(&mut out, day as u64, 2);
    push_char(&mut out, 'T');
    push_padded(&mut out, time / 3600, 2);
    push_char(&mut out, ':');
    push_padded(&mut out, (time / 60) % 60, 2);
    push_char(&mut out, ':');
    push_padded(&mut out, time % 60, 2);
    push_char(&mut out, 'Z');
    let ghost (y, m, d) = civil((seconds / 86_400) as int);
    assert(out@ =~= stamp_text(y, m, d, (seconds % 86_400) as int));
    out
}

/// Days on or after 1970-01-01 fall in positive years.
proof fn lemma_civil_year_positive(days: int)
    requires
        0 <= days,
    ensures
        civil(days).0 >= 0,
{
    let shifted = days + 719_468;
    let era = shifted / 146_097;
    let day_of_era = shifted - era * 146_097;
    assert(era >= 4 && 0 <= day_of_era < 146_097) by (nonlinear_arith)
        requires
            shifted >= 719_468,
            era == shifted / 146_097,
            day_of_era == shifted - era * 146_097,
    ;
    let year_of_era = (day_of_era - day_of_era / 1460 + day_of_era / 36_524 - day_of_era / 146_096)
        / 365;
    assert(0 <= year_of_era) by (nonlinear_arith)
        requires
            0 <= day_of_era < 146_097,
            year_of_era == (day_of_era - day_of_era / 1460 + day_of_era / 36_524 - day_of_era
                / 146_096) / 365,
    ;
}

} // verus!
